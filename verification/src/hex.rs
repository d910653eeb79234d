//! Base-16 tokens: parsing address tokens from the memory map and
//! writing offsets back out as lowercase hexadecimal text.

use vstd::prelude::*;

verus! {

/// True of the ASCII bytes that stand for a base-16 digit.
pub open spec fn is_hex_digit(b: u8) -> bool {
    (0x30 <= b && b <= 0x39) || (0x61 <= b && b <= 0x66) || (0x41 <= b && b <= 0x46)
}

/// Numeric value of one base-16 digit byte.
pub open spec fn hex_digit_value(b: u8) -> nat {
    if 0x30 <= b && b <= 0x39 {
        (b - 0x30) as nat
    } else if 0x61 <= b && b <= 0x66 {
        (b - 0x61 + 10) as nat
    } else {
        (b - 0x41 + 10) as nat
    }
}

/// Value of a digit string read in base 16, most significant digit first.
pub open spec fn hex_value(s: Seq<u8>) -> nat
    decreases s.len(),
{
    if s.len() == 0 {
        0
    } else {
        hex_value(s.drop_last()) * 16 + hex_digit_value(s.last())
    }
}

/// A token the locator accepts as an address: non-empty, base-16 digits
/// only, and a value that fits in 64 bits.
pub open spec fn valid_hex_u64(s: Seq<u8>) -> bool {
    &&& s.len() > 0
    &&& forall|i: int| 0 <= i < s.len() ==> is_hex_digit(#[trigger] s[i])
    &&& hex_value(s) <= u64::MAX
}

/// A longer digit string reads as at least sixteen times the value of its
/// proper prefixes, so an overflowing prefix dooms the whole token.
proof fn lemma_hex_value_prefix(s: Seq<u8>, i: int)
    requires
        0 <= i < s.len(),
    ensures
        hex_value(s) >= hex_value(s.take(i + 1)),
        hex_value(s.take(i + 1)) == hex_value(s.take(i)) * 16 + hex_digit_value(s[i]),
    decreases s.len() - i,
{
    assert(s.take(i + 1).drop_last() =~= s.take(i));
    assert(s.take(i + 1).last() == s[i]);
    if i + 1 == s.len() {
        assert(s.take(i + 1) =~= s);
    } else {
        lemma_hex_value_prefix(s, i + 1);
        assert(hex_value(s.take(i + 2)) == hex_value(s.take(i + 1)) * 16 + hex_digit_value(
            s[i + 1],
        ));
    }
}

/// Reads a whole slice as a base-16 number, exactly when the slice is a
/// valid 64-bit base-16 token.
pub fn parse_hex_u64(s: &[u8]) -> (r: Option<u64>)
    ensures
        r is Some <==> valid_hex_u64(s@),
        r is Some ==> r->0 == hex_value(s@),
{
    if s.len() == 0 {
        return None;
    }
    let mut v: u64 = 0;
    let mut i: usize = 0;
    while i < s.len()
        invariant
            0 < s@.len(),
            0 <= i <= s@.len(),
            forall|j: int| 0 <= j < i ==> is_hex_digit(#[trigger] s@[j]),
            v == hex_value(s@.take(i as int)),
        decreases s@.len() - i,
    {
        let b = s[i];
        let d: u8 = if 0x30 <= b && b <= 0x39 {
            b - 0x30
        } else if 0x61 <= b && b <= 0x66 {
            b - 0x61 + 10
        } else if 0x41 <= b && b <= 0x46 {
            b - 0x41 + 10
        } else {
            assert(!is_hex_digit(s@[i as int]));
            return None;
        };
        assert(is_hex_digit(s@[i as int]) && d == hex_digit_value(s@[i as int]));
        if v > 0x0fff_ffff_ffff_ffff {
            proof {
                lemma_hex_value_prefix(s@, i as int);
            }
            return None;
        }
        proof {
            lemma_hex_value_prefix(s@, i as int);
        }
        v = v * 16 + (d as u64);
        i = i + 1;
    }
    proof {
        assert(s@.take(s@.len() as int) =~= s@);
    }
    Some(v)
}

/// Lowercase base-16 digit byte of a value below sixteen.
pub open spec fn hex_digit_byte(v: nat) -> u8 {
    if v < 10 {
        (0x30 + v) as u8
    } else {
        (0x61 + v - 10) as u8
    }
}

/// The bytes of `v` written in lowercase base 16 with no leading zeroes;
/// zero itself is written as a single digit.
pub open spec fn hex_repr(v: nat) -> Seq<u8>
    decreases v,
{
    if v < 16 {
        seq![hex_digit_byte(v)]
    } else {
        hex_repr(v / 16).push(hex_digit_byte(v % 16))
    }
}

fn hex_digit_of(d: u8) -> (r: u8)
    requires
        d < 16,
    ensures
        r == hex_digit_byte(d as nat),
{
    if d < 10 {
        0x30 + d
    } else {
        0x61 + d - 10
    }
}

/// Writes `v` in lowercase base 16 at the end of `out`.
pub fn push_hex_u64(out: &mut Vec<u8>, v: u64)
    ensures
        final(out)@ == old(out)@ + hex_repr(v as nat),
    decreases v,
{
    if v < 16 {
        out.push(hex_digit_of(v as u8));
        assert(out@ =~= old(out)@ + hex_repr(v as nat));
    } else {
        push_hex_u64(out, v / 16);
        out.push(hex_digit_of((v % 16) as u8));
        assert(out@ =~= old(out)@ + hex_repr(v as nat));
    }
}

/// The digits of `v` in lowercase base 16.
pub fn u64_to_hex(v: u64) -> (r: Vec<u8>)
    ensures
        r@ == hex_repr(v as nat),
{
    let mut out: Vec<u8> = Vec::new();
    push_hex_u64(&mut out, v);
    assert(out@ =~= hex_repr(v as nat));
    out
}

} // verus!
