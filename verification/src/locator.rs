//! Range Locator: parses the platform memory-map text and returns the
//! (start, end) address pairs of every line labelled as system RAM.
//!
//! A line of interest looks like `<hex-start>-<hex-end> : System RAM`.
//! Any line that carries the RAM label but does not have this shape is a
//! fatal format error: the locator reports it instead of skipping it.

use vstd::prelude::*;
use crate::hex::{hex_value, parse_hex_u64, valid_hex_u64};

verus! {

pub const NL: u8 = 0x0a;

pub const HYPHEN: u8 = 0x2d;

/// Why the locator rejected the memory-map text.
#[derive(Clone, Copy, Debug, PartialEq, Eq, Structural)]
pub enum ErrorKind {
    /// A RAM-labelled line does not split on the hyphen into exactly two
    /// address tokens.
    AddressTokens,
    /// The text after the hyphen does not end in the expected label.
    RamLabel,
    /// An address token is not a valid base-16 64-bit number.
    HexToken,
}

/// The bytes of the label `System RAM`.
pub open spec fn ram_label() -> Seq<u8> {
    seq![0x53u8, 0x79, 0x73, 0x74, 0x65, 0x6d, 0x20, 0x52, 0x41, 0x4d]
}

/// The bytes of the trailing label ` : System RAM`.
pub open spec fn ram_suffix() -> Seq<u8> {
    seq![0x20u8, 0x3a, 0x20] + ram_label()
}

/// A line the locator must parse: one that mentions `System RAM`.
pub open spec fn is_ram_line(line: Seq<u8>) -> bool {
    exists|i: int|
        0 <= i && i + 10 <= line.len() && #[trigger] line.subrange(i, i + 10) == ram_label()
}

/// Index of the first occurrence of `b` in `s`, or -1 when absent.
pub open spec fn find_byte(s: Seq<u8>, b: u8) -> int
    decreases s.len(),
{
    if s.len() == 0 {
        -1
    } else if s[0] == b {
        0
    } else {
        let r = find_byte(s.skip(1), b);
        if r < 0 {
            -1
        } else {
            r + 1
        }
    }
}

pub proof fn lemma_find_byte(s: Seq<u8>, b: u8)
    ensures
        find_byte(s, b) == -1 ==> forall|j: int| 0 <= j < s.len() ==> s[j] != b,
        find_byte(s, b) != -1 ==> {
            let r = find_byte(s, b);
            &&& 0 <= r < s.len()
            &&& s[r] == b
            &&& forall|j: int| 0 <= j < r ==> s[j] != b
        },
    decreases s.len(),
{
    if s.len() > 0 && s[0] != b {
        lemma_find_byte(s.skip(1), b);
        let r1 = find_byte(s.skip(1), b);
        if r1 == -1 {
            assert forall|j: int| 0 <= j < s.len() implies s[j] != b by {
                if j > 0 {
                    assert(s.skip(1)[j - 1] == s[j]);
                }
            }
        } else {
            assert(s[r1 + 1] == s.skip(1)[r1]);
            assert forall|j: int| 0 <= j < r1 + 1 implies s[j] != b by {
                if j > 0 {
                    assert(s.skip(1)[j - 1] == s[j]);
                }
            }
        }
    }
}

/// Token before the line's first hyphen.
pub open spec fn start_token(line: Seq<u8>) -> Seq<u8> {
    line.take(find_byte(line, HYPHEN))
}

/// Everything after the line's first hyphen.
pub open spec fn end_part(line: Seq<u8>) -> Seq<u8> {
    line.skip(find_byte(line, HYPHEN) + 1)
}

/// The line splits on the hyphen into exactly two tokens: it has exactly
/// one hyphen.
pub open spec fn two_tokens(line: Seq<u8>) -> bool {
    find_byte(line, HYPHEN) >= 0 && find_byte(end_part(line), HYPHEN) == -1
}

/// The text after the hyphen ends in ` : System RAM`.
pub open spec fn has_ram_suffix(s: Seq<u8>) -> bool {
    s.len() >= 13 && s.skip(s.len() - 13) == ram_suffix()
}

/// Token between the hyphen and the trailing label.
pub open spec fn end_token(line: Seq<u8>) -> Seq<u8> {
    end_part(line).take(end_part(line).len() - 13)
}

/// How one RAM-labelled line parses: its two addresses, or the first
/// format error found.
pub open spec fn parse_ram_line(line: Seq<u8>) -> Result<(u64, u64), ErrorKind> {
    if !two_tokens(line) {
        Err(ErrorKind::AddressTokens)
    } else if !has_ram_suffix(end_part(line)) {
        Err(ErrorKind::RamLabel)
    } else if !valid_hex_u64(start_token(line)) || !valid_hex_u64(end_token(line)) {
        Err(ErrorKind::HexToken)
    } else {
        Ok((hex_value(start_token(line)) as u64, hex_value(end_token(line)) as u64))
    }
}

/// What one line contributes to the locator's output: nothing for a line
/// without the RAM label, one pair for a well-formed RAM line, an error
/// otherwise.
pub open spec fn line_ranges(line: Seq<u8>) -> Result<Seq<(u64, u64)>, ErrorKind> {
    if !is_ram_line(line) {
        Ok(Seq::empty())
    } else {
        match parse_ram_line(line) {
            Ok(p) => Ok(seq![p]),
            Err(e) => Err(e),
        }
    }
}

/// Concatenation of two partial locator results; an error on either side
/// wins, the left one first.
pub open spec fn combine(
    a: Result<Seq<(u64, u64)>, ErrorKind>,
    b: Result<Seq<(u64, u64)>, ErrorKind>,
) -> Result<Seq<(u64, u64)>, ErrorKind> {
    match a {
        Ok(xs) => match b {
            Ok(ys) => Ok(xs + ys),
            Err(e) => Err(e),
        },
        Err(e) => Err(e),
    }
}

/// The ranges of the whole memory-map text: line by line, in file order.
pub open spec fn parse_map(text: Seq<u8>) -> Result<Seq<(u64, u64)>, ErrorKind>
    decreases text.len(),
        via parse_map_decreases
{
    let i = find_byte(text, NL);
    if i == -1 {
        line_ranges(text)
    } else {
        combine(line_ranges(text.take(i)), parse_map(text.skip(i + 1)))
    }
}

#[via_fn]
proof fn parse_map_decreases(text: Seq<u8>) {
    lemma_find_byte(text, NL);
}

proof fn lemma_combine_assoc(
    xs: Seq<(u64, u64)>,
    ys: Seq<(u64, u64)>,
    c: Result<Seq<(u64, u64)>, ErrorKind>,
)
    ensures
        combine(Ok(xs), combine(Ok(ys), c)) == combine(Ok(xs + ys), c),
{
    match c {
        Ok(zs) => {
            assert(xs + (ys + zs) =~= (xs + ys) + zs);
        },
        Err(_) => {},
    }
}

/// Checks whether the label `System RAM` stands at position `i`.
fn label_at(line: &[u8], i: usize) -> (b: bool)
    requires
        i + 10 <= line@.len(),
    ensures
        b == (line@.subrange(i as int, i as int + 10) == ram_label()),
{
    let b = line[i] == 0x53 && line[i + 1] == 0x79 && line[i + 2] == 0x73 && line[i + 3] == 0x74
        && line[i + 4] == 0x65 && line[i + 5] == 0x6d && line[i + 6] == 0x20 && line[i + 7] == 0x52
        && line[i + 8] == 0x41 && line[i + 9] == 0x4d;
    proof {
        let sub = line@.subrange(i as int, i as int + 10);
        if b {
            assert(sub =~= ram_label());
        } else {
            assert(sub != ram_label()) by {
                if sub == ram_label() {
                    assert(sub[0] == 0x53 && sub[1] == 0x79 && sub[2] == 0x73 && sub[3] == 0x74
                        && sub[4] == 0x65 && sub[5] == 0x6d && sub[6] == 0x20 && sub[7] == 0x52
                        && sub[8] == 0x41 && sub[9] == 0x4d);
                }
            }
        }
    }
    b
}

/// Checks whether the line mentions `System RAM`.
fn line_has_label(line: &[u8]) -> (b: bool)
    ensures
        b == is_ram_line(line@),
{
    if line.len() < 10 {
        assert(!is_ram_line(line@));
        return false;
    }
    let mut i: usize = 0;
    while i <= line.len() - 10
        invariant
            10 <= line@.len(),
            0 <= i <= line@.len() - 10 + 1,
            forall|j: int|
                0 <= j < i ==> #[trigger] line@.subrange(j, j + 10) != ram_label(),
        decreases line@.len() - i,
    {
        if label_at(line, i) {
            assert(is_ram_line(line@));
            return true;
        }
        i = i + 1;
    }
    assert(!is_ram_line(line@));
    false
}

/// Checks whether the slice ends in ` : System RAM`.
fn has_suffix(s: &[u8]) -> (b: bool)
    ensures
        b == has_ram_suffix(s@),
{
    if s.len() < 13 {
        return false;
    }
    let i = s.len() - 13;
    let b = s[i] == 0x20 && s[i + 1] == 0x3a && s[i + 2] == 0x20 && s[i + 3] == 0x53 && s[i + 4]
        == 0x79 && s[i + 5] == 0x73 && s[i + 6] == 0x74 && s[i + 7] == 0x65 && s[i + 8] == 0x6d
        && s[i + 9] == 0x20 && s[i + 10] == 0x52 && s[i + 11] == 0x41 && s[i + 12] == 0x4d;
    proof {
        let sub = s@.skip(s@.len() - 13);
        if b {
            assert(sub =~= ram_suffix());
        } else {
            assert(sub != ram_suffix()) by {
                if sub == ram_suffix() {
                    assert(sub[0] == 0x20 && sub[1] == 0x3a && sub[2] == 0x20 && sub[3] == 0x53
                        && sub[4] == 0x79 && sub[5] == 0x73 && sub[6] == 0x74 && sub[7] == 0x65
                        && sub[8] == 0x6d && sub[9] == 0x20 && sub[10] == 0x52 && sub[11] == 0x41
                        && sub[12] == 0x4d);
                }
            }
        }
    }
    b
}

/// Finds the first occurrence of `b` at or after `from`, or the slice's
/// length when there is none.
fn find_from(s: &[u8], from: usize, b: u8) -> (r: usize)
    requires
        from <= s@.len(),
    ensures
        from <= r <= s@.len(),
        r < s@.len() ==> s@[r as int] == b,
        forall|j: int| from <= j < r ==> s@[j] != b,
{
    let mut i: usize = from;
    while i < s.len()
        invariant
            from <= i <= s@.len(),
            forall|j: int| from <= j < i ==> s@[j] != b,
        decreases s@.len() - i,
    {
        if s[i] == b {
            return i;
        }
        i = i + 1;
    }
    i
}

/// Relates a scan that found the first `b` at `r` (or none) to `find_byte`
/// over the suffix beginning at `from`.
proof fn lemma_scan_find_byte(s: Seq<u8>, from: int, r: int, b: u8)
    requires
        0 <= from <= r <= s.len(),
        r < s.len() ==> s[r] == b,
        forall|j: int| from <= j < r ==> s[j] != b,
    ensures
        r < s.len() ==> find_byte(s.skip(from), b) == r - from,
        r == s.len() ==> find_byte(s.skip(from), b) == -1,
{
    let suf = s.skip(from);
    lemma_find_byte(suf, b);
    let f = find_byte(suf, b);
    if r < s.len() {
        assert(suf[r - from] == b);
        if f == -1 {
            assert(false);
        }
        if f < r - from {
            assert(s[f + from] == suf[f] && suf[f] == b);
            assert(false);
        }
        if f > r - from {
            assert(false);
        }
    } else {
        if f != -1 {
            assert(s[f + from] == suf[f] && suf[f] == b);
            assert(false);
        }
    }
}

/// View of the locator's executable result as the specification's.
pub open spec fn ranges_view(r: Result<Vec<(u64, u64)>, ErrorKind>) -> Result<
    Seq<(u64, u64)>,
    ErrorKind,
> {
    match r {
        Ok(v) => Ok(v@),
        Err(e) => Err(e),
    }
}

/// Parses one memory-map line. `Ok(None)` means the line carries no RAM
/// label and is ignored; `Ok(Some(p))` is the line's address pair.
fn parse_line(line: &[u8]) -> (r: Result<Option<(u64, u64)>, ErrorKind>)
    ensures
        line_ranges(line@) == match r {
            Ok(None) => Ok::<Seq<(u64, u64)>, ErrorKind>(Seq::empty()),
            Ok(Some(p)) => Ok::<Seq<(u64, u64)>, ErrorKind>(seq![p]),
            Err(e) => Err::<Seq<(u64, u64)>, ErrorKind>(e),
        },
{
    if !line_has_label(line) {
        return Ok(None);
    }
    let h = find_from(line, 0, HYPHEN);
    proof {
        lemma_scan_find_byte(line@, 0, h as int, HYPHEN);
        assert(line@.skip(0) =~= line@);
    }
    if h == line.len() {
        return Err(ErrorKind::AddressTokens);
    }
    let h2 = find_from(line, h + 1, HYPHEN);
    proof {
        lemma_scan_find_byte(line@, h as int + 1, h2 as int, HYPHEN);
        assert(line@.skip(h as int + 1) == end_part(line@));
    }
    if h2 < line.len() {
        return Err(ErrorKind::AddressTokens);
    }
    assert(two_tokens(line@));
    let rest = &line[h + 1..line.len()];
    assert(rest@ == end_part(line@));
    if !has_suffix(rest) {
        return Err(ErrorKind::RamLabel);
    }
    let start_tok = &line[0..h];
    let end_tok = &line[h + 1..line.len() - 13];
    proof {
        assert(start_tok@ == start_token(line@));
        assert(end_tok@ =~= end_token(line@));
    }
    let start = match parse_hex_u64(start_tok) {
        Some(v) => v,
        None => {
            return Err(ErrorKind::HexToken);
        },
    };
    let end = match parse_hex_u64(end_tok) {
        Some(v) => v,
        None => {
            return Err(ErrorKind::HexToken);
        },
    };
    Ok(Some((start, end)))
}

/// Range Locator: returns one (start, end) pair per `System RAM` line of
/// the memory-map text, in file order, with both addresses read from that
/// line in base 16; fails on the first RAM-labelled line that does not
/// have the expected shape.
pub fn find_ram(text: &[u8]) -> (r: Result<Vec<(u64, u64)>, ErrorKind>)
    ensures
        ranges_view(r) == parse_map(text@),
{
    let mut ranges: Vec<(u64, u64)> = Vec::new();
    let mut pos: usize = 0;
    proof {
        assert(text@.skip(0) =~= text@);
        match parse_map(text@) {
            Ok(ys) => {
                assert(Seq::<(u64, u64)>::empty() + ys =~= ys);
            },
            Err(_) => {},
        }
    }
    while pos < text.len()
        invariant
            0 <= pos <= text@.len(),
            parse_map(text@) == combine(
                Ok::<Seq<(u64, u64)>, ErrorKind>(ranges@),
                parse_map(text@.skip(pos as int)),
            ),
        decreases text@.len() - pos,
    {
        let ghost prev = ranges@;
        let ghost suf = text@.skip(pos as int);
        let i = find_from(text, pos, NL);
        proof {
            lemma_scan_find_byte(text@, pos as int, i as int, NL);
        }
        let line = &text[pos..i];
        let ghost tail = if i < text.len() {
            text@.skip(i as int + 1)
        } else {
            Seq::<u8>::empty()
        };
        proof {
            if i < text.len() {
                assert(suf.take(i - pos as int) =~= line@);
                assert(suf.skip(i - pos as int + 1) =~= tail);
                assert(parse_map(suf) == combine(line_ranges(line@), parse_map(tail)));
            } else {
                assert(suf =~= line@);
                assert(parse_map(suf) == line_ranges(line@));
            }
        }
        match parse_line(line) {
            Ok(None) => {},
            Ok(Some(p)) => {
                ranges.push(p);
                proof {
                    assert(prev + seq![p] =~= ranges@);
                }
            },
            Err(e) => {
                proof {
                    assert(parse_map(text@) == Err::<Seq<(u64, u64)>, ErrorKind>(e));
                }
                return Err(e);
            },
        }
        if i == text.len() {
            proof {
                let ghost res = line_ranges(line@);
                match res {
                    Ok(ys) => {
                        assert(prev + ys =~= ranges@);
                        assert(parse_map(text@) == Ok::<Seq<(u64, u64)>, ErrorKind>(ranges@));
                    },
                    Err(_) => {},
                }
            }
            return Ok(ranges);
        }
        pos = i + 1;
        proof {
            match line_ranges(line@) {
                Ok(ys) => {
                    lemma_combine_assoc(prev, ys, parse_map(tail));
                    assert(prev + ys =~= ranges@);
                },
                Err(_) => {},
            }
        }
    }
    proof {
        let empty_line = text@.skip(pos as int);
        assert(empty_line =~= Seq::<u8>::empty());
        assert(!is_ram_line(empty_line));
        assert(parse_map(empty_line) == Ok::<Seq<(u64, u64)>, ErrorKind>(Seq::empty()));
        assert(ranges@ + Seq::<(u64, u64)>::empty() =~= ranges@);
    }
    Ok(ranges)
}

} // verus!
