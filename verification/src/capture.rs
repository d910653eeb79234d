//! Ram Capture Writer: chunk layout, zero-chunk filtering, and the byte
//! encoding of the nested capture document.
//!
//! The surrounding program owns the physical-memory device and the
//! destination file. It asks [`RangeWriter`] how many bytes to read next,
//! reads them, and hands them to [`RangeWriter::step`], writing out
//! whatever bytes come back. Everything but the reads and writes is
//! decided and proved here.

use vstd::prelude::*;
use crate::hex::hex_repr;

verus! {

/// Chunks are at most this long; every chunk but a range's last is
/// exactly this long.
pub const CHUNK_SIZE: u64 = 4096;

/// Where the chunk that begins at `start` ends inside a range that ends
/// at `end`.
pub open spec fn chunk_end(start: u64, end: u64) -> u64 {
    if end - start > CHUNK_SIZE {
        (start + CHUNK_SIZE) as u64
    } else {
        end
    }
}

/// The chunk boundaries of the range [start, end): contiguous, in
/// increasing order, each chunk 4096 bytes long except a shorter last.
pub open spec fn chunks_spec(start: u64, end: u64) -> Seq<(u64, u64)>
    decreases end - start,
{
    if start >= end {
        Seq::empty()
    } else {
        seq![(start, chunk_end(start, end))] + chunks_spec(chunk_end(start, end), end)
    }
}

/// The chunk boundaries of one Address Range, in capture order.
pub fn chunk_layout(start: u64, end: u64) -> (r: Vec<(u64, u64)>)
    requires
        start <= end,
    ensures
        r@ == chunks_spec(start, end),
{
    let mut r: Vec<(u64, u64)> = Vec::new();
    let mut cur: u64 = start;
    proof {
        assert(chunks_spec(start, end) =~= r@ + chunks_spec(start, end));
    }
    while cur < end
        invariant
            start <= cur <= end,
            chunks_spec(start, end) == r@ + chunks_spec(cur, end),
        decreases end - cur,
    {
        let ghost prev = r@;
        let c = if end - cur > CHUNK_SIZE {
            cur + CHUNK_SIZE
        } else {
            end
        };
        r.push((cur, c));
        proof {
            assert(chunks_spec(cur, end) == seq![(cur, c)] + chunks_spec(c, end));
            assert(prev + (seq![(cur, c)] + chunks_spec(c, end)) =~= r@ + chunks_spec(c, end));
        }
        cur = c;
    }
    proof {
        assert(r@ + chunks_spec(cur, end) =~= r@);
    }
    r
}

/// Chunk boundaries cover the range exactly once: they are contiguous,
/// begin at the range's start, end at its end, are never longer than
/// 4096 bytes, and only the last is shorter.
pub proof fn lemma_chunks_cover(start: u64, end: u64)
    requires
        start <= end,
    ensures
        start == end ==> chunks_spec(start, end).len() == 0,
        start < end ==> chunks_spec(start, end).len() > 0,
        start < end ==> chunks_spec(start, end).first().0 == start,
        start < end ==> chunks_spec(start, end).last().1 == end,
        forall|k: int|
            0 <= k < chunks_spec(start, end).len() ==> {
                let c = #[trigger] chunks_spec(start, end)[k];
                c.0 < c.1 && c.1 - c.0 <= 4096
            },
        forall|k: int|
            0 <= k < chunks_spec(start, end).len() - 1 ==> {
                let c = #[trigger] chunks_spec(start, end)[k];
                c.1 == chunks_spec(start, end)[k + 1].0 && c.1 - c.0 == 4096
            },
    decreases end - start,
{
    if start < end {
        let c = chunk_end(start, end);
        lemma_chunks_cover(c, end);
        let cs = chunks_spec(start, end);
        let rest = chunks_spec(c, end);
        assert(cs == seq![(start, c)] + rest);
        assert(cs[0] == (start, c));
        assert forall|k: int| 1 <= k < cs.len() implies cs[k] == rest[k - 1] by {}
        if c < end {
            assert(cs.last() == rest.last());
        }
    }
}

/// True of a chunk that holds only zero bytes.
pub open spec fn all_zero(s: Seq<u8>) -> bool {
    forall|i: int| 0 <= i < s.len() ==> s[i] == 0
}

/// Decides whether a chunk is entirely zero and may be discarded.
pub fn is_all_zero(s: &[u8]) -> (b: bool)
    ensures
        b == all_zero(s@),
{
    let mut i: usize = 0;
    while i < s.len()
        invariant
            0 <= i <= s@.len(),
            forall|j: int| 0 <= j < i ==> s@[j] == 0,
        decreases s@.len() - i,
    {
        if s[i] != 0 {
            assert(!all_zero(s@));
            return false;
        }
        i = i + 1;
    }
    true
}

/// Difference `a - b` wrapped to 64 bits.
pub open spec fn wrap_sub(a: u64, b: u64) -> u64 {
    if a >= b {
        (a - b) as u64
    } else {
        (a - b + 0x1_0000_0000_0000_0000) as u64
    }
}

/// Sum `a + b` wrapped to 64 bits.
pub open spec fn wrap_add(a: u64, b: u64) -> u64 {
    if a + b <= u64::MAX {
        (a + b) as u64
    } else {
        (a + b - 0x1_0000_0000_0000_0000) as u64
    }
}

/// Total requested RAM size: the sum over all ranges of (end - start),
/// wrapped to 64 bits.
pub open spec fn total_size_spec(rs: Seq<(u64, u64)>) -> u64
    decreases rs.len(),
{
    if rs.len() == 0 {
        0
    } else {
        wrap_add(total_size_spec(rs.drop_last()), wrap_sub(rs.last().1, rs.last().0))
    }
}

/// Reports the total requested RAM size over all discovered ranges.
pub fn total_ram_size(ranges: &Vec<(u64, u64)>) -> (t: u64)
    ensures
        t == total_size_spec(ranges@),
{
    let mut t: u64 = 0;
    let mut i: usize = 0;
    while i < ranges.len()
        invariant
            0 <= i <= ranges@.len(),
            t == total_size_spec(ranges@.take(i as int)),
        decreases ranges@.len() - i,
    {
        let (s, e) = ranges[i];
        let d: u64 = if e >= s {
            e - s
        } else {
            (0xffff_ffff_ffff_ffffu64 - s) + e + 1
        };
        assert(d == wrap_sub(e, s));
        let sum: u64 = if t <= 0xffff_ffff_ffff_ffffu64 - d {
            t + d
        } else {
            d - (0xffff_ffff_ffff_ffffu64 - t) - 1
        };
        assert(sum == wrap_add(t, d));
        proof {
            assert(ranges@.take(i as int + 1).drop_last() =~= ranges@.take(i as int));
            assert(ranges@.take(i as int + 1).last() == ranges@[i as int]);
        }
        t = sum;
        i = i + 1;
    }
    proof {
        assert(ranges@.take(ranges@.len() as int) =~= ranges@);
    }
    t
}

/// A hexadecimal offset field: `0x` then lowercase digits, no padding.
pub open spec fn hex_field(v: u64) -> Seq<u8> {
    seq![0x30u8, 0x78] + hex_repr(v as nat)
}

/// The document's opening tag, `<ram>`.
pub open spec fn doc_open_spec() -> Seq<u8> {
    seq![0x3cu8, 0x72, 0x61, 0x6d, 0x3e]
}

/// The document's closing tag, a line break then `</ram>`.
pub open spec fn doc_close_spec() -> Seq<u8> {
    seq![0x0au8, 0x3c, 0x2f, 0x72, 0x61, 0x6d, 0x3e]
}

/// A range's opening tag: a line break, one tab, `<range `, both bounds
/// in hexadecimal separated by a hyphen, then `>`.
pub open spec fn range_open_spec(s: u64, e: u64) -> Seq<u8> {
    seq![0x0au8, 0x09, 0x3c, 0x72, 0x61, 0x6e, 0x67, 0x65, 0x20] + hex_field(s) + seq![0x2du8]
        + hex_field(e) + seq![0x3eu8]
}

/// A range's closing tag: as the opening tag, with `</range `.
pub open spec fn range_close_spec(s: u64, e: u64) -> Seq<u8> {
    seq![0x0au8, 0x09, 0x3c, 0x2f, 0x72, 0x61, 0x6e, 0x67, 0x65, 0x20] + hex_field(s)
        + seq![0x2du8] + hex_field(e) + seq![0x3eu8]
}

/// A chunk's opening tag: a line break, two tabs, `<non-zero mem `, the
/// chunk's absolute bounds in hexadecimal, then `>`.
pub open spec fn chunk_open_spec(s: u64, e: u64) -> Seq<u8> {
    seq![0x0au8, 0x09, 0x09, 0x3c, 0x6e, 0x6f, 0x6e, 0x2d, 0x7a, 0x65, 0x72, 0x6f, 0x20, 0x6d,
        0x65, 0x6d, 0x20] + hex_field(s) + seq![0x2du8] + hex_field(e) + seq![0x3eu8]
}

/// A chunk's closing tag: as the opening tag, with `</non-zero mem `.
pub open spec fn chunk_close_spec(s: u64, e: u64) -> Seq<u8> {
    seq![0x0au8, 0x09, 0x09, 0x3c, 0x2f, 0x6e, 0x6f, 0x6e, 0x2d, 0x7a, 0x65, 0x72, 0x6f, 0x20,
        0x6d, 0x65, 0x6d, 0x20] + hex_field(s) + seq![0x2du8] + hex_field(e) + seq![0x3eu8]
}

/// A non-zero chunk's node: opening tag, the raw bytes verbatim, closing
/// tag.
pub open spec fn chunk_node_spec(s: u64, e: u64, data: Seq<u8>) -> Seq<u8> {
    chunk_open_spec(s, e) + data + chunk_close_spec(s, e)
}

fn push_bytes(out: &mut Vec<u8>, data: &[u8])
    ensures
        final(out)@ == old(out)@ + data@,
{
    let mut i: usize = 0;
    while i < data.len()
        invariant
            0 <= i <= data@.len(),
            out@ == old(out)@ + data@.take(i as int),
        decreases data@.len() - i,
    {
        out.push(data[i]);
        proof {
            assert(old(out)@ + data@.take(i as int + 1) =~= (old(out)@ + data@.take(i as int)).push(
                data@[i as int],
            ));
        }
        i = i + 1;
    }
    proof {
        assert(data@.take(data@.len() as int) =~= data@);
    }
}

fn push_hex_field(out: &mut Vec<u8>, v: u64)
    ensures
        final(out)@ == old(out)@ + hex_field(v),
{
    out.push(0x30);
    out.push(0x78);
    crate::hex::push_hex_u64(out, v);
    assert(out@ =~= old(out)@ + hex_field(v));
}

/// The document's opening tag as bytes.
pub fn doc_open_bytes() -> (r: Vec<u8>)
    ensures
        r@ == doc_open_spec(),
{
    let mut out: Vec<u8> = Vec::new();
    out.push(0x3c);
    out.push(0x72);
    out.push(0x61);
    out.push(0x6d);
    out.push(0x3e);
    assert(out@ =~= doc_open_spec());
    out
}

/// The document's closing tag as bytes.
pub fn doc_close_bytes() -> (r: Vec<u8>)
    ensures
        r@ == doc_close_spec(),
{
    let mut out: Vec<u8> = Vec::new();
    out.push(0x0a);
    out.push(0x3c);
    out.push(0x2f);
    out.push(0x72);
    out.push(0x61);
    out.push(0x6d);
    out.push(0x3e);
    assert(out@ =~= doc_close_spec());
    out
}

/// A range's opening tag as bytes.
pub fn range_open_bytes(s: u64, e: u64) -> (r: Vec<u8>)
    ensures
        r@ == range_open_spec(s, e),
{
    let mut out: Vec<u8> = Vec::new();
    out.push(0x0a);
    out.push(0x09);
    out.push(0x3c);
    out.push(0x72);
    out.push(0x61);
    out.push(0x6e);
    out.push(0x67);
    out.push(0x65);
    out.push(0x20);
    push_hex_field(&mut out, s);
    out.push(0x2d);
    push_hex_field(&mut out, e);
    out.push(0x3e);
    assert(out@ =~= range_open_spec(s, e));
    out
}

/// A range's closing tag as bytes.
pub fn range_close_bytes(s: u64, e: u64) -> (r: Vec<u8>)
    ensures
        r@ == range_close_spec(s, e),
{
    let mut out: Vec<u8> = Vec::new();
    out.push(0x0a);
    out.push(0x09);
    out.push(0x3c);
    out.push(0x2f);
    out.push(0x72);
    out.push(0x61);
    out.push(0x6e);
    out.push(0x67);
    out.push(0x65);
    out.push(0x20);
    push_hex_field(&mut out, s);
    out.push(0x2d);
    push_hex_field(&mut out, e);
    out.push(0x3e);
    assert(out@ =~= range_close_spec(s, e));
    out
}

fn push_chunk_open(out: &mut Vec<u8>, s: u64, e: u64)
    ensures
        final(out)@ == old(out)@ + chunk_open_spec(s, e),
{
    out.push(0x0a);
    out.push(0x09);
    out.push(0x09);
    out.push(0x3c);
    out.push(0x6e);
    out.push(0x6f);
    out.push(0x6e);
    out.push(0x2d);
    out.push(0x7a);
    out.push(0x65);
    out.push(0x72);
    out.push(0x6f);
    out.push(0x20);
    out.push(0x6d);
    out.push(0x65);
    out.push(0x6d);
    out.push(0x20);
    push_hex_field(out, s);
    out.push(0x2d);
    push_hex_field(out, e);
    out.push(0x3e);
    assert(out@ =~= old(out)@ + chunk_open_spec(s, e));
}

fn push_chunk_close(out: &mut Vec<u8>, s: u64, e: u64)
    ensures
        final(out)@ == old(out)@ + chunk_close_spec(s, e),
{
    out.push(0x0a);
    out.push(0x09);
    out.push(0x09);
    out.push(0x3c);
    out.push(0x2f);
    out.push(0x6e);
    out.push(0x6f);
    out.push(0x6e);
    out.push(0x2d);
    out.push(0x7a);
    out.push(0x65);
    out.push(0x72);
    out.push(0x6f);
    out.push(0x20);
    out.push(0x6d);
    out.push(0x65);
    out.push(0x6d);
    out.push(0x20);
    push_hex_field(out, s);
    out.push(0x2d);
    push_hex_field(out, e);
    out.push(0x3e);
    assert(out@ =~= old(out)@ + chunk_close_spec(s, e));
}

/// One chunk's contribution to the document: nothing when the chunk is
/// entirely zero, otherwise its node with the original bytes verbatim.
pub fn encode_chunk(start: u64, end: u64, data: &[u8]) -> (r: Option<Vec<u8>>)
    requires
        start < end,
        end - start == data@.len(),
    ensures
        match r {
            None => all_zero(data@),
            Some(v) => !all_zero(data@) && v@ == chunk_node_spec(start, end, data@),
        },
{
    if is_all_zero(data) {
        return None;
    }
    let mut out: Vec<u8> = Vec::new();
    push_chunk_open(&mut out, start, end);
    push_bytes(&mut out, data);
    push_chunk_close(&mut out, start, end);
    assert(out@ =~= chunk_node_spec(start, end, data@));
    Some(out)
}

/// The chunk nodes of one range's document body, given the range's full
/// memory contents: one node per non-zero chunk, in offset order, and
/// nothing at all for an all-zero chunk.
pub open spec fn range_body_spec(start: u64, end: u64, data: Seq<u8>) -> Seq<u8>
    decreases end - start,
{
    if start >= end {
        Seq::empty()
    } else {
        let c = chunk_end(start, end);
        let n = (c - start) as int;
        let rest = range_body_spec(c, end, data.skip(n));
        if all_zero(data.take(n)) {
            rest
        } else {
            chunk_node_spec(start, c, data.take(n)) + rest
        }
    }
}

/// The raw bodies of the emitted chunks, in order, without their tags.
pub open spec fn bodies_spec(start: u64, end: u64, data: Seq<u8>) -> Seq<Seq<u8>>
    decreases end - start,
{
    if start >= end {
        Seq::empty()
    } else {
        let c = chunk_end(start, end);
        let n = (c - start) as int;
        let rest = bodies_spec(c, end, data.skip(n));
        if all_zero(data.take(n)) {
            rest
        } else {
            seq![data.take(n)] + rest
        }
    }
}

/// How many bytes the emitted chunks of one range carry.
pub open spec fn nonzero_len_spec(start: u64, end: u64, data: Seq<u8>) -> nat
    decreases end - start,
{
    if start >= end {
        0
    } else {
        let c = chunk_end(start, end);
        let n = (c - start) as int;
        (if all_zero(data.take(n)) {
            0nat
        } else {
            (c - start) as nat
        }) + nonzero_len_spec(c, end, data.skip(n))
    }
}

/// Total length of a list of chunk bodies.
pub open spec fn total_body_len(bs: Seq<Seq<u8>>) -> nat
    decreases bs.len(),
{
    if bs.len() == 0 {
        0
    } else {
        bs.first().len() + total_body_len(bs.skip(1))
    }
}

/// The total byte count of all emitted chunk bodies equals the non-zero
/// byte count the writer reports.
pub proof fn lemma_bodies_total(start: u64, end: u64, data: Seq<u8>)
    requires
        start <= end,
        data.len() == end - start,
    ensures
        total_body_len(bodies_spec(start, end, data)) == nonzero_len_spec(start, end, data),
    decreases end - start,
{
    if start < end {
        let c = chunk_end(start, end);
        let n = (c - start) as int;
        lemma_bodies_total(c, end, data.skip(n));
        if !all_zero(data.take(n)) {
            let rest = bodies_spec(c, end, data.skip(n));
            let bs = seq![data.take(n)] + rest;
            assert(bs.skip(1) =~= rest);
            assert(bs.first() == data.take(n));
            assert(data.take(n).len() == n);
            assert(total_body_len(bs) == data.take(n).len() + total_body_len(rest));
        }
    }
}

/// The writer never counts more bytes than the range holds.
proof fn lemma_nonzero_len_bound(start: u64, end: u64, data: Seq<u8>)
    requires
        start <= end,
    ensures
        nonzero_len_spec(start, end, data) <= end - start,
    decreases end - start,
{
    if start < end {
        let c = chunk_end(start, end);
        lemma_nonzero_len_bound(c, end, data.skip((c - start) as int));
    }
}

/// Handing the writer one more chunk extends the body it has produced by
/// that chunk's node (or by nothing, for an all-zero chunk) and its byte
/// count by that chunk's length (or by nothing).
proof fn lemma_body_snoc(start: u64, mid: u64, end: u64, data: Seq<u8>, chunk: Seq<u8>)
    requires
        start <= mid < end,
        (mid - start) % 4096 == 0,
        data.len() == mid - start,
        chunk.len() == chunk_end(mid, end) - mid,
    ensures
        range_body_spec(start, chunk_end(mid, end), data + chunk) == range_body_spec(
            start,
            mid,
            data,
        ) + (if all_zero(chunk) {
            Seq::<u8>::empty()
        } else {
            chunk_node_spec(mid, chunk_end(mid, end), chunk)
        }),
        nonzero_len_spec(start, chunk_end(mid, end), data + chunk) == nonzero_len_spec(
            start,
            mid,
            data,
        ) + (if all_zero(chunk) {
            0nat
        } else {
            chunk.len()
        }),
    decreases mid - start,
{
    let e2 = chunk_end(mid, end);
    let whole = data + chunk;
    if start == mid {
        assert(whole =~= chunk);
        assert(chunk_end(start, e2) == e2);
        let n = (e2 - start) as int;
        assert(chunk.take(n) =~= chunk);
        assert(range_body_spec(e2, e2, chunk.skip(n)) =~= Seq::<u8>::empty());
        assert(range_body_spec(start, mid, data) =~= Seq::<u8>::empty());
        assert(nonzero_len_spec(e2, e2, chunk.skip(n)) == 0);
        assert(nonzero_len_spec(start, mid, data) == 0);
        if !all_zero(chunk) {
            assert(range_body_spec(start, e2, chunk) =~= chunk_node_spec(mid, e2, chunk));
            assert(Seq::<u8>::empty() + chunk_node_spec(mid, e2, chunk) =~= chunk_node_spec(
                mid,
                e2,
                chunk,
            ));
        }
    } else {
        let c0 = (start + 4096) as u64;
        assert(chunk_end(start, e2) == c0);
        assert(chunk_end(start, mid) == c0);
        let n0 = 4096int;
        assert(whole.take(n0) =~= data.take(n0));
        assert(whole.skip(n0) =~= data.skip(n0) + chunk);
        assert((mid - c0) % 4096 == 0) by {
            assert(mid - start - 4096 == mid - c0);
        }
        lemma_body_snoc(c0, mid, end, data.skip(n0), chunk);
        let head = data.take(n0);
        let node = if all_zero(chunk) {
            Seq::<u8>::empty()
        } else {
            chunk_node_spec(mid, e2, chunk)
        };
        if !all_zero(head) {
            assert(chunk_node_spec(start, c0, head) + (range_body_spec(c0, mid, data.skip(n0))
                + node) =~= (chunk_node_spec(start, c0, head) + range_body_spec(
                c0,
                mid,
                data.skip(n0),
            )) + node);
        }
        if all_zero(chunk) {
            assert(range_body_spec(start, mid, data) + Seq::<u8>::empty() =~= range_body_spec(
                start,
                mid,
                data,
            ));
        }
    }
}

/// Streams one Address Range. The surrounding program seeks the device to
/// [`Self::cursor`], reads [`Self::next_len`] bytes, hands them to
/// [`Self::step`] and writes whatever bytes come back, until
/// [`Self::is_done`]; the tags around the body come from
/// [`range_open_bytes`] and [`range_close_bytes`].
pub struct RangeWriter {
    /// The range's first offset.
    pub start: u64,
    /// The range's end offset (exclusive).
    pub end: u64,
    /// The next offset to read; chunks are handed over in offset order.
    pub cursor: u64,
    /// How many bytes the emitted chunks carry so far.
    pub nonzero: u64,
    /// The range's bytes handed over so far.
    pub seen: Ghost<Seq<u8>>,
    /// The chunk nodes produced so far, concatenated.
    pub emitted: Ghost<Seq<u8>>,
}

impl RangeWriter {
    /// The writer's invariant: the cursor walks the range chunk by chunk,
    /// and what has been produced is exactly the document body of the
    /// bytes seen so far.
    pub open spec fn wf(&self) -> bool {
        &&& self.start <= self.cursor <= self.end
        &&& (self.cursor < self.end ==> (self.cursor - self.start) % 4096 == 0)
        &&& self.seen@.len() == self.cursor - self.start
        &&& self.emitted@ == range_body_spec(self.start, self.cursor, self.seen@)
        &&& self.nonzero == nonzero_len_spec(self.start, self.cursor, self.seen@)
    }

    /// A writer at the start of the range, with nothing seen or emitted.
    pub fn new(start: u64, end: u64) -> (w: RangeWriter)
        requires
            start <= end,
        ensures
            w.wf(),
            w.start == start,
            w.end == end,
            w.cursor == start,
            w.nonzero == 0,
            w.seen@ == Seq::<u8>::empty(),
            w.emitted@ == Seq::<u8>::empty(),
    {
        let w = RangeWriter {
            start,
            end,
            cursor: start,
            nonzero: 0,
            seen: Ghost(Seq::empty()),
            emitted: Ghost(Seq::empty()),
        };
        proof {
            assert(range_body_spec(start, start, Seq::empty()) =~= Seq::<u8>::empty());
        }
        w
    }

    /// How many bytes to read at the cursor: 4096, or what is left of the
    /// range if that is less.
    pub fn next_len(&self) -> (n: usize)
        requires
            self.wf(),
            self.cursor < self.end,
        ensures
            n == chunk_end(self.cursor, self.end) - self.cursor,
            0 < n <= 4096,
    {
        if self.end - self.cursor > CHUNK_SIZE {
            CHUNK_SIZE as usize
        } else {
            (self.end - self.cursor) as usize
        }
    }

    /// Whether the cursor has reached the range's end. Once it has, the
    /// invariant says the emitted nodes are exactly the range's document
    /// body and the count is exactly its non-zero byte count.
    pub fn is_done(&self) -> (b: bool)
        ensures
            b == (self.cursor == self.end),
    {
        self.cursor == self.end
    }

    /// Takes the next chunk's bytes, just read at the cursor, and returns
    /// the bytes to append to the document: the chunk's node, or nothing
    /// when the chunk is entirely zero.
    pub fn step(&mut self, chunk: &[u8]) -> (out: Option<Vec<u8>>)
        requires
            old(self).wf(),
            old(self).cursor < old(self).end,
            chunk@.len() == chunk_end(old(self).cursor, old(self).end) - old(self).cursor,
        ensures
            final(self).wf(),
            final(self).start == old(self).start,
            final(self).end == old(self).end,
            final(self).cursor == chunk_end(old(self).cursor, old(self).end),
            final(self).seen@ == old(self).seen@ + chunk@,
            match out {
                None => all_zero(chunk@) && final(self).emitted@ == old(self).emitted@
                    && final(self).nonzero == old(self).nonzero,
                Some(v) => !all_zero(chunk@) && v@ == chunk_node_spec(
                    old(self).cursor,
                    final(self).cursor,
                    chunk@,
                ) && final(self).emitted@ == old(self).emitted@ + v@ && final(self).nonzero
                    == old(self).nonzero + chunk@.len(),
            },
    {
        let c = if self.end - self.cursor > CHUNK_SIZE {
            self.cursor + CHUNK_SIZE
        } else {
            self.end
        };
        proof {
            lemma_nonzero_len_bound(old(self).start, old(self).cursor, old(self).seen@);
            lemma_body_snoc(
                old(self).start,
                old(self).cursor,
                old(self).end,
                old(self).seen@,
                chunk@,
            );
        }
        let out = encode_chunk(self.cursor, c, chunk);
        let ghost prev = *self;
        self.seen = Ghost(self.seen@ + chunk@);
        self.cursor = c;
        match &out {
            None => {
                proof {
                    assert(self.emitted@ + Seq::<u8>::empty() =~= self.emitted@);
                }
            },
            Some(v) => {
                self.nonzero = self.nonzero + (chunk.len() as u64);
                self.emitted = Ghost(self.emitted@ + v@);
            },
        }
        out
    }
}

/// One range's node in the document: its opening tag, the nodes of its
/// non-zero chunks, its closing tag.
pub open spec fn range_doc_spec(start: u64, end: u64, data: Seq<u8>) -> Seq<u8> {
    range_open_spec(start, end) + range_body_spec(start, end, data) + range_close_spec(start, end)
}

/// The nodes of all ranges, in discovery order; `datas[k]` holds the
/// memory contents of range `k`.
pub open spec fn ranges_doc_spec(rs: Seq<(u64, u64)>, datas: Seq<Seq<u8>>) -> Seq<u8>
    decreases rs.len(),
{
    if rs.len() == 0 {
        Seq::empty()
    } else {
        range_doc_spec(rs.first().0, rs.first().1, datas.first()) + ranges_doc_spec(
            rs.skip(1),
            datas.skip(1),
        )
    }
}

/// The whole capture document: the document tags around every range's
/// node, in discovery order.
pub open spec fn doc_spec(rs: Seq<(u64, u64)>, datas: Seq<Seq<u8>>) -> Seq<u8> {
    doc_open_spec() + ranges_doc_spec(rs, datas) + doc_close_spec()
}

/// Once a writer has walked its whole range, wrapping what it emitted in
/// the range's tags yields exactly the range's node in the document.
pub proof fn lemma_writer_completes(w: RangeWriter)
    requires
        w.wf(),
        w.cursor == w.end,
    ensures
        range_open_spec(w.start, w.end) + w.emitted@ + range_close_spec(w.start, w.end)
            == range_doc_spec(w.start, w.end, w.seen@),
        w.nonzero == total_body_len(bodies_spec(w.start, w.end, w.seen@)),
{
    lemma_bodies_total(w.start, w.end, w.seen@);
}

/// Capturing twice over an unchanged memory map and unchanged memory
/// contents produces byte-identical documents.
pub proof fn lemma_capture_idempotent(
    rs1: Seq<(u64, u64)>,
    datas1: Seq<Seq<u8>>,
    rs2: Seq<(u64, u64)>,
    datas2: Seq<Seq<u8>>,
)
    requires
        rs1 == rs2,
        datas1 == datas2,
    ensures
        doc_spec(rs1, datas1) == doc_spec(rs2, datas2),
{
}

} // verus!
