use ramdump::capture::{
    chunk_layout, doc_close_bytes, doc_open_bytes, encode_chunk, is_all_zero, range_close_bytes,
    range_open_bytes, total_ram_size, RangeWriter,
};
use ramdump::hex::{parse_hex_u64, u64_to_hex};
use ramdump::locator::{find_ram, ErrorKind};

/// Drives a full capture the way the surrounding program does: document
/// tags around one node per range, chunks read from `mem` in offset
/// order. Returns the document bytes and the reported non-zero total.
fn capture(ranges: &[(u64, u64)], mem: &dyn Fn(u64, usize) -> Vec<u8>) -> (Vec<u8>, u64) {
    let mut doc = doc_open_bytes();
    let mut total: u64 = 0;
    for &(s, e) in ranges.iter() {
        doc.append(&mut range_open_bytes(s, e));
        if s <= e {
            let mut w = RangeWriter::new(s, e);
            while !w.is_done() {
                let n = w.next_len();
                let chunk = mem(w.cursor, n);
                if let Some(mut node) = w.step(&chunk) {
                    doc.append(&mut node);
                }
            }
            total += w.nonzero;
        }
        doc.append(&mut range_close_bytes(s, e));
    }
    doc.append(&mut doc_close_bytes());
    (doc, total)
}

fn count_occurrences(hay: &[u8], needle: &[u8]) -> usize {
    if needle.is_empty() || hay.len() < needle.len() {
        return 0;
    }
    (0..=hay.len() - needle.len()).filter(|&i| &hay[i..i + needle.len()] == needle).count()
}

#[test]
fn locator_single_ram_line() {
    let r = find_ram(b"1000-1fff : System RAM\n").unwrap();
    assert_eq!(r, vec![(0x1000, 0x1fff)]);
}

#[test]
fn locator_ignores_other_lines() {
    let text = b"0000-0fff : Reserved\n1000-1fff : System RAM\n2000-2fff : PCI Bus 0000:00\n";
    let r = find_ram(text).unwrap();
    assert_eq!(r, vec![(0x1000, 0x1fff)]);
}

#[test]
fn locator_empty_input() {
    let r = find_ram(b"").unwrap();
    assert_eq!(r, Vec::new());
}

#[test]
fn locator_keeps_file_order() {
    let text = b"ffff0000-ffffffff : System RAM\n1000-1fff : System RAM\n";
    let r = find_ram(text).unwrap();
    assert_eq!(r, vec![(0xffff0000, 0xffffffff), (0x1000, 0x1fff)]);
}

#[test]
fn locator_keeps_duplicates() {
    let text = b"1000-1fff : System RAM\n1000-1fff : System RAM\n";
    let r = find_ram(text).unwrap();
    assert_eq!(r, vec![(0x1000, 0x1fff), (0x1000, 0x1fff)]);
}

#[test]
fn locator_uppercase_hex() {
    let r = find_ram(b"ABC-DEF : System RAM").unwrap();
    assert_eq!(r, vec![(0xabc, 0xdef)]);
}

#[test]
fn locator_fails_on_missing_label_suffix() {
    let r = find_ram(b"1000-1fff : System RAM (reserved)\n");
    assert_eq!(r, Err(ErrorKind::RamLabel));
}

#[test]
fn locator_fails_on_bad_hex_start() {
    let r = find_ram(b"10g0-1fff : System RAM\n");
    assert_eq!(r, Err(ErrorKind::HexToken));
}

#[test]
fn locator_fails_on_bad_hex_end() {
    let r = find_ram(b"1000-1zff : System RAM\n");
    assert_eq!(r, Err(ErrorKind::HexToken));
}

#[test]
fn locator_fails_without_hyphen() {
    let r = find_ram(b"1000 : System RAM\n");
    assert_eq!(r, Err(ErrorKind::AddressTokens));
}

#[test]
fn locator_fails_on_three_tokens() {
    let r = find_ram(b"1000-1fff-2fff : System RAM\n");
    assert_eq!(r, Err(ErrorKind::AddressTokens));
}

#[test]
fn locator_reports_first_bad_line() {
    let text = b"1000-1fff : System RAM\nbad line with System RAM\n2000-2fff : System RAM\n";
    let r = find_ram(text);
    assert_eq!(r, Err(ErrorKind::AddressTokens));
}

#[test]
fn hex_parse_mixed_case() {
    assert_eq!(parse_hex_u64(b"deadBEEF"), Some(0xdeadbeef));
}

#[test]
fn hex_parse_zero_and_max() {
    assert_eq!(parse_hex_u64(b"0"), Some(0));
    assert_eq!(parse_hex_u64(b"ffffffffffffffff"), Some(u64::MAX));
}

#[test]
fn hex_parse_rejects_empty_and_overflow() {
    assert_eq!(parse_hex_u64(b""), None);
    assert_eq!(parse_hex_u64(b"10000000000000000"), None);
    assert_eq!(parse_hex_u64(b"12 4"), None);
}

#[test]
fn hex_format_no_padding() {
    assert_eq!(u64_to_hex(0), b"0".to_vec());
    assert_eq!(u64_to_hex(0xdeadbeef), b"deadbeef".to_vec());
    assert_eq!(u64_to_hex(u64::MAX), b"ffffffffffffffff".to_vec());
}

#[test]
fn chunks_single_truncated() {
    assert_eq!(chunk_layout(0x1000, 0x1fff), vec![(0x1000, 0x1fff)]);
}

#[test]
fn chunks_exact_multiple() {
    assert_eq!(chunk_layout(0, 8192), vec![(0, 4096), (4096, 8192)]);
}

#[test]
fn chunks_short_tail() {
    assert_eq!(chunk_layout(0, 8197), vec![(0, 4096), (4096, 8192), (8192, 8197)]);
}

#[test]
fn chunks_empty_range() {
    assert_eq!(chunk_layout(5, 5), Vec::new());
}

#[test]
fn chunks_cover_contiguously() {
    let cs = chunk_layout(0x1234, 0x1234 + 3 * 4096 + 17);
    assert_eq!(cs.first().unwrap().0, 0x1234);
    assert_eq!(cs.last().unwrap().1, 0x1234 + 3 * 4096 + 17);
    for w in cs.windows(2) {
        assert_eq!(w[0].1, w[1].0);
        assert_eq!(w[0].1 - w[0].0, 4096);
    }
    for &(s, e) in &cs {
        assert!(e - s <= 4096 && s < e);
    }
}

#[test]
fn zero_detection() {
    assert!(is_all_zero(&[]));
    assert!(is_all_zero(&[0, 0, 0]));
    assert!(!is_all_zero(&[0, 1, 0]));
}

#[test]
fn zero_chunk_is_dropped() {
    assert_eq!(encode_chunk(0x1000, 0x1004, &[0, 0, 0, 0]), None);
}

#[test]
fn nonzero_chunk_kept_verbatim() {
    let data = [0, 0xde, 0xad, 0];
    let node = encode_chunk(0x1000, 0x1004, &data).unwrap();
    let mut expected = b"\n\t\t<non-zero mem 0x1000-0x1004>".to_vec();
    expected.extend_from_slice(&data);
    expected.extend_from_slice(b"\n\t\t</non-zero mem 0x1000-0x1004>");
    assert_eq!(node, expected);
}

#[test]
fn document_tags() {
    assert_eq!(doc_open_bytes(), b"<ram>".to_vec());
    assert_eq!(doc_close_bytes(), b"\n</ram>".to_vec());
    assert_eq!(range_open_bytes(0x1000, 0x1fff), b"\n\t<range 0x1000-0x1fff>".to_vec());
    assert_eq!(range_close_bytes(0x1000, 0x1fff), b"\n\t</range 0x1000-0x1fff>".to_vec());
}

#[test]
fn total_size_simple() {
    assert_eq!(total_ram_size(&vec![(0, 10), (100, 200)]), 110);
}

#[test]
fn total_size_wraps_when_end_below_start() {
    assert_eq!(total_ram_size(&vec![(10, 5)]), 5u64.wrapping_sub(10));
    assert_eq!(total_ram_size(&vec![(u64::MAX, 1), (0, 3)]), 1u64.wrapping_sub(u64::MAX).wrapping_add(3));
}

#[test]
fn writer_skips_zero_chunks_and_counts() {
    // Three chunks: all zero, mixed, short non-zero tail.
    let mut w = RangeWriter::new(0, 8192 + 4);
    assert!(!w.is_done());
    assert_eq!(w.next_len(), 4096);
    assert_eq!(w.step(&vec![0u8; 4096]), None);
    assert_eq!(w.nonzero, 0);
    let mut second = vec![0u8; 4096];
    second[7] = 0x42;
    let node = w.step(&second).unwrap();
    assert_eq!(&node[..26], b"\n\t\t<non-zero mem 0x1000-0x".as_ref());
    assert_eq!(w.nonzero, 4096);
    assert_eq!(w.next_len(), 4);
    assert!(w.step(&vec![1, 2, 3, 4]).is_some());
    assert_eq!(w.nonzero, 4100);
    assert!(w.is_done());
}

#[test]
fn end_to_end_single_range() {
    // Memory map with one RAM line; memory all zero except four bytes.
    let map = b"1000-1fff : System RAM\n";
    let ranges = find_ram(map).unwrap();
    assert_eq!(ranges, vec![(0x1000, 0x1fff)]);
    let mem = |at: u64, n: usize| -> Vec<u8> {
        let mut v = vec![0u8; n];
        for off in 0x1500u64..0x1504 {
            if off >= at && off < at + n as u64 {
                v[(off - at) as usize] = [0xde, 0xad, 0xde, 0xad][(off - 0x1500) as usize];
            }
        }
        v
    };
    let (doc, total) = capture(&ranges, &mem);

    // The range is 0xfff bytes long: one chunk, truncated to the range.
    let mut expected = b"<ram>\n\t<range 0x1000-0x1fff>\n\t\t<non-zero mem 0x1000-0x1fff>".to_vec();
    let mut body = vec![0u8; 0xfff];
    body[0x500] = 0xde;
    body[0x501] = 0xad;
    body[0x502] = 0xde;
    body[0x503] = 0xad;
    expected.extend_from_slice(&body);
    expected.extend_from_slice(b"\n\t\t</non-zero mem 0x1000-0x1fff>\n\t</range 0x1000-0x1fff>\n</ram>");
    assert_eq!(doc, expected);
    assert_eq!(total, 0xfff);
    assert_eq!(count_occurrences(&doc, b"non-zero mem"), 2);
    assert_eq!(count_occurrences(&doc, b"\n\t\t<non-zero mem"), 1);
}

#[test]
fn end_to_end_two_ranges_in_file_order() {
    // The higher range comes first in the map and must come first in the
    // document.
    let map = b"2000-2004 : System RAM\n1000-1004 : System RAM\n";
    let ranges = find_ram(map).unwrap();
    let mem = |_at: u64, n: usize| vec![0xabu8; n];
    let (doc, total) = capture(&ranges, &mem);
    assert_eq!(count_occurrences(&doc, b"\n\t<range "), 2);
    let first = doc.windows(b"<range 0x2000-0x2004>".len()).position(|w| w == b"<range 0x2000-0x2004>".as_ref()).unwrap();
    let second = doc.windows(b"<range 0x1000-0x1004>".len()).position(|w| w == b"<range 0x1000-0x1004>".as_ref()).unwrap();
    assert!(first < second);
    assert_eq!(count_occurrences(&doc, b"\n\t</range "), 2);
    assert_eq!(total, 8);
}

#[test]
fn emitted_bodies_match_reported_total() {
    // One zero chunk, one non-zero chunk, one non-zero tail: the bytes
    // inside the emitted chunk nodes add up to the reported total.
    let ranges = [(0u64, 8192u64 + 4)];
    let mem = |at: u64, n: usize| -> Vec<u8> {
        if at < 4096 {
            vec![0u8; n]
        } else {
            vec![0x11u8; n]
        }
    };
    let (doc, total) = capture(&ranges, &mem);
    assert_eq!(total, 4096 + 4);
    let emitted: usize = count_occurrences(&doc, &[0x11]);
    assert_eq!(emitted as u64, total);
}

#[test]
fn capture_is_idempotent() {
    let map = b"1000-1fff : System RAM\n3000-5fff : System RAM\n";
    let ranges = find_ram(map).unwrap();
    let mem = |at: u64, n: usize| -> Vec<u8> {
        (0..n).map(|k| ((at as usize + k) % 251) as u8).collect()
    };
    let (doc1, total1) = capture(&ranges, &mem);
    let ranges2 = find_ram(map).unwrap();
    let (doc2, total2) = capture(&ranges2, &mem);
    assert_eq!(doc1, doc2);
    assert_eq!(total1, total2);
}

#[test]
fn empty_range_gets_tags_and_no_chunks() {
    let ranges = [(0x40u64, 0x40u64)];
    let mem = |_at: u64, n: usize| vec![0xffu8; n];
    let (doc, total) = capture(&ranges, &mem);
    assert_eq!(doc, b"<ram>\n\t<range 0x40-0x40>\n\t</range 0x40-0x40>\n</ram>".to_vec());
    assert_eq!(total, 0);
}
