//! Row- and field-level behaviour: the parser, the renderer, the numeric
//! codec, splitting, and UTF-8 validation.

use rust_tsv_tools::{
    bytes_eq, check_utf8, parse_record_line, parse_u64, render_record_line, split_bytes,
    split_lines, FragmentStats, TabixRecord,
};

fn parse(line: &[u8]) -> Option<TabixRecord> {
    parse_record_line(&line.to_vec())
}

#[test]
fn parses_a_plain_row() {
    let r = parse(b"chr1\t100\t200\tAAA\t7").expect("row should parse");
    assert_eq!(r.chrom, b"chr1".to_vec());
    assert_eq!(r.start, 100);
    assert_eq!(r.end, 200);
    assert_eq!(r.barcode, b"AAA".to_vec());
    assert_eq!(r.count, 7);
}

#[test]
fn rejects_wrong_column_counts() {
    assert!(parse(b"").is_none());
    assert!(parse(b"chr1\t100\t200\tAAA").is_none());
    assert!(parse(b"chr1\t100\t200\tAAA\t7\textra").is_none());
}

#[test]
fn rejects_non_numeric_fields() {
    assert!(parse(b"chr1\tx\t200\tAAA\t7").is_none());
    assert!(parse(b"chr1\t100\t2.5\tAAA\t7").is_none());
    assert!(parse(b"chr1\t100\t200\tAAA\t-1").is_none());
    assert!(parse(b"chr1\t+100\t200\tAAA\t7").is_none());
    assert!(parse(b"chr1\t\t200\tAAA\t7").is_none());
}

#[test]
fn rejects_backwards_intervals() {
    assert!(parse(b"chr1\t200\t100\tAAA\t7").is_none());
    assert!(parse(b"chr1\t100\t100\tAAA\t7").is_some());
}

#[test]
fn rejects_invalid_utf8_in_text_fields() {
    assert!(parse(b"chr\xff\t1\t2\tAAA\t1").is_none());
    assert!(parse(b"chr1\t1\t2\tAA\xc3\t1").is_none());
    // A correctly encoded two-byte scalar is fine.
    assert!(parse(b"chr1\t1\t2\tAA\xc3\xa9\t1").is_some());
}

#[test]
fn accepts_leading_zeros() {
    let r = parse(b"c\t007\t010\tA\t000").expect("row should parse");
    assert_eq!(r.start, 7);
    assert_eq!(r.end, 10);
    assert_eq!(r.count, 0);
}

#[test]
fn renders_the_same_row_back() {
    let line = b"chr1\t100\t200\tAAA\t7";
    let r = parse(line).unwrap();
    assert_eq!(render_record_line(&r), line.to_vec());
}

#[test]
fn parse_u64_evaluates_digit_strings() {
    assert_eq!(parse_u64(&b"0".to_vec()), Some(0));
    assert_eq!(parse_u64(&b"42".to_vec()), Some(42));
    assert_eq!(parse_u64(&b"007".to_vec()), Some(7));
    assert_eq!(parse_u64(&b"18446744073709551615".to_vec()), Some(u64::MAX));
    assert_eq!(parse_u64(&b"18446744073709551616".to_vec()), None);
    assert_eq!(parse_u64(&b"99999999999999999999999".to_vec()), None);
    assert_eq!(parse_u64(&b"".to_vec()), None);
    assert_eq!(parse_u64(&b"12a".to_vec()), None);
    assert_eq!(parse_u64(&b" 1".to_vec()), None);
}

#[test]
fn check_utf8_agrees_with_std() {
    let cases: Vec<Vec<u8>> = vec![
        b"".to_vec(),
        b"plain ascii".to_vec(),
        b"caf\xc3\xa9".to_vec(),
        b"\xe2\x82\xac".to_vec(),
        b"\xf0\x9f\xa6\x80".to_vec(),
        b"\xff".to_vec(),
        b"\xc3".to_vec(),
        b"\xc0\xaf".to_vec(),
        b"\xed\xa0\x80".to_vec(),
        b"\xf4\x90\x80\x80".to_vec(),
        b"\x80".to_vec(),
    ];
    for c in cases {
        assert_eq!(check_utf8(&c), std::str::from_utf8(&c).is_ok(), "bytes {:?}", c);
    }
}

#[test]
fn split_bytes_keeps_every_piece() {
    let pieces = split_bytes(&b"a\tbb\t\tc".to_vec(), b'\t');
    assert_eq!(pieces.len(), 4);
    assert_eq!(pieces[0], b"a".to_vec());
    assert_eq!(pieces[1], b"bb".to_vec());
    assert_eq!(pieces[2], b"".to_vec());
    assert_eq!(pieces[3], b"c".to_vec());
    assert_eq!(split_bytes(&b"".to_vec(), b'\t'), vec![b"".to_vec()]);
}

#[test]
fn split_lines_handles_terminators() {
    let ls = split_lines(&b"a\nb\r\n\nc".to_vec());
    assert_eq!(ls.len(), 4);
    assert_eq!(ls[0], b"a".to_vec());
    assert_eq!(ls[1], b"b".to_vec());
    assert_eq!(ls[2], b"".to_vec());
    assert_eq!(ls[3], b"c".to_vec());
    assert!(split_lines(&b"".to_vec()).is_empty());
    assert_eq!(split_lines(&b"a\n".to_vec()).len(), 1);
}

#[test]
fn bytes_eq_compares_contents() {
    assert!(bytes_eq(&b"abc".to_vec(), &b"abc".to_vec()));
    assert!(!bytes_eq(&b"abc".to_vec(), &b"abd".to_vec()));
    assert!(!bytes_eq(&b"abc".to_vec(), &b"ab".to_vec()));
}

#[test]
fn fresh_stats_are_empty() {
    let s = FragmentStats::new();
    assert_eq!(s.fragments_total, 0);
    assert!(s.fragments_written.is_empty());
}
