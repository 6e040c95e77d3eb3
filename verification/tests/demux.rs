//! End-to-end behaviour of the dispatch engine and the whole run.

use rust_tsv_tools::{
    parse_input, run_split, run_split_content, Criterion, Destination, OutputOptions, RunOutput,
};

fn barcode_set(names: &[&str]) -> Criterion {
    Criterion::BarcodeSet { values: names.iter().map(|s| s.as_bytes().to_vec()).collect() }
}

fn dest(name: &str, criterion: Criterion) -> Destination {
    Destination { name: name.as_bytes().to_vec(), criterion }
}

fn plain() -> OutputOptions {
    OutputOptions { compressed: false, header: false }
}

fn run(input: &[u8], dests: Vec<Destination>, opts: OutputOptions) -> RunOutput {
    run_split_content(&input.to_vec(), &dests, opts)
}

#[test]
fn end_to_end_three_records() {
    let input = b"chr1\t100\t200\tAAA\t1\nchr1\t300\t500\tBBB\t1\nchr1\t50\t60\tAAA\t1\n";
    let out = run(input, vec![dest("groupA", barcode_set(&["AAA"]))], plain());
    assert_eq!(out.stats.fragments_total, 3);
    assert_eq!(out.stats.fragments_written.len(), 1);
    assert_eq!(out.stats.fragments_written[0].0, b"groupA".to_vec());
    assert_eq!(out.stats.fragments_written[0].1, 2);
    assert_eq!(out.outputs.len(), 1);
    assert_eq!(out.outputs[0].written, 2);
    assert_eq!(out.outputs[0].data, b"chr1\t100\t200\tAAA\t1\nchr1\t50\t60\tAAA\t1\n".to_vec());
}

#[test]
fn fragments_total_counts_every_non_comment_line() {
    // Comments are not counted; unparseable rows are.
    let input = b"# a comment\nchr1\t1\t2\tAAA\t1\nnot\ta\trecord\n\n# more\nchr2\t3\t4\tBBB\t2\n";
    let out = run(input, vec![dest("d", barcode_set(&["ZZZ"]))], plain());
    assert_eq!(out.stats.fragments_total, 4);
    assert_eq!(out.outputs[0].written, 0);
    assert!(out.outputs[0].data.is_empty());
}

#[test]
fn written_counts_match_an_independent_recount() {
    let input = b"c\t0\t10\tAAA\t1\nc\t0\t20\tBBB\t1\nc\t0\t30\tAAA\t1\nc\t0\t40\tCCC\t1\n";
    let out = run(input, vec![dest("a", barcode_set(&["AAA", "CCC"]))], plain());
    let recount = input
        .split(|&b| b == b'\n')
        .filter(|l| !l.is_empty())
        .filter(|l| {
            let f: Vec<&[u8]> = l.split(|&b| b == b'\t').collect();
            f.len() == 5 && (f[3] == b"AAA" || f[3] == b"CCC")
        })
        .count() as u64;
    assert_eq!(out.outputs[0].written, recount);
    assert_eq!(recount, 3);
}

#[test]
fn one_barcode_in_two_destinations_is_written_to_both() {
    let input = b"chr1\t5\t9\tAAA\t2\n";
    let out = run(
        input,
        vec![
            dest("first", barcode_set(&["AAA", "BBB"])),
            dest("second", barcode_set(&["CCC", "AAA"])),
            dest("third", barcode_set(&["DDD"])),
        ],
        plain(),
    );
    assert_eq!(out.outputs[0].written, 1);
    assert_eq!(out.outputs[1].written, 1);
    assert_eq!(out.outputs[2].written, 0);
    assert_eq!(out.outputs[0].data, input.to_vec());
    assert_eq!(out.outputs[1].data, input.to_vec());
    assert!(out.outputs[2].data.is_empty());
}

#[test]
fn length_policy_is_strict_at_both_bounds() {
    // Lengths 50, 51, 149, 150: only the strict interior of (50, 150) matches.
    let input = b"c\t0\t50\tA\t1\nc\t0\t51\tB\t1\nc\t0\t149\tC\t1\nc\t0\t150\tD\t1\n";
    let out = run(
        input,
        vec![dest("bin", Criterion::LengthRange { low: 50, high: 150 })],
        plain(),
    );
    assert_eq!(out.stats.fragments_total, 4);
    assert_eq!(out.outputs[0].written, 2);
    assert_eq!(out.outputs[0].data, b"c\t0\t51\tB\t1\nc\t0\t149\tC\t1\n".to_vec());
}

#[test]
fn record_may_match_no_destination() {
    let input = b"c\t0\t10\tAAA\t1\n";
    let out = run(input, vec![dest("bin", Criterion::LengthRange { low: 100, high: 200 })], plain());
    assert_eq!(out.stats.fragments_total, 1);
    assert_eq!(out.outputs[0].written, 0);
}

#[test]
fn unparseable_rows_are_skipped_not_fatal() {
    // Wrong column count, non-numeric coordinate, backwards interval,
    // invalid UTF-8 in the barcode: all skipped, all counted.
    let mut input = b"c\t1\t2\n c\tx\t2\tAAA\t1\nc\t9\t2\tAAA\t1\n".to_vec();
    input.extend_from_slice(b"c\t1\t2\t\xffAAA\t1\n");
    input.extend_from_slice(b"c\t1\t2\tAAA\t1\n");
    let out = run(&input, vec![dest("d", barcode_set(&["AAA"]))], plain());
    assert_eq!(out.stats.fragments_total, 5);
    assert_eq!(out.outputs[0].written, 1);
    assert_eq!(out.outputs[0].data, b"c\t1\t2\tAAA\t1\n".to_vec());
}

#[test]
fn round_trip_reading_back_reproduces_matched_records() {
    let input = b"chr1\t100\t200\tAAA\t1\nchr2\t1\t5\tBBB\t3\nchr3\t7\t9\tAAA\t2\n";
    let opts = OutputOptions { compressed: false, header: true };
    let out = run(input, vec![dest("g", barcode_set(&["AAA"]))], opts);
    // Read the body back with the same parser.
    let (total, records) = parse_input(&out.outputs[0].data);
    // The header row is a comment and is not counted.
    assert_eq!(total, 2);
    assert_eq!(records.len(), 2);
    assert_eq!(records[0].chrom, b"chr1".to_vec());
    assert_eq!(records[0].start, 100);
    assert_eq!(records[0].end, 200);
    assert_eq!(records[0].barcode, b"AAA".to_vec());
    assert_eq!(records[0].count, 1);
    assert_eq!(records[1].chrom, b"chr3".to_vec());
    assert_eq!(records[1].start, 7);
    assert_eq!(records[1].end, 9);
}

#[test]
fn header_option_prepends_comment_header() {
    let input = b"c\t1\t2\tAAA\t1\n";
    let opts = OutputOptions { compressed: false, header: true };
    let out = run(input, vec![dest("g", barcode_set(&["AAA"]))], opts);
    let expected = b"#chrom\tstart\tend\tbarcode\tcount\nc\t1\t2\tAAA\t1\n".to_vec();
    assert_eq!(out.outputs[0].data, expected);
}

#[test]
fn empty_input_has_no_rows() {
    let out = run(b"", vec![dest("d", barcode_set(&["AAA"]))], plain());
    assert_eq!(out.stats.fragments_total, 0);
    assert_eq!(out.outputs[0].written, 0);
}

#[test]
fn crlf_rows_parse_like_lf_rows() {
    let input = b"c\t1\t2\tAAA\t1\r\nc\t3\t4\tAAA\t1\r\n";
    let out = run(input, vec![dest("d", barcode_set(&["AAA"]))], plain());
    assert_eq!(out.stats.fragments_total, 2);
    assert_eq!(out.outputs[0].written, 2);
}

#[test]
fn last_row_without_newline_still_counts() {
    let input = b"c\t1\t2\tAAA\t1\nc\t3\t4\tAAA\t1";
    let out = run(input, vec![dest("d", barcode_set(&["AAA"]))], plain());
    assert_eq!(out.stats.fragments_total, 2);
    assert_eq!(out.outputs[0].written, 2);
}

#[test]
fn order_within_destination_follows_input_order() {
    let input = b"c\t1\t2\tB\t1\nc\t3\t4\tA\t1\nc\t5\t6\tB\t2\nc\t7\t8\tA\t2\n";
    let out = run(input, vec![dest("d", barcode_set(&["A", "B"]))], plain());
    assert_eq!(out.outputs[0].data, input.to_vec());
}

#[test]
fn gzip_output_decompresses_to_plain_output() {
    let input = b"c\t1\t2\tAAA\t1\nc\t3\t9\tBBB\t4\n";
    let dests = || vec![dest("d", barcode_set(&["AAA", "BBB"]))];
    let plain = run(input, dests(), plain());
    let zipped = run(input, dests(), OutputOptions { compressed: true, header: false });
    assert_ne!(zipped.outputs[0].data, plain.outputs[0].data);
    let mut decoder = flate2::read::GzDecoder::new(zipped.outputs[0].data.as_slice());
    let mut back = Vec::new();
    std::io::Read::read_to_end(&mut decoder, &mut back).expect("not gzip");
    assert_eq!(back, plain.outputs[0].data);
}

#[test]
fn gzip_input_is_transparently_decompressed() {
    let input = b"c\t1\t2\tAAA\t1\nc\t3\t9\tBBB\t4\nbad row\n";
    let mut encoder = flate2::write::GzEncoder::new(Vec::new(), flate2::Compression::new(5));
    std::io::Write::write_all(&mut encoder, input).unwrap();
    let compressed = encoder.finish().unwrap();
    let dests = || vec![dest("d", barcode_set(&["AAA"]))];
    let from_gzip = run_split(&compressed, &dests(), plain()).expect("gzip input refused");
    let from_plain = run_split(&input.to_vec(), &dests(), plain()).expect("plain input refused");
    assert_eq!(from_gzip.stats.fragments_total, 3);
    assert_eq!(from_gzip.stats.fragments_total, from_plain.stats.fragments_total);
    assert_eq!(from_gzip.outputs[0].data, from_plain.outputs[0].data);
}

#[test]
fn short_plain_input_passes_through() {
    // Four bytes cannot carry a compression magic number.
    let input = b"a\tb\n";
    let out = run_split(&input.to_vec(), &vec![dest("d", barcode_set(&["x"]))], plain())
        .expect("short input refused");
    assert_eq!(out.stats.fragments_total, 1);
    assert_eq!(out.outputs[0].written, 0);
}

#[test]
fn malformed_gzip_input_is_a_decompression_error() {
    // A gzip magic number with a garbage body.
    let input = b"\x1f\x8b\x00\x00\x00garbage".to_vec();
    let r = run_split(&input, &vec![dest("d", barcode_set(&["x"]))], plain());
    assert!(r.is_err());
}

#[test]
fn comments_only_input_counts_nothing() {
    let input = b"# one\n# two\n";
    let out = run(input, vec![dest("d", barcode_set(&["AAA"]))], plain());
    assert_eq!(out.stats.fragments_total, 0);
    assert_eq!(out.outputs[0].written, 0);
}
