//! The fragment record: a five-field, tab-delimited row. This module gives
//! the record type, its decimal field codec, the row parser and renderer,
//! and the proof that rendering then parsing restores the record.

use vstd::prelude::*;
use crate::bytes::{
    no_byte, split_bytes, split_sep, lemma_split_whole, lemma_split_prepend, TAB, NL, CR, HASH,
};
use crate::utf8::{is_utf8, check_utf8};

verus! {

/// One parsed fragment row: chromosome, half-open genomic coordinates,
/// cell barcode, and a non-negative count. Text fields are byte strings
/// (valid UTF-8 when produced by the parser).
pub struct TabixRecord {
    pub chrom: Vec<u8>,
    pub start: u64,
    pub end: u64,
    pub barcode: Vec<u8>,
    pub count: u64,
}

/// The mathematical image of a record.
pub ghost struct RecordView {
    pub chrom: Seq<u8>,
    pub start: u64,
    pub end: u64,
    pub barcode: Seq<u8>,
    pub count: u64,
}

impl View for TabixRecord {
    type V = RecordView;

    open spec fn view(&self) -> RecordView {
        RecordView {
            chrom: self.chrom@,
            start: self.start,
            end: self.end,
            barcode: self.barcode@,
            count: self.count,
        }
    }
}

/// An ASCII decimal digit.
pub open spec fn is_digit(b: u8) -> bool {
    48 <= b <= 57
}

/// Non-empty and all digits.
pub open spec fn all_digits(s: Seq<u8>) -> bool {
    s.len() > 0 && forall|j: int| 0 <= j < s.len() ==> is_digit(#[trigger] s[j])
}

/// The value of a digit string.
pub open spec fn dec_val(s: Seq<u8>) -> nat
    decreases s.len(),
{
    if s.len() == 0 {
        0
    } else {
        (10 * dec_val(s.drop_last()) + (s.last() - 48)) as nat
    }
}

/// What a numeric field means: its value, if the field is a plain digit
/// string whose value fits in a `u64`; otherwise nothing.
pub open spec fn parse_u64_spec(s: Seq<u8>) -> Option<u64> {
    if all_digits(s) && dec_val(s) <= u64::MAX {
        Some(dec_val(s) as u64)
    } else {
        None
    }
}

/// The canonical decimal rendering of `n` (no sign, no leading zero except
/// for zero itself).
pub open spec fn dec_str(n: u64) -> Seq<u8>
    decreases n,
{
    if n < 10 {
        seq![(48 + n) as u8]
    } else {
        dec_str(n / 10) + seq![(48 + n % 10) as u8]
    }
}

pub proof fn lemma_dec_str_digits(n: u64)
    ensures
        all_digits(dec_str(n)),
    decreases n,
{
    if n >= 10 {
        lemma_dec_str_digits(n / 10);
        let s = dec_str(n);
        let a = dec_str(n / 10);
        assert forall|j: int| 0 <= j < s.len() implies is_digit(#[trigger] s[j]) by {
            if j < a.len() {
                assert(s[j] == a[j]);
            }
        }
    }
}

/// Rendering then evaluating a decimal gives the number back.
pub proof fn lemma_dec_str_val(n: u64)
    ensures
        dec_val(dec_str(n)) == n,
    decreases n,
{
    if n < 10 {
        let s = dec_str(n);
        assert(s.drop_last() =~= Seq::<u8>::empty());
        assert(dec_val(s.drop_last()) == 0);
        assert(s.last() == (48 + n) as u8);
        assert(dec_val(s) == (10 * dec_val(s.drop_last()) + (s.last() - 48)) as nat);
    } else {
        lemma_dec_str_val(n / 10);
        let a = dec_str(n / 10);
        let s = dec_str(n);
        assert(s.drop_last() =~= a);
        assert(s.last() == (48 + n % 10) as u8);
        assert(dec_val(s) == (10 * dec_val(s.drop_last()) + (s.last() - 48)) as nat);
        assert(10 * (n / 10) + n % 10 == n) by (nonlinear_arith);
    }
}

/// Every digit string parses to its value; in particular renderings do.
pub proof fn lemma_dec_str_parses(n: u64)
    ensures
        parse_u64_spec(dec_str(n)) == Some(n),
{
    lemma_dec_str_digits(n);
    lemma_dec_str_val(n);
}

/// Digit prefixes never shrink in value.
proof fn lemma_dec_val_prefix_mono(s: Seq<u8>, i: int)
    requires
        0 <= i <= s.len(),
        forall|j: int| 0 <= j < s.len() ==> is_digit(#[trigger] s[j]),
    ensures
        dec_val(s.take(i)) <= dec_val(s),
    decreases s.len() - i,
{
    if i < s.len() {
        lemma_dec_val_prefix_mono(s, i + 1);
        assert(s.take(i + 1).drop_last() =~= s.take(i));
        assert(s.take(i + 1).last() == s[i]);
        assert(is_digit(s[i]));
        assert(dec_val(s.take(i + 1)) == 10 * dec_val(s.take(i)) + (s.take(i + 1).last() - 48));
    } else {
        assert(s.take(i) =~= s);
    }
}

/// Evaluates a numeric field; mirrors `parse_u64_spec`.
pub fn parse_u64(s: &Vec<u8>) -> (r: Option<u64>)
    ensures
        r == parse_u64_spec(s@),
{
    if s.len() == 0 {
        return None;
    }
    let mut acc: u64 = 0;
    let mut i: usize = 0;
    while i < s.len()
        invariant
            0 <= i <= s@.len(),
            s@.len() > 0,
            forall|j: int| 0 <= j < i ==> is_digit(#[trigger] s@[j]),
            acc == dec_val(s@.take(i as int)),
        decreases s@.len() - i,
    {
        let b = s[i];
        if !(48 <= b && b <= 57) {
            assert(!all_digits(s@));
            return None;
        }
        let d: u64 = (b - 48) as u64;
        proof {
            assert(s@.take(i + 1).drop_last() =~= s@.take(i as int));
            assert(dec_val(s@.take(i + 1)) == 10 * dec_val(s@.take(i as int)) + d);
        }
        if acc > (u64::MAX - d) / 10 {
            proof {
                assert(dec_val(s@.take(i + 1)) > u64::MAX) by {
                    assert(acc >= (u64::MAX - d) / 10 + 1);
                    assert(10 * acc + d > u64::MAX) by (nonlinear_arith)
                        requires
                            acc >= (u64::MAX - d) / 10 + 1,
                            0 <= d <= 9,
                    ;
                }
                if all_digits(s@) {
                    lemma_dec_val_prefix_mono(s@, i + 1);
                    assert(dec_val(s@) > u64::MAX);
                }
                assert(parse_u64_spec(s@) is None);
            }
            return None;
        }
        acc = acc * 10 + d;
        i += 1;
    }
    proof {
        assert(s@.take(s@.len() as int) =~= s@);
        assert(all_digits(s@));
    }
    Some(acc)
}

/// Appends the decimal rendering of `n`; mirrors `dec_str`.
pub fn push_u64(out: &mut Vec<u8>, n: u64)
    ensures
        final(out)@ == old(out)@ + dec_str(n),
    decreases n,
{
    if n < 10 {
        out.push(48 + n as u8);
        assert(out@ =~= old(out)@ + dec_str(n));
    } else {
        push_u64(out, n / 10);
        out.push(48 + (n % 10) as u8);
        assert(out@ =~= old(out)@ + dec_str(n));
    }
}

/// The rendered row for a record: its five fields, tab-delimited.
pub open spec fn record_line(r: RecordView) -> Seq<u8> {
    r.chrom + seq![TAB] + dec_str(r.start) + seq![TAB] + dec_str(r.end) + seq![TAB] + r.barcode
        + seq![TAB] + dec_str(r.count)
}

/// What a row means: a record exactly when it has five tab-delimited fields,
/// the coordinates and count are in-range digit strings, the interval does
/// not run backwards, and the text fields are valid UTF-8. Anything else is
/// a row-local parse failure.
pub open spec fn parse_line_spec(line: Seq<u8>) -> Option<RecordView> {
    let fs = split_sep(line, TAB);
    if fs.len() == 5 {
        match (parse_u64_spec(fs[1]), parse_u64_spec(fs[2]), parse_u64_spec(fs[4])) {
            (Some(start), Some(end), Some(count)) => if start <= end && is_utf8(fs[0]) && is_utf8(
                fs[3],
            ) {
                Some(RecordView { chrom: fs[0], start, end, barcode: fs[3], count })
            } else {
                None
            },
            _ => None,
        }
    } else {
        None
    }
}

/// Parses one row; mirrors `parse_line_spec`.
pub fn parse_record_line(line: &Vec<u8>) -> (r: Option<TabixRecord>)
    ensures
        match r {
            Some(t) => parse_line_spec(line@) == Some(t@),
            None => parse_line_spec(line@) is None,
        },
{
    let mut fields = split_bytes(line, TAB);
    let ghost fs = split_sep(line@, TAB);
    proof {
        assert(fields@.map_values(|p: Vec<u8>| p@).len() == fields@.len());
    }
    if fields.len() != 5 {
        return None;
    }
    proof {
        assert(fields@[0]@ == fs[0] && fields@[1]@ == fs[1] && fields@[2]@ == fs[2] && fields@[3]@
            == fs[3] && fields@[4]@ == fs[4]);
    }
    let start = match parse_u64(&fields[1]) {
        Some(v) => v,
        None => { return None; },
    };
    let end = match parse_u64(&fields[2]) {
        Some(v) => v,
        None => { return None; },
    };
    let count = match parse_u64(&fields[4]) {
        Some(v) => v,
        None => { return None; },
    };
    if start > end {
        return None;
    }
    if !check_utf8(&fields[0]) {
        return None;
    }
    if !check_utf8(&fields[3]) {
        return None;
    }
    let _ = fields.pop();
    let barcode = match fields.pop() {
        Some(p) => p,
        None => { return None; },
    };
    let _ = fields.pop();
    let _ = fields.pop();
    let chrom = match fields.pop() {
        Some(p) => p,
        None => { return None; },
    };
    proof {
        assert(chrom@ == fs[0] && barcode@ == fs[3]);
    }
    Some(TabixRecord { chrom, start, end, barcode, count })
}

/// Renders one record as a row; mirrors `record_line`.
pub fn render_record_line(r: &TabixRecord) -> (out: Vec<u8>)
    ensures
        out@ == record_line(r@),
{
    let mut out: Vec<u8> = Vec::new();
    let mut i: usize = 0;
    while i < r.chrom.len()
        invariant
            0 <= i <= r.chrom@.len(),
            out@ =~= r.chrom@.take(i as int),
        decreases r.chrom@.len() - i,
    {
        out.push(r.chrom[i]);
        i += 1;
        assert(out@ =~= r.chrom@.take(i as int));
    }
    assert(out@ =~= r.chrom@);
    out.push(TAB);
    push_u64(&mut out, r.start);
    out.push(TAB);
    push_u64(&mut out, r.end);
    let mut j: usize = 0;
    out.push(TAB);
    let ghost mid = out@;
    while j < r.barcode.len()
        invariant
            0 <= j <= r.barcode@.len(),
            out@ =~= mid + r.barcode@.take(j as int),
        decreases r.barcode@.len() - j,
    {
        out.push(r.barcode[j]);
        j += 1;
        assert(out@ =~= mid + r.barcode@.take(j as int));
    }
    assert(r.barcode@.take(r.barcode@.len() as int) =~= r.barcode@);
    out.push(TAB);
    push_u64(&mut out, r.count);
    assert(out@ =~= record_line(r@));
    out
}

/// A record that a rendered row can carry: the text fields hold neither
/// separator, the chromosome cannot be mistaken for a comment, the interval
/// does not run backwards, and the text fields are valid UTF-8. Every record
/// the parser produces is of this shape.
pub open spec fn wf_record(r: RecordView) -> bool {
    &&& no_byte(r.chrom, TAB)
    &&& no_byte(r.chrom, NL)
    &&& no_byte(r.barcode, TAB)
    &&& no_byte(r.barcode, NL)
    &&& (r.chrom.len() > 0 ==> r.chrom[0] != HASH)
    &&& r.start <= r.end
    &&& is_utf8(r.chrom)
    &&& is_utf8(r.barcode)
}

/// A rendered row holds no newline, does not look like a comment, and does
/// not end in a carriage return.
pub proof fn lemma_record_line_clean(r: RecordView)
    requires
        wf_record(r),
    ensures
        no_byte(record_line(r), NL),
        record_line(r).len() > 0,
        record_line(r)[0] != HASH,
        record_line(r).last() != CR,
        record_line(r).last() != NL,
{
    let line = record_line(r);
    lemma_dec_str_digits(r.start);
    lemma_dec_str_digits(r.end);
    lemma_dec_str_digits(r.count);
    let tail = dec_str(r.count);
    assert(line.last() == tail.last());
    assert(is_digit(tail.last()));
    if r.chrom.len() > 0 {
        assert(line[0] == r.chrom[0]);
    } else {
        assert(line[0] == TAB);
    }
    assert forall|j: int| 0 <= j < line.len() implies line[j] != NL by {
        lemma_record_line_byte(r, j);
    }
}

/// Each byte of a rendered row comes from a field or is a tab.
proof fn lemma_record_line_byte(r: RecordView, j: int)
    requires
        0 <= j < record_line(r).len(),
    ensures
        record_line(r)[j] == TAB || r.chrom.contains(record_line(r)[j]) || r.barcode.contains(
            record_line(r)[j],
        ) || is_digit(record_line(r)[j]),
{
    lemma_dec_str_digits(r.start);
    lemma_dec_str_digits(r.end);
    lemma_dec_str_digits(r.count);
}

/// Rendering a well-formed record and parsing the row back restores the
/// record exactly.
pub proof fn lemma_line_round_trip(r: RecordView)
    requires
        wf_record(r),
    ensures
        parse_line_spec(record_line(r)) == Some(r),
{
    let line = record_line(r);
    lemma_dec_str_digits(r.start);
    lemma_dec_str_digits(r.end);
    lemma_dec_str_digits(r.count);
    let s1 = dec_str(r.start);
    let s2 = dec_str(r.end);
    let s3 = dec_str(r.count);
    let rest1 = s1 + seq![TAB] + s2 + seq![TAB] + r.barcode + seq![TAB] + s3;
    let rest2 = s2 + seq![TAB] + r.barcode + seq![TAB] + s3;
    let rest3 = r.barcode + seq![TAB] + s3;
    assert(no_byte(s1, TAB) && no_byte(s2, TAB) && no_byte(s3, TAB));
    assert(line =~= r.chrom + seq![TAB] + rest1);
    lemma_split_prepend(r.chrom, TAB, rest1);
    assert(rest1 =~= s1 + seq![TAB] + rest2);
    lemma_split_prepend(s1, TAB, rest2);
    assert(rest2 =~= s2 + seq![TAB] + rest3);
    lemma_split_prepend(s2, TAB, rest3);
    lemma_split_prepend(r.barcode, TAB, s3);
    lemma_split_whole(s3, TAB);
    let fs = split_sep(line, TAB);
    assert(fs =~= seq![r.chrom, s1, s2, r.barcode, s3]);
    lemma_dec_str_parses(r.start);
    lemma_dec_str_parses(r.end);
    lemma_dec_str_parses(r.count);
    assert(parse_line_spec(line) == Some(r));
}

} // verus!
