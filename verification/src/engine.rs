//! The dispatch engine: the input is cut into rows, each row is parsed or
//! skipped, and every parsed record is tested against every destination's
//! criterion and rendered into the output of each destination it matches.

use vstd::prelude::*;
use crate::bytes::{bytes_eq, split_bytes, split_sep, lemma_split_nonempty, TAB, NL, CR, HASH};
use crate::record::{
    RecordView, TabixRecord, parse_line_spec, parse_record_line, record_line, render_record_line,
};

verus! {

/// Strip one trailing carriage return, so that rows of files with either
/// line convention parse alike.
pub open spec fn strip_cr(s: Seq<u8>) -> Seq<u8> {
    if s.len() > 0 && s.last() == CR {
        s.drop_last()
    } else {
        s
    }
}

/// The rows of an input: the input split on line feeds, without the empty
/// piece a trailing line feed leaves, each row stripped of one trailing
/// carriage return. An empty input has no rows.
pub open spec fn lines_of(b: Seq<u8>) -> Seq<Seq<u8>> {
    if b.len() == 0 {
        Seq::empty()
    } else {
        let ps = split_sep(b, NL);
        let qs = if ps.last().len() == 0 {
            ps.drop_last()
        } else {
            ps
        };
        qs.map_values(|p: Seq<u8>| strip_cr(p))
    }
}

/// A comment row, skipped without being counted.
pub open spec fn is_comment(l: Seq<u8>) -> bool {
    l.len() > 0 && l[0] == HASH
}

/// How many rows are counted: every row that is not a comment, whether or
/// not it parses.
pub open spec fn row_count(ls: Seq<Seq<u8>>) -> nat
    decreases ls.len(),
{
    if ls.len() == 0 {
        0
    } else {
        row_count(ls.drop_last()) + (if is_comment(ls.last()) {
            0nat
        } else {
            1nat
        })
    }
}

/// The records a row contributes: none for a comment or an unparseable row.
pub open spec fn head_records(l: Seq<u8>) -> Seq<RecordView> {
    if is_comment(l) {
        Seq::empty()
    } else {
        match parse_line_spec(l) {
            Some(r) => seq![r],
            None => Seq::empty(),
        }
    }
}

/// The records of a row sequence, in row order.
pub open spec fn records_of(ls: Seq<Seq<u8>>) -> Seq<RecordView>
    decreases ls.len(),
{
    if ls.len() == 0 {
        Seq::empty()
    } else {
        records_of(ls.drop_last()) + head_records(ls.last())
    }
}

/// The number of counted rows of an input.
pub open spec fn total_rows(content: Seq<u8>) -> nat {
    row_count(lines_of(content))
}

/// The records of an input, in input order.
pub open spec fn content_records(content: Seq<u8>) -> Seq<RecordView> {
    records_of(lines_of(content))
}

/// A destination's match criterion: membership of the barcode in a set, or
/// a strictly half-open bound on the fragment length.
pub enum Criterion {
    BarcodeSet { values: Vec<Vec<u8>> },
    LengthRange { low: u64, high: u64 },
}

/// Whether a record matches a criterion. The length policy is strict at
/// both ends: a length equal to either bound does not match.
pub open spec fn criterion_matches(c: Criterion, r: RecordView) -> bool {
    match c {
        Criterion::BarcodeSet { values } => exists|i: int|
            0 <= i < values@.len() && values@[i]@ == r.barcode,
        Criterion::LengthRange { low, high } => low < r.end - r.start && r.end - r.start < high,
    }
}

/// The subsequence of `rs` matching `c`, in order.
pub open spec fn matched_of(rs: Seq<RecordView>, c: Criterion) -> Seq<RecordView>
    decreases rs.len(),
{
    if rs.len() == 0 {
        Seq::empty()
    } else {
        matched_of(rs.drop_last(), c) + (if criterion_matches(c, rs.last()) {
            seq![rs.last()]
        } else {
            Seq::empty()
        })
    }
}

/// The rendered rows of `rs`, each terminated by a line feed.
pub open spec fn rendered(rs: Seq<RecordView>) -> Seq<u8>
    decreases rs.len(),
{
    if rs.len() == 0 {
        Seq::empty()
    } else {
        rendered(rs.drop_last()) + record_line(rs.last()) + seq![NL]
    }
}

/// The header row, written as a comment so that reading an output back
/// skips it: `#chrom<TAB>start<TAB>end<TAB>barcode<TAB>count`.
pub open spec fn header_line() -> Seq<u8> {
    seq![
        HASH, 99u8, 104u8, 114u8, 111u8, 109u8, TAB, 115u8, 116u8, 97u8, 114u8, 116u8, TAB, 101u8,
        110u8, 100u8, TAB, 98u8, 97u8, 114u8, 99u8, 111u8, 100u8, 101u8, TAB, 99u8, 111u8, 117u8,
        110u8, 116u8,
    ]
}

/// A whole destination body: an optional header row, then the matched
/// records in input order.
pub open spec fn output_bytes(rs: Seq<RecordView>, header: bool) -> Seq<u8> {
    (if header {
        header_line() + seq![NL]
    } else {
        Seq::empty()
    }) + rendered(rs)
}

/// What one destination receives from an input's records.
pub open spec fn dest_bytes(rs: Seq<RecordView>, c: Criterion, header: bool) -> Seq<u8> {
    output_bytes(matched_of(rs, c), header)
}

/// Cuts an input into rows; mirrors `lines_of`.
pub fn split_lines(b: &Vec<u8>) -> (r: Vec<Vec<u8>>)
    ensures
        r@.map_values(|p: Vec<u8>| p@) == lines_of(b@),
{
    let ghost f = |p: Vec<u8>| p@;
    let mut out: Vec<Vec<u8>> = Vec::new();
    if b.len() == 0 {
        assert(out@.map_values(f) =~= lines_of(b@));
        return out;
    }
    let mut ps = split_bytes(b, NL);
    let ghost ss = split_sep(b@, NL);
    proof {
        lemma_split_nonempty(b@, NL);
    }
    if ps[ps.len() - 1].len() == 0 {
        ps.pop();
        proof {
            assert(ps@.map_values(f) =~= ss.drop_last());
        }
    }
    let ghost qs = ps@.map_values(f);
    let n = ps.len();
    let mut i: usize = 0;
    while i < n
        invariant
            n == ps@.len(),
            0 <= i <= n,
            qs == ps@.map_values(f),
            f == (|p: Vec<u8>| p@),
            out@.map_values(f) =~= qs.take(i as int).map_values(|p: Seq<u8>| strip_cr(p)),
        decreases n - i,
    {
        let mut q = crate::bytes::copy_bytes(&ps[i]);
        if q.len() > 0 && q[q.len() - 1] == CR {
            q.pop();
            assert(q@ =~= strip_cr(qs[i as int]));
        } else {
            assert(q@ == strip_cr(qs[i as int]));
        }
        out.push(q);
        i += 1;
        proof {
            assert(out@.map_values(f) =~= out@.drop_last().map_values(f).push(out@.last()@));
            assert(qs.take(i as int).map_values(|p: Seq<u8>| strip_cr(p)) =~= qs.take(
                i as int - 1,
            ).map_values(|p: Seq<u8>| strip_cr(p)).push(strip_cr(qs[i as int - 1])));
        }
    }
    proof {
        assert(qs.take(n as int) =~= qs);
        assert(lines_of(b@) == qs.map_values(|p: Seq<u8>| strip_cr(p)));
    }
    out
}

/// Tests a record against a criterion; mirrors `criterion_matches`.
#[verifier::loop_isolation(false)]
pub fn record_matches(c: &Criterion, r: &TabixRecord) -> (b: bool)
    ensures
        b == criterion_matches(*c, r@),
{
    match c {
        Criterion::BarcodeSet { values } => {
            proof {
                assert(*c == (Criterion::BarcodeSet { values: *values }));
                assert(criterion_matches(*c, r@) == (exists|j: int|
                    0 <= j < values@.len() && values@[j]@ == r@.barcode));
            }
            let n = values.len();
            let mut i: usize = 0;
            while i < n
                invariant
                    n == values@.len(),
                    0 <= i <= n,
                    forall|j: int| 0 <= j < i ==> values@[j]@ != r.barcode@,
                decreases n - i,
            {
                if bytes_eq(&values[i], &r.barcode) {
                    proof {
                        assert(values@[i as int]@ == r@.barcode);
                        assert(exists|j: int| 0 <= j < values@.len() && values@[j]@ == r@.barcode);
                    }
                    return true;
                }
                i += 1;
            }
            false
        },
        Criterion::LengthRange { low, high } => {
            if r.end < r.start {
                false
            } else {
                let len = r.end - r.start;
                *low < len && len < *high
            }
        },
    }
}

/// Parses a whole input: returns how many rows were counted and the records,
/// in input order. Comment rows are not counted; rows that fail to parse are
/// counted and skipped.
pub fn parse_input(content: &Vec<u8>) -> (r: (u64, Vec<TabixRecord>))
    ensures
        r.0 as nat == total_rows(content@),
        r.1@.map_values(|t: TabixRecord| t@) == content_records(content@),
{
    let ghost g = |t: TabixRecord| t@;
    let lines = split_lines(content);
    let ghost ls = lines_of(content@);
    let mut total: u64 = 0;
    let mut records: Vec<TabixRecord> = Vec::new();
    let n = lines.len();
    let mut i: usize = 0;
    proof {
        assert(ls.take(0) =~= Seq::<Seq<u8>>::empty());
    }
    while i < n
        invariant
            n == lines@.len(),
            lines@.map_values(|p: Vec<u8>| p@) == ls,
            g == (|t: TabixRecord| t@),
            0 <= i <= n,
            total <= i,
            total as nat == row_count(ls.take(i as int)),
            records@.map_values(g) =~= records_of(ls.take(i as int)),
        decreases n - i,
    {
        proof {
            assert(ls.take(i as int + 1).drop_last() =~= ls.take(i as int));
            assert(ls.take(i as int + 1).last() == ls[i as int]);
            assert(lines@[i as int]@ == ls[i as int]);
            assert(usize::MAX <= u64::MAX);
        }
        let line = &lines[i];
        let comment = line.len() > 0 && line[0] == HASH;
        if !comment {
            total = total + 1;
            match parse_record_line(line) {
                Some(t) => {
                    records.push(t);
                    proof {
                        assert(records@.map_values(g) =~= records@.drop_last().map_values(g).push(
                            records@.last()@,
                        ));
                    }
                },
                None => {},
            }
        }
        i += 1;
    }
    proof {
        assert(ls.take(n as int) =~= ls);
    }
    (total, records)
}

/// Appends all of `src` to `dst`.
fn append_bytes(dst: &mut Vec<u8>, src: &Vec<u8>)
    ensures
        final(dst)@ == old(dst)@ + src@,
{
    let mut i: usize = 0;
    while i < src.len()
        invariant
            0 <= i <= src@.len(),
            dst@ =~= old(dst)@ + src@.take(i as int),
        decreases src@.len() - i,
    {
        dst.push(src[i]);
        i += 1;
        assert(dst@ =~= old(dst)@ + src@.take(i as int));
    }
    assert(src@.take(src@.len() as int) =~= src@);
}

/// Appends the header row and its line feed.
fn push_header(dst: &mut Vec<u8>)
    ensures
        final(dst)@ == old(dst)@ + header_line() + seq![NL],
{
    let bytes: [u8; 31] = [
        HASH, 99, 104, 114, 111, 109, TAB, 115, 116, 97, 114, 116, TAB, 101, 110, 100, TAB, 98, 97,
        114, 99, 111, 100, 101, TAB, 99, 111, 117, 110, 116, NL,
    ];
    let mut i: usize = 0;
    while i < 31
        invariant
            0 <= i <= 31,
            bytes@ =~= header_line() + seq![NL],
            dst@ =~= old(dst)@ + bytes@.take(i as int),
        decreases 31 - i,
    {
        dst.push(bytes[i]);
        i += 1;
        assert(dst@ =~= old(dst)@ + bytes@.take(i as int));
    }
    assert(bytes@.take(31) =~= bytes@);
}

/// Renders the rows of one destination from the parsed records: every
/// record matching `c`, in input order, after an optional header row.
/// Returns the body and the number of records written into it.
pub fn render_destination(records: &Vec<TabixRecord>, c: &Criterion, header: bool) -> (out: (
    Vec<u8>,
    u64,
))
    ensures
        out.0@ == dest_bytes(records@.map_values(|t: TabixRecord| t@), *c, header),
        out.1 as nat == matched_of(records@.map_values(|t: TabixRecord| t@), *c).len(),
{
    let ghost g = |t: TabixRecord| t@;
    let ghost rs = records@.map_values(g);
    let mut buf: Vec<u8> = Vec::new();
    if header {
        push_header(&mut buf);
    }
    let ghost head = buf@;
    let mut written: u64 = 0;
    let n = records.len();
    let mut i: usize = 0;
    proof {
        assert(rs.take(0) =~= Seq::<RecordView>::empty());
        assert(buf@ =~= head + rendered(matched_of(rs.take(0), *c)));
    }
    while i < n
        invariant
            n == records@.len(),
            rs == records@.map_values(g),
            g == (|t: TabixRecord| t@),
            0 <= i <= n,
            written <= i,
            head == (if header {
                header_line() + seq![NL]
            } else {
                Seq::<u8>::empty()
            }),
            written as nat == matched_of(rs.take(i as int), *c).len(),
            buf@ =~= head + rendered(matched_of(rs.take(i as int), *c)),
        decreases n - i,
    {
        proof {
            assert(rs.take(i as int + 1).drop_last() =~= rs.take(i as int));
            assert(rs.take(i as int + 1).last() == rs[i as int]);
            assert(records@[i as int]@ == rs[i as int]);
            assert(usize::MAX <= u64::MAX);
        }
        let ghost m = matched_of(rs.take(i as int), *c);
        if record_matches(c, &records[i]) {
            let line = render_record_line(&records[i]);
            append_bytes(&mut buf, &line);
            buf.push(NL);
            written = written + 1;
            proof {
                let m2 = matched_of(rs.take(i as int + 1), *c);
                assert(m2 == m + seq![rs[i as int]]);
                assert(m2.drop_last() =~= m);
                assert(m2.last() == rs[i as int]);
                assert(rendered(m2) == rendered(m2.drop_last()) + record_line(m2.last()) + seq![
                    NL,
                ]);
                assert(buf@ =~= head + rendered(m2));
            }
        } else {
            proof {
                assert(matched_of(rs.take(i as int + 1), *c) =~= m);
            }
        }
        i += 1;
    }
    proof {
        assert(rs.take(n as int) =~= rs);
    }
    (buf, written)
}

} // verus!
