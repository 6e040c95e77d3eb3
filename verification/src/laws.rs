//! The library's laws: rendering a destination's body and parsing it back
//! with the same parser restores exactly the matched records, in order; and
//! every record the parser produces is well formed.

use vstd::prelude::*;
use crate::bytes::{
    no_byte, split_sep, lemma_split_nonempty, lemma_split_prepend, lemma_split_pieces_no_sep,
    lemma_split_pieces_preserve, lemma_split_first_prefix, TAB, NL, CR, HASH,
};
use crate::record::{
    RecordView, parse_line_spec, record_line, wf_record, lemma_line_round_trip,
    lemma_record_line_clean,
};
use crate::engine::{
    strip_cr, lines_of, is_comment, head_records, records_of, content_records, Criterion,
    criterion_matches, matched_of, rendered, header_line, output_bytes, dest_bytes,
};

verus! {

/// Rows can be taken off the front of `records_of` as well as off the back.
proof fn lemma_records_of_cons(ls: Seq<Seq<u8>>)
    requires
        ls.len() > 0,
    ensures
        records_of(ls) == head_records(ls[0]) + records_of(ls.drop_first()),
    decreases ls.len(),
{
    if ls.len() == 1 {
        assert(ls.drop_last() =~= Seq::<Seq<u8>>::empty());
        assert(ls.drop_first() =~= Seq::<Seq<u8>>::empty());
        assert(records_of(ls) =~= head_records(ls[0]) + records_of(ls.drop_first()));
    } else {
        let a = ls.drop_last();
        lemma_records_of_cons(a);
        assert(a[0] == ls[0]);
        assert(ls.drop_first().drop_last() =~= a.drop_first());
        assert(ls.drop_first().last() == ls.last());
        assert(ls.drop_first().len() > 0);
        assert(records_of(ls.drop_first()) == records_of(a.drop_first()) + head_records(ls.last()));
        assert(records_of(ls) == records_of(a) + head_records(ls.last()));
        assert(records_of(ls) =~= head_records(ls[0]) + records_of(ls.drop_first()));
    }
}

/// Records can be rendered from the front as well as from the back.
proof fn lemma_rendered_cons(rs: Seq<RecordView>)
    requires
        rs.len() > 0,
    ensures
        rendered(rs) == record_line(rs[0]) + seq![NL] + rendered(rs.drop_first()),
    decreases rs.len(),
{
    if rs.len() == 1 {
        assert(rs.drop_last() =~= Seq::<RecordView>::empty());
        assert(rs.drop_first() =~= Seq::<RecordView>::empty());
        assert(rendered(rs) =~= record_line(rs[0]) + seq![NL] + rendered(rs.drop_first()));
    } else {
        let a = rs.drop_last();
        lemma_rendered_cons(a);
        assert(a[0] == rs[0]);
        assert(rs.drop_first().drop_last() =~= a.drop_first());
        assert(rs.drop_first().last() == rs.last());
        assert(rs.drop_first().len() > 0);
        assert(rendered(rs.drop_first()) == rendered(a.drop_first()) + record_line(rs.last())
            + seq![NL]);
        assert(rendered(rs) == rendered(a) + record_line(rs.last()) + seq![NL]);
        assert(rendered(rs) =~= record_line(rs[0]) + seq![NL] + rendered(rs.drop_first()));
    }
}

/// A row that holds no line feed and does not end in a carriage return,
/// followed by a line feed, is the first row of the remainder.
proof fn lemma_lines_prepend(x: Seq<u8>, rest: Seq<u8>)
    requires
        no_byte(x, NL),
        x.len() > 0 ==> x.last() != CR,
    ensures
        lines_of(x + seq![NL] + rest) == seq![x] + lines_of(rest),
{
    let b = x + seq![NL] + rest;
    assert(b.len() > 0);
    lemma_split_prepend(x, NL, rest);
    let sr = split_sep(rest, NL);
    lemma_split_nonempty(rest, NL);
    let ps = split_sep(b, NL);
    assert(ps == seq![x] + sr);
    assert(ps.last() == sr.last());
    assert(strip_cr(x) == x);
    let f = |p: Seq<u8>| strip_cr(p);
    if rest.len() == 0 {
        assert(rest =~= Seq::<u8>::empty());
        assert(sr == seq![Seq::<u8>::empty()]);
        assert(ps.last().len() == 0);
        assert(ps.drop_last() =~= seq![x]);
        assert(lines_of(b) == seq![x].map_values(f));
        assert(seq![x].map_values(f) =~= seq![x]);
        assert(lines_of(rest) =~= Seq::<Seq<u8>>::empty());
        assert(lines_of(b) =~= seq![x] + lines_of(rest));
    } else {
        if sr.last().len() == 0 {
            assert(ps.drop_last() =~= seq![x] + sr.drop_last());
            assert(lines_of(b) == (seq![x] + sr.drop_last()).map_values(f));
            assert(lines_of(rest) == sr.drop_last().map_values(f));
            assert((seq![x] + sr.drop_last()).map_values(f) =~= seq![x] + sr.drop_last().map_values(
                f,
            ));
        } else {
            assert(lines_of(b) == (seq![x] + sr).map_values(f));
            assert(lines_of(rest) == sr.map_values(f));
            assert((seq![x] + sr).map_values(f) =~= seq![x] + sr.map_values(f));
        }
        assert(lines_of(b) =~= seq![x] + lines_of(rest));
    }
}

/// Facts about the header row: it is a comment and can carry a line feed
/// after it.
proof fn lemma_header_line_clean()
    ensures
        no_byte(header_line(), NL),
        header_line().len() > 0,
        header_line()[0] == HASH,
        header_line().last() != CR,
        is_comment(header_line()),
{
    assert(header_line().len() == 30);
    assert forall|j: int| 0 <= j < header_line().len() implies header_line()[j] != NL by {
        assert(header_line()[j] != NL);
    }
}

/// Parsing back what was rendered restores the records: the core of the
/// round-trip law, without the header.
proof fn lemma_rendered_reparses(rs: Seq<RecordView>)
    requires
        forall|k: int| 0 <= k < rs.len() ==> wf_record(#[trigger] rs[k]),
    ensures
        records_of(lines_of(rendered(rs))) == rs,
    decreases rs.len(),
{
    if rs.len() == 0 {
        assert(rendered(rs).len() == 0);
        assert(lines_of(rendered(rs)) =~= Seq::<Seq<u8>>::empty());
        assert(records_of(lines_of(rendered(rs))) =~= rs);
    } else {
        let rest = rs.drop_first();
        let line0 = record_line(rs[0]);
        lemma_rendered_cons(rs);
        assert(wf_record(rs[0]));
        lemma_record_line_clean(rs[0]);
        lemma_lines_prepend(line0, rendered(rest));
        assert(forall|k: int| 0 <= k < rest.len() ==> wf_record(#[trigger] rest[k]));
        lemma_rendered_reparses(rest);
        let ls = seq![line0] + lines_of(rendered(rest));
        assert(lines_of(rendered(rs)) == ls);
        lemma_records_of_cons(ls);
        assert(ls[0] == line0);
        assert(ls.drop_first() =~= lines_of(rendered(rest)));
        assert(!is_comment(line0));
        lemma_line_round_trip(rs[0]);
        assert(head_records(line0) == seq![rs[0]]);
        assert(records_of(lines_of(rendered(rs))) == seq![rs[0]] + rest);
        assert(seq![rs[0]] + rest =~= rs);
    }
}

/// The round-trip law: a destination body built from well-formed records —
/// with or without its header row — parses back to exactly those records,
/// in the same order.
pub proof fn lemma_output_round_trip(rs: Seq<RecordView>, header: bool)
    requires
        forall|k: int| 0 <= k < rs.len() ==> wf_record(#[trigger] rs[k]),
    ensures
        records_of(lines_of(output_bytes(rs, header))) == rs,
{
    lemma_rendered_reparses(rs);
    if header {
        lemma_header_line_clean();
        assert(output_bytes(rs, header) =~= header_line() + seq![NL] + rendered(rs));
        lemma_lines_prepend(header_line(), rendered(rs));
        let ls = seq![header_line()] + lines_of(rendered(rs));
        lemma_records_of_cons(ls);
        assert(ls[0] == header_line());
        assert(head_records(header_line()) =~= Seq::<RecordView>::empty());
        assert(ls.drop_first() =~= lines_of(rendered(rs)));
        assert(records_of(ls) =~= records_of(lines_of(rendered(rs))));
    } else {
        assert(output_bytes(rs, header) =~= rendered(rs));
    }
}

/// Every record parsed out of a sequence of line-feed-free rows is well
/// formed.
proof fn lemma_records_of_wf(ls: Seq<Seq<u8>>)
    requires
        forall|i: int| 0 <= i < ls.len() ==> no_byte(#[trigger] ls[i], NL),
    ensures
        forall|k: int|
            0 <= k < records_of(ls).len() ==> wf_record(#[trigger] records_of(ls)[k]),
    decreases ls.len(),
{
    if ls.len() > 0 {
        let a = ls.drop_last();
        assert(forall|i: int| 0 <= i < a.len() ==> no_byte(#[trigger] a[i], NL));
        lemma_records_of_wf(a);
        let l = ls.last();
        assert(no_byte(l, NL));
        if !is_comment(l) && parse_line_spec(l) is Some {
            let r = parse_line_spec(l).unwrap();
            let fs = split_sep(l, TAB);
            lemma_split_pieces_no_sep(l, TAB);
            lemma_split_pieces_preserve(l, TAB, NL);
            assert(no_byte(fs[0], TAB) && no_byte(fs[3], TAB));
            assert(no_byte(fs[0], NL) && no_byte(fs[3], NL));
            if r.chrom.len() > 0 {
                lemma_split_first_prefix(l, TAB);
                assert(fs[0][0] == l[0]);
                assert(l.len() > 0);
                assert(l[0] != HASH);
            }
            assert(wf_record(r));
        }
        assert forall|k: int| 0 <= k < records_of(ls).len() implies wf_record(
            #[trigger] records_of(ls)[k],
        ) by {
            if k < records_of(a).len() {
                assert(records_of(ls)[k] == records_of(a)[k]);
            }
        }
    }
}

/// Every record the parser draws out of an input is well formed.
pub proof fn lemma_content_records_wf(content: Seq<u8>)
    ensures
        forall|k: int|
            0 <= k < content_records(content).len() ==> wf_record(
                #[trigger] content_records(content)[k],
            ),
{
    let ls = lines_of(content);
    if content.len() > 0 {
        let ps = split_sep(content, NL);
        lemma_split_pieces_no_sep(content, NL);
        let qs = if ps.last().len() == 0 {
            ps.drop_last()
        } else {
            ps
        };
        assert(forall|i: int| 0 <= i < qs.len() ==> no_byte(#[trigger] qs[i], NL));
        assert forall|i: int| 0 <= i < ls.len() implies no_byte(#[trigger] ls[i], NL) by {
            assert(ls[i] == strip_cr(qs[i]));
            assert(no_byte(qs[i], NL));
            if qs[i].len() > 0 && qs[i].last() == CR {
                assert(forall|j: int|
                    0 <= j < qs[i].drop_last().len() ==> qs[i].drop_last()[j] == qs[i][j]);
            }
        }
    }
    lemma_records_of_wf(ls);
}

/// Filtering keeps records well formed and never lengthens the sequence.
pub proof fn lemma_matched_of_wf(rs: Seq<RecordView>, c: Criterion)
    requires
        forall|k: int| 0 <= k < rs.len() ==> wf_record(#[trigger] rs[k]),
    ensures
        matched_of(rs, c).len() <= rs.len(),
        forall|k: int|
            0 <= k < matched_of(rs, c).len() ==> wf_record(#[trigger] matched_of(rs, c)[k]),
    decreases rs.len(),
{
    if rs.len() > 0 {
        let a = rs.drop_last();
        assert(forall|k: int| 0 <= k < a.len() ==> wf_record(#[trigger] a[k]));
        lemma_matched_of_wf(a, c);
        assert forall|k: int| 0 <= k < matched_of(rs, c).len() implies wf_record(
            #[trigger] matched_of(rs, c)[k],
        ) by {
            if k < matched_of(a, c).len() {
                assert(matched_of(rs, c)[k] == matched_of(a, c)[k]);
            } else {
                assert(matched_of(rs, c)[k] == rs.last());
            }
        }
    }
}

/// The whole-run round trip: reading a destination's body back with the
/// same parser yields exactly the records of the input that match that
/// destination's criterion, in input order.
pub proof fn lemma_destination_round_trip(content: Seq<u8>, c: Criterion, header: bool)
    ensures
        content_records(dest_bytes(content_records(content), c, header)) == matched_of(
            content_records(content),
            c,
        ),
{
    lemma_content_records_wf(content);
    lemma_matched_of_wf(content_records(content), c);
    lemma_output_round_trip(matched_of(content_records(content), c), header);
}

} // verus!
