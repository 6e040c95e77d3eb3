//! Byte-sequence utilities shared by the line and field layers: splitting a
//! byte sequence on a separator, and the lemmas that let a renderer be run
//! backwards through the splitter.

use vstd::prelude::*;

verus! {

/// Tab, the field separator.
pub const TAB: u8 = 9;

/// Line feed, the row separator.
pub const NL: u8 = 10;

/// Carriage return, tolerated (and stripped) at the end of a row.
pub const CR: u8 = 13;

/// `#`, the comment marker.
pub const HASH: u8 = 35;

/// True when `c` occurs nowhere in `s`.
pub open spec fn no_byte(s: Seq<u8>, c: u8) -> bool {
    forall|j: int| 0 <= j < s.len() ==> s[j] != c
}

/// Split `b` on the separator `c`. The result always has one piece more than
/// `b` has separators; splitting the empty sequence gives one empty piece.
pub open spec fn split_sep(b: Seq<u8>, c: u8) -> Seq<Seq<u8>>
    decreases b.len(),
{
    if b.len() == 0 {
        seq![Seq::<u8>::empty()]
    } else if b[0] == c {
        seq![Seq::<u8>::empty()] + split_sep(b.drop_first(), c)
    } else {
        let rest = split_sep(b.drop_first(), c);
        seq![seq![b[0]] + rest[0]] + rest.drop_first()
    }
}

pub proof fn lemma_split_nonempty(b: Seq<u8>, c: u8)
    ensures
        split_sep(b, c).len() >= 1,
    decreases b.len(),
{
    if b.len() != 0 && b[0] != c {
        lemma_split_nonempty(b.drop_first(), c);
    }
}

/// A sequence with no separator splits into itself alone.
pub proof fn lemma_split_whole(b: Seq<u8>, c: u8)
    requires
        no_byte(b, c),
    ensures
        split_sep(b, c) =~= seq![b],
    decreases b.len(),
{
    if b.len() != 0 {
        assert(b[0] != c);
        assert(no_byte(b.drop_first(), c)) by {
            assert(forall|j: int|
                0 <= j < b.drop_first().len() ==> b.drop_first()[j] == b[j + 1]);
        }
        lemma_split_whole(b.drop_first(), c);
        let rest = split_sep(b.drop_first(), c);
        assert(rest == seq![b.drop_first()]);
        assert(rest[0] == b.drop_first());
        assert(rest.drop_first() =~= Seq::<Seq<u8>>::empty());
        assert(seq![b[0]] + b.drop_first() =~= b);
        assert(split_sep(b, c) == seq![seq![b[0]] + rest[0]] + rest.drop_first());
        assert(split_sep(b, c).len() == 1);
        assert(split_sep(b, c)[0] == seq![b[0]] + rest[0]);
        assert(split_sep(b, c)[0] == b);
    } else {
        assert(b =~= Seq::<u8>::empty());
    }
}

/// Peeling the first piece off a split: if `piece` holds no separator, then
/// `piece + [c] + rest` splits into `piece` followed by the split of `rest`.
pub proof fn lemma_split_prepend(piece: Seq<u8>, c: u8, rest: Seq<u8>)
    requires
        no_byte(piece, c),
    ensures
        split_sep(piece + seq![c] + rest, c) =~= seq![piece] + split_sep(rest, c),
    decreases piece.len(),
{
    let b = piece + seq![c] + rest;
    if piece.len() == 0 {
        assert(b[0] == c);
        assert(b.drop_first() =~= rest);
        assert(piece =~= Seq::<u8>::empty());
    } else {
        assert(b[0] == piece[0]);
        assert(b.drop_first() =~= piece.drop_first() + seq![c] + rest);
        lemma_split_prepend(piece.drop_first(), c, rest);
        let inner = split_sep(piece.drop_first() + seq![c] + rest, c);
        assert(inner =~= seq![piece.drop_first()] + split_sep(rest, c));
        assert(seq![b[0]] + inner[0] =~= piece);
        assert(inner.drop_first() =~= split_sep(rest, c));
    }
}

/// Every piece of a split is free of the separator.
pub proof fn lemma_split_pieces_no_sep(b: Seq<u8>, c: u8)
    ensures
        forall|i: int| 0 <= i < split_sep(b, c).len() ==> no_byte(#[trigger] split_sep(b, c)[i], c),
    decreases b.len(),
{
    if b.len() != 0 {
        lemma_split_pieces_no_sep(b.drop_first(), c);
        if b[0] != c {
            lemma_split_nonempty(b.drop_first(), c);
            let rest = split_sep(b.drop_first(), c);
            let head = seq![b[0]] + rest[0];
            assert(no_byte(head, c));
            assert forall|i: int| 0 <= i < split_sep(b, c).len() implies no_byte(
                #[trigger] split_sep(b, c)[i],
                c,
            ) by {
                if i > 0 {
                    assert(split_sep(b, c)[i] == rest[i]);
                }
            }
        }
    }
}

/// Splitting never introduces bytes: a byte absent from `b` is absent from
/// every piece.
pub proof fn lemma_split_pieces_preserve(b: Seq<u8>, c: u8, d: u8)
    requires
        no_byte(b, d),
    ensures
        forall|i: int| 0 <= i < split_sep(b, c).len() ==> no_byte(#[trigger] split_sep(b, c)[i], d),
    decreases b.len(),
{
    if b.len() != 0 {
        assert(no_byte(b.drop_first(), d));
        lemma_split_pieces_preserve(b.drop_first(), c, d);
        if b[0] != c {
            lemma_split_nonempty(b.drop_first(), c);
            let rest = split_sep(b.drop_first(), c);
            assert(no_byte(seq![b[0]] + rest[0], d));
            assert forall|i: int| 0 <= i < split_sep(b, c).len() implies no_byte(
                #[trigger] split_sep(b, c)[i],
                d,
            ) by {
                if i > 0 {
                    assert(split_sep(b, c)[i] == rest[i]);
                }
            }
        }
    }
}

/// The first piece of a split is a prefix of the whole.
pub proof fn lemma_split_first_prefix(b: Seq<u8>, c: u8)
    ensures
        split_sep(b, c)[0].len() <= b.len(),
        forall|j: int| 0 <= j < split_sep(b, c)[0].len() ==> split_sep(b, c)[0][j] == b[j],
    decreases b.len(),
{
    if b.len() != 0 && b[0] != c {
        lemma_split_first_prefix(b.drop_first(), c);
        lemma_split_nonempty(b.drop_first(), c);
        let rest = split_sep(b.drop_first(), c);
        let head = seq![b[0]] + rest[0];
        assert(split_sep(b, c)[0] == head);
        assert forall|j: int| 0 <= j < head.len() implies head[j] == b[j] by {
            if j > 0 {
                assert(rest[0][j - 1] == b.drop_first()[j - 1]);
            }
        }
    }
}

/// Equality of two byte vectors, proved by scanning.
pub fn bytes_eq(a: &Vec<u8>, b: &Vec<u8>) -> (r: bool)
    ensures
        r == (a@ == b@),
{
    if a.len() != b.len() {
        assert(a@ != b@);
        return false;
    }
    let n = a.len();
    let mut i: usize = 0;
    while i < n
        invariant
            n == a@.len() == b@.len(),
            0 <= i <= n,
            forall|j: int| 0 <= j < i ==> a@[j] == b@[j],
        decreases n - i,
    {
        if a[i] != b[i] {
            return false;
        }
        i += 1;
    }
    assert(a@ =~= b@);
    true
}

/// A fresh copy of a byte vector.
pub fn copy_bytes(a: &Vec<u8>) -> (r: Vec<u8>)
    ensures
        r@ == a@,
{
    let mut out: Vec<u8> = Vec::new();
    let mut i: usize = 0;
    while i < a.len()
        invariant
            0 <= i <= a@.len(),
            out@ =~= a@.take(i as int),
        decreases a@.len() - i,
    {
        out.push(a[i]);
        i += 1;
        assert(out@ =~= a@.take(i as int));
    }
    assert(a@.take(a@.len() as int) =~= a@);
    out
}

/// Splits `b` on `c`, executably; mirrors `split_sep`.
pub fn split_bytes(b: &Vec<u8>, c: u8) -> (r: Vec<Vec<u8>>)
    ensures
        r@.map_values(|p: Vec<u8>| p@) == split_sep(b@, c),
{
    let ghost f = |p: Vec<u8>| p@;
    let mut pieces: Vec<Vec<u8>> = Vec::new();
    let mut cur: Vec<u8> = Vec::new();
    let mut i: usize = 0;
    proof {
        lemma_split_nonempty(b@, c);
        let ss = split_sep(b@, c);
        assert(b@.skip(0) =~= b@);
        assert(Seq::<u8>::empty() + ss[0] =~= ss[0]);
        assert(cons_front(Seq::<u8>::empty(), ss) =~= ss);
    }
    while i < b.len()
        invariant
            0 <= i <= b@.len(),
            f == (|p: Vec<u8>| p@),
            split_sep(b@, c) =~= pieces@.map_values(f) + cons_front(
                cur@,
                split_sep(b@.skip(i as int), c),
            ),
        decreases b@.len() - i,
    {
        let ghost rest = split_sep(b@.skip(i as int), c);
        proof {
            assert(b@.skip(i as int).len() > 0);
            assert(b@.skip(i as int)[0] == b@[i as int]);
            assert(b@.skip(i as int).drop_first() =~= b@.skip(i as int + 1));
            lemma_split_nonempty(b@.skip(i as int + 1), c);
        }
        if b[i] == c {
            proof {
                assert(rest =~= seq![Seq::<u8>::empty()] + split_sep(b@.skip(i as int + 1), c));
                let next = split_sep(b@.skip(i as int + 1), c);
                assert(cons_front(cur@, rest) =~= seq![cur@] + next);
                assert(cons_front(Seq::<u8>::empty(), next) =~= next);
            }
            pieces.push(cur);
            cur = Vec::new();
            proof {
                assert(pieces@.map_values(f) =~= pieces@.drop_last().map_values(f).push(
                    pieces@.last()@,
                ));
            }
        } else {
            let ghost next = split_sep(b@.skip(i as int + 1), c);
            proof {
                assert(rest =~= cons_front(seq![b@[i as int]], next));
                assert(next.len() >= 1);
                let inner = cons_front(seq![b@[i as int]], next);
                assert(inner[0] == seq![b@[i as int]] + next[0]);
                assert(inner.drop_first() =~= next.drop_first());
                assert(cur@ + (seq![b@[i as int]] + next[0]) =~= cur@.push(b@[i as int]) + next[0]);
                assert(cons_front(cur@, inner) =~= cons_front(cur@.push(b@[i as int]), next));
            }
            cur.push(b[i]);
        }
        i += 1;
    }
    proof {
        assert(b@.skip(b@.len() as int) =~= Seq::<u8>::empty());
        assert(split_sep(Seq::<u8>::empty(), c) =~= seq![Seq::<u8>::empty()]);
        assert(cons_front(cur@, seq![Seq::<u8>::empty()]) =~= seq![cur@]);
    }
    pieces.push(cur);
    proof {
        assert(pieces@.map_values(f) =~= pieces@.drop_last().map_values(f).push(pieces@.last()@));
        assert(pieces@.map_values(f) =~= split_sep(b@, c));
    }
    pieces
}

/// `x` glued onto the front of the first piece of `ss`.
pub open spec fn cons_front(x: Seq<u8>, ss: Seq<Seq<u8>>) -> Seq<Seq<u8>> {
    seq![x + ss[0]] + ss.drop_first()
}

} // verus!
