//! The byte-level model of line splitting.
//!
//! A span is a contiguous run of file bytes.  `segs` cuts a byte sequence at
//! every separator: the first element is the head fragment (bytes before the
//! first separator), the last is the tail fragment (bytes after the last
//! separator), and everything in between is a complete line.  All scanner and
//! reconciliation contracts are stated over this one function.

use vstd::prelude::*;

verus! {

/// The line separator byte (`\n`).
pub const SEP: u8 = 10;

/// Longest line (in bytes, separator excluded) the scanner accepts; anything
/// longer is reported as a fatal length violation, never truncated.
pub const LINE_LEN: usize = 64;

/// Splits `s` at every separator byte.  The result always has one element
/// more than `s` has separators: head fragment, complete lines, tail
/// fragment.  An empty `s` yields one empty segment.
pub open spec fn segs(s: Seq<u8>) -> Seq<Seq<u8>>
    decreases s.len(),
{
    if s.len() == 0 {
        seq![Seq::<u8>::empty()]
    } else if s[0] == SEP {
        seq![Seq::<u8>::empty()] + segs(s.drop_first())
    } else {
        let rest = segs(s.drop_first());
        seq![seq![s[0]] + rest.first()] + rest.drop_first()
    }
}

/// Number of separator bytes in `s`.
pub open spec fn nsep(s: Seq<u8>) -> int {
    segs(s).len() - 1
}

/// Does `s` contain at least one separator byte?
pub open spec fn has_sep(s: Seq<u8>) -> bool {
    segs(s).len() >= 2
}

/// The head fragment: bytes before the first separator (all of `s` if it has
/// no separator).
pub open spec fn head_of(s: Seq<u8>) -> Seq<u8> {
    segs(s).first()
}

/// The bytes after the last separator (all of `s` if it has no separator).
pub open spec fn trail_of(s: Seq<u8>) -> Seq<u8> {
    segs(s).last()
}

/// The tail fragment a scanner records for a span: the bytes after the last
/// separator, or nothing when the span has no separator at all (its bytes
/// are then all part of the head fragment).
pub open spec fn tail_msg(s: Seq<u8>) -> Seq<u8> {
    if has_sep(s) {
        trail_of(s)
    } else {
        Seq::<u8>::empty()
    }
}

/// The complete lines a scanner yields for a span: every segment strictly
/// between the head and the tail fragment.
pub open spec fn body_of(s: Seq<u8>) -> Seq<Seq<u8>> {
    if has_sep(s) {
        segs(s).subrange(1, segs(s).len() - 1)
    } else {
        Seq::<Seq<u8>>::empty()
    }
}

/// How many complete lines a scanner yields for a span.
pub open spec fn scan_count(s: Seq<u8>) -> int {
    body_of(s).len() as int
}

/// Does `s` hold a line or fragment longer than [`LINE_LEN`]?
pub open spec fn oversize(s: Seq<u8>) -> bool {
    exists|i: int| 0 <= i < segs(s).len() && segs(s)[i].len() > LINE_LEN
}

/// Every separator-terminated line of `s` is nonempty.
pub open spec fn no_empty_lines(s: Seq<u8>) -> bool {
    forall|i: int| 0 <= i < segs(s).len() - 1 ==> segs(s)[i].len() > 0
}

pub proof fn lemma_segs_len(s: Seq<u8>)
    ensures
        segs(s).len() >= 1,
    decreases s.len(),
{
    if s.len() == 0 {
    } else {
        lemma_segs_len(s.drop_first());
    }
}

/// How `segs` acts on concatenation: the segments of `a + b` are the
/// terminated segments of `a`, then the tail fragment of `a` joined with the
/// head fragment of `b`, then the remaining segments of `b`.
pub proof fn lemma_segs_concat(a: Seq<u8>, b: Seq<u8>)
    ensures
        segs(a + b) == segs(a).drop_last() + seq![trail_of(a) + head_of(b)]
            + segs(b).drop_first(),
    decreases a.len(),
{
    lemma_segs_len(a);
    lemma_segs_len(b);
    if a.len() == 0 {
        assert(a + b =~= b);
        assert(segs(a) =~~= seq![Seq::<u8>::empty()]);
        assert(trail_of(a) + head_of(b) =~= head_of(b));
        assert(segs(a).drop_last() + seq![trail_of(a) + head_of(b)] + segs(b).drop_first()
            =~~= seq![segs(b).first()] + segs(b).drop_first());
        assert(seq![segs(b).first()] + segs(b).drop_first() =~~= segs(b));
    } else {
        let a2 = a.drop_first();
        lemma_segs_len(a2);
        lemma_segs_concat(a2, b);
        assert((a + b).len() > 0);
        assert((a + b)[0] == a[0]);
        assert((a + b).drop_first() =~= a2 + b);
        if a[0] == SEP {
            assert(segs(a + b) =~~= seq![Seq::<u8>::empty()] + segs(a2 + b));
            assert(segs(a) =~~= seq![Seq::<u8>::empty()] + segs(a2));
            assert(segs(a).drop_last() =~~= seq![Seq::<u8>::empty()] + segs(a2).drop_last());
            assert(trail_of(a) == segs(a2).last());
            assert(segs(a + b) =~~= segs(a).drop_last() + seq![trail_of(a) + head_of(b)]
                + segs(b).drop_first());
        } else {
            let rest = segs(a2 + b);
            let ra = segs(a2);
            assert(segs(a + b) =~~= seq![seq![a[0]] + rest.first()] + rest.drop_first());
            assert(segs(a) =~~= seq![seq![a[0]] + ra.first()] + ra.drop_first());
            assert(rest =~~= ra.drop_last() + seq![ra.last() + head_of(b)]
                + segs(b).drop_first());
            if ra.len() == 1 {
                assert(rest.first() =~= ra.first() + head_of(b));
                assert(rest.drop_first() =~~= segs(b).drop_first());
                assert(segs(a) =~~= seq![seq![a[0]] + ra.first()]);
                assert(trail_of(a) =~= seq![a[0]] + ra.first());
                assert(seq![a[0]] + (ra.first() + head_of(b))
                    =~= (seq![a[0]] + ra.first()) + head_of(b));
                assert(segs(a + b) =~~= segs(a).drop_last()
                    + seq![trail_of(a) + head_of(b)] + segs(b).drop_first());
            } else {
                assert(rest.first() =~= ra.first());
                assert(rest.drop_first() =~~= ra.drop_last().drop_first()
                    + seq![ra.last() + head_of(b)] + segs(b).drop_first());
                assert(segs(a).drop_last() =~~= seq![seq![a[0]] + ra.first()]
                    + ra.drop_first().drop_last());
                assert(ra.drop_first().drop_last() =~~= ra.drop_last().drop_first());
                assert(trail_of(a) == ra.last());
                assert(segs(a + b) =~~= segs(a).drop_last()
                    + seq![trail_of(a) + head_of(b)] + segs(b).drop_first());
            }
        }
    }
}

/// How `segs` acts on appending one byte: a separator opens a fresh empty
/// segment, any other byte extends the last segment.
pub proof fn lemma_segs_push(s: Seq<u8>, x: u8)
    ensures
        segs(s.push(x)) == if x == SEP {
            segs(s).push(Seq::<u8>::empty())
        } else {
            segs(s).drop_last().push(trail_of(s).push(x))
        },
{
    lemma_segs_len(s);
    lemma_segs_concat(s, seq![x]);
    assert(s.push(x) =~= s + seq![x]);
    assert(seq![x].drop_first() =~= Seq::<u8>::empty());
    assert(segs(Seq::<u8>::empty()) =~~= seq![Seq::<u8>::empty()]);
    if x == SEP {
        assert(segs(seq![x]) =~~= seq![Seq::<u8>::empty(), Seq::<u8>::empty()]);
        assert(trail_of(s) + head_of(seq![x]) =~= trail_of(s));
        assert(segs(s).drop_last() + seq![trail_of(s)] + segs(seq![x]).drop_first()
            =~~= segs(s).push(Seq::<u8>::empty()));
    } else {
        assert(segs(seq![x]) =~~= seq![seq![x]]);
        assert(trail_of(s) + head_of(seq![x]) =~= trail_of(s).push(x));
        assert(segs(s).drop_last() + seq![trail_of(s).push(x)] + segs(seq![x]).drop_first()
            =~~= segs(s).drop_last().push(trail_of(s).push(x)));
    }
}

/// Law: fusing a span's tail fragment with the next span's head fragment
/// reproduces, byte for byte, the line that the span boundary interrupted —
/// no byte duplicated, none dropped.  When both spans contain a separator,
/// that fused line is a terminated line of the joined bytes.
pub proof fn lemma_fusion_reconstructs(a: Seq<u8>, b: Seq<u8>)
    requires
        has_sep(a),
        has_sep(b),
    ensures
        0 <= nsep(a) < segs(a + b).len() - 1,
        segs(a + b)[nsep(a)] == tail_msg(a) + head_of(b),
{
    lemma_segs_len(a);
    lemma_segs_len(b);
    lemma_segs_concat(a, b);
    assert(segs(a + b)[segs(a).len() - 1] == trail_of(a) + head_of(b));
}

/// Law: a separator on the last byte of a span leaves no tail fragment for
/// that span, and the next span's head fragment is then itself a complete
/// standalone line of the joined bytes, not a fusion of two pieces.
pub proof fn lemma_sep_at_span_edge(a: Seq<u8>, b: Seq<u8>)
    requires
        a.len() > 0,
        a.last() == SEP,
        has_sep(b),
    ensures
        tail_msg(a).len() == 0,
        has_sep(a),
        segs(a + b)[nsep(a)] == head_of(b),
{
    lemma_segs_len(a.drop_last());
    lemma_segs_concat(a.drop_last(), seq![SEP]);
    assert(a =~= a.drop_last() + seq![SEP]);
    assert(seq![SEP].drop_first() =~= Seq::<u8>::empty());
    assert(segs(Seq::<u8>::empty()) =~~= seq![Seq::<u8>::empty()]);
    assert(segs(seq![SEP]) =~~= seq![Seq::<u8>::empty(), Seq::<u8>::empty()]);
    assert(trail_of(a) == Seq::<u8>::empty());
    lemma_fusion_reconstructs(a, b);
    assert(tail_msg(a) + head_of(b) =~= head_of(b));
}

} // verus!

