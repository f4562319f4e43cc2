//! The whole-file tally: scanner line counts per span plus the lines that
//! boundary reconciliation recovers, and the proof that together they count
//! every line of the file exactly once.

use vstd::prelude::*;

use crate::boundary::{
    cand, cands, fusable, msgs_of, nonempties, recovered, BoundaryMessage, BoundaryStore,
};
use crate::scan::{scan_span, ScanError};
use crate::split::{
    body_of, has_sep, head_of, lemma_segs_concat, lemma_segs_len, no_empty_lines, nsep, oversize,
    scan_count, segs, tail_msg, trail_of, LINE_LEN, SEP,
};

verus! {

/// The file the spans cover: their bytes joined in span order.
pub open spec fn concat_spans(spans: Seq<Seq<u8>>) -> Seq<u8>
    decreases spans.len(),
{
    if spans.len() == 0 {
        Seq::<u8>::empty()
    } else {
        concat_spans(spans.drop_last()) + spans.last()
    }
}

/// Lines yielded by the scanners alone, summed over all spans.
pub open spec fn total_scanned(spans: Seq<Seq<u8>>) -> int
    decreases spans.len(),
{
    if spans.len() == 0 {
        0
    } else {
        total_scanned(spans.drop_last()) + scan_count(spans.last())
    }
}

/// Every span except possibly the last contains a separator.  This holds
/// whenever the span size exceeds the line length limit: a full span with no
/// separator would have to sit inside a single oversized line.
pub open spec fn well_split(spans: Seq<Seq<u8>>) -> bool {
    forall|i: int| 0 <= i < spans.len() - 1 ==> has_sep(spans[i])
}

/// One extra counted line when the bytes end in an unterminated fragment.
pub open spec fn trailing(s: Seq<u8>) -> int {
    if trail_of(s).len() > 0 {
        1
    } else {
        0
    }
}

/// Everything the system counts: scanner lines plus recovered lines.
pub open spec fn grand_total(spans: Seq<Seq<u8>>) -> int {
    total_scanned(spans) + recovered(msgs_of(spans)).len()
}

proof fn lemma_nonempties_push(q: Seq<Seq<u8>>, a: Seq<u8>)
    ensures
        nonempties(q.push(a)).len() == nonempties(q).len() + (if a.len() > 0 {
            1int
        } else {
            0int
        }),
{
    assert(q.push(a).drop_last() =~~= q);
    assert(q.push(a).last() == a);
}

/// A span longer than the line limit that holds no oversized line must hold
/// a separator.  So any division into spans above [`LINE_LEN`] bytes — every
/// fixed span size in practice — meets the separator condition of the
/// counting laws on well-formed input.
pub proof fn lemma_long_spans_are_well_split(spans: Seq<Seq<u8>>)
    requires
        forall|i: int| 0 <= i < spans.len() - 1 ==> (#[trigger] spans[i]).len() > LINE_LEN,
        forall|i: int| 0 <= i < spans.len() - 1 ==> !oversize(#[trigger] spans[i]),
    ensures
        well_split(spans),
{
    assert forall|i: int| 0 <= i < spans.len() - 1 implies has_sep(#[trigger] spans[i]) by {
        let s = spans[i];
        if !has_sep(s) {
            lemma_segs_len(s);
            lemma_head_no_sep(s);
            assert(segs(s)[0] == s);
            assert(oversize(s));
        }
    }
}

/// A sequence with no separator is its own head fragment.
pub proof fn lemma_head_no_sep(s: Seq<u8>)
    requires
        !has_sep(s),
    ensures
        head_of(s) == s,
    decreases s.len(),
{
    lemma_segs_len(s);
    if s.len() == 0 {
        assert(head_of(s) =~= s);
    } else {
        lemma_segs_len(s.drop_first());
        if s[0] == SEP {
            assert(false);
        } else {
            assert(!has_sep(s.drop_first()));
            lemma_head_no_sep(s.drop_first());
            assert(head_of(s) =~= seq![s[0]] + s.drop_first());
            assert(seq![s[0]] + s.drop_first() =~= s);
        }
    }
}

/// Law: for any file and any division of it into spans in which every span
/// but the last holds a separator and no terminated line is empty, the lines
/// the scanners yield plus the lines boundary reconciliation recovers count
/// every line of the file exactly once — the separator-terminated lines,
/// plus one trailing unterminated fragment if the file has one.  The count
/// depends only on the joined bytes, not on how they were cut into spans or
/// shared among workers.
pub proof fn lemma_exactly_once(spans: Seq<Seq<u8>>)
    requires
        well_split(spans),
        no_empty_lines(concat_spans(spans)),
    ensures
        grand_total(spans) == nsep(concat_spans(spans)) + trailing(concat_spans(spans)),
    decreases spans.len(),
{
    let f = concat_spans(spans);
    let msgs = msgs_of(spans);
    let cs = cands(msgs);
    if spans.len() == 0 {
        assert(f =~= Seq::<u8>::empty());
        assert(segs(f) =~~= seq![Seq::<u8>::empty()]);
        assert(cand(msgs, 0) =~= Seq::<u8>::empty());
        assert(cs =~~= seq![Seq::<u8>::empty()]);
        assert(cs.drop_last() =~~= Seq::<Seq<u8>>::empty());
        assert(nonempties(Seq::<Seq<u8>>::empty()) =~~= Seq::<Seq<u8>>::empty());
        assert(recovered(msgs).len() == 0);
    } else if spans.len() == 1 {
        let s = spans[0];
        assert(spans.drop_last() =~~= Seq::<Seq<u8>>::empty());
        assert(concat_spans(spans.drop_last()) =~= Seq::<u8>::empty());
        assert(f =~= s);
        lemma_segs_len(s);
        assert(cand(msgs, 0) =~= head_of(s));
        assert(cand(msgs, 1) =~= tail_msg(s));
        assert(cs =~~= seq![head_of(s), tail_msg(s)]);
        lemma_nonempties_push(seq![head_of(s)], tail_msg(s));
        lemma_nonempties_push(Seq::<Seq<u8>>::empty(), head_of(s));
        assert(seq![head_of(s), tail_msg(s)].drop_last() =~~= seq![head_of(s)]);
        assert(seq![head_of(s)].drop_last() =~~= Seq::<Seq<u8>>::empty());
        assert(nonempties(Seq::<Seq<u8>>::empty()) =~~= Seq::<Seq<u8>>::empty());
        assert(total_scanned(spans.drop_last()) == 0);
        assert(spans.last() == s);
        assert(total_scanned(spans) == scan_count(s));
        if has_sep(s) {
            assert(segs(s)[0].len() > 0);
            assert(head_of(s).len() > 0);
            assert(tail_msg(s) == trail_of(s));
            assert(recovered(msgs).len() == 1 + trailing(s));
            assert(scan_count(s) == nsep(s) - 1);
        } else {
            lemma_head_no_sep(s);
            assert(tail_msg(s).len() == 0);
            assert(trail_of(s) == segs(s).first());
            assert(recovered(msgs).len() == (if s.len() > 0 {
                1int
            } else {
                0int
            }));
            assert(scan_count(s) == 0);
            assert(nsep(s) == 0);
        }
    } else {
        let n = spans.len() as int;
        let pre = spans.drop_last();
        let s = spans.last();
        let fp = concat_spans(pre);
        assert(f == fp + s);
        lemma_segs_len(fp);
        lemma_segs_len(s);
        lemma_segs_concat(fp, s);

        // the terminated lines of the prefix are terminated lines of the file
        assert(no_empty_lines(fp)) by {
            assert forall|j: int| 0 <= j < segs(fp).len() - 1 implies segs(fp)[j].len() > 0 by {
                assert(segs(f)[j] == segs(fp)[j]);
                assert(j < segs(f).len() - 1);
            }
        }
        assert(well_split(pre)) by {
            assert forall|i: int| 0 <= i < pre.len() - 1 implies has_sep(pre[i]) by {
                assert(pre[i] == spans[i]);
            }
        }
        lemma_exactly_once(pre);

        // the prefix's own last span holds a separator, so the prefix's tail
        // fragment is that span's tail fragment
        let last_pre = spans[n - 2];
        assert(has_sep(last_pre));
        let fpp = concat_spans(pre.drop_last());
        assert(fp == fpp + last_pre);
        lemma_segs_len(fpp);
        lemma_segs_concat(fpp, last_pre);
        assert(trail_of(fp) == trail_of(last_pre)) by {
            assert(segs(fp).last() == segs(last_pre).drop_first().last());
        }

        // relate the candidate sequences of the two message sequences
        let msgsp = msgs_of(pre);
        let csp = cands(msgsp);
        let c1 = cand(msgs, n - 1);
        let c2 = cand(msgs, n);
        assert(cs.take(n - 1) =~~= csp.take(n - 1));
        assert(cs =~~= cs.take(n - 1).push(c1).push(c2));
        assert(csp =~~= cs.take(n - 1).push(cand(msgsp, n - 1)));
        lemma_nonempties_push(cs.take(n - 1).push(c1), c2);
        lemma_nonempties_push(cs.take(n - 1), c1);
        lemma_nonempties_push(cs.take(n - 1), cand(msgsp, n - 1));
        let n0 = nonempties(cs.take(n - 1)).len() as int;

        assert(cand(msgsp, n - 1) =~= trail_of(fp)) by {
            assert(msgsp[n - 2].tail == tail_msg(last_pre));
            assert(tail_msg(last_pre) == trail_of(last_pre));
        }
        assert(c1 =~= trail_of(fp) + head_of(s)) by {
            assert(msgs[n - 2].tail == tail_msg(last_pre));
        }

        // the fused candidate is the file segment the last boundary cut
        let k = segs(fp).len() - 1;
        assert(segs(f)[k] == trail_of(fp) + head_of(s));

        assert(total_scanned(spans) == total_scanned(pre) + scan_count(s));
        if has_sep(s) {
            assert(segs(s).drop_first().len() >= 1);
            assert(k < segs(f).len() - 1);
            assert(segs(f)[k].len() > 0);
            assert(c1.len() > 0);
            assert(c2 =~= trail_of(s));
            assert(trail_of(f) == trail_of(s)) by {
                assert(segs(f).last() == segs(s).drop_first().last());
            }
            assert(nsep(f) == nsep(fp) + nsep(s));
            assert(scan_count(s) == nsep(s) - 1);
            assert(recovered(msgs).len() == n0 + 1 + trailing(f));
            assert(recovered(msgsp).len() == n0 + trailing(fp));
        } else {
            lemma_head_no_sep(s);
            assert(c2 =~= Seq::<u8>::empty());
            assert(trail_of(f) == trail_of(fp) + s) by {
                assert(segs(s).drop_first() =~~= Seq::<Seq<u8>>::empty());
                assert(segs(f).last() == trail_of(fp) + head_of(s));
            }
            assert(c1 =~= trail_of(f));
            assert(nsep(f) == nsep(fp));
            assert(scan_count(s) == 0);
            assert(recovered(msgs).len() == n0 + trailing(f));
            assert(recovered(msgsp).len() == n0 + trailing(fp));
        }
    }
}

/// Law: when the file ends with a separator (or is empty), scanner lines plus
/// recovered lines equal exactly the number of separator-terminated lines,
/// for every qualifying division into spans and hence for every worker count
/// and span size.
pub proof fn lemma_newline_terminated_count(spans: Seq<Seq<u8>>)
    requires
        well_split(spans),
        no_empty_lines(concat_spans(spans)),
        concat_spans(spans).len() == 0 || concat_spans(spans).last() == SEP,
    ensures
        grand_total(spans) == nsep(concat_spans(spans)),
{
    let f = concat_spans(spans);
    lemma_exactly_once(spans);
    if f.len() == 0 {
        assert(segs(f) =~~= seq![Seq::<u8>::empty()]);
    } else {
        lemma_segs_len(f.drop_last());
        lemma_segs_concat(f.drop_last(), seq![SEP]);
        assert(f =~= f.drop_last() + seq![SEP]);
        assert(seq![SEP].drop_first() =~= Seq::<u8>::empty());
        assert(segs(Seq::<u8>::empty()) =~~= seq![Seq::<u8>::empty()]);
        assert(segs(seq![SEP]) =~~= seq![Seq::<u8>::empty(), Seq::<u8>::empty()]);
        assert(trail_of(f) == Seq::<u8>::empty());
    }
}

/// Law: two divisions of the same bytes into spans — for instance the work of
/// one worker against the work of twelve — yield the same total line count.
pub proof fn lemma_worker_count_independent(spans1: Seq<Seq<u8>>, spans2: Seq<Seq<u8>>)
    requires
        well_split(spans1),
        well_split(spans2),
        concat_spans(spans1) == concat_spans(spans2),
        no_empty_lines(concat_spans(spans1)),
    ensures
        grand_total(spans1) == grand_total(spans2),
{
    lemma_exactly_once(spans1);
    lemma_exactly_once(spans2);
}

/// Runs the whole pipeline on spans held in memory: scans every span,
/// records its fragments, fuses them, and returns scanner lines plus
/// recovered lines.  Fails exactly when a span holds an oversized line or
/// fragment, or a fused line would be oversized.
pub fn tally_spans(spans: &Vec<Vec<u8>>) -> (r: Result<u128, ScanError>)
    requires
        spans@.len() < usize::MAX,
    ensures
        match r {
            Ok(t) => {
                &&& t == grand_total(spans.deep_view())
                &&& forall|i: int|
                    0 <= i < spans.deep_view().len() ==> !oversize(spans.deep_view()[i])
                &&& fusable(msgs_of(spans.deep_view()))
            },
            Err(e) => {
                &&& e == ScanError::LineTooLong
                &&& ((exists|i: int|
                    0 <= i < spans.deep_view().len() && oversize(spans.deep_view()[i]))
                    || !fusable(msgs_of(spans.deep_view())))
            },
        },
{
    let ghost sv = spans.deep_view();
    let mut store = BoundaryStore::new();
    let mut scanned: u128 = 0;
    let mut i: usize = 0;
    proof {
        assert(usize::MAX as int <= 0xffff_ffff_ffff_ffff_int);
        assert(sv.take(0) =~~= Seq::<Seq<u8>>::empty());
        assert(store@ =~= msgs_of(sv.take(0)));
    }
    while i < spans.len()
        invariant
            0 <= i <= spans@.len(),
            spans@.len() < usize::MAX,
            sv == spans.deep_view(),
            sv.len() == spans@.len(),
            scanned as int == total_scanned(sv.take(i as int)),
            scanned as int <= (i as int) * 0xffff_ffff_ffff_ffff_int,
            store@ == msgs_of(sv.take(i as int)),
            forall|j: int| 0 <= j < i ==> !oversize(sv[j]),
        decreases spans@.len() - i,
    {
        proof {
            assert(sv[i as int] == spans@[i as int]@);
        }
        match scan_span(&spans[i]) {
            Err(e) => {
                proof {
                    assert(oversize(sv[i as int]));
                }
                return Err(e);
            },
            Ok(sc) => {
                let nlines = sc.lines.len();
                proof {
                    assert(nlines == body_of(sv[i as int]).len());
                    assert(nlines as int <= usize::MAX as int);
                    assert(total_scanned(sv.take(i as int)) + scan_count(sv[i as int]) <= (
                    i as int) * 0xffff_ffff_ffff_ffff_int + 0xffff_ffff_ffff_ffff_int);
                    assert((i as int) * 0xffff_ffff_ffff_ffff_int + 0xffff_ffff_ffff_ffff_int
                        == (i as int + 1) * 0xffff_ffff_ffff_ffff_int) by (nonlinear_arith);
                    assert((i as int + 1) * 0xffff_ffff_ffff_ffff_int < u128::MAX as int)
                        by (nonlinear_arith)
                        requires 0 <= i as int + 1 <= 0xffff_ffff_ffff_ffff_int
                    ;
                }
                scanned = scanned + (nlines as u128);
                let ghost store0 = store@;
                store.record(i, BoundaryMessage { head: sc.head, tail: sc.tail });
                proof {
                    assert(sv.take(i + 1).drop_last() =~~= sv.take(i as int));
                    assert(sv.take(i + 1).last() == sv[i as int]);
                    assert(store@ =~= msgs_of(sv.take(i + 1))) by {
                        assert(store@.len() == i + 1);
                        assert forall|j: int| 0 <= j < i + 1 implies store@[j] == msgs_of(
                            sv.take(i + 1),
                        )[j] by {
                            if j < i {
                                assert(store@[j] == store0[j]);
                                assert(sv.take(i + 1)[j] == sv.take(i as int)[j]);
                            } else {
                                assert(sv.take(i + 1)[j] == sv[i as int]);
                            }
                        }
                    }
                }
            },
        }
        i += 1;
    }
    proof {
        assert(sv.take(sv.len() as int) =~~= sv);
    }
    match store.finish() {
        Err(e) => Err(e),
        Ok(rec) => {
            let nrec = rec.len();
            proof {
                assert(nrec == recovered(msgs_of(sv)).len());
                assert(nrec as int <= usize::MAX as int);
                assert(scanned as int + nrec as int <= (sv.len() + 1)
                    * 0xffff_ffff_ffff_ffff_int) by (nonlinear_arith)
                    requires
                        scanned as int <= sv.len() * 0xffff_ffff_ffff_ffff_int,
                        nrec as int <= 0xffff_ffff_ffff_ffff_int,
                ;
                assert((sv.len() + 1) * 0xffff_ffff_ffff_ffff_int < u128::MAX as int)
                    by (nonlinear_arith)
                    requires 0 <= sv.len() + 1 <= 0x1_0000_0000_0000_0000_int
                ;
            }
            Ok(scanned + (nrec as u128))
        },
    }
}

} // verus!
