//! Boundary reconciliation: fragments recorded per span are fused, in span
//! order, into the lines that the span boundaries interrupted.

use vstd::prelude::*;

use crate::scan::ScanError;
use crate::split::{head_of, tail_msg, LINE_LEN};

verus! {

/// The boundary fragments of one span, in the mathematical model.
pub ghost struct Msg {
    pub head: Seq<u8>,
    pub tail: Seq<u8>,
}

/// The boundary fragments recorded for one span: its head fragment (bytes
/// before the span's first separator) and its tail fragment (bytes after its
/// last separator; empty when the span has no separator).
pub struct BoundaryMessage {
    pub head: Vec<u8>,
    pub tail: Vec<u8>,
}

impl View for BoundaryMessage {
    type V = Msg;

    open spec fn view(&self) -> Msg {
        Msg { head: self.head@, tail: self.tail@ }
    }
}

/// The message every span contributes: its head and tail fragments.
pub open spec fn msgs_of(spans: Seq<Seq<u8>>) -> Seq<Msg> {
    Seq::new(spans.len(), |i: int| Msg { head: head_of(spans[i]), tail: tail_msg(spans[i]) })
}

/// Fusion candidate `i`: the tail fragment of span `i - 1` followed by the
/// head fragment of span `i`; a missing neighbour contributes nothing.
pub open spec fn cand(msgs: Seq<Msg>, i: int) -> Seq<u8> {
    (if i == 0 {
        Seq::<u8>::empty()
    } else {
        msgs[i - 1].tail
    }) + (if i == msgs.len() {
        Seq::<u8>::empty()
    } else {
        msgs[i].head
    })
}

/// All fusion candidates, in span order.
pub open spec fn cands(msgs: Seq<Msg>) -> Seq<Seq<u8>> {
    Seq::new(msgs.len() + 1, |i: int| cand(msgs, i))
}

/// Drops the empty sequences, keeping order.
pub open spec fn nonempties(q: Seq<Seq<u8>>) -> Seq<Seq<u8>>
    decreases q.len(),
{
    if q.len() == 0 {
        Seq::<Seq<u8>>::empty()
    } else if q.last().len() > 0 {
        nonempties(q.drop_last()).push(q.last())
    } else {
        nonempties(q.drop_last())
    }
}

/// The lines that boundary reconciliation recovers: every nonempty fusion
/// candidate, in span order.
pub open spec fn recovered(msgs: Seq<Msg>) -> Seq<Seq<u8>> {
    nonempties(cands(msgs))
}

/// Every fusion candidate fits in a line of at most [`LINE_LEN`] bytes.
pub open spec fn fusable(msgs: Seq<Msg>) -> bool {
    forall|i: int| 0 <= i < cands(msgs).len() ==> cands(msgs)[i].len() <= LINE_LEN
}

/// Appends all of `src` to `dst`.
fn append_bytes(dst: &mut Vec<u8>, src: &Vec<u8>)
    ensures
        final(dst)@ == old(dst)@ + src@,
{
    let mut i: usize = 0;
    while i < src.len()
        invariant
            0 <= i <= src.len(),
            dst@ == old(dst)@ + src@.take(i as int),
        decreases src.len() - i,
    {
        dst.push(src[i]);
        proof {
            assert(old(dst)@ + src@.take(i + 1) =~= (old(dst)@ + src@.take(i as int)).push(
                src@[i as int],
            ));
        }
        i += 1;
    }
    proof {
        assert(old(dst)@ + src@.take(src@.len() as int) =~= old(dst)@ + src@);
    }
}

/// Index-addressed storage for boundary fragments.  Spans may finish in any
/// order: each records its fragments under its own span index, and the store
/// grows on demand.  Spans never recorded stand as empty fragments.
pub struct BoundaryStore {
    slots: Vec<BoundaryMessage>,
}

impl View for BoundaryStore {
    type V = Seq<Msg>;

    closed spec fn view(&self) -> Seq<Msg> {
        Seq::new(self.slots@.len(), |i: int| self.slots@[i]@)
    }
}

impl BoundaryStore {
    /// An empty store.
    pub fn new() -> (r: Self)
        ensures
            r@.len() == 0,
    {
        BoundaryStore { slots: Vec::new() }
    }

    /// Records the fragments of span `span_index`, growing the store with
    /// empty fragments as needed.
    pub fn record(&mut self, span_index: usize, msg: BoundaryMessage)
        requires
            span_index < usize::MAX,
        ensures
            final(self)@.len() == if span_index + 1 > old(self)@.len() {
                span_index + 1
            } else {
                old(self)@.len() as int
            },
            final(self)@[span_index as int] == msg@,
            forall|j: int|
                0 <= j < final(self)@.len() && j != span_index ==> final(self)@[j] == (if j < old(
                    self,
                )@.len() {
                    old(self)@[j]
                } else {
                    Msg { head: Seq::<u8>::empty(), tail: Seq::<u8>::empty() }
                }),
    {
        while self.slots.len() < span_index + 1
            invariant
                span_index < usize::MAX,
                self.slots@.len() >= old(self).slots@.len(),
                self.slots@.len() <= span_index + 1 || self.slots@.len() == old(
                    self,
                ).slots@.len(),
                forall|j: int|
                    0 <= j < self.slots@.len() ==> self.slots@[j]@ == (if j < old(
                        self,
                    ).slots@.len() {
                        old(self).slots@[j]@
                    } else {
                        Msg { head: Seq::<u8>::empty(), tail: Seq::<u8>::empty() }
                    }),
            decreases span_index + 1 - self.slots.len(),
        {
            self.slots.push(BoundaryMessage { head: Vec::new(), tail: Vec::new() });
        }
        self.slots.set(span_index, msg);
    }

    /// How many span slots the store holds.
    pub fn len(&self) -> (r: usize)
        ensures
            r == self@.len(),
    {
        self.slots.len()
    }

    /// Fuses adjacent fragments in span order — candidate `i` is span
    /// `i - 1`'s tail followed by span `i`'s head — and returns the nonempty
    /// fused lines.  Fails exactly when some fused line would exceed
    /// [`LINE_LEN`] bytes.
    pub fn finish(&self) -> (r: Result<Vec<Vec<u8>>, ScanError>)
        requires
            self@.len() < usize::MAX,
        ensures
            match r {
                Ok(v) => fusable(self@) && v.deep_view() == recovered(self@),
                Err(e) => !fusable(self@) && e == ScanError::LineTooLong,
            },
    {
        let n = self.slots.len();
        let mut out: Vec<Vec<u8>> = Vec::new();
        let mut i: usize = 0;
        proof {
            assert(cands(self@).take(0) =~~= Seq::<Seq<u8>>::empty());
        }
        while i <= n
            invariant
                0 <= i <= n + 1,
                n == self@.len(),
                n == self.slots@.len(),
                n < usize::MAX,
                out.deep_view() == nonempties(cands(self@).take(i as int)),
                forall|j: int| 0 <= j < i ==> cands(self@)[j].len() <= LINE_LEN,
            decreases n + 1 - i,
        {
            let mut c: Vec<u8> = Vec::new();
            if i > 0 {
                append_bytes(&mut c, &self.slots[i - 1].tail);
            }
            if i < n {
                append_bytes(&mut c, &self.slots[i].head);
            }
            proof {
                assert(c@ =~= cand(self@, i as int));
            }
            if c.len() > LINE_LEN {
                proof {
                    assert(cands(self@)[i as int].len() > LINE_LEN);
                    assert(!fusable(self@));
                }
                return Err(ScanError::LineTooLong);
            }
            let ghost out0 = out.deep_view();
            let ghost cv = c@;
            if c.len() > 0 {
                out.push(c);
                proof {
                    assert(out.deep_view() =~~= out0.push(cv));
                }
            }
            proof {
                let cs = cands(self@);
                assert(cs.take(i + 1).drop_last() =~~= cs.take(i as int));
                assert(cs.take(i + 1).last() == cs[i as int]);
                assert(out.deep_view() =~~= nonempties(cs.take(i + 1)));
            }
            i += 1;
        }
        proof {
            assert(cands(self@).take(n + 1 as int) =~~= cands(self@));
        }
        Ok(out)
    }
}

} // verus!
