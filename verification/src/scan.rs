//! The per-span scanner: extracts the head fragment, the complete lines and
//! the tail fragment of one span of file bytes.

use vstd::prelude::*;

use crate::split::{
    body_of, head_of, lemma_segs_concat, lemma_segs_len, lemma_segs_push, nsep, oversize, segs,
    tail_msg, LINE_LEN, SEP,
};

verus! {

/// A bounded line accumulator.  It refuses to grow past [`LINE_LEN`] bytes:
/// a longer line is a fatal length violation for the scanner, never a
/// silent truncation.
pub struct TrackingLine {
    line: Vec<u8>,
}

impl View for TrackingLine {
    type V = Seq<u8>;

    closed spec fn view(&self) -> Seq<u8> {
        self.line@
    }
}

impl TrackingLine {
    /// An empty accumulator.
    pub fn new() -> (r: Self)
        ensures
            r@ == Seq::<u8>::empty(),
    {
        TrackingLine { line: Vec::new() }
    }

    /// Appends one byte; the caller must first rule out a full accumulator.
    pub fn add(&mut self, val: u8)
        requires
            old(self)@.len() < LINE_LEN,
        ensures
            final(self)@ == old(self)@.push(val),
    {
        self.line.push(val);
    }

    /// Has the accumulator reached the line length limit?
    pub fn is_full(&self) -> (r: bool)
        ensures
            r == (self@.len() == LINE_LEN),
    {
        self.line.len() == LINE_LEN
    }

    /// The accumulated bytes.
    pub fn bytes(self) -> (r: Vec<u8>)
        ensures
            r@ == self@,
    {
        self.line
    }
}

/// Why a scan or a fusion failed.
#[derive(Clone, Copy, Debug, PartialEq, Eq)]
pub enum ScanError {
    /// A line or fragment is longer than [`LINE_LEN`] bytes.
    LineTooLong,
}

/// Everything one span of bytes yields: the head fragment (bytes before the
/// first separator), the complete lines, and the tail fragment (bytes after
/// the last separator; empty when the span has no separator at all).
#[derive(Debug)]
pub struct SpanScan {
    pub head: Vec<u8>,
    pub lines: Vec<Vec<u8>>,
    pub tail: Vec<u8>,
}

/// Scans one span.  Succeeds exactly when no line or fragment of the span
/// exceeds [`LINE_LEN`], and then returns precisely the head fragment, the
/// complete lines and the tail fragment of the span's bytes.
pub fn scan_span(span: &Vec<u8>) -> (r: Result<SpanScan, ScanError>)
    ensures
        match r {
            Ok(sc) => !oversize(span@) && sc.head@ == head_of(span@)
                && sc.lines.deep_view() == body_of(span@) && sc.tail@ == tail_msg(span@),
            Err(e) => oversize(span@) && e == ScanError::LineTooLong,
        },
{
    let mut head = TrackingLine::new();
    let mut cur = TrackingLine::new();
    let mut lines: Vec<Vec<u8>> = Vec::new();
    let mut seen_sep = false;
    let mut i: usize = 0;
    proof {
        assert(span@.take(0) =~= Seq::<u8>::empty());
        assert(segs(Seq::<u8>::empty()) =~~= seq![Seq::<u8>::empty()]);
    }
    while i < span.len()
        invariant
            0 <= i <= span.len(),
            seen_sep ==> {
                let ss = segs(span@.take(i as int));
                &&& ss.len() >= 2
                &&& head@ == ss.first()
                &&& lines.deep_view() == ss.subrange(1, ss.len() - 1)
                &&& cur@ == ss.last()
            },
            !seen_sep ==> {
                let ss = segs(span@.take(i as int));
                &&& ss.len() == 1
                &&& head@ == ss.first()
                &&& lines@.len() == 0
                &&& cur@.len() == 0
            },
            forall|j: int|
                0 <= j < segs(span@.take(i as int)).len() - 1 ==> segs(
                    span@.take(i as int),
                )[j].len() <= LINE_LEN,
            segs(span@.take(i as int)).last().len() <= LINE_LEN,
        decreases span.len() - i,
    {
        let ghost pre = span@.take(i as int);
        let b = span[i];
        proof {
            lemma_segs_len(pre);
            assert(span@.take(i + 1) =~= pre.push(b));
            lemma_segs_push(pre, b);
        }
        if b == SEP {
            if seen_sep {
                let done = cur;
                cur = TrackingLine::new();
                let db = done.bytes();
                let ghost lines0 = lines.deep_view();
                lines.push(db);
                proof {
                    let ss = segs(pre);
                    let ss2 = segs(span@.take(i + 1));
                    assert(ss2 =~~= ss.push(Seq::<u8>::empty()));
                    assert(lines.deep_view() =~~= lines0.push(db@));
                    assert(lines0.push(db@) =~~= ss2.subrange(1, ss2.len() - 1));
                }
            } else {
                seen_sep = true;
                proof {
                    let ss2 = segs(span@.take(i + 1));
                    assert(ss2 =~~= segs(pre).push(Seq::<u8>::empty()));
                    assert(lines.deep_view() =~~= ss2.subrange(1, ss2.len() - 1));
                }
            }
        } else {
            let full = if seen_sep {
                cur.is_full()
            } else {
                head.is_full()
            };
            if full {
                proof {
                    let p2 = span@.take(i + 1);
                    let rest = span@.skip(i + 1);
                    let ss = segs(pre);
                    let ss2 = segs(p2);
                    assert(ss2 =~~= ss.drop_last().push(ss.last().push(b)));
                    assert(ss2.last().len() == LINE_LEN + 1);
                    lemma_segs_concat(p2, rest);
                    assert(p2 + rest =~= span@);
                    lemma_segs_len(rest);
                    let k = ss2.len() - 1;
                    assert(segs(span@)[k] == segs(p2).last() + head_of(rest));
                    assert(segs(span@)[k].len() > LINE_LEN);
                    assert(0 <= k < segs(span@).len());
                    assert(oversize(span@));
                }
                return Err(ScanError::LineTooLong);
            }
            if seen_sep {
                cur.add(b);
            } else {
                head.add(b);
            }
            proof {
                let ss = segs(pre);
                let ss2 = segs(span@.take(i + 1));
                assert(ss2 =~~= ss.drop_last().push(ss.last().push(b)));
                if seen_sep {
                    assert(ss2.subrange(1, ss2.len() - 1) =~~= ss.subrange(1, ss.len() - 1));
                } else {
                    assert(ss2.len() == 1);
                }
            }
        }
        i += 1;
    }
    proof {
        assert(span@.take(span@.len() as int) =~= span@);
    }
    let tail = if seen_sep {
        cur.bytes()
    } else {
        Vec::new()
    };
    proof {
        let ss = segs(span@);
        lemma_segs_len(span@);
        if seen_sep {
            assert(body_of(span@) =~~= ss.subrange(1, ss.len() - 1));
        } else {
            assert(body_of(span@) =~~= Seq::<Seq<u8>>::empty());
            assert(lines.deep_view() =~~= Seq::<Seq<u8>>::empty());
        }
        assert forall|j: int| 0 <= j < ss.len() implies ss[j].len() <= LINE_LEN by {
            if j < ss.len() - 1 {
            } else {
                assert(ss[j] == ss.last());
            }
        }
        assert(!oversize(span@));
    }
    Ok(SpanScan { head: head.bytes(), lines, tail })
}

/// Counts the separator bytes in `bytes`: the number of terminated lines.
pub fn count_newlines(bytes: &Vec<u8>) -> (r: usize)
    ensures
        r == nsep(bytes@),
{
    let mut count: usize = 0;
    let mut i: usize = 0;
    proof {
        assert(bytes@.take(0) =~= Seq::<u8>::empty());
        assert(segs(Seq::<u8>::empty()) =~~= seq![Seq::<u8>::empty()]);
    }
    while i < bytes.len()
        invariant
            0 <= i <= bytes.len(),
            count == nsep(bytes@.take(i as int)),
            count <= i,
        decreases bytes.len() - i,
    {
        let b = bytes[i];
        proof {
            lemma_segs_len(bytes@.take(i as int));
            assert(bytes@.take(i + 1) =~= bytes@.take(i as int).push(b));
            lemma_segs_push(bytes@.take(i as int), b);
        }
        if b == SEP {
            count += 1;
        }
        i += 1;
    }
    proof {
        assert(bytes@.take(bytes@.len() as int) =~= bytes@);
    }
    count
}

} // verus!
