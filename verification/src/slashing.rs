//! Slashing spans: per account, the history of contiguous periods between
//! forced de-selections, and the per-span high-water marks that make
//! repeated offence reports for one span charge only the worst of them.

use crate::types::{Balance, EraIndex};
use vstd::prelude::*;

verus! {

/// One span: a maximal era range charged at most once.
#[derive(Clone, Copy, PartialEq, Eq, Debug)]
pub struct SlashingSpan {
    /// The monotonic number of the span.
    pub index: u32,
    /// The first era of the span.
    pub start: EraIndex,
    /// How many eras the span covers; the open span has no length yet.
    pub length: Option<u32>,
}

impl SlashingSpan {
    /// Whether `era` falls inside this span.
    pub open spec fn contains(self, era: EraIndex) -> bool {
        self.start <= era && match self.length {
            Some(l) => era < self.start + l,
            None => true,
        }
    }
}

/// The span history of one account, newest first: the first entry is the
/// open span, the rest are closed, contiguous and numbered downwards.
#[derive(Clone, PartialEq, Eq, Debug)]
pub struct SlashingSpans {
    /// The spans, newest first.
    pub spans: Vec<SlashingSpan>,
    /// The era of the last slash with a non-zero fraction.
    pub last_nonzero_slash: EraIndex,
}

impl SlashingSpans {
    pub open spec fn wf(self) -> bool {
        &&& self.spans@.len() >= 1
        &&& self.spans@[0].length is None
        &&& forall|i: int|
            1 <= i < self.spans@.len() ==> (#[trigger] self.spans@[i].length) is Some
        &&& forall|i: int|
            1 <= i < self.spans@.len() ==> (#[trigger] self.spans@[i]).start
                + self.spans@[i].length.unwrap() == self.spans@[i - 1].start
        &&& forall|i: int|
            0 <= i < self.spans@.len() ==> (#[trigger] self.spans@[i]).index + i == self.spans@[0].index
    }

    /// The number of the open span.
    pub open spec fn current_index_spec(self) -> u32 {
        self.spans@[0].index
    }

    /// The era the open span started in.
    pub open spec fn last_start_spec(self) -> EraIndex {
        self.spans@[0].start
    }

    /// A fresh history: one open span, numbered zero, starting at
    /// `window_start`, with no non-zero slash seen yet.
    pub fn fresh(window_start: EraIndex) -> (r: Self)
        ensures
            r.wf(),
            r.spans@.len() == 1,
            r.spans@[0] == (SlashingSpan { index: 0u32, start: window_start, length: None }),
            r.last_nonzero_slash == 0,
    {
        let mut spans: Vec<SlashingSpan> = Vec::new();
        spans.push(SlashingSpan { index: 0, start: window_start, length: None });
        SlashingSpans { spans, last_nonzero_slash: 0 }
    }

    pub fn current_index(&self) -> (r: u32)
        requires
            self.wf(),
        ensures
            r == self.current_index_spec(),
    {
        self.spans[0].index
    }

    /// The position in the span list of the span holding `era`, if any.
    pub fn era_span(&self, era: EraIndex) -> (r: Option<usize>)
        requires
            self.wf(),
        ensures
            match r {
                Some(i) => {
                    &&& 0 <= i < self.spans@.len()
                    &&& self.spans@[i as int].contains(era)
                    &&& forall|j: int| 0 <= j < i ==> !(#[trigger] self.spans@[j]).contains(era)
                },
                None => forall|i: int|
                    0 <= i < self.spans@.len() ==> !(#[trigger] self.spans@[i]).contains(era),
            },
    {
        let n = self.spans.len();
        let mut i: usize = 0;
        while i < n
            invariant
                self.wf(),
                n == self.spans@.len(),
                0 <= i <= n,
                forall|j: int| 0 <= j < i ==> !(#[trigger] self.spans@[j]).contains(era),
            decreases n - i,
        {
            let sp = self.spans[i];
            if sp.start <= era {
                let inside = match sp.length {
                    Some(l) => era < sp.start + l,
                    None => true,
                };
                if inside {
                    return Some(i);
                } else {
                    // Later spans start no later than this one; none of them
                    // reaches past it either.
                    proof {
                        assert forall|j: int|
                            i < j < self.spans@.len() implies !(#[trigger] self.spans@[j]).contains(
                            era,
                        ) by {
                            self.lemma_span_order(i as int, j);
                        }
                    }
                    return None;
                }
            }
            i += 1;
        }
        None
    }

    /// Earlier positions hold later eras: the span at `j` ends where or
    /// before the span at `i` starts, for `i < j`.
    proof fn lemma_span_order(self, i: int, j: int)
        requires
            self.wf(),
            0 <= i < j < self.spans@.len(),
        ensures
            self.spans@[j].length is Some,
            self.spans@[j].start + self.spans@[j].length.unwrap() <= self.spans@[i].start,
        decreases j - i,
    {
        if j == i + 1 {
        } else {
            self.lemma_span_order(i + 1, j);
        }
    }

    /// Close the open span at the end of era `now` and open the next one at
    /// `now + 1`.
    pub fn end_span(&mut self, now: EraIndex)
        requires
            old(self).wf(),
            old(self).last_start_spec() <= now,
            now < u32::MAX,
            old(self).current_index_spec() < u32::MAX,
        ensures
            final(self).wf(),
            final(self).spans@.len() == old(self).spans@.len() + 1,
            final(self).spans@[0] == (SlashingSpan {
                index: (old(self).current_index_spec() + 1) as u32,
                start: (now + 1) as u32,
                length: None,
            }),
            final(self).spans@[1] == (SlashingSpan {
                index: old(self).current_index_spec(),
                start: old(self).last_start_spec(),
                length: Some((now + 1 - old(self).last_start_spec()) as u32),
            }),
            forall|i: int|
                2 <= i < final(self).spans@.len() ==> final(self).spans@[i] == old(self).spans@[i
                    - 1],
            final(self).last_nonzero_slash == old(self).last_nonzero_slash,
    {
        let old_index = self.spans[0].index;
        let old_start = self.spans[0].start;
        let closed = SlashingSpan {
            index: old_index,
            start: old_start,
            length: Some(now + 1 - old_start),
        };
        let slot = &mut self.spans[0];
        *slot = closed;
        self.spans.insert(0, SlashingSpan { index: old_index + 1, start: now + 1, length: None });
    }

    /// The span histories before and after pruning at `window_start`: a
    /// suffix of closed spans ending inside the window is dropped, and
    /// every closed span that stays ends past the window's start.
    pub open spec fn pruned_rel(pre: SlashingSpans, post: SlashingSpans, window_start: EraIndex) -> bool {
        &&& post.last_nonzero_slash == pre.last_nonzero_slash
        &&& post.spans@ == pre.spans@.take(post.spans@.len() as int)
        &&& forall|i: int|
            post.spans@.len() <= i < pre.spans@.len() ==> (#[trigger] pre.spans@[i]).start
                + pre.spans@[i].length.unwrap() <= window_start
        &&& forall|i: int|
            1 <= i < post.spans@.len() ==> (#[trigger] post.spans@[i]).start
                + post.spans@[i].length.unwrap() > window_start
    }

    /// Drop every closed span that ends at or before `window_start`,
    /// handing back the numbers of the dropped spans, oldest and newest.
    pub fn prune(&mut self, window_start: EraIndex) -> (r: Option<(u32, u32)>)
        requires
            old(self).wf(),
        ensures
            final(self).wf(),
            SlashingSpans::pruned_rel(*old(self), *final(self), window_start),
            match r {
                Some((lo, hi)) => {
                    &&& final(self).spans@.len() < old(self).spans@.len()
                    &&& lo == old(self).spans@[old(self).spans@.len() - 1].index
                    &&& hi == old(self).spans@[final(self).spans@.len() as int].index
                },
                None => final(self).spans@.len() == old(self).spans@.len(),
            },
    {
        let ghost orig = *self;
        let n = self.spans.len();
        let mut keep: usize = n;
        while keep > 1 && span_gone(&self.spans[keep - 1], window_start)
            invariant
                self.wf(),
                *self == orig,
                n == self.spans@.len(),
                1 <= keep <= n,
                forall|i: int|
                    keep <= i < n ==> (#[trigger] self.spans@[i]).start
                        + self.spans@[i].length.unwrap() <= window_start,
            decreases keep,
        {
            keep = keep - 1;
        }
        proof {
            if keep > 1 {
                assert(self.spans@[keep - 1].length is Some);
                assert(self.spans@[keep - 1].start + self.spans@[keep - 1].length.unwrap()
                    > window_start);
            }
        }
        if keep < n {
            let lo = self.spans[n - 1].index;
            let hi = self.spans[keep].index;
            self.spans.truncate(keep);
            proof {
                assert(self.spans@ =~= orig.spans@.take(keep as int));
                assert forall|i: int|
                    1 <= i < self.spans@.len() implies (#[trigger] self.spans@[i]).start
                    + self.spans@[i].length.unwrap() > window_start by {
                    if i < keep - 1 {
                        // A span before the last kept one ends even later.
                        orig.lemma_span_order(i, keep - 1);
                    }
                }
            }
            Some((lo, hi))
        } else {
            proof {
                assert(self.spans@ =~= orig.spans@.take(keep as int));
                assert forall|i: int|
                    1 <= i < self.spans@.len() implies (#[trigger] self.spans@[i]).start
                    + self.spans@[i].length.unwrap() > window_start by {
                    if i < keep - 1 {
                        orig.lemma_span_order(i, keep - 1);
                    }
                }
            }
            None
        }
    }
}

/// Whether a closed span ends at or before `window_start`; an open span
/// never does.
fn span_gone(sp: &SlashingSpan, window_start: EraIndex) -> (r: bool)
    ensures
        r == (sp.length is Some && sp.start + sp.length.unwrap() <= window_start),
{
    match sp.length {
        Some(l) => l <= window_start && sp.start <= window_start - l,
        None => false,
    }
}

/// The accumulated charge of one span: what has been slashed for it so far
/// and what has been paid out of it to reporters.
#[derive(Clone, Copy, PartialEq, Eq, Debug, Structural)]
pub struct SpanRecord {
    /// The high-water mark of the slash charged against this span.
    pub slashed: Balance,
    /// The reporter rewards already paid for this span.
    pub paid_out: Balance,
}

} // verus!
