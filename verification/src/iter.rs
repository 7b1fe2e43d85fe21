//! The sequential cursor over a frontier's logical content: a half-open
//! range between two (shard, offset) coordinates, walked from either end,
//! and bisected — at the midpoint or at a caller-chosen offset — into two
//! disjoint, order-preserving halves for divide-and-conquer consumption.
//!
//! Every cursor derived from one root cursor shares one prefix-sum snapshot
//! of the shard lengths, taken when the root was created; the container must
//! not be mutated while cursors over it are alive.

use std::sync::Arc;

use vstd::prelude::*;

use crate::frontier::Frontier;
use crate::shards::flat_of;
use crate::shards::lemma_flat_index;
use crate::shards::lemma_flat_len;
use crate::shards::lemma_prefix_len_monotone;
use crate::shards::lemma_prefix_len_step;
use crate::shards::prefix_len;

verus! {

/// A double-ended cursor over the logical concatenation of a frontier's
/// shards, covering the half-open global range from its start coordinate
/// (inclusive) to its end coordinate (exclusive). The end coordinate names
/// a shard inclusively and an offset in it exclusively.
#[derive(Debug)]
pub struct FrontierIter<'a, T> {
    father: &'a Frontier<'a, T>,
    vec_idx_start: usize,
    value_idx_start: usize,
    vec_idx_end: usize,
    value_idx_end: usize,
    cumulative_lens: Arc<Vec<usize>>,
}

impl<'a, T> FrontierIter<'a, T> {
    /// The shard table this cursor ranges over.
    pub closed spec fn shards(self) -> Seq<Seq<T>> {
        self.father@
    }

    /// The global offset of the cursor's start coordinate.
    pub closed spec fn start_global(self) -> int {
        prefix_len(self.shards(), self.vec_idx_start as int) + self.value_idx_start
    }

    /// The global offset of the cursor's end coordinate.
    pub closed spec fn end_global(self) -> int {
        prefix_len(self.shards(), self.vec_idx_end as int) + self.value_idx_end
    }

    /// Well-formedness: the coordinates denote a valid, non-negative-length
    /// sub-range of the logical concatenation, and the shared prefix-sum
    /// snapshot matches the shard table.
    pub closed spec fn wf(self) -> bool {
        &&& self.shards().len() >= 1
        &&& prefix_len(self.shards(), self.shards().len() as int) <= usize::MAX
        &&& self.cumulative_lens@.len() == self.shards().len()
        &&& (forall|i: int|
            0 <= i < self.shards().len() ==> self.cumulative_lens@[i] == prefix_len(
                self.shards(),
                i,
            ))
        &&& self.vec_idx_start <= self.vec_idx_end
        &&& (self.vec_idx_end as int) < self.shards().len()
        &&& self.value_idx_start <= self.shards()[self.vec_idx_start as int].len()
        &&& self.value_idx_end <= self.shards()[self.vec_idx_end as int].len()
        &&& self.start_global() <= self.end_global()
    }

    /// The elements the cursor still covers, in logical order.
    pub closed spec fn remaining(self) -> Seq<T> {
        flat_of(self.shards()).subrange(self.start_global(), self.end_global())
    }

    /// Global bounds every well-formed cursor obeys: its range sits inside
    /// the logical content, and its length is the difference of its global
    /// offsets.
    pub proof fn lemma_wf_bounds(self)
        requires
            self.wf(),
        ensures
            0 <= self.start_global() <= self.end_global() <= flat_of(self.shards()).len(),
            flat_of(self.shards()).len() <= usize::MAX,
            self.remaining().len() == self.end_global() - self.start_global(),
    {
        let s = self.shards();
        lemma_flat_len(s);
        lemma_prefix_len_monotone(s, 0, self.vec_idx_start as int);
        lemma_prefix_len_step(s, self.vec_idx_end as int);
        lemma_prefix_len_monotone(s, self.vec_idx_end as int + 1, s.len() as int);
    }

    /// Creates a cursor over the whole current content of `father`,
    /// snapshotting the prefix sums of the shard lengths.
    pub fn new(father: &'a Frontier<'a, T>) -> (r: Self)
        requires
            father.wf(),
            flat_of(father@).len() <= usize::MAX,
        ensures
            r.wf(),
            r.shards() == father@,
            r.remaining() == flat_of(father@),
    {
        proof {
            lemma_flat_len(father@);
        }
        let n: usize = father.number_of_threads();
        let mut cum: Vec<usize> = Vec::new();
        let mut acc: usize = 0;
        let mut i: usize = 0;
        while i < n
            invariant
                i <= n,
                n == father@.len(),
                n >= 1,
                prefix_len(father@, n as int) <= usize::MAX,
                cum@.len() == i,
                forall|k: int| 0 <= k < i ==> cum@[k] == prefix_len(father@, k),
                acc == prefix_len(father@, i as int),
            decreases n - i,
        {
            cum.push(acc);
            let l: usize = father.shard(i).len();
            proof {
                lemma_prefix_len_step(father@, i as int);
                lemma_prefix_len_monotone(father@, i as int + 1, n as int);
            }
            acc = acc + l;
            i = i + 1;
        }
        let last_len: usize = father.shard(n - 1).len();
        let r = FrontierIter {
            father,
            vec_idx_start: 0,
            value_idx_start: 0,
            vec_idx_end: n - 1,
            value_idx_end: last_len,
            cumulative_lens: Arc::new(cum),
        };
        proof {
            lemma_prefix_len_step(father@, n as int - 1);
            lemma_prefix_len_monotone(father@, 0, n as int - 1);
            lemma_flat_len(father@);
            assert(r.remaining() =~= flat_of(father@));
        }
        r
    }

    /// The number of elements the cursor still covers, from the prefix-sum
    /// difference of its two coordinates.
    pub fn len(&self) -> (r: usize)
        requires
            self.wf(),
        ensures
            r == self.remaining().len(),
    {
        proof {
            self.lemma_wf_bounds();
        }
        let cum: &Vec<usize> = &self.cumulative_lens;
        let start_idx: usize = cum[self.vec_idx_start] + self.value_idx_start;
        let end_idx: usize = cum[self.vec_idx_end] + self.value_idx_end;
        end_idx - start_idx
    }

    /// Steps forward: yields the first element still covered and advances the
    /// start coordinate past it, moving into the next shard when the current
    /// one is exhausted; `None` once the range is empty.
    pub fn next(&mut self) -> (r: Option<&'a T>)
        requires
            old(self).wf(),
        ensures
            final(self).wf(),
            final(self).shards() == old(self).shards(),
            final(self).end_global() == old(self).end_global(),
            old(self).remaining().len() == 0 ==> r is None && final(self).remaining() == old(
                self,
            ).remaining(),
            old(self).remaining().len() > 0 ==> (r matches Some(v) && *v == old(
                self,
            ).remaining()[0] && final(self).remaining() == old(self).remaining().drop_first()),
    {
        loop
            invariant
                self.wf(),
                self.shards() == old(self).shards(),
                self.start_global() == old(self).start_global(),
                self.end_global() == old(self).end_global(),
                self.father == old(self).father,
            decreases self.vec_idx_end - self.vec_idx_start,
        {
            proof {
                self.lemma_wf_bounds();
            }
            if self.vec_idx_start == self.vec_idx_end && self.value_idx_start
                >= self.value_idx_end {
                proof {
                    assert(self.remaining() =~= old(self).remaining());
                }
                return None;
            }
            let shard_len: usize = self.father.shard(self.vec_idx_start).len();
            if self.value_idx_start < shard_len {
                let ghost s = self.shards();
                let ghost vs = self.vec_idx_start as int;
                let ghost os = self.value_idx_start as int;
                let ghost gs = self.start_global();
                let ghost ge = self.end_global();
                proof {
                    lemma_flat_index(s, vs, os);
                    if self.vec_idx_start < self.vec_idx_end {
                        lemma_prefix_len_step(s, vs);
                        lemma_prefix_len_monotone(s, vs + 1, self.vec_idx_end as int);
                    }
                    assert(gs < ge);
                }
                let result: &'a T = &self.father.shard(self.vec_idx_start)[self.value_idx_start];
                self.value_idx_start = self.value_idx_start + 1;
                proof {
                    assert(old(self).remaining()[0] == flat_of(s)[gs]);
                    assert(self.remaining() =~= old(self).remaining().drop_first());
                }
                return Some(result);
            }
            proof {
                lemma_prefix_len_step(self.shards(), self.vec_idx_start as int);
            }
            self.value_idx_start = 0;
            self.vec_idx_start = self.vec_idx_start + 1;
        }
    }

    /// Steps backward: yields the last element still covered and pulls the
    /// end coordinate in front of it, moving into the previous shard when the
    /// current one is exhausted; `None` once the range is empty.
    pub fn next_back(&mut self) -> (r: Option<&'a T>)
        requires
            old(self).wf(),
        ensures
            final(self).wf(),
            final(self).shards() == old(self).shards(),
            final(self).start_global() == old(self).start_global(),
            old(self).remaining().len() == 0 ==> r is None && final(self).remaining() == old(
                self,
            ).remaining(),
            old(self).remaining().len() > 0 ==> (r matches Some(v) && *v == old(
                self,
            ).remaining().last() && final(self).remaining() == old(self).remaining().drop_last()),
    {
        loop
            invariant
                self.wf(),
                self.shards() == old(self).shards(),
                self.start_global() == old(self).start_global(),
                self.end_global() == old(self).end_global(),
                self.father == old(self).father,
            decreases self.vec_idx_end,
        {
            proof {
                self.lemma_wf_bounds();
            }
            if self.vec_idx_start == self.vec_idx_end && self.value_idx_start
                >= self.value_idx_end {
                proof {
                    assert(self.remaining() =~= old(self).remaining());
                }
                return None;
            }
            if self.value_idx_end > 0 {
                let ghost s = self.shards();
                let ghost ve = self.vec_idx_end as int;
                let ghost oe = self.value_idx_end as int;
                let ghost gs = self.start_global();
                let ghost ge = self.end_global();
                proof {
                    lemma_flat_index(s, ve, oe - 1);
                    if self.vec_idx_start < self.vec_idx_end {
                        lemma_prefix_len_step(s, self.vec_idx_start as int);
                        lemma_prefix_len_monotone(s, self.vec_idx_start as int + 1, ve);
                    }
                    assert(gs < ge);
                }
                let result: &'a T = &self.father.shard(self.vec_idx_end)[self.value_idx_end - 1];
                self.value_idx_end = self.value_idx_end - 1;
                proof {
                    assert(old(self).remaining().last() == flat_of(s)[ge - 1]);
                    assert(self.remaining() =~= old(self).remaining().drop_last());
                }
                return Some(result);
            }
            proof {
                lemma_prefix_len_step(self.shards(), self.vec_idx_end as int - 1);
            }
            self.vec_idx_end = self.vec_idx_end - 1;
            self.value_idx_end = self.father.shard(self.vec_idx_end).len();
        }
    }

    /// Splits the cursor at the midpoint of its global range: a balanced
    /// bisection for work-stealing consumption. A range of length two or
    /// more yields two non-empty, disjoint, order-preserving halves — the
    /// low one exactly the first `len / 2` elements, the high one the rest —
    /// whose concatenation (low, then high) is exactly the original range; a
    /// range of length zero or one is not split — the cursor comes back
    /// unchanged with no second half.
    pub fn split(self) -> (r: (Self, Option<Self>))
        requires
            self.wf(),
        ensures
            r.0.wf(),
            r.0.shards() == self.shards(),
            self.remaining().len() < 2 ==> r.0 == self && r.1 is None,
            self.remaining().len() >= 2 ==> (r.1 matches Some(high) && high.wf()
                && high.shards() == self.shards() && r.0.remaining().len() == self.remaining().len()
                / 2 && r.0.remaining().len() >= 1 && high.remaining().len() >= 1
                && r.0.remaining().len() + high.remaining().len() == self.remaining().len()
                && r.0.remaining() == self.remaining().subrange(
                0,
                self.remaining().len() as int / 2,
            ) && high.remaining() == self.remaining().subrange(
                self.remaining().len() as int / 2,
                self.remaining().len() as int,
            ) && r.0.remaining() + high.remaining() == self.remaining()),
    {
        proof {
            self.lemma_wf_bounds();
        }
        let l: usize = self.len();
        if l < 2 {
            return (self, None);
        }
        let cum: &Vec<usize> = &self.cumulative_lens;
        let start_idx: usize = cum[self.vec_idx_start] + self.value_idx_start;
        let end_idx: usize = cum[self.vec_idx_end] + self.value_idx_end;
        let split_idx: usize = start_idx + (end_idx - start_idx) / 2;
        let ghost gs = self.start_global();
        let ghost ge = self.end_global();
        proof {
            assert(gs < split_idx < ge);
        }
        let (low, high) = self.split_coords(split_idx);
        proof {
            low.lemma_wf_bounds();
            high.lemma_wf_bounds();
            assert(low.remaining() =~= self.remaining().subrange(0, l as int / 2));
            assert(high.remaining() =~= self.remaining().subrange(l as int / 2, l as int));
            assert(low.remaining() + high.remaining() =~= flat_of(low.shards()).subrange(gs, ge));
        }
        (low, Some(high))
    }

    /// Splits the cursor so that the low half covers exactly the first
    /// `index` elements and the high half the rest: the exact-length split
    /// the engine's indexed protocol asks for.
    pub fn split_at(self, index: usize) -> (r: (Self, Self))
        requires
            self.wf(),
            0 < index < self.remaining().len(),
        ensures
            r.0.wf(),
            r.1.wf(),
            r.0.shards() == self.shards(),
            r.1.shards() == self.shards(),
            r.0.remaining() == self.remaining().subrange(0, index as int),
            r.1.remaining() == self.remaining().subrange(
                index as int,
                self.remaining().len() as int,
            ),
            r.0.remaining() + r.1.remaining() == self.remaining(),
    {
        proof {
            self.lemma_wf_bounds();
        }
        let cum: &Vec<usize> = &self.cumulative_lens;
        let start_idx: usize = cum[self.vec_idx_start] + self.value_idx_start;
        let split_idx: usize = start_idx + index;
        let ghost gs = self.start_global();
        let ghost ge = self.end_global();
        let ghost s = self.shards();
        let (low, high) = self.split_coords(split_idx);
        proof {
            low.lemma_wf_bounds();
            high.lemma_wf_bounds();
            assert(low.remaining() =~= self.remaining().subrange(0, index as int));
            assert(high.remaining() =~= self.remaining().subrange(
                index as int,
                self.remaining().len() as int,
            ));
            assert(low.remaining() + high.remaining() =~= self.remaining());
        }
        (low, high)
    }

    /// The one boundary-locating construction both split operations share:
    /// places the global offset `split_idx` in the prefix-sum snapshot and
    /// builds the two sub-cursors meeting there — at a shard boundary the
    /// low half ends with the previous shard and the high half begins at the
    /// located shard's offset zero; inside a shard both halves share that
    /// shard as their boundary.
    fn split_coords(self, split_idx: usize) -> (r: (Self, Self))
        requires
            self.wf(),
            self.start_global() < split_idx < self.end_global(),
        ensures
            r.0.wf(),
            r.1.wf(),
            r.0.shards() == self.shards(),
            r.1.shards() == self.shards(),
            r.0.start_global() == self.start_global(),
            r.0.end_global() == split_idx,
            r.1.start_global() == split_idx,
            r.1.end_global() == self.end_global(),
            r.0.remaining() == flat_of(self.shards()).subrange(
                self.start_global(),
                split_idx as int,
            ),
            r.1.remaining() == flat_of(self.shards()).subrange(
                split_idx as int,
                self.end_global(),
            ),
    {
        let ghost s = self.shards();
        let ghost gs = self.start_global();
        let ghost ge = self.end_global();
        proof {
            self.lemma_wf_bounds();
            assert forall|i: int, j: int|
                0 <= i <= j < self.cumulative_lens@.len() implies self.cumulative_lens@[i]
                <= self.cumulative_lens@[j] by {
                lemma_prefix_len_monotone(s, i, j);
            }
            assert(self.cumulative_lens@[0] == prefix_len(s, 0));
            assert(prefix_len(s, 0) == 0);
            lemma_prefix_len_monotone(s, 0, self.vec_idx_start as int);
        }
        let point = locate(&self.cumulative_lens, split_idx);
        match point {
            SplitPoint::OnBoundary { shard } => {
                proof {
                    assert(prefix_len(s, shard as int) == split_idx);
                    lemma_prefix_len_step(s, shard as int - 1);
                    if self.vec_idx_start as int >= shard {
                        lemma_prefix_len_monotone(s, shard as int, self.vec_idx_start as int);
                        assert(false);
                    }
                    if shard as int > self.vec_idx_end as int {
                        lemma_prefix_len_step(s, self.vec_idx_end as int);
                        lemma_prefix_len_monotone(s, self.vec_idx_end as int + 1, shard as int);
                        assert(false);
                    }
                }
                let low_oe: usize = self.father.shard(shard - 1).len();
                let high = FrontierIter {
                    father: self.father,
                    vec_idx_start: shard,
                    value_idx_start: 0,
                    vec_idx_end: self.vec_idx_end,
                    value_idx_end: self.value_idx_end,
                    cumulative_lens: self.cumulative_lens.clone(),
                };
                let low = FrontierIter {
                    father: self.father,
                    vec_idx_start: self.vec_idx_start,
                    value_idx_start: self.value_idx_start,
                    vec_idx_end: shard - 1,
                    value_idx_end: low_oe,
                    cumulative_lens: self.cumulative_lens,
                };
                (low, high)
            },
            SplitPoint::WithinShard { shard, offset } => {
                proof {
                    assert(prefix_len(s, shard as int) < split_idx);
                    lemma_prefix_len_step(s, shard as int);
                    if shard as int == s.len() - 1 {
                        lemma_prefix_len_step(s, self.vec_idx_end as int);
                        lemma_prefix_len_monotone(s, self.vec_idx_end as int + 1, s.len() as int);
                    }
                    assert(offset < s[shard as int].len());
                    if self.vec_idx_start as int > shard {
                        lemma_prefix_len_monotone(s, shard as int + 1, self.vec_idx_start as int);
                        assert(false);
                    }
                    if shard as int > self.vec_idx_end as int {
                        lemma_prefix_len_step(s, self.vec_idx_end as int);
                        lemma_prefix_len_monotone(s, self.vec_idx_end as int + 1, shard as int);
                        assert(false);
                    }
                }
                let high = FrontierIter {
                    father: self.father,
                    vec_idx_start: shard,
                    value_idx_start: offset,
                    vec_idx_end: self.vec_idx_end,
                    value_idx_end: self.value_idx_end,
                    cumulative_lens: self.cumulative_lens.clone(),
                };
                let low = FrontierIter {
                    father: self.father,
                    vec_idx_start: self.vec_idx_start,
                    value_idx_start: self.value_idx_start,
                    vec_idx_end: shard,
                    value_idx_end: offset,
                    cumulative_lens: self.cumulative_lens,
                };
                (low, high)
            },
        }
    }
}

/// Where a global offset falls in the prefix-sum snapshot: exactly on the
/// boundary at which a shard begins, or strictly inside a shard.
enum SplitPoint {
    OnBoundary { shard: usize },
    WithinShard { shard: usize, offset: usize },
}

/// Binary search over the prefix-sum snapshot for the position of the global
/// offset `split_idx`: the shard whose boundary it hits exactly, or the
/// shard it falls inside together with the offset within it.
fn locate(cum: &Vec<usize>, split_idx: usize) -> (r: SplitPoint)
    requires
        cum@.len() >= 1,
        cum@[0] == 0,
        forall|i: int, j: int| 0 <= i <= j < cum@.len() ==> cum@[i] <= cum@[j],
        split_idx >= 1,
    ensures
        match r {
            SplitPoint::OnBoundary { shard } => 1 <= shard < cum@.len() && cum@[shard as int]
                == split_idx,
            SplitPoint::WithinShard { shard, offset } => (shard as int) < cum@.len()
                && cum@[shard as int] < split_idx && offset == split_idx - cum@[shard as int] && (
            shard as int == cum@.len() - 1 || cum@[shard as int + 1] > split_idx),
        },
{
    let mut lo: usize = 0;
    let mut hi: usize = cum.len();
    while lo < hi
        invariant
            lo <= hi <= cum@.len(),
            cum@[0] == 0,
            split_idx >= 1,
            forall|i: int, j: int| 0 <= i <= j < cum@.len() ==> cum@[i] <= cum@[j],
            lo > 0 ==> cum@[lo as int - 1] < split_idx,
            hi < cum@.len() ==> cum@[hi as int] > split_idx,
        decreases hi - lo,
    {
        let mid: usize = lo + (hi - lo) / 2;
        let v: usize = cum[mid];
        if v == split_idx {
            return SplitPoint::OnBoundary { shard: mid };
        } else if v < split_idx {
            lo = mid + 1;
        } else {
            hi = mid;
        }
    }
    let base: usize = cum[lo - 1];
    SplitPoint::WithinShard { shard: lo - 1, offset: split_idx - base }
}

impl<'a, T> Frontier<'a, T> {
    /// A sequential cursor over the container's whole logical content.
    pub fn iter<'b>(&'b self) -> (r: FrontierIter<'b, T>)
        requires
            self.wf(),
            flat_of(self@).len() <= usize::MAX,
        ensures
            r.wf(),
            r.shards() == self@,
            r.remaining() == self.content(),
    {
        FrontierIter::new(self)
    }
}

} // verus!
