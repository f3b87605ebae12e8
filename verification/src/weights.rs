//! Symbol weights, the ascending order they induce, and the weighted draw.

use vstd::prelude::*;

verus! {

/// How often each symbol occurs in a sample of `total` cells. The weight of
/// id `i` is the fraction `counts[i] / total`. It is kept as its two
/// integers, so that every comparison of weights is exact.
#[derive(Clone, Debug, PartialEq, Eq)]
pub struct Weights {
    pub counts: Vec<usize>,
    pub total: usize,
}

/// The fraction `num / den`: a number in `[0, 1)` when `num < den`.
#[derive(Clone, Copy, Debug, PartialEq, Eq, Structural)]
pub struct Draw {
    pub num: u64,
    pub den: u64,
}

impl Draw {
    /// The fraction lies in `[0, 1)`.
    pub open spec fn wf(self) -> bool {
        self.num < self.den
    }

    /// The draw that 32 random bits stand for: their upper 24 bits, read as
    /// a fraction of `2^24`.
    pub open spec fn spec_from_bits(bits: u32) -> Draw {
        Draw { num: (bits >> 8) as u64, den: 0x100_0000 }
    }

    #[verifier::when_used_as_spec(spec_from_bits)]
    pub fn from_bits(bits: u32) -> (r: Draw)
        ensures
            r == Draw::spec_from_bits(bits),
            r.wf(),
    {
        assert(bits >> 8 < 0x100_0000u32) by (bit_vector);
        Draw { num: (bits >> 8) as u64, den: 0x100_0000 }
    }
}

impl Weights {
    /// Every id of `ids` has a weight.
    pub open spec fn covers(&self, ids: Seq<usize>) -> bool {
        forall|k: int| 0 <= k < ids.len() ==> (#[trigger] ids[k]) < self.counts@.len()
    }

    /// Some id has a weight above zero.
    pub open spec fn some_positive(&self) -> bool {
        exists|id: int| 0 <= id < self.counts@.len() && #[trigger] self.counts@[id] > 0
    }

    /// The numerator of the weight of `id`.
    pub open spec fn count(&self, id: usize) -> int {
        self.counts@[id as int] as int
    }

    /// The weight of `id` is greater than `r`.
    pub open spec fn exceeds(&self, id: usize, r: Draw) -> bool {
        r.num * self.total < self.count(id) * r.den
    }

    /// Where `id` goes in `sorted`: behind the last id that is not heavier.
    pub open spec fn slot(&self, sorted: Seq<usize>, id: usize) -> int
        decreases sorted.len(),
    {
        if sorted.len() == 0 {
            0
        } else if self.count(sorted.last()) <= self.count(id) {
            sorted.len() as int
        } else {
            self.slot(sorted.drop_last(), id)
        }
    }

    /// `ids` in ascending order of weight. Ids of equal weight keep the
    /// order they had.
    pub open spec fn ordered(&self, ids: Seq<usize>) -> Seq<usize>
        decreases ids.len(),
    {
        if ids.len() == 0 {
            Seq::empty()
        } else {
            let front = self.ordered(ids.drop_last());
            front.insert(self.slot(front, ids.last()), ids.last())
        }
    }

    /// No id of `ids` is lighter than one before it.
    pub open spec fn ascending(&self, ids: Seq<usize>) -> bool {
        forall|i: int, j: int|
            0 <= i <= j < ids.len() ==> self.count(#[trigger] ids[i]) <= self.count(
                #[trigger] ids[j],
            )
    }

    /// The index of the first id of `ids` whose weight exceeds `r`, or the
    /// length of `ids` when there is none.
    pub open spec fn first_over(&self, ids: Seq<usize>, r: Draw) -> int
        decreases ids.len(),
    {
        if ids.len() == 0 {
            0
        } else {
            let before = self.first_over(ids.drop_last(), r);
            if before < ids.len() - 1 || self.exceeds(ids.last(), r) {
                before
            } else {
                ids.len() as int
            }
        }
    }

    /// The id drawn from `ids`, read in the given order: the first whose
    /// weight exceeds `r`; the last id when none does; none when `ids` is
    /// empty.
    pub open spec fn pick(&self, ids: Seq<usize>, r: Draw) -> Option<usize> {
        if ids.len() == 0 {
            None
        } else if self.first_over(ids, r) < ids.len() {
            Some(ids[self.first_over(ids, r)])
        } else {
            Some(ids.last())
        }
    }

    /// The id that a draw `r` takes from the candidates `ids`: they are put
    /// in ascending order of weight, and the draw is made from that order.
    pub open spec fn sampled(&self, ids: Seq<usize>, r: Draw) -> Option<usize> {
        self.pick(self.ordered(ids), r)
    }

    /// `slot` lies within the sequence; everything before it is no heavier
    /// than `id`, everything from it on is heavier.
    pub proof fn lemma_slot(&self, sorted: Seq<usize>, id: usize)
        requires
            self.ascending(sorted),
        ensures
            0 <= self.slot(sorted, id) <= sorted.len(),
            forall|k: int|
                0 <= k < self.slot(sorted, id) ==> self.count(#[trigger] sorted[k]) <= self.count(
                    id,
                ),
            forall|k: int|
                self.slot(sorted, id) <= k < sorted.len() ==> self.count(#[trigger] sorted[k])
                    > self.count(id),
        decreases sorted.len(),
    {
        if sorted.len() == 0 {
        } else if self.count(sorted.last()) <= self.count(id) {
            assert forall|k: int| 0 <= k < sorted.len() implies self.count(#[trigger] sorted[k])
                <= self.count(id) by {
                assert(self.count(sorted[k]) <= self.count(sorted[sorted.len() - 1]));
            }
        } else {
            let front = sorted.drop_last();
            assert(self.ascending(front)) by {
                assert forall|i: int, j: int| 0 <= i <= j < front.len() implies self.count(
                    #[trigger] front[i],
                ) <= self.count(#[trigger] front[j]) by {
                    assert(self.count(sorted[i]) <= self.count(sorted[j]));
                }
            }
            self.lemma_slot(front, id);
            assert forall|k: int| 0 <= k < self.slot(sorted, id) implies self.count(
                #[trigger] sorted[k],
            ) <= self.count(id) by {
                assert(sorted[k] == front[k]);
            }
            assert forall|k: int| self.slot(sorted, id) <= k < sorted.len() implies self.count(
                #[trigger] sorted[k],
            ) > self.count(id) by {
                if k < front.len() {
                    assert(sorted[k] == front[k]);
                }
            }
        }
    }

    /// What `ordered` returns is `ids` rearranged, in ascending order of
    /// weight.
    pub proof fn lemma_ordered(&self, ids: Seq<usize>)
        ensures
            self.ordered(ids).len() == ids.len(),
            self.ordered(ids).to_multiset() == ids.to_multiset(),
            self.ascending(self.ordered(ids)),
            forall|id: usize|
                #![trigger self.ordered(ids).contains(id)]
                self.ordered(ids).contains(id) <==> ids.contains(id),
            ids.no_duplicates() ==> self.ordered(ids).no_duplicates(),
        decreases ids.len(),
    {
        broadcast use vstd::seq_lib::group_to_multiset_ensures;

        let out = self.ordered(ids);
        if ids.len() == 0 {
            assert(out =~= ids);
        } else {
            let front_ids = ids.drop_last();
            let last = ids.last();
            let front = self.ordered(front_ids);
            self.lemma_ordered(front_ids);
            self.lemma_slot(front, last);
            let at = self.slot(front, last);
            assert(out == front.insert(at, last));
            assert(ids == front_ids.push(last));
            vstd::seq_lib::to_multiset_insert(front, at, last);
            assert(out.to_multiset() == ids.to_multiset()) by {
                assert(front.insert(at, last).to_multiset() =~= front.to_multiset().insert(last));
                assert(front_ids.push(last).to_multiset() =~= front_ids.to_multiset().insert(last));
            }
            assert forall|i: int, j: int| 0 <= i <= j < out.len() implies self.count(
                #[trigger] out[i],
            ) <= self.count(#[trigger] out[j]) by {
                let a = if i < at { i } else { i - 1 };
                let b = if j < at { j } else { j - 1 };
                if i == at {
                    if j > at {
                        assert(out[j] == front[j - 1]);
                    }
                } else if j == at {
                    assert(out[i] == front[i]);
                } else {
                    assert(out[i] == front[a]);
                    assert(out[j] == front[b]);
                    assert(self.count(front[a]) <= self.count(front[b]));
                }
            }
            assert forall|id: usize| out.contains(id) <==> ids.contains(id) by {
                if out.contains(id) {
                    let k = choose|k: int| 0 <= k < out.len() && out[k] == id;
                    if k < at {
                        assert(front[k] == id);
                        assert(front.contains(id));
                        let m = choose|m: int| 0 <= m < front_ids.len() && front_ids[m] == id;
                        assert(ids[m] == id);
                    } else if k == at {
                        assert(ids[ids.len() - 1] == id);
                    } else {
                        assert(front[k - 1] == id);
                        assert(front.contains(id));
                        let m = choose|m: int| 0 <= m < front_ids.len() && front_ids[m] == id;
                        assert(ids[m] == id);
                    }
                }
                if ids.contains(id) {
                    let m = choose|m: int| 0 <= m < ids.len() && ids[m] == id;
                    if m < front_ids.len() {
                        assert(front_ids[m] == id);
                        assert(front_ids.contains(id));
                        assert(front.contains(id));
                        let k = choose|k: int| 0 <= k < front.len() && front[k] == id;
                        if k < at {
                            assert(out[k] == id);
                        } else {
                            assert(out[k + 1] == id);
                        }
                    } else {
                        assert(out[at] == id);
                    }
                }
            }
            if ids.no_duplicates() {
                assert(front_ids.no_duplicates());
                assert(!front_ids.contains(last)) by {
                    if front_ids.contains(last) {
                        let m = choose|m: int| 0 <= m < front_ids.len() && front_ids[m] == last;
                        assert(ids[m] == ids[ids.len() - 1]);
                    }
                }
                assert(!front.contains(last));
                assert forall|i: int, j: int| 0 <= i < j < out.len() implies out[i] != out[j] by {
                    let a = if i < at { i } else { i - 1 };
                    let b = if j < at { j } else { j - 1 };
                    if i == at {
                        assert(out[j] == front[b]);
                        assert(front.contains(front[b]));
                    } else if j == at {
                        assert(out[i] == front[a]);
                        assert(front.contains(front[a]));
                    } else {
                        assert(out[i] == front[a]);
                        assert(out[j] == front[b]);
                    }
                }
            }
        }
    }

    /// `first_over` is the first index at which the weight exceeds `r`.
    pub proof fn lemma_first_over(&self, ids: Seq<usize>, r: Draw)
        ensures
            0 <= self.first_over(ids, r) <= ids.len(),
            forall|k: int|
                0 <= k < self.first_over(ids, r) ==> !self.exceeds(#[trigger] ids[k], r),
            self.first_over(ids, r) < ids.len() ==> self.exceeds(
                ids[self.first_over(ids, r)],
                r,
            ),
        decreases ids.len(),
    {
        if ids.len() == 0 {
        } else {
            let front = ids.drop_last();
            self.lemma_first_over(front, r);
            assert forall|k: int| 0 <= k < self.first_over(ids, r) implies !self.exceeds(
                #[trigger] ids[k],
                r,
            ) by {
                if k < front.len() {
                    assert(ids[k] == front[k]);
                }
            }
            if self.first_over(front, r) < front.len() {
                assert(ids[self.first_over(front, r)] == front[self.first_over(front, r)]);
            }
        }
    }

    /// Once a prefix holds an id whose weight exceeds `r`, the first such
    /// index of the whole sequence is that of the prefix.
    pub proof fn lemma_first_over_prefix(&self, ids: Seq<usize>, r: Draw, len: int)
        requires
            0 <= len <= ids.len(),
            self.first_over(ids.take(len), r) < len,
        ensures
            self.first_over(ids, r) == self.first_over(ids.take(len), r),
        decreases ids.len() - len,
    {
        if len == ids.len() {
            assert(ids.take(len) == ids);
        } else {
            let next = ids.take(len + 1);
            assert(next.drop_last() == ids.take(len));
            self.lemma_first_over_prefix(ids, r, len + 1);
        }
    }

    /// Ids of equal weight leave `ordered` in the order in which they came:
    /// of two such ids, the one that stands first in the result stood first
    /// in `ids`.
    pub proof fn lemma_ordered_stable(&self, ids: Seq<usize>)
        ensures
            forall|a: int, b: int|
                #![trigger self.ordered(ids)[a], self.ordered(ids)[b]]
                0 <= a < b < self.ordered(ids).len() && self.count(self.ordered(ids)[a])
                    == self.count(self.ordered(ids)[b]) ==> exists|i: int, j: int|
                    0 <= i < j < ids.len() && #[trigger] ids[i] == self.ordered(ids)[a]
                        && #[trigger] ids[j] == self.ordered(ids)[b],
        decreases ids.len(),
    {
        let out = self.ordered(ids);
        if ids.len() > 0 {
            let front_ids = ids.drop_last();
            let last = ids.last();
            let front = self.ordered(front_ids);
            self.lemma_ordered(front_ids);
            self.lemma_ordered_stable(front_ids);
            self.lemma_slot(front, last);
            let at = self.slot(front, last);
            assert forall|a: int, b: int|
                0 <= a < b < out.len() && self.count(out[a]) == self.count(
                    out[b],
                ) implies exists|i: int, j: int|
                0 <= i < j < ids.len() && #[trigger] ids[i] == out[a] && #[trigger] ids[j]
                    == out[b] by {
                let fa = if a < at { a } else { a - 1 };
                let fb = if b < at { b } else { b - 1 };
                if a == at {
                    assert(out[b] == front[fb]);
                    assert(self.count(front[fb]) > self.count(last));
                } else if b == at {
                    assert(out[a] == front[fa]);
                    assert(front.contains(front[fa]));
                    assert(front_ids.contains(front[fa]));
                    let i = choose|i: int| 0 <= i < front_ids.len() && front_ids[i] == front[fa];
                    assert(ids[i] == out[a] && ids[ids.len() - 1] == out[b]);
                } else {
                    assert(out[a] == front[fa]);
                    assert(out[b] == front[fb]);
                    let (i, j) = choose|i: int, j: int|
                        0 <= i < j < front_ids.len() && #[trigger] front_ids[i] == front[fa]
                            && #[trigger] front_ids[j] == front[fb];
                    assert(ids[i] == out[a] && ids[j] == out[b]);
                }
            }
        }
    }

    /// What the draw takes. From no candidates, nothing. Where the weight of
    /// some candidate exceeds `r`, the lightest such candidate. Where none
    /// does, a candidate that no other outweighs.
    pub proof fn lemma_sampled(&self, ids: Seq<usize>, r: Draw)
        ensures
            self.sampled(ids, r) is None <==> ids.len() == 0,
            self.sampled(ids, r) matches Some(id) ==> {
                &&& ids.contains(id)
                &&& (exists|k: int| 0 <= k < ids.len() && self.exceeds(#[trigger] ids[k], r))
                    ==> self.exceeds(id, r) && forall|k: int|
                    0 <= k < ids.len() && self.exceeds(#[trigger] ids[k], r) ==> self.count(id)
                        <= self.count(ids[k])
                &&& (forall|k: int| 0 <= k < ids.len() ==> !self.exceeds(#[trigger] ids[k], r))
                    ==> forall|k: int|
                    0 <= k < ids.len() ==> self.count(#[trigger] ids[k]) <= self.count(id)
            },
    {
        let sorted = self.ordered(ids);
        self.lemma_ordered(ids);
        self.lemma_first_over(sorted, r);
        let first = self.first_over(sorted, r);
        if ids.len() > 0 {
            let id = self.sampled(ids, r)->0;
            let at = if first < sorted.len() { first } else { sorted.len() - 1 };
            assert(sorted[at] == id);
            assert(sorted.contains(id));
            assert forall|k: int| 0 <= k < ids.len() implies ({
                &&& self.exceeds(#[trigger] ids[k], r) ==> self.exceeds(id, r) && self.count(id)
                    <= self.count(ids[k])
                &&& first == sorted.len() ==> self.count(ids[k]) <= self.count(id)
                    && !self.exceeds(ids[k], r)
            }) by {
                assert(ids.contains(ids[k]));
                assert(sorted.contains(ids[k]));
                let m = choose|m: int| 0 <= m < sorted.len() && sorted[m] == ids[k];
                if self.exceeds(ids[k], r) {
                    assert(first <= m);
                    assert(self.count(sorted[first]) <= self.count(sorted[m]));
                }
                if first == sorted.len() {
                    assert(self.count(sorted[m]) <= self.count(sorted[sorted.len() - 1]));
                }
            }
            if forall|k: int| 0 <= k < ids.len() ==> !self.exceeds(#[trigger] ids[k], r) {
                if first < sorted.len() {
                    assert(ids.contains(sorted[first]));
                    let k = choose|k: int| 0 <= k < ids.len() && ids[k] == sorted[first];
                    assert(!self.exceeds(ids[k], r));
                }
            }
        } else {
            assert(sorted.len() == 0);
        }
    }

    /// A table of weights.
    pub fn new(counts: Vec<usize>, total: usize) -> (weights: Weights)
        ensures
            weights.counts@ == counts@,
            weights.total == total,
    {
        Weights { counts, total }
    }

    /// Whether the weight of `id` is greater than `r`.
    pub fn is_over(&self, id: usize, r: Draw) -> (over: bool)
        requires
            id < self.counts@.len(),
        ensures
            over == self.exceeds(id, r),
    {
        let left: u128 = widen(r.num, self.total as u64);
        let right: u128 = widen(self.counts[id] as u64, r.den);
        left < right
    }

    /// The id of greatest weight, the first of them where several share it;
    /// 0 when there is no id at all.
    pub fn heaviest(&self) -> (best: usize)
        ensures
            self.counts@.len() == 0 ==> best == 0,
            self.counts@.len() > 0 ==> best < self.counts@.len(),
            forall|i: int| 0 <= i < self.counts@.len() ==> self.counts@[i] <= self.count(best),
            forall|i: int| 0 <= i < best ==> self.counts@[i] < self.count(best),
    {
        let mut max_idx: usize = 0;
        let mut i: usize = 0;
        while i < self.counts.len()
            invariant
                i <= self.counts@.len(),
                i == 0 ==> max_idx == 0,
                i > 0 ==> max_idx < i,
                forall|k: int| 0 <= k < i ==> self.counts@[k] <= self.count(max_idx),
                forall|k: int| 0 <= k < max_idx ==> self.counts@[k] < self.count(max_idx),
            decreases self.counts.len() - i,
        {
            if self.counts[max_idx] < self.counts[i] {
                max_idx = i;
            }
            i += 1;
        }
        max_idx
    }
}

/// The product of two 64-bit numbers, in full.
fn widen(a: u64, b: u64) -> (product: u128)
    ensures
        product == a * b,
{
    assert(a * b <= 0xffff_ffff_ffff_ffff * 0xffff_ffff_ffff_ffff) by (nonlinear_arith)
        requires
            a <= 0xffff_ffff_ffff_ffff,
            b <= 0xffff_ffff_ffff_ffff,
    ;
    (a as u128) * (b as u128)
}

/// Puts `ids` in ascending order of weight. Ids of equal weight keep the
/// order they had.
pub fn sort_by_weight(ids: &mut Vec<usize>, weights: &Weights)
    requires
        weights.covers(old(ids)@),
    ensures
        final(ids)@ == weights.ordered(old(ids)@),
        final(ids)@.len() == old(ids)@.len(),
        final(ids)@.to_multiset() == old(ids)@.to_multiset(),
        weights.ascending(final(ids)@),
        weights.covers(final(ids)@),
        forall|id: usize| final(ids)@.contains(id) <==> old(ids)@.contains(id),
{
    let ghost start = ids@;
    let mut out: Vec<usize> = Vec::new();
    let mut i: usize = 0;
    while i < ids.len()
        invariant
            ids@ == start,
            i <= ids.len(),
            weights.covers(start),
            weights.covers(out@),
            out@ == weights.ordered(start.take(i as int)),
            out@.len() == i,
        decreases ids.len() - i,
    {
        let id = ids[i];
        let mut at: usize = out.len();
        proof {
            weights.lemma_ordered(start.take(i as int));
            assert(out@.take(at as int) == out@);
        }
        while at > 0 && weights.counts[out[at - 1]] > weights.counts[id]
            invariant
                at <= out.len(),
                id < weights.counts@.len(),
                weights.covers(out@),
                weights.slot(out@, id) == weights.slot(out@.take(at as int), id),
            decreases at,
        {
            proof {
                let part = out@.take(at as int);
                assert(part.last() == out@[at - 1]);
                assert(part.drop_last() == out@.take(at - 1));
            }
            at -= 1;
        }
        proof {
            let part = out@.take(at as int);
            if at > 0 {
                assert(part.last() == out@[at - 1]);
            }
            assert(weights.slot(part, id) == at);
            let next = start.take(i as int + 1);
            assert(next.drop_last() == start.take(i as int));
            assert(next.last() == id);
        }
        let ghost before = out@;
        out.insert(at, id);
        proof {
            assert forall|k: int| 0 <= k < out@.len() implies (#[trigger] out@[k])
                < weights.counts@.len() by {
                if k < at {
                    assert(out@[k] == before[k]);
                } else if k > at {
                    assert(out@[k] == before[k - 1]);
                }
            }
        }
        i += 1;
    }
    proof {
        assert(start.take(start.len() as int) == start);
        weights.lemma_ordered(start);
    }
    *ids = out;
}

/// Draws from `sorted`, read in the given order: the first id whose weight
/// exceeds `r`; the last id when none does; none when `sorted` is empty.
pub fn sample(sorted: &Vec<usize>, weights: &Weights, r: Draw) -> (drawn: Option<usize>)
    requires
        weights.covers(sorted@),
    ensures
        drawn == weights.pick(sorted@, r),
        drawn is None <==> sorted@.len() == 0,
        drawn matches Some(id) ==> sorted@.contains(id),
{
    let mut i: usize = 0;
    while i < sorted.len()
        invariant
            i <= sorted.len(),
            weights.covers(sorted@),
            weights.first_over(sorted@.take(i as int), r) == i,
        decreases sorted.len() - i,
    {
        proof {
            let next = sorted@.take(i as int + 1);
            assert(next.drop_last() == sorted@.take(i as int));
            assert(next.last() == sorted@[i as int]);
        }
        if weights.is_over(sorted[i], r) {
            proof {
                weights.lemma_first_over_prefix(sorted@, r, i as int + 1);
            }
            return Some(sorted[i]);
        }
        i += 1;
    }
    assert(sorted@.take(sorted.len() as int) == sorted@);
    if sorted.len() == 0 {
        None
    } else {
        Some(sorted[sorted.len() - 1])
    }
}

} // verus!
