//! Sets of non-negative integers held as sorted, disjoint half-open ranges.

use std::ops::Range;
use vstd::prelude::*;

verus! {

broadcast use vstd::seq_lib::group_to_multiset_ensures;

/// True when `n` lies in one of the half-open ranges `[start, end)`.
pub open spec fn in_ranges(ranges: Seq<(usize, usize)>, n: int) -> bool {
    exists|i: int| 0 <= i < ranges.len() && #[trigger] ranges[i].0 <= n < ranges[i].1
}

/// The integers covered by a list of half-open ranges.
pub open spec fn covered(ranges: Seq<(usize, usize)>) -> Set<int> {
    Set::new(|n: int| in_ranges(ranges, n))
}

/// Non-empty ranges in increasing order, each separated from the next by a gap.
pub open spec fn separated(ranges: Seq<(usize, usize)>) -> bool {
    &&& forall|i: int| 0 <= i < ranges.len() ==> #[trigger] ranges[i].0 < ranges[i].1
    &&& forall|i: int, j: int|
        0 <= i < j < ranges.len() ==> #[trigger] ranges[i].1 < #[trigger] ranges[j].0
}

pub open spec fn sorted_by_start(ranges: Seq<(usize, usize)>) -> bool {
    forall|i: int, j: int| 0 <= i < j < ranges.len() ==> #[trigger] ranges[i].0 <= #[trigger] ranges[j].0
}

/// A frozen, queryable set of integers.
#[derive(Debug)]
pub struct RangeSet {
    ranges: Vec<(usize, usize)>,
}

/// Accumulates ranges in the order given; `build` freezes them into a `RangeSet`.
pub struct RangeSetBuilder {
    range_set: Vec<(usize, usize)>,
}

impl View for RangeSet {
    type V = Set<int>;

    closed spec fn view(&self) -> Set<int> {
        covered(self.ranges@)
    }
}

impl View for RangeSetBuilder {
    type V = Seq<(usize, usize)>;

    /// The ranges added so far, as `(start, end)` pairs, in the order added.
    closed spec fn view(&self) -> Seq<(usize, usize)> {
        self.range_set@
    }
}

impl RangeSet {
    #[verifier::type_invariant]
    spec fn well_formed(self) -> bool {
        separated(self.ranges@)
    }

    /// Whether `num` belongs to the set, by binary search over the ranges.
    pub fn contains(&self, num: usize) -> (r: bool)
        ensures
            r == self@.contains(num as int),
    {
        proof {
            use_type_invariant(self);
        }
        let ranges = &self.ranges;
        let mut lo: usize = 0;
        let mut hi: usize = ranges.len();
        while lo < hi
            invariant
                ranges == &self.ranges,
                hi <= ranges@.len(),
                separated(ranges@),
                forall|i: int| 0 <= i < lo ==> #[trigger] ranges@[i].1 <= num,
                forall|i: int| hi <= i < ranges@.len() ==> num < #[trigger] ranges@[i].0,
            decreases hi - lo,
        {
            let mid = lo + (hi - lo) / 2;
            let (start, end) = ranges[mid];
            if num < start {
                hi = mid;
            } else if num < end {
                proof {
                    assert(ranges@[mid as int].0 <= num < ranges@[mid as int].1);
                    assert(in_ranges(ranges@, num as int));
                }
                return true;
            } else {
                lo = mid + 1;
            }
        }
        proof {
            assert forall|i: int| 0 <= i < ranges@.len() implies !(#[trigger] ranges@[i].0 <= num
                < ranges@[i].1) by {
                if i < lo {
                    assert(ranges@[i].1 <= num);
                } else {
                    assert(num < ranges@[i].0);
                }
            }
        }
        false
    }
}

/// Relies on `slice::sort_unstable`: the result is a permutation of its input,
/// in ascending order (tuples compare by their first field first).
#[verifier::external_body]
fn sort_ranges(v: &mut Vec<(usize, usize)>)
    ensures
        final(v)@.to_multiset() == old(v)@.to_multiset(),
        sorted_by_start(final(v)@),
{
    v.sort_unstable();
}

proof fn lemma_in_ranges_push(ranges: Seq<(usize, usize)>, r: (usize, usize), n: int)
    ensures
        in_ranges(ranges.push(r), n) <==> (in_ranges(ranges, n) || (r.0 <= n < r.1)),
{
    let pushed = ranges.push(r);
    if in_ranges(pushed, n) {
        let i = choose|i: int| 0 <= i < pushed.len() && #[trigger] pushed[i].0 <= n < pushed[i].1;
        if i < ranges.len() {
            assert(ranges[i] == pushed[i]);
        }
    }
    if in_ranges(ranges, n) {
        let i = choose|i: int| 0 <= i < ranges.len() && #[trigger] ranges[i].0 <= n < ranges[i].1;
        assert(pushed[i] == ranges[i]);
    }
    if r.0 <= n < r.1 {
        assert(pushed[ranges.len() as int] == r);
    }
}

proof fn lemma_same_elements_cover(a: Seq<(usize, usize)>, b: Seq<(usize, usize)>, n: int)
    requires
        a.to_multiset() == b.to_multiset(),
    ensures
        in_ranges(a, n) <==> in_ranges(b, n),
{
    a.to_multiset_ensures();
    b.to_multiset_ensures();
    if in_ranges(a, n) {
        let i = choose|i: int| 0 <= i < a.len() && #[trigger] a[i].0 <= n < a[i].1;
        assert(a.contains(a[i]));
        assert(a.to_multiset().count(a[i]) > 0);
        assert(b.to_multiset().count(a[i]) > 0);
        assert(b.contains(a[i]));
        let j = choose|j: int| 0 <= j < b.len() && b[j] == a[i];
        assert(b[j].0 <= n < b[j].1);
    }
    if in_ranges(b, n) {
        let i = choose|i: int| 0 <= i < b.len() && #[trigger] b[i].0 <= n < b[i].1;
        assert(b.contains(b[i]));
        assert(b.to_multiset().count(b[i]) > 0);
        assert(a.to_multiset().count(b[i]) > 0);
        assert(a.contains(b[i]));
        let j = choose|j: int| 0 <= j < a.len() && a[j] == b[i];
        assert(a[j].0 <= n < a[j].1);
    }
}

/// Merges ranges sorted by start into separated ranges covering the same integers.
fn merge_sorted(sorted: &Vec<(usize, usize)>) -> (out: Vec<(usize, usize)>)
    requires
        sorted_by_start(sorted@),
    ensures
        separated(out@),
        covered(out@) == covered(sorted@),
{
    let mut out: Vec<(usize, usize)> = Vec::new();
    let mut have = false;
    let mut cur_start: usize = 0;
    let mut cur_end: usize = 0;
    let mut i: usize = 0;
    while i < sorted.len()
        invariant
            i <= sorted@.len(),
            sorted_by_start(sorted@),
            separated(out@),
            have ==> cur_start < cur_end,
            !have ==> out@.len() == 0,
            have ==> forall|k: int| 0 <= k < out@.len() ==> #[trigger] out@[k].1 < cur_start,
            have ==> forall|j: int| i <= j < sorted@.len() ==> cur_start <= #[trigger] sorted@[j].0,
            forall|n: int|
                #![trigger in_ranges(sorted@.take(i as int), n)]
                (in_ranges(out@, n) || (have && cur_start <= n < cur_end)) <==> in_ranges(
                    sorted@.take(i as int),
                    n,
                ),
        decreases sorted@.len() - i,
    {
        let (s, e) = sorted[i];
        let ghost old_out = out@;
        let ghost old_have = have;
        let ghost old_start = cur_start;
        let ghost old_end = cur_end;
        if s < e {
            if !have {
                have = true;
                cur_start = s;
                cur_end = e;
            } else if s <= cur_end {
                if cur_end < e {
                    cur_end = e;
                }
            } else {
                out.push((cur_start, cur_end));
                proof {
                    assert forall|n: int| in_ranges(out@, n) <==> (in_ranges(old_out, n) || (
                    old_start <= n < old_end)) by {
                        lemma_in_ranges_push(old_out, (old_start, old_end), n);
                    }
                }
                cur_start = s;
                cur_end = e;
            }
        }
        proof {
            assert(sorted@.take(i + 1) =~= sorted@.take(i as int).push((s, e)));
            assert forall|n: int|
                #![trigger in_ranges(sorted@.take(i + 1), n)]
                (in_ranges(out@, n) || (have && cur_start <= n < cur_end)) <==> in_ranges(
                    sorted@.take(i + 1),
                    n,
                ) by {
                lemma_in_ranges_push(sorted@.take(i as int), (s, e), n);
                assert(in_ranges(old_out, n) || (old_have && old_start <= n < old_end)
                    <==> in_ranges(sorted@.take(i as int), n));
            }
        }
        i = i + 1;
    }
    if have {
        let ghost old_out = out@;
        out.push((cur_start, cur_end));
        proof {
            assert forall|n: int| in_ranges(out@, n) <==> (in_ranges(old_out, n) || (cur_start
                <= n < cur_end)) by {
                lemma_in_ranges_push(old_out, (cur_start, cur_end), n);
            }
        }
    }
    proof {
        assert(sorted@.take(i as int) =~= sorted@);
        assert forall|n: int| in_ranges(out@, n) <==> in_ranges(sorted@, n) by {
            assert(in_ranges(sorted@.take(i as int), n) <==> in_ranges(sorted@, n));
        }
        assert(covered(out@) =~= covered(sorted@));
    }
    out
}

impl RangeSetBuilder {
    pub fn new() -> (r: RangeSetBuilder)
        ensures
            r@ == Seq::<(usize, usize)>::empty(),
    {
        RangeSetBuilder { range_set: Vec::new() }
    }

    /// Adds the half-open range `range.start .. range.end`.
    pub fn add_range(&mut self, range: Range<usize>) -> (r: &mut RangeSetBuilder)
        ensures
            r@ == old(self)@.push((range.start, range.end)),
            *final(self) == *final(r),
    {
        self.range_set.push((range.start, range.end));
        self
    }

    /// Adds the single integer `num`.
    pub fn add(&mut self, num: usize) -> (r: &mut RangeSetBuilder)
        requires
            num < usize::MAX,
        ensures
            r@ == old(self)@.push((num, (num + 1) as usize)),
            *final(self) == *final(r),
    {
        self.range_set.push((num, num + 1));
        self
    }

    /// Freezes the ranges added so far. Overlapping and adjacent ranges are
    /// merged, so membership is exact whatever ranges were added.
    pub fn build(&mut self) -> (r: RangeSet)
        ensures
            *final(self) == *old(self),
            r@ == covered(old(self)@),
    {
        let mut sorted: Vec<(usize, usize)> = Vec::new();
        let mut i: usize = 0;
        while i < self.range_set.len()
            invariant
                i <= self.range_set@.len(),
                sorted@ == self.range_set@.take(i as int),
            decreases self.range_set@.len() - i,
        {
            sorted.push(self.range_set[i]);
            proof {
                assert(self.range_set@.take(i + 1) =~= self.range_set@.take(i as int).push(
                    self.range_set@[i as int],
                ));
            }
            i = i + 1;
        }
        proof {
            assert(self.range_set@.take(i as int) =~= self.range_set@);
        }
        let ghost unsorted = sorted@;
        sort_ranges(&mut sorted);
        let ranges = merge_sorted(&sorted);
        proof {
            assert forall|n: int| in_ranges(sorted@, n) <==> in_ranges(unsorted, n) by {
                lemma_same_elements_cover(sorted@, unsorted, n);
            }
            assert(covered(ranges@) =~= covered(self.range_set@));
        }
        RangeSet { ranges }
    }
}

/// Membership in a built set is exact: a value is a member iff it lies in one
/// of the ranges that were added, so a value just below or just above an
/// added range is a member only when another added range holds it.
pub proof fn lemma_membership_exact(added: Seq<(usize, usize)>, set: RangeSet, n: int)
    requires
        set@ == covered(added),
    ensures
        set@.contains(n) <==> exists|i: int| 0 <= i < added.len() && #[trigger] added[i].0 <= n < added[i].1,
        forall|i: int|
            0 <= i < added.len() && !in_ranges(added, added[i].0 - 1) ==> !set@.contains(
                #[trigger] added[i].0 - 1,
            ),
        forall|i: int|
            0 <= i < added.len() && !in_ranges(added, added[i].1 as int) ==> !set@.contains(
                #[trigger] added[i].1 as int,
            ),
{
}

} // verus!
