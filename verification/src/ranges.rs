//! Sets of packet numbers, stored as ascending half-open ranges.

use std::ops::Range;
use vstd::prelude::*;

verus! {

/// Whether packet number `n` lies in one of the ranges.
pub open spec fn covered(ranges: Seq<Range<u64>>, n: u64) -> bool {
    exists|i: int| 0 <= i < ranges.len() && (#[trigger] ranges[i]).start <= n < ranges[i].end
}

/// The set of the packet numbers that lie in one of the ranges.
pub open spec fn members(ranges: Seq<Range<u64>>) -> Set<u64> {
    Set::new(|n: u64| covered(ranges, n))
}

/// No range is empty, and every range ends strictly before the next begins.
pub open spec fn separated(ranges: Seq<Range<u64>>) -> bool {
    &&& forall|i: int| 0 <= i < ranges.len() ==> (#[trigger] ranges[i]).start < ranges[i].end
    &&& forall|i: int, j: int|
        0 <= i < j < ranges.len() ==> (#[trigger] ranges[i]).end < (#[trigger] ranges[j]).start
}

/// The packet numbers `start, .., end - 1`.
pub open spec fn interval(start: int, end: int) -> Set<u64> {
    Set::new(|n: u64| start <= n < end)
}

/// Replacing the ranges `low..high` by one range that spans them and `item`
/// adds exactly the packet numbers of `item`.
proof fn lemma_splice(
    rs: Seq<Range<u64>>,
    low: int,
    high: int,
    item: Range<u64>,
    merged: Range<u64>,
)
    requires
        separated(rs),
        0 <= low <= high <= rs.len(),
        item.start < item.end,
        merged.start <= item.start,
        item.end <= merged.end,
        forall|k: int| 0 <= k < low ==> (#[trigger] rs[k]).end < item.start,
        merged.start == item.start || (low < high && merged.start == rs[low].start),
        high < rs.len() ==> merged.end < rs[high].start,
        forall|k: int|
            low <= k < high ==> merged.start <= (#[trigger] rs[k]).start && rs[k].end
                <= merged.end,
        forall|n: u64|
            merged.start <= n < merged.end ==> (item.start <= n < item.end)
                || #[trigger] covered(rs, n),
    ensures
        separated(rs.take(low).push(merged) + rs.skip(high)),
        members(rs.take(low).push(merged) + rs.skip(high)) == members(rs).union(
            interval(item.start as int, item.end as int),
        ),
{
    let out = rs.take(low).push(merged) + rs.skip(high);
    assert(forall|k: int| 0 <= k < low ==> #[trigger] out[k] == rs[k]);
    assert(out[low] == merged);
    assert(forall|k: int| low < k < out.len() ==> #[trigger] out[k] == rs[k - low - 1 + high]);
    assert forall|n: u64| #[trigger]
        covered(out, n) == (covered(rs, n) || item.start <= n < item.end) by {
        if covered(out, n) {
            let k = choose|k: int| 0 <= k < out.len() && (#[trigger] out[k]).start <= n < out[k].end;
            if k < low {
                assert(rs[k].start <= n < rs[k].end);
            } else if k > low {
                assert(rs[k - low - 1 + high].start <= n);
            }
        }
        if covered(rs, n) {
            let k = choose|k: int| 0 <= k < rs.len() && (#[trigger] rs[k]).start <= n < rs[k].end;
            if k < low {
                assert(out[k] == rs[k]);
            } else if k < high {
                assert(out[low].start <= n < out[low].end);
            } else {
                assert(out[k - high + low + 1] == rs[k]);
            }
        }
        if item.start <= n < item.end {
            assert(out[low].start <= n < out[low].end);
        }
    }
    assert(members(out) =~= members(rs).union(interval(item.start as int, item.end as int)));
    assert forall|i: int, j: int| 0 <= i < j < out.len() implies (#[trigger] out[i]).end < (
    #[trigger] out[j]).start by {
        if i < low && j == low {
            assert(rs[i].end < item.start);
            if low < high {
                assert(rs[i].end < rs[low].start);
            }
        } else if i == low {
            assert(out[j] == rs[j - low - 1 + high]);
            if j - low - 1 + high > high {
                assert(rs[high].end < rs[j - low - 1 + high].start);
                assert(rs[high].start < rs[high].end);
            }
        }
    }
}

/// One more range adds its packet numbers.
proof fn lemma_members_push(rs: Seq<Range<u64>>, r: Range<u64>)
    ensures
        members(rs.push(r)) == members(rs).union(interval(r.start as int, r.end as int)),
{
    let out = rs.push(r);
    assert forall|n: u64| #[trigger] covered(out, n) == (covered(rs, n) || r.start <= n < r.end) by {
        if covered(out, n) {
            let k = choose|k: int| 0 <= k < out.len() && (#[trigger] out[k]).start <= n < out[k].end;
            if k < rs.len() {
                assert(rs[k].start <= n < rs[k].end);
            }
        }
        if covered(rs, n) {
            let k = choose|k: int| 0 <= k < rs.len() && (#[trigger] rs[k]).start <= n < rs[k].end;
            assert(out[k] == rs[k]);
        }
        if r.start <= n < r.end {
            assert(out[rs.len() as int].start <= n);
        }
    }
    assert(members(out) =~= members(rs).union(interval(r.start as int, r.end as int)));
}

/// The first `i + 1` ranges cover what the first `i` ranges and range `i`
/// cover.
pub proof fn lemma_covered_take(rs: Seq<Range<u64>>, i: int)
    requires
        0 <= i < rs.len(),
    ensures
        forall|n: u64| #[trigger]
            covered(rs.take(i + 1), n) <==> covered(rs.take(i), n) || rs[i].start <= n
                < rs[i].end,
{
    assert(rs.take(i + 1) =~= rs.take(i).push(rs[i]));
    lemma_members_push(rs.take(i), rs[i]);
    assert forall|n: u64| #[trigger]
        covered(rs.take(i + 1), n) <==> covered(rs.take(i), n) || rs[i].start <= n
            < rs[i].end by {
        assert(members(rs.take(i + 1)).contains(n) <==> members(rs.take(i)).contains(n)
            || interval(rs[i].start as int, rs[i].end as int).contains(n));
    }
}

/// A set without ranges is the empty set, and no other is.
proof fn lemma_no_ranges(rs: Seq<Range<u64>>)
    requires
        separated(rs),
    ensures
        rs.len() == 0 <==> members(rs) == Set::<u64>::empty(),
{
    if rs.len() == 0 {
        assert(members(rs) =~= Set::<u64>::empty());
    } else {
        assert(rs[0].start <= rs[0].start < rs[0].end);
        assert(members(rs).contains(rs[0].start));
    }
}

/// Each set of packet numbers has one representation: two separated sequences
/// of ranges with the same members are the same sequence.
pub proof fn law_one_representation(a: Seq<Range<u64>>, b: Seq<Range<u64>>)
    requires
        separated(a),
        separated(b),
        members(a) == members(b),
    ensures
        a == b,
    decreases a.len(),
{
    lemma_no_ranges(a);
    lemma_no_ranges(b);
    assert(forall|n: u64| members(a).contains(n) == covered(a, n));
    assert(forall|n: u64| members(b).contains(n) == covered(b, n));
    if a.len() == 0 {
        assert(a =~= b);
    } else {
        assert(covered(a, a[0].start));
        assert(covered(b, a[0].start));
        assert(covered(b, b[0].start));
        assert(covered(a, b[0].start));
        assert(a[0].start == b[0].start);
        if a[0].end < b[0].end {
            assert(covered(b, a[0].end));
            assert(covered(a, a[0].end));
            assert(false);
        }
        if b[0].end < a[0].end {
            assert(covered(a, b[0].end));
            assert(covered(b, b[0].end));
            assert(false);
        }
        let a1 = a.drop_first();
        let b1 = b.drop_first();
        assert forall|n: u64| #[trigger] covered(a1, n) == (covered(a, n) && a[0].end <= n) by {
            if covered(a1, n) {
                let k = choose|k: int| 0 <= k < a1.len() && (#[trigger] a1[k]).start <= n < a1[k].end;
                assert(a[k + 1].start <= n < a[k + 1].end);
            }
            if covered(a, n) && a[0].end <= n {
                let k = choose|k: int| 0 <= k < a.len() && (#[trigger] a[k]).start <= n < a[k].end;
                assert(a1[k - 1] == a[k]);
            }
        }
        assert forall|n: u64| #[trigger] covered(b1, n) == (covered(b, n) && b[0].end <= n) by {
            if covered(b1, n) {
                let k = choose|k: int| 0 <= k < b1.len() && (#[trigger] b1[k]).start <= n < b1[k].end;
                assert(b[k + 1].start <= n < b[k + 1].end);
            }
            if covered(b, n) && b[0].end <= n {
                let k = choose|k: int| 0 <= k < b.len() && (#[trigger] b[k]).start <= n < b[k].end;
                assert(b1[k - 1] == b[k]);
            }
        }
        assert forall|n: u64| members(a1).contains(n) == members(b1).contains(n) by {
            assert(covered(a, n) == covered(b, n)) by {
                assert(members(a).contains(n) == members(b).contains(n));
            }
        }
        assert(members(a1) =~= members(b1));
        law_one_representation(a1, b1);
        assert(a =~= seq![a[0]] + a1);
        assert(b =~= seq![b[0]] + b1);
    }
}

/// Which packet numbers are between two bounds, and which are in a set: those
/// that some range of it holds.
pub proof fn law_membership(start: int, end: int, rs: Seq<Range<u64>>, n: u64)
    ensures
        interval(start, end).contains(n) <==> start <= n && n < end,
        members(rs).contains(n) <==> exists|i: int|
            0 <= i < rs.len() && (#[trigger] rs[i]).start <= n && n < rs[i].end,
{
    if members(rs).contains(n) {
        let i = choose|i: int| 0 <= i < rs.len() && (#[trigger] rs[i]).start <= n < rs[i].end;
        assert(rs[i].start <= n && n < rs[i].end);
    }
    if exists|i: int| 0 <= i < rs.len() && (#[trigger] rs[i]).start <= n && n < rs[i].end {
        let i = choose|i: int| 0 <= i < rs.len() && (#[trigger] rs[i]).start <= n && n < rs[i].end;
        assert(rs[i].start <= n < rs[i].end);
    }
}

/// A set of packet numbers.
///
/// It is kept as non-empty half-open ranges in ascending order, with a gap
/// between any two of them, so that each set has exactly one representation.
pub struct RangeSet {
    inner: Vec<Range<u64>>,
}

impl View for RangeSet {
    type V = Set<u64>;

    open spec fn view(&self) -> Set<u64> {
        members(self.ranges())
    }
}

impl Default for RangeSet {
    fn default() -> (s: Self)
        ensures
            s.wf(),
            s.ranges() == Seq::<Range<u64>>::empty(),
            s@ == Set::<u64>::empty(),
    {
        let s = RangeSet { inner: Vec::new() };
        assert(s@ =~= Set::<u64>::empty());
        s
    }
}

impl Clone for RangeSet {
    fn clone(&self) -> (s: Self)
        ensures
            s.ranges() == self.ranges(),
    {
        RangeSet { inner: self.iter() }
    }
}

impl RangeSet {
    /// The ranges of the set, in ascending order.
    pub closed spec fn ranges(&self) -> Seq<Range<u64>> {
        self.inner@
    }

    /// The representation invariant.
    pub open spec fn wf(&self) -> bool {
        separated(self.ranges())
    }

    /// Returns the number of ranges.
    pub fn len(&self) -> (n: usize)
        requires
            self.wf(),
        ensures
            n == self.ranges().len(),
            n == 0 <==> self@ == Set::<u64>::empty(),
    {
        proof {
            lemma_no_ranges(self.ranges());
        }
        self.inner.len()
    }

    /// Returns the smallest member.
    pub fn first(&self) -> (n: Option<u64>)
        requires
            self.wf(),
        ensures
            n is None <==> self@ == Set::<u64>::empty(),
            n matches Some(n) ==> self@.contains(n) && forall|m: u64|
                self@.contains(m) ==> n <= m,
    {
        if self.inner.len() == 0 {
            assert(self@ =~= Set::<u64>::empty());
            None
        } else {
            let n = self.inner[0].start;
            assert(self.ranges()[0].start <= n < self.ranges()[0].end);
            assert(self@.contains(n));
            Some(n)
        }
    }

    /// Returns the largest member.
    pub fn last(&self) -> (n: Option<u64>)
        requires
            self.wf(),
        ensures
            n is None <==> self@ == Set::<u64>::empty(),
            n matches Some(n) ==> self@.contains(n) && forall|m: u64|
                self@.contains(m) ==> m <= n,
    {
        let len = self.inner.len();
        if len == 0 {
            assert(self@ =~= Set::<u64>::empty());
            None
        } else {
            let n = self.inner[len - 1].end - 1;
            assert(self.ranges()[len - 1].start <= n < self.ranges()[len - 1].end);
            assert(self@.contains(n));
            Some(n)
        }
    }

    /// Returns the ranges of the set, in ascending order.
    pub fn iter(&self) -> (out: Vec<Range<u64>>)
        ensures
            out@ == self.ranges(),
    {
        let mut out: Vec<Range<u64>> = Vec::new();
        let mut i: usize = 0;
        while i < self.inner.len()
            invariant
                i <= self.inner.len(),
                out@ == self.inner@.take(i as int),
            decreases self.inner.len() - i,
        {
            out.push(self.inner[i].start..self.inner[i].end);
            i += 1;
        }
        out
    }

    /// Adds the packet numbers of `item` to the set. An empty `item` adds
    /// nothing.
    pub fn insert(&mut self, item: Range<u64>)
        requires
            old(self).wf(),
        ensures
            final(self).wf(),
            final(self)@ == old(self)@.union(interval(item.start as int, item.end as int)),
    {
        if item.start >= item.end {
            assert(self@ =~= old(self)@.union(interval(item.start as int, item.end as int)));
            return;
        }
        let mut start: u64 = item.start;
        let mut end: u64 = item.end;
        let mut out: Vec<Range<u64>> = Vec::new();
        let mut i: usize = 0;
        // Ranges that end before the new one begins are kept.
        while i < self.inner.len() && self.inner[i].end < start
            invariant
                i <= self.inner.len(),
                out@ == self.inner@.take(i as int),
                forall|k: int| 0 <= k < i ==> (#[trigger] self.inner@[k]).end < start,
            decreases self.inner.len() - i,
        {
            out.push(self.inner[i].start..self.inner[i].end);
            i += 1;
        }
        let ghost low: int = i as int;
        // Ranges that overlap or touch the new one are merged into it.
        while i < self.inner.len() && self.inner[i].start <= end
            invariant
                0 <= low <= i <= self.inner.len(),
                separated(self.inner@),
                item.start < item.end,
                start <= item.start,
                item.end <= end,
                low < self.inner.len() ==> item.start <= self.inner@[low].end,
                start == item.start || (low < i && start == self.inner@[low].start),
                forall|k: int|
                    low <= k < i ==> start <= (#[trigger] self.inner@[k]).start
                        && self.inner@[k].end <= end,
                forall|n: u64|
                    start <= n < end ==> (item.start <= n < item.end) || #[trigger] covered(
                        self.inner@,
                        n,
                    ),
            decreases self.inner.len() - i,
        {
            let ghost start0 = start;
            let ghost end0 = end;
            let ghost cur = self.inner@[i as int];
            assert(cur.start < cur.end);
            assert(low < i ==> self.inner@[low].end < cur.start);
            if self.inner[i].start < start {
                start = self.inner[i].start;
            }
            if self.inner[i].end > end {
                end = self.inner[i].end;
            }
            proof {
                assert forall|n: u64| start <= n < end implies (item.start <= n < item.end)
                    || #[trigger] covered(self.inner@, n) by {
                    if start0 <= n < end0 {
                    } else {
                        assert(cur.start <= n < cur.end);
                    }
                }
            }
            i += 1;
        }
        let ghost high: int = i as int;
        out.push(start..end);
        let ghost head = out@;
        while i < self.inner.len()
            invariant
                high <= i <= self.inner.len(),
                0 <= high,
                out@ == head + self.inner@.subrange(high, i as int),
            decreases self.inner.len() - i,
        {
            out.push(self.inner[i].start..self.inner[i].end);
            i += 1;
            assert(self.inner@.subrange(high, i as int) =~= self.inner@.subrange(
                high,
                i - 1,
            ).push(self.inner@[i - 1]));
        }
        proof {
            assert(out@ =~= self.inner@.take(low).push(Range { start, end }) + self.inner@.skip(
                high,
            ));
            lemma_splice(self.inner@, low, high, item, Range { start, end });
        }
        self.inner = out;
    }

    /// Adds every member of `other` to the set.
    pub fn insert_all(&mut self, other: &RangeSet)
        requires
            old(self).wf(),
            other.wf(),
        ensures
            final(self).wf(),
            final(self)@ == old(self)@.union(other@),
    {
        let ranges = other.iter();
        let mut i: usize = 0;
        assert(self@ =~= old(self)@.union(members(ranges@.take(0))));
        while i < ranges.len()
            invariant
                i <= ranges.len(),
                self.wf(),
                self@ == old(self)@.union(members(ranges@.take(i as int))),
            decreases ranges.len() - i,
        {
            let ghost before = self@;
            self.insert(ranges[i].start..ranges[i].end);
            i += 1;
            proof {
                lemma_members_push(ranges@.take(i - 1), ranges@[i - 1]);
                assert(ranges@.take(i as int) =~= ranges@.take(i - 1).push(ranges@[i - 1]));
                assert(self@ =~= old(self)@.union(members(ranges@.take(i as int))));
            }
        }
        assert(ranges@.take(i as int) =~= ranges@);
    }

    /// Removes every member up to and including `largest`.
    pub fn remove_until(&mut self, largest: u64)
        requires
            old(self).wf(),
        ensures
            final(self).wf(),
            final(self)@ == old(self)@.difference(interval(0, largest + 1)),
    {
        let mut out: Vec<Range<u64>> = Vec::new();
        let mut i: usize = 0;
        let ghost rs = self.inner@;
        assert(members(out@) =~= members(rs.take(0)).difference(interval(0, largest + 1)));
        while i < self.inner.len()
            invariant
                i <= self.inner.len(),
                rs == self.inner@,
                separated(rs),
                separated(out@),
                forall|k: int|
                    0 <= k < out@.len() ==> i > 0 && (#[trigger] out@[k]).end <= rs[i - 1].end,
                members(out@) == members(rs.take(i as int)).difference(interval(0, largest + 1)),
            decreases self.inner.len() - i,
        {
            let start = self.inner[i].start;
            let end = self.inner[i].end;
            let ghost before = out@;
            assert(i > 0 ==> rs[i - 1].end < rs[i as int].start);
            assert(rs[i as int].start < rs[i as int].end);
            if end - 1 > largest {
                let start = if start > largest {
                    start
                } else {
                    largest + 1
                };
                out.push(start..end);
                proof {
                    lemma_members_push(before, Range { start, end });
                    assert(out@ =~= before.push(Range { start, end }));
                }
            }
            i += 1;
            proof {
                lemma_members_push(rs.take(i - 1), rs[i - 1]);
                assert(rs.take(i as int) =~= rs.take(i - 1).push(rs[i - 1]));
                assert(members(out@) =~= members(rs.take(i as int)).difference(
                    interval(0, largest + 1),
                ));
            }
        }
        assert(rs.take(i as int) =~= rs);
        self.inner = out;
    }
}

} // verus!
