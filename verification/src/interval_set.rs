//! Stores a set of disjunct intervals, unifying them when possible.

use vstd::prelude::*;
use crate::endpoint::Endpoint;
use crate::bound::{LowerBound, UpperBound, lo_lt, hi_lt, lo_le_pt, pt_lt_hi};
use crate::interval::Interval;

verus! {

#[derive(Debug, PartialEq, Eq)]
pub struct IntervalSet<T> {
    pub intervals: Vec<Interval<T>>,
}

/// `a` ends strictly before `b` starts: a gap of at least one point lies
/// between them.
pub open spec fn apart<T: Endpoint>(a: Interval<T>, b: Interval<T>) -> bool {
    match (a.hi(), b.lo()) {
        (Some(x), Some(y)) => x < y,
        _ => false,
    }
}

/// The intervals are proper, sorted, and neither overlap nor touch.
pub open spec fn set_wf<T: Endpoint>(s: Seq<Interval<T>>) -> bool {
    &&& forall|i: int| 0 <= i < s.len() ==> (#[trigger] s[i]).is_proper()
    &&& forall|i: int, j: int| 0 <= i < j < s.len() ==> apart(#[trigger] s[i], #[trigger] s[j])
}

/// Some interval of `s` holds the point `p`.
pub open spec fn covers<T: Endpoint>(s: Seq<Interval<T>>, p: int) -> bool {
    exists|i: int| 0 <= i < s.len() && (#[trigger] s[i]).has_point(p)
}

/// Exec check that `a` ends strictly before `b` starts.
fn is_apart<T: Endpoint>(a: &Interval<T>, b: &Interval<T>) -> (r: bool)
    ensures
        r == apart(*a, *b),
{
    a.is_before(b) && !a.upper.is_touching(&b.lower)
}

/// The range of indices of the intervals in `intervals` that overlap or touch
/// `value`: those before it end strictly before `value`, those after it start
/// strictly after `value`.
pub fn touching_index_range<T: Endpoint>(intervals: &Vec<Interval<T>>, value: &Interval<T>) -> (r:
    std::ops::Range<usize>)
    requires
        set_wf(intervals@),
    ensures
        r.start <= r.end <= intervals@.len(),
        forall|i: int| 0 <= i < r.start ==> apart(#[trigger] intervals@[i], *value),
        forall|i: int| r.start <= i < r.end ==> !apart(#[trigger] intervals@[i], *value) && !apart(
            *value,
            intervals@[i],
        ),
        forall|i: int| r.end <= i < intervals@.len() ==> apart(*value, #[trigger] intervals@[i]),
{
    let s = Ghost(intervals@);
    let mut start: usize = 0;
    while start < intervals.len() && is_apart(&intervals[start], value)
        invariant
            start <= intervals@.len(),
            forall|i: int| 0 <= i < start ==> apart(#[trigger] intervals@[i], *value),
        decreases intervals@.len() - start,
    {
        start = start + 1;
    }
    let mut end: usize = start;
    while end < intervals.len() && !is_apart(value, &intervals[end])
        invariant
            start <= end <= intervals@.len(),
            set_wf(intervals@),
            start < intervals@.len() ==> !apart(intervals@[start as int], *value),
            forall|i: int| start <= i < end ==> !apart(#[trigger] intervals@[i], *value) && !apart(
                *value,
                intervals@[i],
            ),
        decreases intervals@.len() - end,
    {
        assert(!apart(intervals@[end as int], *value)) by {
            if end > start {
                assert(apart(intervals@[start as int], intervals@[end as int]));
            }
        }
        end = end + 1;
    }
    assert forall|i: int| end <= i < intervals@.len() implies apart(*value, #[trigger] intervals@[i]) by {
        if i > end {
            assert(apart(intervals@[end as int], intervals@[i]));
        }
    }
    start..end
}

/// The interval that replaces the entries `start..end` of `s` when `v` is
/// inserted: `v` itself when it touches nothing, else the hull of `v` and the
/// entries it touches.
pub open spec fn merged_cuts<T: Endpoint>(s: Seq<Interval<T>>, v: Interval<T>, start: int, end: int, m: Interval<T>) -> bool {
    if start == end {
        m == v
    } else {
        &&& m.lo() == (if lo_lt(v.lo(), s[start].lo()) { v.lo() } else { s[start].lo() })
        &&& m.hi() == (if hi_lt(s[end - 1].hi(), v.hi()) { v.hi() } else { s[end - 1].hi() })
    }
}

/// In a well-formed sequence, both cuts grow with the index.
proof fn lemma_sorted_cuts<T: Endpoint>(s: Seq<Interval<T>>, i: int, j: int)
    requires
        set_wf(s),
        0 <= i < j < s.len(),
    ensures
        lo_lt(s[i].lo(), s[j].lo()),
        hi_lt(s[i].hi(), s[j].hi()),
        apart(s[i], s[j]),
{
    assert(s[i].is_proper());
    assert(s[j].is_proper());
    assert(apart(s[i], s[j]));
}

/// Law of insertion: replacing the touched entries by the hull keeps the
/// sequence well-formed and adds exactly the points of `v`.
proof fn lemma_insert_splice<T: Endpoint>(s: Seq<Interval<T>>, v: Interval<T>, start: int, end: int, m: Interval<T>)
    requires
        set_wf(s),
        v.is_proper(),
        0 <= start <= end <= s.len(),
        forall|i: int| 0 <= i < start ==> apart(#[trigger] s[i], v),
        forall|i: int| start <= i < end ==> !apart(#[trigger] s[i], v) && !apart(v, s[i]),
        forall|i: int| end <= i < s.len() ==> apart(v, #[trigger] s[i]),
        merged_cuts(s, v, start, end, m),
    ensures
        set_wf(s.take(start) + seq![m] + s.skip(end)),
        forall|p: int| covers(s.take(start) + seq![m] + s.skip(end), p) <==> (covers(s, p) || v.has_point(p)),
{
    let r = s.take(start) + seq![m] + s.skip(end);
    assert(r.len() == start + 1 + (s.len() - end));
    assert forall|k: int| 0 <= k < r.len() implies r[k] == (if k < start { s[k] } else if k == start { m } else { s[k - start - 1 + end] }) by {
    }
    // The hull holds exactly the points of v and of the touched entries.
    assert forall|p: int| m.has_point(p) <==> (v.has_point(p) || exists|i: int| start <= i < end && (#[trigger] s[i]).has_point(p)) by {
        if start < end {
            assert(s[start].is_proper());
            assert(s[end - 1].is_proper());
            if m.has_point(p) && !v.has_point(p) {
                if !lo_le_pt(v.lo(), p) {
                    assert(s[start].has_point(p));
                } else {
                    assert(s[end - 1].has_point(p));
                }
            }
            if exists|i: int| start <= i < end && (#[trigger] s[i]).has_point(p) {
                let i = choose|i: int| start <= i < end && (#[trigger] s[i]).has_point(p);
                if start < i {
                    lemma_sorted_cuts(s, start, i);
                }
                if i < end - 1 {
                    lemma_sorted_cuts(s, i, end - 1);
                }
            }
        }
    }
    assert forall|p: int| covers(r, p) <==> (covers(s, p) || v.has_point(p)) by {
        if covers(r, p) {
            let k = choose|k: int| 0 <= k < r.len() && (#[trigger] r[k]).has_point(p);
            if k < start {
                assert(s[k].has_point(p));
            } else if k > start {
                assert(s[k - start - 1 + end].has_point(p));
            }
        }
        if covers(s, p) {
            let i = choose|i: int| 0 <= i < s.len() && (#[trigger] s[i]).has_point(p);
            if i < start {
                assert(r[i].has_point(p));
            } else if i >= end {
                assert(r[i - end + start + 1].has_point(p));
            } else {
                assert(r[start].has_point(p));
            }
        }
        if v.has_point(p) {
            assert(r[start].has_point(p));
        }
    }
    // Well-formedness: the hull is proper and apart from its neighbours.
    assert(m.is_proper()) by {
        if start < end {
            assert(s[start].is_proper());
            assert(s[end - 1].is_proper());
        }
    }
    assert forall|i: int, j: int| 0 <= i < j < r.len() implies apart(#[trigger] r[i], #[trigger] r[j]) by {
        if j < start {
            lemma_sorted_cuts(s, i, j);
        } else if j == start {
            if start < end {
                lemma_sorted_cuts(s, i, start);
            }
        } else if i > start {
            lemma_sorted_cuts(s, i - start - 1 + end, j - start - 1 + end);
        } else if i == start {
            if start < end && end - 1 < j - start - 1 + end {
                lemma_sorted_cuts(s, end - 1, j - start - 1 + end);
            }
        } else {
            lemma_sorted_cuts(s, i, j - start - 1 + end);
        }
    }
    assert forall|i: int| 0 <= i < r.len() implies (#[trigger] r[i]).is_proper() by {
        if i < start {
            assert(s[i].is_proper());
        } else if i > start {
            assert(s[i - start - 1 + end].is_proper());
        }
    }
}

/// The number of gaps before the first interval: one when it is bounded below.
pub open spec fn gap_offset<T: Endpoint>(s: Seq<Interval<T>>) -> int {
    if s[0].lo() is Some {
        1
    } else {
        0
    }
}

/// The gaps of a well-formed sequence, in order: the part before the first
/// interval (when it is bounded below), the parts between neighbours, and the
/// part after the last interval (when it is bounded above).
pub open spec fn is_gap_sequence<T: Endpoint>(s: Seq<Interval<T>>, g: Seq<Interval<T>>) -> bool {
    let off = gap_offset(s);
    let tail: int = if s[s.len() - 1].hi() is Some { 1 } else { 0 };
    &&& g.len() == off + s.len() - 1 + tail
    &&& off == 1 ==> g[0].lo() is None && g[0].hi() == s[0].lo()
    &&& forall|j: int| off <= j < off + s.len() - 1 ==> (#[trigger] g[j]).lo() == s[j - off].hi() && g[j].hi()
        == s[j - off + 1].lo()
    &&& tail == 1 ==> g[g.len() - 1].lo() == s[s.len() - 1].hi() && g[g.len() - 1].hi() is None
}

/// Finds the last interval at or after `k` that starts at or before `p`.
proof fn lemma_last_starting_before<T: Endpoint>(s: Seq<Interval<T>>, p: int, k: int) -> (j: int)
    requires
        set_wf(s),
        0 <= k < s.len(),
        lo_le_pt(s[k].lo(), p),
    ensures
        k <= j < s.len(),
        lo_le_pt(s[j].lo(), p),
        j + 1 < s.len() ==> !lo_le_pt(s[j + 1].lo(), p),
    decreases s.len() - k,
{
    if k + 1 < s.len() && lo_le_pt(s[k + 1].lo(), p) {
        lemma_last_starting_before(s, p, k + 1)
    } else {
        k
    }
}

/// The gaps of a well-formed sequence hold exactly the points it does not.
proof fn lemma_gaps_cover<T: Endpoint>(s: Seq<Interval<T>>, g: Seq<Interval<T>>)
    requires
        set_wf(s),
        s.len() > 0,
        is_gap_sequence(s, g),
    ensures
        forall|p: int| covers(g, p) <==> !covers(s, p),
{
    let off = gap_offset(s);
    let n = s.len() as int;
    assert forall|p: int| covers(g, p) <==> !covers(s, p) by {
        if covers(g, p) {
            let j = choose|j: int| 0 <= j < g.len() && (#[trigger] g[j]).has_point(p);
            assert forall|i: int| 0 <= i < n implies !(#[trigger] s[i]).has_point(p) by {
                if off == 1 && j == 0 {
                    if i > 0 {
                        lemma_sorted_cuts(s, 0, i);
                    }
                } else if j - off < n - 1 {
                    let k = j - off;
                    assert(g[j].lo() == s[k].hi());
                    if i < k {
                        lemma_sorted_cuts(s, i, k);
                    } else if i > k + 1 {
                        lemma_sorted_cuts(s, k + 1, i);
                    }
                    assert(s[i].is_proper());
                } else {
                    if i < n - 1 {
                        lemma_sorted_cuts(s, i, n - 1);
                    }
                }
            }
        } else {
            if !covers(s, p) {
                if off == 1 && !lo_le_pt(s[0].lo(), p) {
                    assert(g[0].has_point(p));
                } else {
                    let j = lemma_last_starting_before(s, p, 0);
                    assert(!s[j].has_point(p));
                    if j + 1 < n {
                        assert(g[off + j].lo() == s[j].hi());
                        assert(g[off + j].has_point(p));
                    } else {
                        assert(g[g.len() - 1].has_point(p));
                    }
                }
            }
        }
    }
}

/// The gaps of a well-formed sequence are proper.
proof fn lemma_gaps_proper<T: Endpoint>(s: Seq<Interval<T>>, g: Seq<Interval<T>>)
    requires
        set_wf(s),
        s.len() > 0,
        is_gap_sequence(s, g),
    ensures
        forall|j: int| 0 <= j < g.len() ==> (#[trigger] g[j]).is_proper(),
{
    let off = gap_offset(s);
    let n = s.len() as int;
    assert forall|j: int| 0 <= j < g.len() implies (#[trigger] g[j]).is_proper() by {
        if off == 1 && j == 0 {
        } else if j - off < n - 1 {
            assert(g[j].lo() == s[j - off].hi());
            lemma_sorted_cuts(s, j - off, j - off + 1);
        }
    }
}

/// The gaps of a well-formed sequence are apart from each other.
proof fn lemma_gaps_apart<T: Endpoint>(s: Seq<Interval<T>>, g: Seq<Interval<T>>)
    requires
        set_wf(s),
        s.len() > 0,
        is_gap_sequence(s, g),
    ensures
        forall|i: int, j: int| 0 <= i < j < g.len() ==> apart(#[trigger] g[i], #[trigger] g[j]),
{
    let off = gap_offset(s);
    let n = s.len() as int;
    assert forall|i: int, j: int| 0 <= i < j < g.len() implies apart(#[trigger] g[i], #[trigger] g[j]) by {
        let ki = i - off;
        let kj = j - off;
        if off == 1 && i == 0 {
            if kj < n - 1 {
                assert(g[j].hi() == s[kj + 1].lo());
                assert(s[kj].is_proper());
                if kj > 0 {
                    lemma_sorted_cuts(s, 0, kj);
                }
            } else {
                if n - 1 > 0 {
                    lemma_sorted_cuts(s, 0, n - 1);
                }
                assert(s[n - 1].is_proper());
            }
        } else if kj < n - 1 {
            assert(g[i].hi() == s[ki + 1].lo());
            assert(g[j].lo() == s[kj].hi());
            assert(s[ki + 1].is_proper());
            if ki + 1 < kj {
                lemma_sorted_cuts(s, ki + 1, kj);
            }
        } else {
            assert(g[i].hi() == s[ki + 1].lo());
            assert(s[ki + 1].is_proper());
            if ki + 1 < n - 1 {
                lemma_sorted_cuts(s, ki + 1, n - 1);
            }
        }
    }
}

/// Law of inversion: the gaps of a well-formed sequence form a well-formed
/// sequence holding exactly the points the sequence does not hold.
proof fn lemma_gaps_complement<T: Endpoint>(s: Seq<Interval<T>>, g: Seq<Interval<T>>)
    requires
        set_wf(s),
        s.len() > 0,
        is_gap_sequence(s, g),
    ensures
        set_wf(g),
        forall|p: int| covers(g, p) <==> !covers(s, p),
{
    lemma_gaps_cover(s, g);
    lemma_gaps_proper(s, g);
    lemma_gaps_apart(s, g);
}

impl<T: Endpoint> IntervalSet<T> {
    pub fn new() -> (r: Self)
        ensures
            r.intervals@ == Seq::<Interval<T>>::empty(),
            set_wf(r.intervals@),
    {
        IntervalSet { intervals: Vec::new() }
    }

    /// Inserts an interval into the set, unifying every touching and
    /// overlapping entry.
    pub fn insert(&mut self, value: Interval<T>)
        requires
            set_wf(old(self).intervals@),
        ensures
            set_wf(final(self).intervals@),
            forall|p: int| covers(final(self).intervals@, p) <==> (covers(old(self).intervals@, p)
                || value.has_point(p)),
    {
        if value.upper.is_before_lower(&value.lower) {
            // The interval holds no point: nothing changes
            return;
        }
        let ghost s = self.intervals@;
        let range = touching_index_range(&self.intervals, &value);
        let start = range.start;
        let end = range.end;
        let merged = if start == end {
            // Intersects or touches nothing, just insert
            value
        } else {
            // Unify the value with every entry it touches
            let first = self.intervals[start];
            let last = self.intervals[end - 1];
            let lower = if value.lower.is_less(&first.lower) {
                value.lower
            } else {
                first.lower
            };
            let upper = if last.upper.is_less(&value.upper) {
                value.upper
            } else {
                last.upper
            };
            Interval::with_bounds(lower, upper)
        };
        let mut result: Vec<Interval<T>> = Vec::new();
        let mut i: usize = 0;
        while i < start
            invariant
                i <= start <= end <= s.len(),
                self.intervals@ == s,
                result@ == s.take(i as int),
            decreases start - i,
        {
            result.push(self.intervals[i]);
            i = i + 1;
            assert(result@ =~= s.take(i as int));
        }
        result.push(merged);
        let mut j: usize = end;
        while j < self.intervals.len()
            invariant
                start <= end <= j <= s.len(),
                self.intervals@ == s,
                result@ == s.take(start as int) + seq![merged] + s.subrange(end as int, j as int),
            decreases s.len() - j,
        {
            result.push(self.intervals[j]);
            j = j + 1;
            assert(result@ =~= s.take(start as int) + seq![merged] + s.subrange(end as int, j as int));
        }
        proof {
            assert(s.subrange(end as int, s.len() as int) =~= s.skip(end as int));
            lemma_insert_splice(s, value, start as int, end as int, merged);
        }
        self.intervals = result;
    }

    /// Replaces the set by its complement.
    pub fn invert(&mut self)
        requires
            set_wf(old(self).intervals@),
        ensures
            set_wf(final(self).intervals@),
            forall|p: int| covers(final(self).intervals@, p) <==> !covers(old(self).intervals@, p),
            final(self).intervals@.len() == if old(self).intervals@.len() == 0 {
                1
            } else {
                old(self).intervals@.len() - 1 + (if old(self).intervals@[0].lo() is Some { 1int } else { 0int })
                    + (if old(self).intervals@.last().hi() is Some { 1int } else { 0int })
            },
    {
        if self.intervals.len() == 0 {
            // Interval set is empty, the inverse is the full interval
            self.intervals.push(Interval::full());
            proof {
                assert forall|p: int| covers(self.intervals@, p) by {
                    assert(self.intervals@[0].has_point(p));
                }
            }
            return;
        }
        let ghost s = self.intervals@;
        let n = self.intervals.len();
        // The result has N - 1, N or N + 1 entries, depending on which ends
        // of the set are bounded
        let mut result: Vec<Interval<T>> = Vec::new();
        let first_lower = self.intervals[0].lower;
        let ghost off = gap_offset(s);
        if let Some(upper) = first_lower.touching() {
            result.push(Interval::with_bounds(LowerBound::Unbounded, upper));
        }
        let mut k: usize = 0;
        while k + 1 < n
            invariant
                n == s.len(),
                n > 0,
                self.intervals@ == s,
                set_wf(s),
                k < n,
                result@.len() == off + k,
                off == gap_offset(s),
                off == 1 ==> result@[0].lo() is None && result@[0].hi() == s[0].lo(),
                forall|j: int| off <= j < off + k ==> (#[trigger] result@[j]).lo() == s[j - off].hi()
                    && result@[j].hi() == s[j - off + 1].lo(),
            decreases n - k,
        {
            let here = self.intervals[k];
            let next = self.intervals[k + 1];
            proof {
                lemma_sorted_cuts(s, k as int, k as int + 1);
            }
            let lower = here.upper.touching();
            let upper = next.lower.touching();
            result.push(Interval::with_bounds(lower.unwrap(), upper.unwrap()));
            k = k + 1;
        }
        let last_upper = self.intervals[n - 1].upper;
        if let Some(lower) = last_upper.touching() {
            result.push(Interval::with_bounds(lower, UpperBound::Unbounded));
        }
        proof {
            lemma_gaps_complement(s, result@);
        }
        self.intervals = result;
    }
}


/// In a well-formed sequence no interval starts before the first one.
proof fn lemma_first_starts_lowest<T: Endpoint>(s: Seq<Interval<T>>, j: int)
    requires
        set_wf(s),
        0 <= j < s.len(),
    ensures
        !lo_lt(s[j].lo(), s[0].lo()),
{
    if j > 0 {
        assert(apart(s[0], s[j]));
        assert(s[0].is_proper());
    }
}

/// A point of the first interval of a well-formed sequence lies in no
/// other interval of it.
proof fn lemma_first_alone<T: Endpoint>(s: Seq<Interval<T>>, j: int, p: int)
    requires
        set_wf(s),
        0 < j < s.len(),
        s[0].has_point(p),
    ensures
        !s[j].has_point(p),
{
    assert(apart(s[0], s[j]));
}

/// The two well-formed sequences cover the same points and start with the
/// same interval.
proof fn lemma_same_first<T: Endpoint>(s: Seq<Interval<T>>, t: Seq<Interval<T>>)
    requires
        set_wf(s),
        set_wf(t),
        s.len() > 0,
        t.len() > 0,
        forall|p: int| covers(s, p) <==> covers(t, p),
    ensures
        s[0] == t[0],
{
    let a = s[0];
    let b = t[0];
    assert(a.is_proper());
    assert(b.is_proper());
    // The lower cuts agree.
    if lo_lt(a.lo(), b.lo()) {
        let y = b.lo().unwrap();
        let p = match (a.lo(), a.hi()) {
            (Some(l), _) => l,
            (None, Some(h)) => if h <= y { h - 1 } else { y - 1 },
            (None, None) => y - 1,
        };
        assert(a.has_point(p));
        assert(covers(s, p));
        let j = choose|j: int| 0 <= j < t.len() && (#[trigger] t[j]).has_point(p);
        lemma_first_starts_lowest(t, j);
    }
    if lo_lt(b.lo(), a.lo()) {
        let y = a.lo().unwrap();
        let p = match (b.lo(), b.hi()) {
            (Some(l), _) => l,
            (None, Some(h)) => if h <= y { h - 1 } else { y - 1 },
            (None, None) => y - 1,
        };
        assert(b.has_point(p));
        assert(covers(t, p));
        let j = choose|j: int| 0 <= j < s.len() && (#[trigger] s[j]).has_point(p);
        lemma_first_starts_lowest(s, j);
    }
    assert(a.lo() == b.lo());
    // The upper cuts agree.
    if hi_lt(a.hi(), b.hi()) {
        let x = a.hi().unwrap();
        assert(b.has_point(x));
        assert(covers(t, x));
        let j = choose|j: int| 0 <= j < s.len() && (#[trigger] s[j]).has_point(x);
        if j > 0 {
            assert(apart(s[0], s[j]));
        }
    }
    if hi_lt(b.hi(), a.hi()) {
        let x = b.hi().unwrap();
        assert(a.has_point(x));
        assert(covers(s, x));
        let j = choose|j: int| 0 <= j < t.len() && (#[trigger] t[j]).has_point(x);
        if j > 0 {
            assert(apart(t[0], t[j]));
        }
    }
    assert(a.hi() == b.hi());
    Interval::lemma_cuts_injective(a, b);
}

/// A well-formed set is determined by the points it covers: two of them
/// that cover the same points hold the same intervals, in the same order.
pub proof fn lemma_canonical<T: Endpoint>(s: Seq<Interval<T>>, t: Seq<Interval<T>>)
    requires
        set_wf(s),
        set_wf(t),
        forall|p: int| covers(s, p) <==> covers(t, p),
    ensures
        s == t,
    decreases s.len() + t.len(),
{
    if s.len() == 0 {
        if t.len() > 0 {
            assert(t[0].is_proper());
            t[0].lemma_proper_has_point();
            let p = choose|p: int| t[0].has_point(p);
            assert(covers(t, p));
        }
        assert(s =~= t);
    } else if t.len() == 0 {
        assert(s[0].is_proper());
        s[0].lemma_proper_has_point();
        let p = choose|p: int| s[0].has_point(p);
        assert(covers(s, p));
    } else {
        lemma_same_first(s, t);
        let a = s[0];
        let s1 = s.drop_first();
        let t1 = t.drop_first();
        assert(set_wf(s1)) by {
            assert forall|i: int, j: int| 0 <= i < j < s1.len() implies apart(#[trigger] s1[i], #[trigger] s1[j]) by {
                assert(s1[i] == s[i + 1] && s1[j] == s[j + 1]);
            }
        }
        assert(set_wf(t1)) by {
            assert forall|i: int, j: int| 0 <= i < j < t1.len() implies apart(#[trigger] t1[i], #[trigger] t1[j]) by {
                assert(t1[i] == t[i + 1] && t1[j] == t[j + 1]);
            }
        }
        assert forall|p: int| covers(s1, p) <==> covers(t1, p) by {
            if covers(s1, p) {
                let i = choose|i: int| 0 <= i < s1.len() && (#[trigger] s1[i]).has_point(p);
                assert(s[i + 1].has_point(p));
                assert(covers(s, p));
                if a.has_point(p) {
                    lemma_first_alone(s, i + 1, p);
                }
                let j = choose|j: int| 0 <= j < t.len() && (#[trigger] t[j]).has_point(p);
                assert(j != 0);
                assert(t1[j - 1] == t[j]);
            }
            if covers(t1, p) {
                let i = choose|i: int| 0 <= i < t1.len() && (#[trigger] t1[i]).has_point(p);
                assert(t[i + 1].has_point(p));
                assert(covers(t, p));
                if a.has_point(p) {
                    lemma_first_alone(t, i + 1, p);
                }
                let j = choose|j: int| 0 <= j < s.len() && (#[trigger] s[j]).has_point(p);
                assert(j != 0);
                assert(s1[j - 1] == s[j]);
            }
        }
        lemma_canonical(s1, t1);
        assert(s =~= seq![a] + s1);
        assert(t =~= seq![a] + t1);
    }
}

/// Inverting twice gives back the set: if `once` holds exactly the points
/// `s` does not, and `twice` exactly those `once` does not, then `twice` is
/// `s`.
pub proof fn lemma_invert_twice<T: Endpoint>(s: Seq<Interval<T>>, once: Seq<Interval<T>>, twice: Seq<Interval<T>>)
    requires
        set_wf(s),
        set_wf(twice),
        forall|p: int| covers(once, p) <==> !covers(s, p),
        forall|p: int| covers(twice, p) <==> !covers(once, p),
    ensures
        twice == s,
{
    lemma_canonical(twice, s);
}

/// The order of insertions does not matter: inserting `a` then `b`, or `b`
/// then `a`, gives the same set.
pub proof fn lemma_insert_order<T: Endpoint>(
    s: Seq<Interval<T>>,
    a: Interval<T>,
    b: Interval<T>,
    sa: Seq<Interval<T>>,
    sab: Seq<Interval<T>>,
    sb: Seq<Interval<T>>,
    sba: Seq<Interval<T>>,
)
    requires
        set_wf(sab),
        set_wf(sba),
        forall|p: int| covers(sa, p) <==> (covers(s, p) || a.has_point(p)),
        forall|p: int| covers(sab, p) <==> (covers(sa, p) || b.has_point(p)),
        forall|p: int| covers(sb, p) <==> (covers(s, p) || b.has_point(p)),
        forall|p: int| covers(sba, p) <==> (covers(sb, p) || a.has_point(p)),
    ensures
        sab == sba,
{
    lemma_canonical(sab, sba);
}

/// Inserting an interval a second time leaves the set as it is.
pub proof fn lemma_insert_idempotent<T: Endpoint>(s: Seq<Interval<T>>, a: Interval<T>, once: Seq<Interval<T>>, twice: Seq<Interval<T>>)
    requires
        set_wf(once),
        set_wf(twice),
        forall|p: int| covers(once, p) <==> (covers(s, p) || a.has_point(p)),
        forall|p: int| covers(twice, p) <==> (covers(once, p) || a.has_point(p)),
    ensures
        twice == once,
{
    lemma_canonical(twice, once);
}

} // verus!
