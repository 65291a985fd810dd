//! The generic interval built on top of the bound representations.

use vstd::prelude::*;
use crate::endpoint::Endpoint;
use crate::bound::{LowerBound, UpperBound, lo_lt, hi_lt, hi_le_lo, lo_le_pt, pt_lt_hi};

verus! {

/// Represents a generic interval
#[derive(Debug, Copy, Clone, PartialEq, Eq)]
pub struct Interval<T> {
    pub lower: LowerBound<T>,
    pub upper: UpperBound<T>,
}

/// Represents all the possible relations between two intervals
#[derive(Debug, Copy, Clone, PartialEq, Eq)]
pub enum IntervalRelation<T> {
    /// No common element
    Disjunct { first: Interval<T>, second: Interval<T> },
    /// They are touching at one of the interval ends
    Touching { first: Interval<T>, second: Interval<T> },
    /// They overlap partially
    Overlapping { first_disjunct: Interval<T>, overlapping: Interval<T>, second_disjunct: Interval<T> },
    /// One entirely contains the other
    Containing { first_disjunct: Interval<T>, overlapping: Interval<T>, second_disjunct: Interval<T> },
    /// One interval starts with the other
    Starting { overlapping: Interval<T>, disjunct: Interval<T> },
    /// One interval finishes with the other
    Finishing { disjunct: Interval<T>, overlapping: Interval<T> },
    /// Completely equal
    Equal(Interval<T>),
}

/// The lower cut is below the upper cut: some point lies between them.
pub open spec fn lo_lt_hi(l: Option<int>, h: Option<int>) -> bool {
    match (l, h) {
        (Some(x), Some(y)) => x < y,
        _ => true,
    }
}

impl<T: Endpoint> Interval<T> {
    /// The lower cut.
    pub open spec fn lo(self) -> Option<int> {
        self.lower.cut()
    }

    /// The upper cut.
    pub open spec fn hi(self) -> Option<int> {
        self.upper.cut()
    }

    /// The point `p` of the doubled line lies in the interval.
    pub open spec fn has_point(self, p: int) -> bool {
        lo_le_pt(self.lo(), p) && pt_lt_hi(p, self.hi())
    }

    /// Some point lies in the interval.
    pub open spec fn is_proper(self) -> bool {
        lo_lt_hi(self.lo(), self.hi())
    }

    /// The interval lies wholly before `other`, with nothing shared.
    pub open spec fn spec_before(self, other: Self) -> bool {
        hi_le_lo(self.hi(), other.lo())
    }

    /// Intervals with the same cuts are the same interval.
    pub proof fn lemma_cuts_injective(a: Self, b: Self)
        ensures
            (a.lo() == b.lo() && a.hi() == b.hi()) ==> a == b,
    {
        LowerBound::lemma_cut_injective(a.lower, b.lower);
        UpperBound::lemma_cut_injective(a.upper, b.upper);
    }

    /// A proper interval has a point: its lower cut, or one below its upper cut.
    pub proof fn lemma_proper_has_point(self)
        requires
            self.is_proper(),
        ensures
            exists|p: int| self.has_point(p),
    {
        match (self.lo(), self.hi()) {
            (Some(l), _) => assert(self.has_point(l)),
            (None, Some(h)) => assert(self.has_point(h - 1)),
            (None, None) => assert(self.has_point(0)),
        }
    }

    pub fn with_bounds(lower: LowerBound<T>, upper: UpperBound<T>) -> (r: Self)
        ensures
            r.lower == lower,
            r.upper == upper,
    {
        Self { lower, upper }
    }

    /// The interval of every value.
    pub fn full() -> (r: Self)
        ensures
            r.lower is Unbounded,
            r.upper is Unbounded,
            forall|p: int| r.has_point(p),
    {
        Self { lower: LowerBound::Unbounded, upper: UpperBound::Unbounded }
    }

    /// The interval holding exactly one value.
    pub fn singleton(x: T) -> (r: Self)
        ensures
            r.lower == LowerBound::Included(x),
            r.upper == UpperBound::Included(x),
            forall|p: int| r.has_point(p) <==> (p == 2 * x.key()),
    {
        Self { lower: LowerBound::Included(x), upper: UpperBound::Included(x) }
    }

    /// Checks if both ends are unbounded.
    pub fn is_full(&self) -> (r: bool)
        ensures
            r == (self.lower is Unbounded && self.upper is Unbounded),
    {
        self.lower.is_unbounded() && self.upper.is_unbounded()
    }

    /// Checks if an element is contained by the interval.
    pub fn contains(&self, element: &T) -> (r: bool)
        ensures
            r == self.has_point(2 * element.key()),
    {
        match (&self.lower, &self.upper) {
            (LowerBound::Unbounded, UpperBound::Unbounded) => true,
            (LowerBound::Unbounded, UpperBound::Excluded(x)) => element.key_lt(x),
            (LowerBound::Unbounded, UpperBound::Included(x)) => element.key_lt(x) || element.key_eq(x),
            (LowerBound::Excluded(x), UpperBound::Unbounded) => x.key_lt(element),
            (LowerBound::Included(x), UpperBound::Unbounded) => x.key_lt(element) || x.key_eq(element),
            (LowerBound::Excluded(x), UpperBound::Excluded(y)) => x.key_lt(element) && element.key_lt(y),
            (LowerBound::Excluded(x), UpperBound::Included(y)) => x.key_lt(element) && (element.key_lt(y)
                || element.key_eq(y)),
            (LowerBound::Included(x), UpperBound::Excluded(y)) => (x.key_lt(element) || x.key_eq(element))
                && element.key_lt(y),
            (LowerBound::Included(x), UpperBound::Included(y)) => (x.key_lt(element) || x.key_eq(element))
                && (element.key_lt(y) || element.key_eq(y)),
        }
    }

    /// Checks if an interval is empty, meaning that there's no element that's
    /// possibly contained in it.
    pub fn is_empty(&self) -> (r: bool)
        ensures
            r == match (self.lower, self.upper) {
                (LowerBound::Included(x), UpperBound::Excluded(y))
                | (LowerBound::Excluded(x), UpperBound::Included(y))
                | (LowerBound::Excluded(x), UpperBound::Excluded(y)) => x.key() >= y.key(),
                (LowerBound::Included(x), UpperBound::Included(y)) => x.key() > y.key(),
                _ => false,
            },
            r ==> !self.is_proper(),
            r ==> forall|p: int| !self.has_point(p),
    {
        match (&self.lower, &self.upper) {
            (LowerBound::Included(x), UpperBound::Excluded(y))
            | (LowerBound::Excluded(x), UpperBound::Included(y))
            | (LowerBound::Excluded(x), UpperBound::Excluded(y)) => !x.key_lt(y),
            (LowerBound::Included(x), UpperBound::Included(y)) => y.key_lt(x),
            _ => false,
        }
    }

    /// Checks if the first interval is disjunct with the second one and comes
    /// before it (meaning that it's end is before the second one's start)
    pub fn is_before(&self, other: &Self) -> (r: bool)
        ensures
            r == self.spec_before(*other),
    {
        self.upper.is_before_lower(&other.lower)
    }

    /// Checks if two intervals are disjunct
    pub fn is_disjunct(&self, other: &Self) -> (r: bool)
        ensures
            r == (self.spec_before(*other) || other.spec_before(*self)),
    {
        self.is_before(other) || other.is_before(self)
    }
}

/// The two intervals ordered by their lower bounds; on a tie the second
/// argument comes first.
pub open spec fn ordered_pair<T: Endpoint>(a: Interval<T>, b: Interval<T>) -> (Interval<T>, Interval<T>) {
    if lo_lt(a.lo(), b.lo()) {
        (a, b)
    } else {
        (b, a)
    }
}

/// What [`Interval::relates`] answers for `a` and `b`: the case that holds of
/// the two intervals, ordered by [`ordered_pair`], and its pieces by their cuts.
pub open spec fn relation_of<T: Endpoint>(a: Interval<T>, b: Interval<T>, r: IntervalRelation<T>) -> bool {
    let f = ordered_pair(a, b).0;
    let s = ordered_pair(a, b).1;
    match r {
        IntervalRelation::Disjunct { first, second } => {
            &&& f.spec_before(s)
            &&& !(f.hi() is Some && f.hi() == s.lo())
            &&& first == f
            &&& second == s
        },
        IntervalRelation::Touching { first, second } => {
            &&& f.hi() is Some
            &&& f.hi() == s.lo()
            &&& first == f
            &&& second == s
        },
        IntervalRelation::Equal(x) => {
            &&& !f.spec_before(s)
            &&& f == s
            &&& x == f
        },
        IntervalRelation::Starting { overlapping, disjunct } => {
            &&& !f.spec_before(s)
            &&& f.lo() == s.lo()
            &&& f.hi() != s.hi()
            &&& overlapping == (if hi_lt(f.hi(), s.hi()) { f } else { s })
            &&& disjunct.lo() == overlapping.hi()
            &&& disjunct.upper == (if hi_lt(f.hi(), s.hi()) { s.upper } else { f.upper })
        },
        IntervalRelation::Finishing { disjunct, overlapping } => {
            &&& !f.spec_before(s)
            &&& f.lo() != s.lo()
            &&& f.hi() == s.hi()
            &&& disjunct.lower == f.lower
            &&& disjunct.hi() == s.lo()
            &&& overlapping == s
        },
        IntervalRelation::Containing { first_disjunct, overlapping, second_disjunct } => {
            &&& !f.spec_before(s)
            &&& f.lo() != s.lo()
            &&& hi_lt(s.hi(), f.hi())
            &&& first_disjunct.lower == f.lower
            &&& first_disjunct.hi() == s.lo()
            &&& overlapping == s
            &&& second_disjunct.lo() == s.hi()
            &&& second_disjunct.upper == f.upper
        },
        IntervalRelation::Overlapping { first_disjunct, overlapping, second_disjunct } => {
            &&& !f.spec_before(s)
            &&& f.lo() != s.lo()
            &&& hi_lt(f.hi(), s.hi())
            &&& first_disjunct.lower == f.lower
            &&& first_disjunct.hi() == s.lo()
            &&& overlapping.lower == s.lower
            &&& overlapping.upper == f.upper
            &&& second_disjunct.lo() == f.hi()
            &&& second_disjunct.upper == s.upper
        },
    }
}

/// The point `p` lies in the piece of a relation that both intervals share.
pub open spec fn in_shared_piece<T: Endpoint>(r: IntervalRelation<T>, p: int) -> bool {
    match r {
        IntervalRelation::Disjunct { .. } | IntervalRelation::Touching { .. } => false,
        IntervalRelation::Equal(x) => x.has_point(p),
        IntervalRelation::Starting { overlapping, .. } => overlapping.has_point(p),
        IntervalRelation::Finishing { overlapping, .. } => overlapping.has_point(p),
        IntervalRelation::Containing { overlapping, .. } => overlapping.has_point(p),
        IntervalRelation::Overlapping { overlapping, .. } => overlapping.has_point(p),
    }
}

/// The point `p` lies in a piece of a relation that only one interval has.
pub open spec fn in_own_piece<T: Endpoint>(r: IntervalRelation<T>, p: int) -> bool {
    match r {
        IntervalRelation::Disjunct { first, second } => first.has_point(p) || second.has_point(p),
        IntervalRelation::Touching { first, second } => first.has_point(p) || second.has_point(p),
        IntervalRelation::Equal(_) => false,
        IntervalRelation::Starting { disjunct, .. } => disjunct.has_point(p),
        IntervalRelation::Finishing { disjunct, .. } => disjunct.has_point(p),
        IntervalRelation::Containing { first_disjunct, second_disjunct, .. } => first_disjunct.has_point(
            p,
        ) || second_disjunct.has_point(p),
        IntervalRelation::Overlapping { first_disjunct, second_disjunct, .. } => first_disjunct.has_point(
            p,
        ) || second_disjunct.has_point(p),
    }
}

/// Every piece of a relation of two proper intervals is proper.
pub open spec fn pieces_proper<T: Endpoint>(r: IntervalRelation<T>) -> bool {
    match r {
        IntervalRelation::Disjunct { first, second } => first.is_proper() && second.is_proper(),
        IntervalRelation::Touching { first, second } => first.is_proper() && second.is_proper(),
        IntervalRelation::Equal(x) => x.is_proper(),
        IntervalRelation::Starting { overlapping, disjunct } => overlapping.is_proper()
            && disjunct.is_proper(),
        IntervalRelation::Finishing { disjunct, overlapping } => overlapping.is_proper()
            && disjunct.is_proper(),
        IntervalRelation::Containing { first_disjunct, overlapping, second_disjunct } =>
            first_disjunct.is_proper() && overlapping.is_proper() && second_disjunct.is_proper(),
        IntervalRelation::Overlapping { first_disjunct, overlapping, second_disjunct } =>
            first_disjunct.is_proper() && overlapping.is_proper() && second_disjunct.is_proper(),
    }
}

/// The two pieces that only one interval has never share a point.
pub open spec fn own_pieces_apart<T: Endpoint>(r: IntervalRelation<T>) -> bool {
    match r {
        IntervalRelation::Containing { first_disjunct, second_disjunct, .. }
        | IntervalRelation::Overlapping { first_disjunct, second_disjunct, .. } => first_disjunct.spec_before(
            second_disjunct,
        ),
        IntervalRelation::Disjunct { first, second } => first.spec_before(second),
        IntervalRelation::Touching { first, second } => first.spec_before(second),
        _ => true,
    }
}

/// Law of `relates`: the shared piece holds exactly the points of both
/// intervals, the other pieces hold exactly the points of one of them, the
/// pieces do not overlap, and every piece is proper.
pub proof fn lemma_relation_splits<T: Endpoint>(a: Interval<T>, b: Interval<T>, r: IntervalRelation<T>)
    requires
        relation_of(a, b, r),
        a.is_proper(),
        b.is_proper(),
    ensures
        forall|p: int| in_shared_piece(r, p) <==> (a.has_point(p) && b.has_point(p)),
        forall|p: int| in_own_piece(r, p) <==> (a.has_point(p) != b.has_point(p)),
        own_pieces_apart(r),
        pieces_proper(r),
{
    Interval::lemma_cuts_injective(a, b);
}

impl<T: Endpoint> Interval<T> {
    /// Classifies how `self` and `other` relate and splits them into the
    /// pieces that belong to one of them or to both.
    pub fn relates(&self, other: &Self) -> (r: IntervalRelation<T>)
        ensures
            relation_of(*self, *other, r),
    {
        // We order by the lower bound so we essentially half the number of cases
        let (first, second) = if self.lower.is_less(&other.lower) {
            (*self, *other)
        } else {
            (*other, *self)
        };
        proof {
            Self::lemma_cuts_injective(first, second);
        }
        if first.upper.is_touching(&second.lower) {
            IntervalRelation::Touching { first, second }
        } else if first.upper.is_before_lower(&second.lower) {
            IntervalRelation::Disjunct { first, second }
        } else if first.lower.same(&second.lower) && first.upper.same(&second.upper) {
            IntervalRelation::Equal(first)
        } else if first.lower.same(&second.lower) {
            // Order by upper bound so we only need to handle one case instead of two
            let (first, second) = if first.upper.is_less(&second.upper) {
                (first, second)
            } else {
                (second, first)
            };
            let start = first.upper.touching();
            IntervalRelation::Starting {
                overlapping: first,
                disjunct: Interval::with_bounds(start.unwrap(), second.upper),
            }
        } else if first.upper.same(&second.upper) {
            let end = second.lower.touching();
            IntervalRelation::Finishing {
                disjunct: Interval::with_bounds(first.lower, end.unwrap()),
                overlapping: second,
            }
        } else if second.upper.is_less(&first.upper) {
            let end = second.lower.touching();
            let start = second.upper.touching();
            IntervalRelation::Containing {
                first_disjunct: Interval::with_bounds(first.lower, end.unwrap()),
                overlapping: second,
                second_disjunct: Interval::with_bounds(start.unwrap(), first.upper),
            }
        } else {
            let end = second.lower.touching();
            let start = first.upper.touching();
            IntervalRelation::Overlapping {
                first_disjunct: Interval::with_bounds(first.lower, end.unwrap()),
                overlapping: Interval::with_bounds(second.lower, first.upper),
                second_disjunct: Interval::with_bounds(start.unwrap(), second.upper),
            }
        }
    }
}

} // verus!

verus! {

/// How two intervals that hold points relate does not depend on the order
/// they are given in: `a.relates(&b)` and `b.relates(&a)` answer alike.
pub proof fn lemma_relates_symmetric<T: Endpoint>(a: Interval<T>, b: Interval<T>, r: IntervalRelation<T>)
    requires
        a.is_proper(),
        b.is_proper(),
    ensures
        relation_of(a, b, r) == relation_of(b, a, r),
{
    if !lo_lt(a.lo(), b.lo()) && !lo_lt(b.lo(), a.lo()) {
        assert(a.lo() == b.lo());
        assert(!a.spec_before(b));
        assert(!b.spec_before(a));
    }
}


/// Two intervals relate as equal only where they are the same interval, and
/// as disjunct or touching only where they share no point.
pub proof fn lemma_relates_pieces<T: Endpoint>(a: Interval<T>, b: Interval<T>, r: IntervalRelation<T>)
    requires
        a.is_proper(),
        b.is_proper(),
        relation_of(a, b, r),
    ensures
        r matches IntervalRelation::Equal(x) ==> a == b && x == a,
        (r is Disjunct || r is Touching) ==> forall|p: int| !(a.has_point(p) && #[trigger] b.has_point(p)),
{
}

} // verus!
