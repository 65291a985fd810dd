//! Lower and upper bounds of intervals.
//!
//! A bound is modelled as a *cut* on the doubled integer line: the element
//! whose key is `k` sits at the point `2 * k`, and the point `2 * k + 1` stands
//! for the gap just above it. A lower bound is the first point it admits, an
//! upper bound the first point it no longer admits; `None` stands for the
//! infinite end.

use vstd::prelude::*;
use std::cmp::Ordering;
use crate::endpoint::Endpoint;

verus! {

/// Represents the lower bound of an interval
#[derive(Debug, Clone, Copy, PartialEq, Eq)]
pub enum LowerBound<T> {
    Unbounded,
    Excluded(T),
    Included(T),
}

/// Represents the upper bound of an interval
#[derive(Debug, Clone, Copy, PartialEq, Eq)]
pub enum UpperBound<T> {
    Unbounded,
    Excluded(T),
    Included(T),
}

/// `a < b` for lower cuts, where `None` is minus infinity.
pub open spec fn lo_lt(a: Option<int>, b: Option<int>) -> bool {
    match (a, b) {
        (None, Some(_)) => true,
        (Some(x), Some(y)) => x < y,
        _ => false,
    }
}

/// `a < b` for upper cuts, where `None` is plus infinity.
pub open spec fn hi_lt(a: Option<int>, b: Option<int>) -> bool {
    match (a, b) {
        (Some(_), None) => true,
        (Some(x), Some(y)) => x < y,
        _ => false,
    }
}

/// The upper cut `h` is at or before the lower cut `l`: nothing lies between.
pub open spec fn hi_le_lo(h: Option<int>, l: Option<int>) -> bool {
    match (h, l) {
        (Some(x), Some(y)) => x <= y,
        _ => false,
    }
}

/// The lower cut `l` admits the point `p`.
pub open spec fn lo_le_pt(l: Option<int>, p: int) -> bool {
    match l {
        None => true,
        Some(x) => x <= p,
    }
}

/// The upper cut `h` admits the point `p`.
pub open spec fn pt_lt_hi(p: int, h: Option<int>) -> bool {
    match h {
        None => true,
        Some(x) => p < x,
    }
}

/// The three-way order of two integers.
pub open spec fn int_order(a: int, b: int) -> Ordering {
    if a < b {
        Ordering::Less
    } else if a == b {
        Ordering::Equal
    } else {
        Ordering::Greater
    }
}

/// The reverse of an ordering.
pub open spec fn reversed(o: Ordering) -> Ordering {
    match o {
        Ordering::Less => Ordering::Greater,
        Ordering::Equal => Ordering::Equal,
        Ordering::Greater => Ordering::Less,
    }
}

/// The order of two lower cuts.
pub open spec fn lo_order(a: Option<int>, b: Option<int>) -> Ordering {
    match (a, b) {
        (None, None) => Ordering::Equal,
        (None, Some(_)) => Ordering::Less,
        (Some(_), None) => Ordering::Greater,
        (Some(x), Some(y)) => int_order(x, y),
    }
}

/// The order of two upper cuts.
pub open spec fn hi_order(a: Option<int>, b: Option<int>) -> Ordering {
    match (a, b) {
        (None, None) => Ordering::Equal,
        (None, Some(_)) => Ordering::Greater,
        (Some(_), None) => Ordering::Less,
        (Some(x), Some(y)) => int_order(x, y),
    }
}

impl<T: Endpoint> LowerBound<T> {
    /// The cut of the bound: the first point it admits.
    pub open spec fn cut(self) -> Option<int> {
        match self {
            LowerBound::Unbounded => None,
            LowerBound::Included(x) => Some(2 * x.key()),
            LowerBound::Excluded(x) => Some(2 * x.key() + 1),
        }
    }

    /// Two lower bounds with the same cut are the same bound.
    pub proof fn lemma_cut_injective(a: Self, b: Self)
        ensures
            a.cut() == b.cut() ==> a == b,
    {
        match (a, b) {
            (LowerBound::Included(x), LowerBound::Included(y)) => T::lemma_key_injective(x, y),
            (LowerBound::Excluded(x), LowerBound::Excluded(y)) => T::lemma_key_injective(x, y),
            _ => {},
        }
    }

    pub fn is_unbounded(&self) -> (r: bool)
        ensures
            r == (self.cut() is None),
            r == (*self is Unbounded),
    {
        match self {
            LowerBound::Unbounded => true,
            _ => false,
        }
    }

    /// Total order of lower bounds.
    pub fn compare(&self, other: &Self) -> (r: Ordering)
        ensures
            r == lo_order(self.cut(), other.cut()),
    {
        match (self, other) {
            (LowerBound::Unbounded, LowerBound::Unbounded) => Ordering::Equal,
            (LowerBound::Unbounded, _) => Ordering::Less,
            (_, LowerBound::Unbounded) => Ordering::Greater,
            (LowerBound::Excluded(x), LowerBound::Excluded(y))
            | (LowerBound::Included(x), LowerBound::Included(y)) => {
                if x.key_lt(y) {
                    Ordering::Less
                } else if x.key_eq(y) {
                    Ordering::Equal
                } else {
                    Ordering::Greater
                }
            },
            (LowerBound::Included(x), LowerBound::Excluded(y)) => {
                if x.key_lt(y) || x.key_eq(y) {
                    Ordering::Less
                } else {
                    Ordering::Greater
                }
            },
            (LowerBound::Excluded(x), LowerBound::Included(y)) => {
                if x.key_lt(y) {
                    Ordering::Less
                } else {
                    Ordering::Greater
                }
            },
        }
    }

    /// `self < other` in the order of lower bounds.
    pub fn is_less(&self, other: &Self) -> (r: bool)
        ensures
            r == lo_lt(self.cut(), other.cut()),
    {
        match self.compare(other) {
            Ordering::Less => true,
            _ => false,
        }
    }

    /// `self == other`.
    pub fn same(&self, other: &Self) -> (r: bool)
        ensures
            r == (self.cut() == other.cut()),
            r == (*self == *other),
    {
        proof {
            Self::lemma_cut_injective(*self, *other);
        }
        match self.compare(other) {
            Ordering::Equal => true,
            _ => false,
        }
    }

    /// A lower bound never equals an upper bound.
    pub fn eq_upper(&self, other: &UpperBound<T>) -> (r: bool)
        ensures
            !r,
    {
        false
    }

    /// The order between a lower and an upper bound, as the bounds of one
    /// interval: `Less` when the lower bound's value is below the upper one's,
    /// `None` where both include the same value.
    pub fn partial_compare_upper(&self, other: &UpperBound<T>) -> (r: Option<Ordering>)
        ensures
            r == lower_upper_order(*self, *other),
    {
        match (self, other) {
            (LowerBound::Unbounded, _) | (_, UpperBound::Unbounded) => Some(Ordering::Less),
            (LowerBound::Excluded(l), UpperBound::Excluded(r))
            | (LowerBound::Excluded(l), UpperBound::Included(r))
            | (LowerBound::Included(l), UpperBound::Excluded(r)) => {
                if l.key_lt(r) {
                    Some(Ordering::Less)
                } else {
                    Some(Ordering::Greater)
                }
            },
            (LowerBound::Included(l), UpperBound::Included(r)) => {
                if l.key_lt(r) {
                    Some(Ordering::Less)
                } else if l.key_eq(r) {
                    None
                } else {
                    Some(Ordering::Greater)
                }
            },
        }
    }

    /// The bounds touch: together they split the line with nothing between
    /// and nothing shared.
    pub fn is_touching(&self, other: &UpperBound<T>) -> (r: bool)
        ensures
            r == (self.cut() is Some && self.cut() == other.cut()),
    {
        match (self, other) {
            (LowerBound::Excluded(x), UpperBound::Included(y))
            | (LowerBound::Included(x), UpperBound::Excluded(y)) => x.key_eq(y),
            _ => false,
        }
    }

    /// The upper bound that touches this lower bound, if it is finite.
    pub fn touching(&self) -> (r: Option<UpperBound<T>>)
        ensures
            r == match *self {
                LowerBound::Unbounded => None,
                LowerBound::Excluded(x) => Some(UpperBound::Included(x)),
                LowerBound::Included(x) => Some(UpperBound::Excluded(x)),
            },
            r is Some <==> self.cut() is Some,
            r matches Some(u) ==> u.cut() == self.cut(),
    {
        match self {
            LowerBound::Unbounded => None,
            LowerBound::Excluded(x) => Some(UpperBound::Included(*x)),
            LowerBound::Included(x) => Some(UpperBound::Excluded(*x)),
        }
    }
}

/// The order between a lower bound and an upper bound.
pub open spec fn lower_upper_order<T: Endpoint>(l: LowerBound<T>, u: UpperBound<T>) -> Option<Ordering> {
    match (l, u) {
        (LowerBound::Unbounded, _) => Some(Ordering::Less),
        (_, UpperBound::Unbounded) => Some(Ordering::Less),
        (LowerBound::Included(x), UpperBound::Included(y)) => {
            if x.key() == y.key() {
                None
            } else {
                Some(int_order(x.key(), y.key()))
            }
        },
        (LowerBound::Included(x), UpperBound::Excluded(y))
        | (LowerBound::Excluded(x), UpperBound::Included(y))
        | (LowerBound::Excluded(x), UpperBound::Excluded(y)) => {
            if x.key() < y.key() {
                Some(Ordering::Less)
            } else {
                Some(Ordering::Greater)
            }
        },
    }
}

impl<T: Endpoint> UpperBound<T> {
    /// The cut of the bound: the first point it no longer admits.
    pub open spec fn cut(self) -> Option<int> {
        match self {
            UpperBound::Unbounded => None,
            UpperBound::Included(x) => Some(2 * x.key() + 1),
            UpperBound::Excluded(x) => Some(2 * x.key()),
        }
    }

    /// Two upper bounds with the same cut are the same bound.
    pub proof fn lemma_cut_injective(a: Self, b: Self)
        ensures
            a.cut() == b.cut() ==> a == b,
    {
        match (a, b) {
            (UpperBound::Included(x), UpperBound::Included(y)) => T::lemma_key_injective(x, y),
            (UpperBound::Excluded(x), UpperBound::Excluded(y)) => T::lemma_key_injective(x, y),
            _ => {},
        }
    }

    pub fn is_unbounded(&self) -> (r: bool)
        ensures
            r == (self.cut() is None),
            r == (*self is Unbounded),
    {
        match self {
            UpperBound::Unbounded => true,
            _ => false,
        }
    }

    /// Total order of upper bounds.
    pub fn compare(&self, other: &Self) -> (r: Ordering)
        ensures
            r == hi_order(self.cut(), other.cut()),
    {
        match (self, other) {
            (UpperBound::Unbounded, UpperBound::Unbounded) => Ordering::Equal,
            (UpperBound::Unbounded, _) => Ordering::Greater,
            (_, UpperBound::Unbounded) => Ordering::Less,
            (UpperBound::Excluded(x), UpperBound::Excluded(y))
            | (UpperBound::Included(x), UpperBound::Included(y)) => {
                if x.key_lt(y) {
                    Ordering::Less
                } else if x.key_eq(y) {
                    Ordering::Equal
                } else {
                    Ordering::Greater
                }
            },
            (UpperBound::Included(x), UpperBound::Excluded(y)) => {
                if x.key_lt(y) {
                    Ordering::Less
                } else {
                    Ordering::Greater
                }
            },
            (UpperBound::Excluded(x), UpperBound::Included(y)) => {
                if x.key_lt(y) || x.key_eq(y) {
                    Ordering::Less
                } else {
                    Ordering::Greater
                }
            },
        }
    }

    /// `self < other` in the order of upper bounds.
    pub fn is_less(&self, other: &Self) -> (r: bool)
        ensures
            r == hi_lt(self.cut(), other.cut()),
    {
        match self.compare(other) {
            Ordering::Less => true,
            _ => false,
        }
    }

    /// `self == other`.
    pub fn same(&self, other: &Self) -> (r: bool)
        ensures
            r == (self.cut() == other.cut()),
            r == (*self == *other),
    {
        proof {
            Self::lemma_cut_injective(*self, *other);
        }
        match self.compare(other) {
            Ordering::Equal => true,
            _ => false,
        }
    }

    /// An upper bound never equals a lower bound.
    pub fn eq_lower(&self, other: &LowerBound<T>) -> (r: bool)
        ensures
            !r,
    {
        other.eq_upper(self)
    }

    /// The order between an upper and a lower bound: the reverse of
    /// [`LowerBound::partial_compare_upper`].
    pub fn partial_compare_lower(&self, other: &LowerBound<T>) -> (r: Option<Ordering>)
        ensures
            r == match lower_upper_order(*other, *self) {
                Some(o) => Some(reversed(o)),
                None => None,
            },
    {
        match other.partial_compare_upper(self) {
            Some(Ordering::Less) => Some(Ordering::Greater),
            Some(Ordering::Equal) => Some(Ordering::Equal),
            Some(Ordering::Greater) => Some(Ordering::Less),
            None => None,
        }
    }

    /// `self < other`: the interval ending here lies wholly before anything
    /// starting at `other`.
    pub fn is_before_lower(&self, other: &LowerBound<T>) -> (r: bool)
        ensures
            r == hi_le_lo(self.cut(), other.cut()),
    {
        match self.partial_compare_lower(other) {
            Some(Ordering::Less) => true,
            _ => false,
        }
    }

    /// The bounds touch: together they split the line with nothing between
    /// and nothing shared.
    pub fn is_touching(&self, other: &LowerBound<T>) -> (r: bool)
        ensures
            r == (self.cut() is Some && self.cut() == other.cut()),
    {
        other.is_touching(self)
    }

    /// The lower bound that touches this upper bound, if it is finite.
    pub fn touching(&self) -> (r: Option<LowerBound<T>>)
        ensures
            r == match *self {
                UpperBound::Unbounded => None,
                UpperBound::Excluded(x) => Some(LowerBound::Included(x)),
                UpperBound::Included(x) => Some(LowerBound::Excluded(x)),
            },
            r is Some <==> self.cut() is Some,
            r matches Some(l) ==> l.cut() == self.cut(),
    {
        match self {
            UpperBound::Unbounded => None,
            UpperBound::Excluded(x) => Some(LowerBound::Included(*x)),
            UpperBound::Included(x) => Some(LowerBound::Excluded(*x)),
        }
    }
}


/// Touching is its own inverse: the lower bound touching the upper bound
/// that touches a finite lower bound is that lower bound.
pub proof fn lemma_touching_round_trip<T: Endpoint>(l: LowerBound<T>, u: UpperBound<T>, back: LowerBound<T>)
    requires
        l.cut() is Some,
        u.cut() == l.cut(),
        back.cut() == u.cut(),
    ensures
        back == l,
{
    LowerBound::lemma_cut_injective(l, back);
}

} // verus!
