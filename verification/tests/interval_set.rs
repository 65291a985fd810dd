use std::ops::{Bound, RangeBounds};
use yoakke::bound::{LowerBound, UpperBound};
use yoakke::endpoint::Endpoint;
use yoakke::interval::Interval;
use yoakke::interval_set::IntervalSet;

fn ri<R, T>(r: R) -> Interval<T>
where
    R: RangeBounds<T>,
    T: Endpoint,
{
    let lower = match r.start_bound() {
        Bound::Excluded(x) => LowerBound::Excluded(*x),
        Bound::Included(x) => LowerBound::Included(*x),
        Bound::Unbounded => LowerBound::Unbounded,
    };
    let upper = match r.end_bound() {
        Bound::Excluded(x) => UpperBound::Excluded(*x),
        Bound::Included(x) => UpperBound::Included(*x),
        Bound::Unbounded => UpperBound::Unbounded,
    };
    Interval::with_bounds(lower, upper)
}

fn ivset<T: Endpoint>(ivs: Vec<Interval<T>>) -> IntervalSet<T> {
    let mut set = IntervalSet::new();
    for iv in ivs {
        set.insert(iv);
    }
    set
}

fn ivset_raw<T: Endpoint>(ivs: Vec<Interval<T>>) -> IntervalSet<T> {
    IntervalSet { intervals: ivs }
}

#[test]
fn insert_into_empty_set() {
    let mut set = IntervalSet::new();
    assert_eq!(set.intervals, vec![]);
    set.insert(ri(2..3));
    assert_eq!(set.intervals, vec![ri(2..3)]);
    assert_eq!(set, ivset(vec![ri(2..3)]));
}

#[test]
fn insert_into_set_dijsunct_before() {
    let mut set = ivset_raw(vec![ri(5..7), ri(12..15)]);
    assert_eq!(set.intervals, vec![ri(5..7), ri(12..15)]);
    set.insert(ri(2..3));
    assert_eq!(set.intervals, vec![ri(2..3), ri(5..7), ri(12..15)]);
    assert_eq!(set, ivset(vec![ri(2..3), ri(5..7), ri(12..15)]));
}

#[test]
fn insert_into_set_dijsunct_after() {
    let mut set = ivset_raw(vec![ri(5..7), ri(12..15)]);
    assert_eq!(set.intervals, vec![ri(5..7), ri(12..15)]);
    set.insert(ri(2..3));
    assert_eq!(set.intervals, vec![ri(2..3), ri(5..7), ri(12..15)]);
    assert_eq!(set, ivset(vec![ri(2..3), ri(5..7), ri(12..15)]));
}

#[test]
fn insert_into_set_dijsunct_between() {
    let mut set = ivset_raw(vec![ri(5..7), ri(12..15)]);
    set.insert(ri(8..11));
    assert_eq!(set, ivset(vec![ri(5..7), ri(8..11), ri(12..15)]));
}

#[test]
fn insert_into_set_touch_first() {
    let mut set = ivset_raw(vec![ri(5..7), ri(12..15)]);
    set.insert(ri(3..5));
    assert_eq!(set, ivset(vec![ri(3..7), ri(12..15)]));
}

#[test]
fn insert_into_set_intersect_first() {
    let mut set = ivset_raw(vec![ri(5..7), ri(12..15)]);
    set.insert(ri(3..6));
    assert_eq!(set, ivset(vec![ri(3..7), ri(12..15)]));
}

#[test]
fn insert_into_set_touch_between() {
    let mut set = ivset_raw(vec![ri(5..7), ri(12..15)]);
    set.insert(ri(7..12));
    assert_eq!(set, ivset(vec![ri(5..15)]));
}

#[test]
fn insert_into_set_overextend_all() {
    let mut set = ivset_raw(vec![ri(5..7), ri(12..15)]);
    set.insert(ri(3..16));
    assert_eq!(set, ivset(vec![ri(3..16)]));
}

#[test]
fn invert_empty() {
    let mut set = IntervalSet::<usize>::new();
    set.invert();
    assert_eq!(set, ivset(vec![ri(..)]));
    assert_eq!(set.intervals, vec![Interval::full()]);
}

#[test]
fn invert_full() {
    let mut set = ivset(vec![ri(..)]);
    set.invert();
    assert_eq!(set, IntervalSet::<usize>::new());
    assert_eq!(set.intervals, vec![]);
}

#[test]
fn invert_single_bounded() {
    let mut set = ivset_raw(vec![ri(3..5)]);
    set.invert();
    assert_eq!(set, ivset(vec![ri(..3), ri(5..)]));
}

#[test]
fn invert_two_bounded() {
    let mut set = ivset_raw(vec![ri(3..5), ri(7..9)]);
    set.invert();
    assert_eq!(set, ivset(vec![ri(..3), ri(5..7), ri(9..)]));
}

#[test]
fn invert_many_even_bounded() {
    let mut set = ivset_raw(vec![ri(3..5), ri(7..8), ri(10..14), ri(18..21)]);
    set.invert();
    assert_eq!(set, ivset(vec![ri(..3), ri(5..7), ri(8..10), ri(14..18), ri(21..)]));
}

#[test]
fn invert_many_odd_bounded() {
    let mut set = ivset_raw(vec![ri(3..5), ri(7..8), ri(10..14), ri(18..21), ri(24..26)]);
    set.invert();
    assert_eq!(set, ivset(vec![ri(..3), ri(5..7), ri(8..10), ri(14..18), ri(21..24), ri(26..)]));
}

// Inversion when exactly one end of the set is unbounded.
#[test]
fn invert_unbounded_below() {
    let mut set = ivset_raw(vec![ri(..3), ri(5..7)]);
    set.invert();
    assert_eq!(set, ivset(vec![ri(3..5), ri(7..)]));
}

#[test]
fn invert_unbounded_above() {
    let mut set = ivset_raw(vec![ri(3..5), ri(7..)]);
    set.invert();
    assert_eq!(set, ivset(vec![ri(..3), ri(5..7)]));
}

#[test]
fn invert_unbounded_both_ends() {
    let mut set = ivset_raw(vec![ri(..3), ri(5..7), ri(9..)]);
    set.invert();
    assert_eq!(set, ivset(vec![ri(3..5), ri(7..9)]));
}

#[test]
fn invert_twice_gives_back_the_set() {
    let orig = ivset_raw(vec![ri(3..5), ri(7..=8), ri(10..14)]);
    let mut set = ivset_raw(vec![ri(3..5), ri(7..=8), ri(10..14)]);
    set.invert();
    set.invert();
    assert_eq!(set, orig);
}

#[test]
fn insert_empty_interval_changes_nothing() {
    let mut set = ivset_raw(vec![ri(5..7)]);
    set.insert(ri(9..9));
    assert_eq!(set, ivset_raw(vec![ri(5..7)]));
}

#[test]
fn insert_inclusive_touching_exclusive() {
    // [3, 5] and (5, 7) touch at 5 and merge
    let mut set = ivset_raw(vec![ri(3..=5)]);
    set.insert(Interval::with_bounds(LowerBound::Excluded(5), UpperBound::Excluded(7)));
    assert_eq!(set.intervals, vec![ri(3..7)]);
}

#[test]
fn insert_exclusive_ends_stay_apart() {
    // [3, 5) and (5, 7) leave 5 out and stay apart
    let mut set = ivset_raw(vec![ri(3..5)]);
    set.insert(Interval::with_bounds(LowerBound::Excluded(5), UpperBound::Excluded(7)));
    assert_eq!(set.intervals.len(), 2);
}

#[test]
fn insertion_order_does_not_matter() {
    let base = vec![ri(1..3), ri(8..10)];
    let mut ab = ivset_raw(base.clone());
    ab.insert(ri(2..5));
    ab.insert(ri(5..8));
    let mut ba = ivset_raw(base);
    ba.insert(ri(5..8));
    ba.insert(ri(2..5));
    assert_eq!(ab, ba);
    assert_eq!(ab.intervals, vec![ri(1..10)]);
}

#[test]
fn inserting_twice_changes_nothing_more() {
    let mut set = ivset_raw(vec![ri(1..3), ri(8..10)]);
    set.insert(ri(4..6));
    let once = set.intervals.clone();
    set.insert(ri(4..6));
    assert_eq!(set.intervals, once);
    assert_eq!(once, vec![ri(1..3), ri(4..6), ri(8..10)]);
}

#[test]
fn inverting_changes_the_length_by_the_bounded_ends() {
    // Both ends bounded: one more gap than intervals less one.
    let mut set = ivset_raw(vec![ri(3..5), ri(7..9)]);
    set.invert();
    assert_eq!(set.intervals.len(), 3);
    // One end unbounded: as many gaps as intervals.
    let mut set = ivset_raw(vec![ri(..5), ri(7..9)]);
    set.invert();
    assert_eq!(set.intervals.len(), 2);
    // Both ends unbounded: one fewer.
    let mut set = ivset_raw(vec![ri(..5), ri(7..)]);
    set.invert();
    assert_eq!(set.intervals.len(), 1);
    // Inverting twice gives the set back.
    let mut set = ivset_raw(vec![ri(3..5), ri(7..9)]);
    set.invert();
    set.invert();
    assert_eq!(set, ivset_raw(vec![ri(3..5), ri(7..9)]));
}
