use std::ops::{Bound, RangeBounds};
use yoakke::bound::{LowerBound, UpperBound};
use yoakke::endpoint::Endpoint;
use yoakke::interval::Interval;
use yoakke::interval_map::{IntervalMap, Unification};

fn ri<R, T>(r: R) -> Interval<T>
where
    R: RangeBounds<T>,
    T: Endpoint,
{
    let lower = match r.start_bound() {
        Bound::Excluded(x) => LowerBound::Excluded(*x),
        Bound::Included(x) => LowerBound::Included(*x),
        Bound::Unbounded => LowerBound::Unbounded,
    };
    let upper = match r.end_bound() {
        Bound::Excluded(x) => UpperBound::Excluded(*x),
        Bound::Included(x) => UpperBound::Included(*x),
        Bound::Unbounded => UpperBound::Unbounded,
    };
    Interval::with_bounds(lower, upper)
}

// Helper unify method
fn test_unify<T>(mut u: Unification<Vec<T>>) -> Vec<T> {
    u.existing.extend(u.inserted);
    u.existing
}

fn ivmap(entries: Vec<(Interval<i32>, Vec<i32>)>) -> IntervalMap<i32, Vec<i32>> {
    let mut map = IntervalMap::new();
    for (k, v) in entries {
        map.insert_and_unify(k, v, test_unify);
    }
    map
}

fn ivmap_raw(entries: Vec<(Interval<i32>, Vec<i32>)>) -> IntervalMap<i32, Vec<i32>> {
    IntervalMap { intervals: entries }
}

#[test]
fn insert_into_empty_map() {
    let mut map = IntervalMap::new();
    assert_eq!(map.intervals, vec![]);
    map.insert_and_unify(ri(2..3), vec![1], test_unify);
    assert_eq!(map.intervals, vec![(ri(2..3), vec![1])]);
    assert_eq!(map, ivmap(vec![(ri(2..3), vec![1])]));
}

#[test]
fn insert_into_map_disjunct_before() {
    let mut map = ivmap_raw(vec![(ri(5..7), vec![1]), (ri(12..15), vec![1])]);
    assert_eq!(map.intervals, vec![(ri(5..7), vec![1]), (ri(12..15), vec![1])]);
    map.insert_and_unify(ri(2..3), vec![2], test_unify);
    assert_eq!(map.intervals, vec![(ri(2..3), vec![2]), (ri(5..7), vec![1]), (ri(12..15), vec![1])]);
    assert_eq!(map, ivmap(vec![(ri(2..3), vec![2]), (ri(5..7), vec![1]), (ri(12..15), vec![1])]));
}

#[test]
fn insert_into_map_disjunct_before_touch() {
    let mut map = ivmap_raw(vec![(ri(5..7), vec![1]), (ri(12..15), vec![1])]);
    assert_eq!(map.intervals, vec![(ri(5..7), vec![1]), (ri(12..15), vec![1])]);
    map.insert_and_unify(ri(2..5), vec![2], test_unify);
    assert_eq!(map.intervals, vec![(ri(2..5), vec![2]), (ri(5..7), vec![1]), (ri(12..15), vec![1])]);
    assert_eq!(map, ivmap(vec![(ri(2..5), vec![2]), (ri(5..7), vec![1]), (ri(12..15), vec![1])]));
}

#[test]
fn insert_into_map_disjunct_after() {
    let mut map = ivmap_raw(vec![(ri(5..7), vec![1]), (ri(12..15), vec![1])]);
    map.insert_and_unify(ri(17..19), vec![2], test_unify);
    assert_eq!(map, ivmap(vec![(ri(5..7), vec![1]), (ri(12..15), vec![1]), (ri(17..19), vec![2])]));
}

#[test]
fn insert_into_map_disjunct_after_touch() {
    let mut map = ivmap_raw(vec![(ri(5..7), vec![1]), (ri(12..15), vec![1])]);
    map.insert_and_unify(ri(15..19), vec![2], test_unify);
    assert_eq!(map, ivmap(vec![(ri(5..7), vec![1]), (ri(12..15), vec![1]), (ri(15..19), vec![2])]));
}

#[test]
fn insert_into_map_single_equal() {
    let mut map = ivmap_raw(vec![(ri(5..7), vec![1])]);
    map.insert_and_unify(ri(5..7), vec![2], test_unify);
    assert_eq!(map, ivmap(vec![(ri(5..7), vec![1, 2])]));
}

#[test]
fn insert_into_map_single_containing_inserted() {
    let mut map = ivmap_raw(vec![(ri(3..9), vec![1])]);
    map.insert_and_unify(ri(5..7), vec![2], test_unify);
    assert_eq!(map, ivmap(vec![(ri(3..5), vec![1]), (ri(5..7), vec![1, 2]), (ri(7..9), vec![1])]));
}

#[test]
fn insert_into_map_single_containing_existing() {
    let mut map = ivmap_raw(vec![(ri(5..7), vec![1])]);
    map.insert_and_unify(ri(3..9), vec![2], test_unify);
    assert_eq!(map, ivmap(vec![(ri(3..5), vec![2]), (ri(5..7), vec![1, 2]), (ri(7..9), vec![2])]));
}

#[test]
fn insert_into_map_single_overlapping_left() {
    let mut map = ivmap_raw(vec![(ri(5..9), vec![1])]);
    map.insert_and_unify(ri(2..7), vec![2], test_unify);
    assert_eq!(map, ivmap(vec![(ri(2..5), vec![2]), (ri(5..7), vec![1, 2]), (ri(7..9), vec![1])]));
}

#[test]
fn insert_into_map_single_overlapping_right() {
    let mut map = ivmap_raw(vec![(ri(5..9), vec![1])]);
    map.insert_and_unify(ri(7..12), vec![2], test_unify);
    assert_eq!(map, ivmap(vec![(ri(5..7), vec![1]), (ri(7..9), vec![1, 2]), (ri(9..12), vec![2])]));
}

#[test]
fn insert_into_map_starting_existing_shorter() {
    let mut map = ivmap_raw(vec![(ri(5..7), vec![1])]);
    map.insert_and_unify(ri(5..9), vec![2], test_unify);
    assert_eq!(map.intervals, vec![(ri(5..7), vec![1, 2]), (ri(7..9), vec![2])]);
}

#[test]
fn insert_into_map_starting_inserted_shorter() {
    let mut map = ivmap_raw(vec![(ri(5..9), vec![1])]);
    map.insert_and_unify(ri(5..7), vec![2], test_unify);
    assert_eq!(map.intervals, vec![(ri(5..7), vec![1, 2]), (ri(7..9), vec![1])]);
}

#[test]
fn insert_into_map_finishing_existing_longer() {
    let mut map = ivmap_raw(vec![(ri(3..9), vec![1])]);
    map.insert_and_unify(ri(5..9), vec![2], test_unify);
    assert_eq!(map.intervals, vec![(ri(3..5), vec![1]), (ri(5..9), vec![1, 2])]);
}

#[test]
fn insert_into_map_finishing_existing_shorter() {
    let mut map = ivmap_raw(vec![(ri(5..9), vec![1])]);
    map.insert_and_unify(ri(3..9), vec![2], test_unify);
    assert_eq!(map.intervals, vec![(ri(3..5), vec![2]), (ri(5..9), vec![1, 2])]);
}

#[test]
fn empty_keys_are_kept_after_the_others() {
    let mut m: IntervalMap<i32, Vec<i32>> = IntervalMap::new();
    m.insert_and_unify(ri(5..5), vec![1], test_unify);
    assert_eq!(m.intervals, vec![(ri(5..5), vec![1])]);
    m.insert_and_unify(ri(2..7), vec![2], test_unify);
    assert_eq!(m.intervals, vec![(ri(2..7), vec![2]), (ri(5..5), vec![1])]);
}
