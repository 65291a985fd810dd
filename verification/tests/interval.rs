use yoakke::bound::{LowerBound, UpperBound};
use yoakke::interval::{Interval, IntervalRelation};

fn iv(lo: LowerBound<i32>, hi: UpperBound<i32>) -> Interval<i32> {
    Interval::with_bounds(lo, hi)
}

fn half_open(a: i32, b: i32) -> Interval<i32> {
    iv(LowerBound::Included(a), UpperBound::Excluded(b))
}

#[test]
fn contains_respects_bound_kinds() {
    let closed = iv(LowerBound::Included(3), UpperBound::Included(5));
    assert!(closed.contains(&3));
    assert!(closed.contains(&5));
    assert!(!closed.contains(&6));
    let open = iv(LowerBound::Excluded(3), UpperBound::Excluded(5));
    assert!(!open.contains(&3));
    assert!(open.contains(&4));
    assert!(!open.contains(&5));
    assert!(Interval::<i32>::full().contains(&-100));
}

#[test]
fn is_empty_cases() {
    assert!(half_open(3, 3).is_empty());
    assert!(!half_open(3, 4).is_empty());
    assert!(iv(LowerBound::Excluded(3), UpperBound::Excluded(3)).is_empty());
    assert!(iv(LowerBound::Included(5), UpperBound::Included(3)).is_empty());
    assert!(!iv(LowerBound::Included(3), UpperBound::Included(3)).is_empty());
}

#[test]
fn touching_intervals_are_before() {
    assert!(half_open(1, 2).is_before(&half_open(2, 3)));
    assert!(!half_open(1, 3).is_before(&half_open(2, 4)));
    assert!(half_open(2, 3).is_disjunct(&half_open(1, 2)));
    let closed = iv(LowerBound::Included(1), UpperBound::Included(2));
    assert!(!closed.is_before(&iv(LowerBound::Included(2), UpperBound::Included(3))));
}

#[test]
fn relates_disjunct_orders_by_lower() {
    let r = half_open(5, 7).relates(&half_open(1, 2));
    assert_eq!(r, IntervalRelation::Disjunct { first: half_open(1, 2), second: half_open(5, 7) });
}

#[test]
fn relates_touching() {
    let r = half_open(2, 5).relates(&half_open(5, 7));
    assert_eq!(r, IntervalRelation::Touching { first: half_open(2, 5), second: half_open(5, 7) });
    let r = half_open(5, 7).relates(&half_open(2, 5));
    assert_eq!(r, IntervalRelation::Touching { first: half_open(2, 5), second: half_open(5, 7) });
}

#[test]
fn relates_overlapping() {
    let r = half_open(1, 5).relates(&half_open(3, 8));
    assert_eq!(
        r,
        IntervalRelation::Overlapping {
            first_disjunct: half_open(1, 3),
            overlapping: half_open(3, 5),
            second_disjunct: half_open(5, 8),
        }
    );
}

#[test]
fn relates_containing() {
    let r = half_open(3, 4).relates(&half_open(1, 8));
    assert_eq!(
        r,
        IntervalRelation::Containing {
            first_disjunct: half_open(1, 3),
            overlapping: half_open(3, 4),
            second_disjunct: half_open(4, 8),
        }
    );
}

#[test]
fn relates_starting_and_finishing() {
    assert_eq!(
        half_open(1, 8).relates(&half_open(1, 3)),
        IntervalRelation::Starting { overlapping: half_open(1, 3), disjunct: half_open(3, 8) }
    );
    assert_eq!(
        half_open(1, 8).relates(&half_open(4, 8)),
        IntervalRelation::Finishing { disjunct: half_open(1, 4), overlapping: half_open(4, 8) }
    );
}

#[test]
fn relates_equal() {
    assert_eq!(half_open(1, 8).relates(&half_open(1, 8)), IntervalRelation::Equal(half_open(1, 8)));
}

#[test]
fn bound_touching_and_order() {
    assert_eq!(LowerBound::Included(3).touching(), Some(UpperBound::Excluded(3)));
    assert_eq!(UpperBound::Included(3).touching(), Some(LowerBound::Excluded(3)));
    assert_eq!(LowerBound::<i32>::Unbounded.touching(), None);
    assert!(LowerBound::Included(3).is_touching(&UpperBound::Excluded(3)));
    assert!(!LowerBound::Included(3).is_touching(&UpperBound::Included(3)));
    assert!(LowerBound::Included(3).is_less(&LowerBound::Excluded(3)));
    assert!(UpperBound::Excluded(3).is_less(&UpperBound::Included(3)));
    assert_eq!(LowerBound::Included(3).partial_compare_upper(&UpperBound::Included(3)), None);
    assert_eq!(
        LowerBound::Excluded(3).partial_compare_upper(&UpperBound::Included(3)),
        Some(std::cmp::Ordering::Greater)
    );
    assert_eq!(
        UpperBound::Included(3).partial_compare_lower(&LowerBound::Excluded(3)),
        Some(std::cmp::Ordering::Less)
    );
    assert!(LowerBound::<i32>::Unbounded.is_unbounded());
    assert!(!UpperBound::Included(1).is_unbounded());
}

#[test]
fn relating_does_not_depend_on_the_order() {
    let pairs = vec![
        (half_open(1, 3), half_open(5, 7)),
        (half_open(1, 5), half_open(5, 7)),
        (half_open(1, 5), half_open(3, 7)),
        (half_open(1, 9), half_open(3, 7)),
        (half_open(1, 5), half_open(1, 7)),
        (half_open(1, 7), half_open(3, 7)),
        (half_open(2, 4), half_open(2, 4)),
    ];
    for (a, b) in pairs {
        assert_eq!(a.relates(&b), b.relates(&a));
    }
    assert_eq!(half_open(2, 4).relates(&half_open(2, 4)), IntervalRelation::Equal(half_open(2, 4)));
}
