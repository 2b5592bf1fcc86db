//! Unit checks for the boolean and integer metavalue sets.

use typesolver::sets::Boolean;
use typesolver::sets::Integer;

#[test]
fn boolean_lattice() {
    assert!(Boolean::full().contains(true));
    assert!(Boolean::full().contains(false));
    assert!(!Boolean::empty().contains(true));
    assert!(Boolean::full().superset_of(&Boolean::singleton(true)));
    assert!(!Boolean::singleton(true).superset_of(&Boolean::full()));
    assert!(Boolean::singleton(true).intersects_with(&Boolean::full()));
    assert!(!Boolean::singleton(true).intersects_with(&Boolean::singleton(false)));
    assert_eq!(Boolean::singleton(false).value(), Some(false));
    assert_eq!(Boolean::full().value(), None);
    assert!(Boolean::empty().is_empty());
    let mut b = Boolean::full();
    b.intersect_with(&Boolean::singleton(true));
    assert_eq!(b.value(), Some(true));
}

#[test]
fn integer_intersection() {
    let a = Integer::range(0, 10);
    let b = Integer::range(5, 20);
    let c = a.intersect(&b);
    assert!(c.contains(5));
    assert!(c.contains(10));
    assert!(!c.contains(4));
    assert!(!c.contains(11));
    assert!(a.intersects_with(&b));
    assert!(!Integer::range(0, 3).intersects_with(&Integer::range(5, 9)));
}

#[test]
fn integer_superset() {
    let wide = Integer::range(0, 100);
    let narrow = Integer::range(10, 20);
    assert!(wide.superset_of(&narrow));
    assert!(!narrow.superset_of(&wide));
    assert!(wide.superset_of(&Integer::empty()));
    assert!(Integer::empty().superset_of(&Integer::empty()));
    assert!(!Integer::empty().superset_of(&Integer::singleton(3)));
}

#[test]
fn integer_extremes() {
    let all = Integer::full();
    assert!(all.contains(i64::MIN));
    assert!(all.contains(i64::MAX));
    assert!(all.contains(0));
    assert_eq!(all.value(), None);
    let one = Integer::singleton(i64::MIN);
    assert_eq!(one.value(), Some(i64::MIN));
    assert!(all.superset_of(&one));
}

#[test]
fn integer_singleton_value() {
    let s = Integer::singleton(7);
    assert_eq!(s.value(), Some(7));
    assert!(s.contains(7));
    assert!(!s.contains(6));
    assert_eq!(Integer::range(1, 2).value(), None);
    assert_eq!(Integer::empty().value(), None);
    assert!(Integer::empty().is_empty());
    assert!(!s.is_empty());
}

#[test]
fn integer_multi_interval() {
    // Intersecting two overlapping staircases yields a canonical union
    // of two disjoint intervals.
    let a = Integer::range(0, 30);
    let b1 = Integer::range(0, 10);
    let b2 = Integer::range(20, 30);
    let left = a.intersect(&b1);
    let right = a.intersect(&b2);
    assert!(left.contains(10) && !left.contains(11));
    assert!(right.contains(20) && !right.contains(19));
}
