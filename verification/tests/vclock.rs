use std::cmp::Ordering;

use crdts::{Dot, VClock};

fn clock_of(dots: &[(u64, u64)]) -> VClock {
    let mut c = VClock::new();
    for &(a, n) in dots {
        c.apply(Dot::new(a, n));
    }
    c
}

#[test]
fn new_clock_is_empty() {
    let c = VClock::new();
    assert!(c.is_empty());
    assert_eq!(c.get(7), 0);
    assert_eq!(c, VClock::default());
}

#[test]
fn inc_is_pure_and_apply_records() {
    let mut a = VClock::new();
    let op = a.inc(1);
    assert_eq!(a, VClock::new());
    assert_eq!(op, Dot::new(1, 1));
    a.apply(op);
    assert_eq!(a.get(1), 1);

    let mut other_node = VClock::new();
    other_node.apply(op);
    assert_eq!(other_node.get(1), 1);
}

#[test]
fn dot_is_a_snapshot() {
    let c = clock_of(&[(5, 3)]);
    assert_eq!(c.dot(5), Dot::new(5, 3));
    assert_eq!(c.dot(6), Dot::new(6, 0));
    assert_eq!(c.get(5), 3);
}

#[test]
fn apply_is_idempotent_and_monotone() {
    let mut v = VClock::new();
    v.apply(Dot::new(1, 2));
    let once = v.clone();
    v.apply(Dot::new(1, 2));
    assert_eq!(v, once);
    // stale dots are no-ops
    v.apply(Dot::new(1, 0));
    v.apply(Dot::new(1, 1));
    assert_eq!(v.get(1), 2);
}

#[test]
fn merge_scenario_two_replicas() {
    let mut a = VClock::new();
    a.apply(Dot::new(1, 1));
    a.apply(Dot::new(1, 2));
    let mut b = VClock::new();
    b.apply(Dot::new(2, 1));

    let mut a_into_b = b.clone();
    a_into_b.merge(a.clone());
    let mut b_into_a = a.clone();
    b_into_a.merge(b.clone());

    let expected = clock_of(&[(1, 2), (2, 1)]);
    assert_eq!(a_into_b, expected);
    assert_eq!(b_into_a, expected);

    // re-applying an already-seen dot afterwards is a no-op
    let before = b_into_a.clone();
    b_into_a.apply(Dot::new(1, 1));
    assert_eq!(b_into_a, before);
}

#[test]
fn merge_laws_on_concrete_clocks() {
    let a = clock_of(&[(1, 4), (2, 1)]);
    let b = clock_of(&[(2, 3), (3, 2)]);
    let c = clock_of(&[(1, 1), (3, 5)]);

    // commutative
    let mut ab = a.clone();
    ab.merge(b.clone());
    let mut ba = b.clone();
    ba.merge(a.clone());
    assert_eq!(ab, ba);

    // associative
    let mut bc = b.clone();
    bc.merge(c.clone());
    let mut a_bc = a.clone();
    a_bc.merge(bc);
    let mut ab_c = ab.clone();
    ab_c.merge(c.clone());
    assert_eq!(a_bc, ab_c);

    // idempotent
    let mut aa = a.clone();
    aa.merge(a.clone());
    assert_eq!(aa, a);
}

#[test]
fn partial_cmp_orders_and_detects_concurrency() {
    let small = clock_of(&[(1, 1)]);
    let big = clock_of(&[(1, 2), (2, 1)]);
    let other = clock_of(&[(3, 1)]);

    assert_eq!(big.partial_cmp(&small), Some(Ordering::Greater));
    assert_eq!(small.partial_cmp(&big), Some(Ordering::Less));
    assert_eq!(big.partial_cmp(&big.clone()), Some(Ordering::Equal));
    assert_eq!(small.partial_cmp(&other), None);
    assert!(small.concurrent(&other));
    assert!(!small.concurrent(&big));
}

#[test]
fn forget_prunes_dominated_and_equal_entries() {
    let mut c = clock_of(&[(1, 3), (2, 5), (3, 1)]);
    let base = clock_of(&[(1, 3), (2, 4)]);
    c.forget(&base);
    // actor 1 matched exactly: removed; actor 2 was ahead: kept
    assert_eq!(c, clock_of(&[(2, 5), (3, 1)]));
}

#[test]
fn clone_without_leaves_original_untouched() {
    let c = clock_of(&[(1, 3), (2, 5)]);
    let base = clock_of(&[(1, 7)]);
    let pruned = c.clone_without(&base);
    assert_eq!(pruned, clock_of(&[(2, 5)]));
    assert_eq!(c, clock_of(&[(1, 3), (2, 5)]));
}

#[test]
fn intersection_keeps_exactly_equal_counters() {
    let left = clock_of(&[(1, 2), (2, 4), (3, 1)]);
    let right = clock_of(&[(1, 2), (2, 5), (4, 1)]);
    let common = VClock::intersection(&left, &right);
    assert_eq!(common, clock_of(&[(1, 2)]));
}

#[test]
fn glb_scenario_meet_removes_unknown_actor() {
    let mut c = VClock::new();
    c.apply(Dot::new(23, 6));
    c.apply(Dot::new(89, 14));
    let c2 = c.clone();

    c.glb(&c2); // no-op, glb(c, c) == c
    assert_eq!(c, c2);

    c.apply(Dot::new(43, 1));
    assert_eq!(c.get(43), 1);
    c.glb(&c2); // removes the 43 => 1 entry
    assert_eq!(c.get(43), 0);
    assert_eq!(c, c2);
}

#[test]
fn glb_is_pointwise_minimum() {
    let mut a = clock_of(&[(1, 4), (2, 1), (3, 2)]);
    let b = clock_of(&[(1, 2), (3, 7), (4, 9)]);
    a.glb(&b);
    assert_eq!(a, clock_of(&[(1, 2), (3, 2)]));
    // actor 4 was absent from the left input and stays absent
    assert_eq!(a.get(4), 0);
}

#[test]
fn iteration_is_in_ascending_actor_order() {
    let c = clock_of(&[(9, 1), (2, 4), (5, 2)]);
    let dots = c.iter();
    assert_eq!(dots, vec![Dot::new(2, 4), Dot::new(5, 2), Dot::new(9, 1)]);

    let mut it = c.clone().into_iter();
    assert_eq!(it.next(), Some(Dot::new(2, 4)));
    assert_eq!(it.next(), Some(Dot::new(5, 2)));
    assert_eq!(it.next(), Some(Dot::new(9, 1)));
    assert_eq!(it.next(), None);
}

#[test]
fn from_dots_folds_apply_over_the_sequence() {
    let dots = vec![Dot::new(2, 1), Dot::new(1, 3), Dot::new(2, 5), Dot::new(2, 2)];
    let c = VClock::from_dots(dots);
    assert_eq!(c, clock_of(&[(1, 3), (2, 5)]));
    assert_eq!(VClock::from_dot(Dot::new(4, 2)), clock_of(&[(4, 2)]));
}
