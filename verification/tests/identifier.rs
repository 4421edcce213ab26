use crdts::Identifier;
use num::BigInt;
use num_rational::BigRational;

fn rational(n: i64, d: i64) -> BigRational {
    BigRational::new(BigInt::from(n), BigInt::from(d))
}

#[test]
fn between_nothing_sits_at_zero() {
    let id_x: Identifier<char> = Identifier::between(None, None, 'x');
    assert_eq!(id_x, Identifier::from_entry(rational(0, 1), 'x'));
    assert_eq!(*id_x.value(), 'x');
}

#[test]
fn between_above_a_bound_adds_one() {
    let id_x: Identifier<char> = Identifier::between(None, None, 'x');
    let id_y = Identifier::between(Some(&id_x), None, 'y');
    assert_eq!(id_y, Identifier::from_entry(rational(1, 1), 'y'));
    assert!(id_x.lt(&id_y));
}

#[test]
fn between_below_a_bound_subtracts_one() {
    let id_x = Identifier::from_entry(rational(3, 2), 'x');
    let id_w = Identifier::between(None, Some(&id_x), 'w');
    assert_eq!(id_w, Identifier::from_entry(rational(1, 2), 'w'));
    assert!(id_w.lt(&id_x));
}

#[test]
fn between_two_bounds_is_the_midpoint() {
    let a = Identifier::from_entry(rational(0, 1), 'a');
    let b = Identifier::from_entry(rational(1, 1), 'b');
    let mid = Identifier::between(Some(&a), Some(&b), 'm');
    assert_eq!(mid, Identifier::from_entry(rational(1, 2), 'm'));
    assert!(a.lt(&mid));
    assert!(mid.lt(&b));
}

#[test]
fn fifty_bisections_stay_strictly_inside() {
    let mut low: Identifier<char> = Identifier::between(None, None, 'x');
    let mut high = Identifier::between(Some(&low), None, 'y');
    for step in 0..50 {
        let mid = Identifier::between(Some(&low), Some(&high), 'm');
        assert!(low.lt(&mid), "lower bound violated at step {}", step);
        assert!(mid.lt(&high), "upper bound violated at step {}", step);
        if step % 2 == 0 {
            high = mid;
        } else {
            low = mid;
        }
    }
}

#[test]
fn shared_prefix_is_copied_and_extended() {
    let a = Identifier::from_entry(rational(0, 1), 'a');
    // both bounds carry the same single rational: the shared entry is
    // kept and a new level is opened below it
    let deeper = Identifier::between(Some(&a), Some(&a.clone()), 'c');
    assert!(a.lt(&deeper));
    assert!(!deeper.lt(&a));
    assert_eq!(*deeper.value(), 'c');
}

#[test]
fn fork_inside_longer_paths_stays_between() {
    let a = Identifier::from_entry(rational(0, 1), 'a');
    let deeper_low = Identifier::between(Some(&a), Some(&a.clone()), 'l');
    let deeper_high = Identifier::between(Some(&deeper_low), None, 'h');
    // deeper_low = [0, 0], deeper_high = [1]: fork at the first entry
    let mid = Identifier::between(Some(&deeper_low), Some(&deeper_high), 'm');
    assert!(deeper_low.lt(&mid));
    assert!(mid.lt(&deeper_high));
}

#[test]
fn prefix_bound_gets_a_value_strictly_between() {
    // low's rational path [0, 0] is a strict prefix of high's [0, 0, 0]
    let x: Identifier<char> = Identifier::between(None, None, 'x');
    let a = Identifier::between(Some(&x), Some(&x.clone()), 'a');
    let b = Identifier::between(Some(&a), Some(&a.clone()), 'b');
    assert!(a.lt(&b));
    let mid = Identifier::between(Some(&a), Some(&b), 'm');
    assert!(a.lt(&mid));
    assert!(mid.lt(&b));
    // the surviving high side bounds the new entry: 0 - 1 = -1
    let expected = Identifier::from_path(vec![
        (rational(0, 1), 'x'),
        (rational(0, 1), 'a'),
        (rational(-1, 1), 'm'),
    ])
    .unwrap();
    assert_eq!(mid, expected);
}

#[test]
fn repeated_bisection_against_a_prefix_bound() {
    let x: Identifier<char> = Identifier::between(None, None, 'x');
    let low = Identifier::between(Some(&x), Some(&x.clone()), 'a');
    let mut high = Identifier::between(Some(&low), Some(&low.clone()), 'b');
    for step in 0..50 {
        let mid = Identifier::between(Some(&low), Some(&high), 'm');
        assert!(low.lt(&mid), "lower bound violated at step {}", step);
        assert!(mid.lt(&high), "upper bound violated at step {}", step);
        high = mid;
    }
}

#[test]
fn exhausted_high_side_goes_above_the_low() {
    // high's rational path [0] is a strict prefix of low's [0, 0]:
    // the bounds are not in order, the low side still constrains
    let x: Identifier<char> = Identifier::between(None, None, 'x');
    let a = Identifier::between(Some(&x), Some(&x.clone()), 'a');
    let mid = Identifier::between(Some(&a), Some(&x), 'm');
    let expected =
        Identifier::from_path(vec![(rational(0, 1), 'x'), (rational(1, 1), 'm')]).unwrap();
    assert_eq!(mid, expected);
}

#[test]
fn path_round_trip_through_entries() {
    let a = Identifier::from_entry(rational(2, 3), 'a');
    let b = Identifier::between(Some(&a), Some(&a.clone()), 'c');
    let back = Identifier::from_path(b.entries()).unwrap();
    assert_eq!(back, b);
}

#[test]
fn from_path_rejects_invalid_paths() {
    let empty: Option<Identifier<char>> = Identifier::from_path(vec![]);
    assert_eq!(empty, None);
    // a denominator that is not positive is refused
    let bad = BigRational::new_raw(BigInt::from(1), BigInt::from(-2));
    assert_eq!(Identifier::from_path(vec![(bad, 'z')]), None);
}

#[test]
fn into_value_returns_the_last_payload() {
    let a = Identifier::from_entry(rational(4, 7), 'q');
    let b = Identifier::between(Some(&a), None, 'r');
    assert_eq!(b.clone().into_value(), 'r');
    assert_eq!(*b.value(), 'r');
}
