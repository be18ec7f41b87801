//! Tests of the dyadic scalar type.

use ncube::dyadic::Dyadic;

#[test]
fn new_rejects_exponents_beyond_the_limit() {
    assert!(Dyadic::new(1, 61).is_none());
    assert!(Dyadic::new(1, 60).is_some());
}

#[test]
fn value_comparisons_cross_representations() {
    let a = Dyadic::new(1, 1).unwrap();
    let b = Dyadic::new(2, 2).unwrap();
    assert!(a.value_eq(&b));
    assert!(a.value_le(&b));
    assert!(!a.value_lt(&b));
    let c = Dyadic::new(3, 2).unwrap();
    assert!(a.value_lt(&c));
    assert!(!c.value_le(&a));
}

#[test]
fn from_int_orders_as_integers() {
    let five = Dyadic::from_int(5);
    let neg = Dyadic::from_int(-7);
    assert!(neg.value_lt(&five));
    assert!(five.value_eq(&Dyadic::new(5, 0).unwrap()));
}

#[test]
fn checked_add_is_exact() {
    let half = Dyadic::new(1, 1).unwrap();
    let quarter = Dyadic::new(1, 2).unwrap();
    let sum = half.checked_add(&quarter).unwrap();
    assert!(sum.value_eq(&Dyadic::new(3, 2).unwrap()));
    let z = Dyadic::from_int(5).checked_add(&Dyadic::from_int(-3)).unwrap();
    assert!(z.value_eq(&Dyadic::from_int(2)));
}

#[test]
fn checked_add_reports_overflow() {
    let big = Dyadic::from_int(i64::MAX);
    assert!(big.checked_add(&big).is_none());
    let fine = Dyadic::from_int(i64::MAX / 2);
    assert!(fine.checked_add(&fine).is_some());
}

#[test]
fn scaled_is_the_value_in_smallest_units() {
    // 1/2 scaled by 2^60 is 2^59.
    let half = Dyadic::new(1, 1).unwrap();
    assert_eq!(half.scaled(), 1i128 << 59);
    assert_eq!(Dyadic::from_int(-3).scaled(), -3 * (1i128 << 60));
}
