use fastmathpy::MathError;
use fastmathpy::Rat;
use fastmathpy::add;
use fastmathpy::divide;
use fastmathpy::multiply;
use fastmathpy::subtract;

fn rq(n: i128, d: i128) -> Rat {
    Rat::new(n, d).unwrap()
}

fn assert_value(r: &Rat, n: i128, d: i128) {
    assert!(r.den > 0);
    assert_eq!(r.num * d, n * r.den);
}

#[test]
fn add_empty_is_zero() {
    let r = add(&vec![]).unwrap();
    assert_value(&r, 0, 1);
}

#[test]
fn add_singleton_is_identity() {
    let r = add(&vec![rq(7, 2)]).unwrap();
    assert_value(&r, 7, 2);
}

#[test]
fn add_two_orders_match() {
    let a = add(&vec![rq(1, 3), rq(5, 7)]).unwrap();
    let b = add(&vec![rq(5, 7), rq(1, 3)]).unwrap();
    assert_eq!(a.num * b.den, b.num * a.den);
    assert_value(&a, 22, 21);
}

#[test]
fn add_groupings_match() {
    let halves = add(&vec![rq(1, 2), rq(1, 3)]).unwrap();
    let left = add(&vec![halves, rq(1, 6)]).unwrap();
    let tail = add(&vec![rq(1, 3), rq(1, 6)]).unwrap();
    let right = add(&vec![rq(1, 2), tail]).unwrap();
    assert_eq!(left.num * right.den, right.num * left.den);
    assert_value(&left, 1, 1);
}

#[test]
fn add_overflow_reported() {
    let r = add(&vec![rq(i128::MAX, 1), rq(1, 1)]);
    assert_eq!(r.unwrap_err(), MathError::Overflow);
}

#[test]
fn multiply_empty_is_one() {
    let r = multiply(&vec![]).unwrap();
    assert_value(&r, 1, 1);
}

#[test]
fn multiply_two_three_four() {
    let r = multiply(&vec![rq(2, 1), rq(3, 1), rq(4, 1)]).unwrap();
    assert_value(&r, 24, 1);
}

#[test]
fn multiply_overflow_reported() {
    let r = multiply(&vec![rq(i128::MAX, 1), rq(2, 1)]);
    assert_eq!(r.unwrap_err(), MathError::Overflow);
}

#[test]
fn subtract_left_fold() {
    let r = subtract(&vec![rq(10, 1), rq(2, 1), rq(3, 1)]).unwrap();
    assert_value(&r, 5, 1);
}

#[test]
fn subtract_singleton() {
    let r = subtract(&vec![rq(5, 1)]).unwrap();
    assert_value(&r, 5, 1);
}

#[test]
fn subtract_overflow_reported() {
    let r = subtract(&vec![rq(-i128::MAX, 1), rq(1, 1)]);
    assert_eq!(r.unwrap_err(), MathError::Overflow);
}

#[test]
fn subtract_empty_rejected() {
    let r = subtract(&vec![]);
    assert_eq!(r.unwrap_err(), MathError::EmptyInput);
}

#[test]
fn divide_left_fold() {
    let r = divide(&vec![rq(100, 1), rq(2, 1), rq(5, 1)]).unwrap();
    assert_value(&r, 10, 1);
}

#[test]
fn divide_zero_divisor_absent() {
    let r = divide(&vec![rq(10, 1), rq(0, 1), rq(5, 1)]);
    assert_eq!(r.unwrap_err(), MathError::DivideByZero);
}

#[test]
fn divide_two() {
    let r = divide(&vec![rq(8, 1), rq(2, 1)]).unwrap();
    assert_value(&r, 4, 1);
}

#[test]
fn divide_empty_rejected() {
    let r = divide(&vec![]);
    assert_eq!(r.unwrap_err(), MathError::EmptyInput);
}

#[test]
fn divide_result_well_formed() {
    // A negative divisor keeps the denominator positive: the sign moves to
    // the numerator, so every successful quotient is a well-formed value.
    let r = divide(&vec![rq(3, 1), rq(-2, 1)]).unwrap();
    assert!(r.den > 0);
    assert_value(&r, -3, 2);
    let s = divide(&vec![rq(-9, 2), rq(3, 4)]).unwrap();
    assert!(s.den > 0);
    assert_value(&s, -6, 1);
}

#[test]
fn rational_constructor_normalises_sign() {
    let r = Rat::new(1, -2).unwrap();
    assert_eq!((r.num, r.den), (-1, 2));
    assert!(Rat::new(1, 0).is_none());
}
