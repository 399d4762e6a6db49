use fastmathpy::MathError;
use fastmathpy::Rat;
use fastmathpy::multiply;
use fastmathpy::pow;

fn rq(n: i128, d: i128) -> Rat {
    Rat::new(n, d).unwrap()
}

fn as_f64(r: &Rat) -> f64 {
    r.num as f64 / r.den as f64
}

#[test]
fn pow_two_to_ten_is_exact() {
    let r = pow(&rq(2, 1), &rq(10, 1)).unwrap();
    assert_eq!((r.num, r.den), (1024, 1));
}

#[test]
fn pow_zero_exponent_is_one() {
    let r = pow(&rq(2, 1), &rq(0, 1)).unwrap();
    assert_eq!((r.num, r.den), (1, 1));
}

#[test]
fn pow_square_root_of_four() {
    let r = pow(&rq(4, 1), &rq(1, 2)).unwrap();
    assert!((as_f64(&r) - 2.0).abs() < 1e-4);
}

#[test]
fn pow_cube_root_of_eight() {
    let r = pow(&rq(8, 1), &rq(1, 3)).unwrap();
    assert!((as_f64(&r) - 2.0).abs() < 1e-3);
}

#[test]
fn pow_square_root_of_two() {
    let r = pow(&rq(2, 1), &rq(1, 2)).unwrap();
    assert!((as_f64(&r) - 1.4142135).abs() < 1e-4);
    // The root is the exact floor of the scaled square root.
    assert_eq!((r.num, r.den), (141421, 100000));
}

#[test]
fn pow_mixed_exponent() {
    // 4^(3/2) = 8: integer part 4^1, fractional part sqrt(4).
    let r = pow(&rq(4, 1), &rq(3, 2)).unwrap();
    assert!((as_f64(&r) - 8.0).abs() < 1e-3);
}

#[test]
fn pow_matches_repeated_multiplication() {
    let b = rq(3, 2);
    let p = pow(&b, &rq(5, 1)).unwrap();
    let m = multiply(&vec![rq(3, 2), rq(3, 2), rq(3, 2), rq(3, 2), rq(3, 2)]).unwrap();
    assert_eq!(p.num * m.den, m.num * p.den);
    assert_eq!((p.num, p.den), (243, 32));
}

#[test]
fn pow_negative_exponent_takes_reciprocal() {
    let r = pow(&rq(2, 1), &rq(-2, 1)).unwrap();
    assert_eq!((r.num, r.den), (1, 4));
}

#[test]
fn pow_negative_base_integer_exponent() {
    let r = pow(&rq(-2, 1), &rq(3, 1)).unwrap();
    assert_eq!((r.num, r.den), (-8, 1));
}

#[test]
fn pow_negative_base_fractional_exponent_is_domain_error() {
    let r = pow(&rq(-4, 1), &rq(1, 2));
    assert_eq!(r.unwrap_err(), MathError::DomainError);
}

#[test]
fn pow_zero_base_negative_exponent_is_division_by_zero() {
    let r = pow(&rq(0, 1), &rq(-1, 1));
    assert_eq!(r.unwrap_err(), MathError::DivideByZero);
}

#[test]
fn pow_zero_base_fractional_exponent_is_zero() {
    let r = pow(&rq(0, 1), &rq(1, 2)).unwrap();
    assert_eq!((r.num, r.den), (0, 1));
}

#[test]
fn pow_overflow_reported() {
    // The scale raised to so fine a root degree does not fit the machine
    // word, and the failure is reported rather than mis-computed.
    let r = pow(&rq(2, 1), &rq(1, 1000000));
    assert_eq!(r.unwrap_err(), MathError::Overflow);
    let s = pow(&rq(10, 1), &rq(60, 1));
    assert_eq!(s.unwrap_err(), MathError::Overflow);
}

#[test]
fn pow_negative_fractional_exponent() {
    // 4^(-1/2) = 1/2: floor is -1, remainder 1/2, so 4^(-1) * sqrt(4).
    let r = pow(&rq(4, 1), &rq(-1, 2)).unwrap();
    assert!((as_f64(&r) - 0.5).abs() < 1e-4);
}
