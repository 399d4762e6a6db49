//! A rational number held as a signed numerator and a positive denominator,
//! together with checked arithmetic on such values. Every operation either
//! returns a well-formed rational whose numerator and denominator are stated
//! exactly in its contract, or reports the precise reason it could not.

use vstd::prelude::*;

verus! {

/// The failure outcomes of the library. Every error is a value-level signal;
/// no verified function of this crate panics.
#[derive(Clone, Copy, Debug, PartialEq, Eq, Structural)]
pub enum MathError {
    /// A reduction that seeds its accumulator from the first element was
    /// handed an empty sequence.
    EmptyInput,
    /// A divisor equal to zero was encountered.
    DivideByZero,
    /// The operation is not defined over the rationals for these inputs,
    /// such as a fractional power of a negative base.
    DomainError,
    /// An intermediate value does not fit the machine representation.
    Overflow,
}

/// A rational number `num / den`. Well-formed values keep `den` positive and
/// `num` strictly above `i128::MIN`, so that negation never overflows.
#[derive(Clone, Copy, Debug)]
pub struct Rat {
    pub num: i128,
    pub den: i128,
}

impl Rat {
    pub open spec fn wf(self) -> bool {
        self.den > 0 && self.num > i128::MIN
    }

    /// The value as a pair of unbounded integers (numerator, denominator).
    pub open spec fn v(self) -> (int, int) {
        (self.num as int, self.den as int)
    }

    /// Builds a rational from a signed numerator and a signed, non-zero
    /// denominator, normalising the sign into the numerator. Returns `None`
    /// when the denominator is zero or when the sign normalisation cannot be
    /// represented.
    pub fn new(num: i128, den: i128) -> (r: Option<Rat>)
        ensures
            r is Some <==> den != 0 && num != i128::MIN && den != i128::MIN,
            r matches Some(v) ==> v.wf() && rat_eq(v.v(), (num as int, den as int)),
    {
        if den == 0 || num == i128::MIN || den == i128::MIN {
            None
        } else if den < 0 {
            proof {
                assert((-num as int) * (den as int) == num as int * (-den as int))
                    by (nonlinear_arith);
            }
            Some(Rat { num: -num, den: -den })
        } else {
            Some(Rat { num, den })
        }
    }
}

/// Two integer pairs denote the same rational value: `a.0/a.1 == b.0/b.1`
/// by cross multiplication.
pub open spec fn rat_eq(a: (int, int), b: (int, int)) -> bool {
    a.0 * b.1 == b.0 * a.1
}

/// A final numerator must stay strictly above `i128::MIN` so that well-formed
/// values can always be negated.
pub open spec fn ok_num(x: int) -> bool {
    -(i128::MAX as int) <= x <= i128::MAX as int
}

/// An intermediate product must fit the full signed range.
pub open spec fn in_i128(x: int) -> bool {
    i128::MIN as int <= x <= i128::MAX as int
}

/// A denominator must stay within the positive signed range.
pub open spec fn ok_den(x: int) -> bool {
    0 < x && x <= i128::MAX as int
}

/// The exact sum of two rational values, unreduced.
pub open spec fn add_val(a: (int, int), b: (int, int)) -> (int, int) {
    (a.0 * b.1 + b.0 * a.1, a.1 * b.1)
}

/// The exact difference of two rational values, unreduced.
pub open spec fn sub_val(a: (int, int), b: (int, int)) -> (int, int) {
    (a.0 * b.1 - b.0 * a.1, a.1 * b.1)
}

/// The exact product of two rational values, unreduced.
pub open spec fn mul_val(a: (int, int), b: (int, int)) -> (int, int) {
    (a.0 * b.0, a.1 * b.1)
}

/// The exact quotient of two rational values, unreduced, with the sign
/// normalised into the numerator. Only meaningful when `b.0 != 0`.
pub open spec fn div_val(a: (int, int), b: (int, int)) -> (int, int) {
    if b.0 < 0 {
        (-(a.0 * b.1), a.1 * -b.0)
    } else {
        (a.0 * b.1, a.1 * b.0)
    }
}

/// When the sum of two rationals is representable.
pub open spec fn add_fits(a: (int, int), b: (int, int)) -> bool {
    &&& in_i128(a.0 * b.1)
    &&& in_i128(b.0 * a.1)
    &&& ok_num(a.0 * b.1 + b.0 * a.1)
    &&& ok_den(a.1 * b.1)
}

/// When the difference of two rationals is representable.
pub open spec fn sub_fits(a: (int, int), b: (int, int)) -> bool {
    &&& in_i128(a.0 * b.1)
    &&& in_i128(b.0 * a.1)
    &&& ok_num(a.0 * b.1 - b.0 * a.1)
    &&& ok_den(a.1 * b.1)
}

/// When the product of two rationals is representable.
pub open spec fn mul_fits(a: (int, int), b: (int, int)) -> bool {
    ok_num(a.0 * b.0) && ok_den(a.1 * b.1)
}

/// When the quotient of two rationals is representable. Only meaningful when
/// `b.0 != 0`.
pub open spec fn div_fits(a: (int, int), b: (int, int)) -> bool {
    ok_num(a.0 * b.1) && ok_den(a.1 * (if b.0 < 0 { -b.0 } else { b.0 }))
}

/// Checked addition: the result is exactly `add_val` of the operands, and the
/// operation succeeds exactly when that value is representable.
pub fn rat_add(a: &Rat, b: &Rat) -> (r: Result<Rat, MathError>)
    requires
        a.wf(),
        b.wf(),
    ensures
        r is Ok <==> add_fits(a.v(), b.v()),
        r matches Ok(v) ==> v.wf() && v.v() == add_val(a.v(), b.v()),
        r is Err ==> r == Err::<Rat, MathError>(MathError::Overflow),
{
    let m1 = match a.num.checked_mul(b.den) {
        Some(x) => x,
        None => return Err(MathError::Overflow),
    };
    let m2 = match b.num.checked_mul(a.den) {
        Some(x) => x,
        None => return Err(MathError::Overflow),
    };
    let n = match m1.checked_add(m2) {
        Some(x) => x,
        None => return Err(MathError::Overflow),
    };
    if n == i128::MIN {
        return Err(MathError::Overflow);
    }
    let d = match a.den.checked_mul(b.den) {
        Some(x) => x,
        None => return Err(MathError::Overflow),
    };
    proof {
        assert(a.den as int * b.den as int > 0) by (nonlinear_arith)
            requires a.den > 0 && b.den > 0;
    }
    Ok(Rat { num: n, den: d })
}

/// Checked subtraction: the result is exactly `sub_val` of the operands, and
/// the operation succeeds exactly when that value is representable.
pub fn rat_sub(a: &Rat, b: &Rat) -> (r: Result<Rat, MathError>)
    requires
        a.wf(),
        b.wf(),
    ensures
        r is Ok <==> sub_fits(a.v(), b.v()),
        r matches Ok(v) ==> v.wf() && v.v() == sub_val(a.v(), b.v()),
        r is Err ==> r == Err::<Rat, MathError>(MathError::Overflow),
{
    let m1 = match a.num.checked_mul(b.den) {
        Some(x) => x,
        None => return Err(MathError::Overflow),
    };
    let m2 = match b.num.checked_mul(a.den) {
        Some(x) => x,
        None => return Err(MathError::Overflow),
    };
    let n = match m1.checked_sub(m2) {
        Some(x) => x,
        None => return Err(MathError::Overflow),
    };
    if n == i128::MIN {
        return Err(MathError::Overflow);
    }
    let d = match a.den.checked_mul(b.den) {
        Some(x) => x,
        None => return Err(MathError::Overflow),
    };
    proof {
        assert(a.den as int * b.den as int > 0) by (nonlinear_arith)
            requires a.den > 0 && b.den > 0;
    }
    Ok(Rat { num: n, den: d })
}

/// Checked multiplication: the result is exactly `mul_val` of the operands,
/// and the operation succeeds exactly when that value is representable.
pub fn rat_mul(a: &Rat, b: &Rat) -> (r: Result<Rat, MathError>)
    requires
        a.wf(),
        b.wf(),
    ensures
        r is Ok <==> mul_fits(a.v(), b.v()),
        r matches Ok(v) ==> v.wf() && v.v() == mul_val(a.v(), b.v()),
        r is Err ==> r == Err::<Rat, MathError>(MathError::Overflow),
{
    let n = match a.num.checked_mul(b.num) {
        Some(x) => x,
        None => return Err(MathError::Overflow),
    };
    if n == i128::MIN {
        return Err(MathError::Overflow);
    }
    let d = match a.den.checked_mul(b.den) {
        Some(x) => x,
        None => return Err(MathError::Overflow),
    };
    proof {
        assert(a.den as int * b.den as int > 0) by (nonlinear_arith)
            requires a.den > 0 && b.den > 0;
    }
    Ok(Rat { num: n, den: d })
}

/// Checked division: the result is exactly `div_val` of the operands, the
/// operation reports a zero divisor, and otherwise succeeds exactly when the
/// quotient is representable.
pub fn rat_div(a: &Rat, b: &Rat) -> (r: Result<Rat, MathError>)
    requires
        a.wf(),
        b.wf(),
    ensures
        r is Ok <==> b.num != 0 && div_fits(a.v(), b.v()),
        r matches Ok(v) ==> v.wf() && v.v() == div_val(a.v(), b.v()),
        r == Err::<Rat, MathError>(MathError::DivideByZero) <==> b.num == 0,
        r is Err ==> r == Err::<Rat, MathError>(MathError::DivideByZero)
            || r == Err::<Rat, MathError>(MathError::Overflow),
{
    if b.num == 0 {
        return Err(MathError::DivideByZero);
    }
    let neg = b.num < 0;
    let bmag: i128 = if neg { -b.num } else { b.num };
    let m = match a.num.checked_mul(b.den) {
        Some(x) => x,
        None => return Err(MathError::Overflow),
    };
    if m == i128::MIN {
        return Err(MathError::Overflow);
    }
    let n = if neg { -m } else { m };
    let d = match a.den.checked_mul(bmag) {
        Some(x) => x,
        None => return Err(MathError::Overflow),
    };
    proof {
        assert(a.den as int * bmag as int > 0) by (nonlinear_arith)
            requires a.den > 0 && bmag > 0;
    }
    Ok(Rat { num: n, den: d })
}

} // verus!
