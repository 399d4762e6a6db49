//! The four reduction functions over sequences of rationals: sum, product,
//! left-fold subtraction seeded from the first element, and left-fold
//! division seeded from the first element with zero-divisor detection.
//! Each function's result is pinned to a recursive specification of the
//! exact fold it performs.

use vstd::prelude::*;

use crate::rat::MathError;
use crate::rat::Rat;
use crate::rat::add_fits;
use crate::rat::add_val;
use crate::rat::div_fits;
use crate::rat::div_val;
use crate::rat::mul_fits;
use crate::rat::mul_val;
use crate::rat::rat_add;
use crate::rat::rat_div;
use crate::rat::rat_mul;
use crate::rat::rat_sub;
use crate::rat::sub_fits;
use crate::rat::sub_val;

verus! {

/// The sequence of exact values behind a sequence of rationals.
pub open spec fn vals(s: Seq<Rat>) -> Seq<(int, int)> {
    Seq::new(s.len(), |i: int| s[i].v())
}

/// Every element is a well-formed rational.
pub open spec fn all_wf(s: Seq<Rat>) -> bool {
    forall|i: int| 0 <= i < s.len() ==> s[i].wf()
}

/// The exact sum of a sequence of rational values, folded left to right from
/// the identity `0/1`.
pub open spec fn sum_v(s: Seq<(int, int)>) -> (int, int)
    decreases s.len(),
{
    if s.len() == 0 {
        (0int, 1int)
    } else {
        add_val(sum_v(s.drop_last()), s.last())
    }
}

/// Whether every intermediate value of the sum fold is representable.
pub open spec fn sum_ok(s: Seq<(int, int)>) -> bool
    decreases s.len(),
{
    if s.len() == 0 {
        true
    } else {
        sum_ok(s.drop_last()) && add_fits(sum_v(s.drop_last()), s.last())
    }
}

/// The exact product of a sequence of rational values, folded left to right
/// from the identity `1/1`.
pub open spec fn prod_v(s: Seq<(int, int)>) -> (int, int)
    decreases s.len(),
{
    if s.len() == 0 {
        (1int, 1int)
    } else {
        mul_val(prod_v(s.drop_last()), s.last())
    }
}

/// Whether every intermediate value of the product fold is representable.
pub open spec fn prod_ok(s: Seq<(int, int)>) -> bool
    decreases s.len(),
{
    if s.len() == 0 {
        true
    } else {
        prod_ok(s.drop_last()) && mul_fits(prod_v(s.drop_last()), s.last())
    }
}

/// The exact left fold of subtraction over a non-empty sequence: the first
/// element minus every later element in order.
pub open spec fn sub_all(s: Seq<(int, int)>) -> (int, int)
    decreases s.len(),
{
    if s.len() <= 1 {
        s[0]
    } else {
        sub_val(sub_all(s.drop_last()), s.last())
    }
}

/// Whether every intermediate value of the subtraction fold is representable.
pub open spec fn sub_ok(s: Seq<(int, int)>) -> bool
    decreases s.len(),
{
    if s.len() <= 1 {
        true
    } else {
        sub_ok(s.drop_last()) && sub_fits(sub_all(s.drop_last()), s.last())
    }
}

/// The exact outcome of the division fold: the first element divided by
/// every later element in order, stopping at the first zero divisor or
/// unrepresentable intermediate.
pub open spec fn div_spec(s: Seq<(int, int)>) -> Result<(int, int), MathError>
    decreases s.len(),
{
    if s.len() == 0 {
        Err(MathError::EmptyInput)
    } else if s.len() == 1 {
        Ok(s[0])
    } else {
        match div_spec(s.drop_last()) {
            Err(e) => Err(e),
            Ok(acc) => if s.last().0 == 0 {
                Err(MathError::DivideByZero)
            } else if !div_fits(acc, s.last()) {
                Err(MathError::Overflow)
            } else {
                Ok(div_val(acc, s.last()))
            },
        }
    }
}

/// A representable sum fold stays representable on every prefix.
proof fn lemma_sum_ok_take(s: Seq<(int, int)>, j: int)
    requires
        0 <= j <= s.len(),
        sum_ok(s),
    ensures
        sum_ok(s.take(j)),
    decreases s.len(),
{
    if j < s.len() {
        lemma_sum_ok_take(s.drop_last(), j);
        assert(s.drop_last().take(j) =~= s.take(j));
    } else {
        assert(s.take(j) =~= s);
    }
}

/// A representable product fold stays representable on every prefix.
proof fn lemma_prod_ok_take(s: Seq<(int, int)>, j: int)
    requires
        0 <= j <= s.len(),
        prod_ok(s),
    ensures
        prod_ok(s.take(j)),
    decreases s.len(),
{
    if j < s.len() {
        lemma_prod_ok_take(s.drop_last(), j);
        assert(s.drop_last().take(j) =~= s.take(j));
    } else {
        assert(s.take(j) =~= s);
    }
}

/// A representable subtraction fold stays representable on every prefix.
proof fn lemma_sub_ok_take(s: Seq<(int, int)>, j: int)
    requires
        1 <= j <= s.len(),
        sub_ok(s),
    ensures
        sub_ok(s.take(j)),
    decreases s.len(),
{
    if j < s.len() {
        lemma_sub_ok_take(s.drop_last(), j);
        assert(s.drop_last().take(j) =~= s.take(j));
    } else {
        assert(s.take(j) =~= s);
    }
}

/// Once the division fold has failed on a prefix, the whole fold reports the
/// same error.
proof fn lemma_div_spec_err_persists(s: Seq<(int, int)>, j: int)
    requires
        1 <= j <= s.len(),
        div_spec(s.take(j)) is Err,
    ensures
        div_spec(s) == div_spec(s.take(j)),
    decreases s.len(),
{
    if j == s.len() {
        assert(s.take(j) =~= s);
    } else {
        assert(s.drop_last().take(j) =~= s.take(j));
        lemma_div_spec_err_persists(s.drop_last(), j);
    }
}

/// The arithmetic sum of the elements, in sequence order. An empty sequence
/// yields the identity `0/1`. Succeeds exactly when every intermediate value
/// is representable.
pub fn add(numbers: &Vec<Rat>) -> (r: Result<Rat, MathError>)
    requires
        all_wf(numbers@),
    ensures
        r is Ok <==> sum_ok(vals(numbers@)),
        r matches Ok(v) ==> v.wf() && v.v() == sum_v(vals(numbers@)),
        r is Err ==> r == Err::<Rat, MathError>(MathError::Overflow),
{
    let mut acc = Rat { num: 0, den: 1 };
    let mut i: usize = 0;
    while i < numbers.len()
        invariant
            0 <= i <= numbers@.len(),
            all_wf(numbers@),
            acc.wf(),
            acc.v() == sum_v(vals(numbers@).take(i as int)),
            sum_ok(vals(numbers@).take(i as int)),
        decreases numbers@.len() - i,
    {
        proof {
            assert(vals(numbers@).take(i + 1).drop_last() =~= vals(numbers@).take(i as int));
        }
        match rat_add(&acc, &numbers[i]) {
            Ok(v) => {
                acc = v;
            },
            Err(e) => {
                proof {
                    if sum_ok(vals(numbers@)) {
                        lemma_sum_ok_take(vals(numbers@), i + 1);
                    }
                }
                return Err(e);
            },
        }
        i += 1;
    }
    proof {
        assert(vals(numbers@).take(numbers@.len() as int) =~= vals(numbers@));
    }
    Ok(acc)
}

/// The arithmetic product of the elements, in sequence order. An empty
/// sequence yields the identity `1/1`. Succeeds exactly when every
/// intermediate value is representable.
pub fn multiply(numbers: &Vec<Rat>) -> (r: Result<Rat, MathError>)
    requires
        all_wf(numbers@),
    ensures
        r is Ok <==> prod_ok(vals(numbers@)),
        r matches Ok(v) ==> v.wf() && v.v() == prod_v(vals(numbers@)),
        r is Err ==> r == Err::<Rat, MathError>(MathError::Overflow),
{
    let mut acc = Rat { num: 1, den: 1 };
    let mut i: usize = 0;
    while i < numbers.len()
        invariant
            0 <= i <= numbers@.len(),
            all_wf(numbers@),
            acc.wf(),
            acc.v() == prod_v(vals(numbers@).take(i as int)),
            prod_ok(vals(numbers@).take(i as int)),
        decreases numbers@.len() - i,
    {
        proof {
            assert(vals(numbers@).take(i + 1).drop_last() =~= vals(numbers@).take(i as int));
        }
        match rat_mul(&acc, &numbers[i]) {
            Ok(v) => {
                acc = v;
            },
            Err(e) => {
                proof {
                    if prod_ok(vals(numbers@)) {
                        lemma_prod_ok_take(vals(numbers@), i + 1);
                    }
                }
                return Err(e);
            },
        }
        i += 1;
    }
    proof {
        assert(vals(numbers@).take(numbers@.len() as int) =~= vals(numbers@));
    }
    Ok(acc)
}

/// The first element minus every later element, applied left to right. An
/// empty sequence is rejected. Succeeds exactly when the sequence is
/// non-empty and every intermediate value is representable.
pub fn subtract(numbers: &Vec<Rat>) -> (r: Result<Rat, MathError>)
    requires
        all_wf(numbers@),
    ensures
        r == Err::<Rat, MathError>(MathError::EmptyInput) <==> numbers@.len() == 0,
        r is Ok <==> numbers@.len() >= 1 && sub_ok(vals(numbers@)),
        r matches Ok(v) ==> v.wf() && v.v() == sub_all(vals(numbers@)),
        r is Err ==> r == Err::<Rat, MathError>(MathError::EmptyInput)
            || r == Err::<Rat, MathError>(MathError::Overflow),
{
    if numbers.len() == 0 {
        return Err(MathError::EmptyInput);
    }
    let mut acc = Rat { num: numbers[0].num, den: numbers[0].den };
    let mut i: usize = 1;
    while i < numbers.len()
        invariant
            1 <= i <= numbers@.len(),
            all_wf(numbers@),
            acc.wf(),
            acc.v() == sub_all(vals(numbers@).take(i as int)),
            sub_ok(vals(numbers@).take(i as int)),
        decreases numbers@.len() - i,
    {
        proof {
            assert(vals(numbers@).take(i + 1).drop_last() =~= vals(numbers@).take(i as int));
        }
        match rat_sub(&acc, &numbers[i]) {
            Ok(v) => {
                acc = v;
            },
            Err(e) => {
                proof {
                    if sub_ok(vals(numbers@)) {
                        lemma_sub_ok_take(vals(numbers@), i + 1);
                    }
                }
                return Err(e);
            },
        }
        i += 1;
    }
    proof {
        assert(vals(numbers@).take(numbers@.len() as int) =~= vals(numbers@));
    }
    Ok(acc)
}

/// The first element divided by every later element, applied left to right.
/// An empty sequence is rejected; a zero divisor is reported as an explicit
/// absent result rather than producing an undefined value; an
/// unrepresentable intermediate is reported as overflow. On success the
/// result is a well-formed rational: its denominator is positive, so the
/// outcome is always either a representable exact value or an explicit
/// error.
pub fn divide(numbers: &Vec<Rat>) -> (r: Result<Rat, MathError>)
    requires
        all_wf(numbers@),
    ensures
        r is Ok <==> div_spec(vals(numbers@)) is Ok,
        r matches Ok(v) ==> v.wf() && div_spec(vals(numbers@)) == Ok::<(int, int), MathError>(v.v()),
        r matches Err(e) ==> div_spec(vals(numbers@)) == Err::<(int, int), MathError>(e),
{
    if numbers.len() == 0 {
        return Err(MathError::EmptyInput);
    }
    let mut acc = Rat { num: numbers[0].num, den: numbers[0].den };
    let mut i: usize = 1;
    while i < numbers.len()
        invariant
            1 <= i <= numbers@.len(),
            all_wf(numbers@),
            acc.wf(),
            div_spec(vals(numbers@).take(i as int)) == Ok::<(int, int), MathError>(acc.v()),
        decreases numbers@.len() - i,
    {
        proof {
            assert(vals(numbers@).take(i + 1).drop_last() =~= vals(numbers@).take(i as int));
        }
        match rat_div(&acc, &numbers[i]) {
            Ok(v) => {
                acc = v;
            },
            Err(e) => {
                proof {
                    lemma_div_spec_err_persists(vals(numbers@), i + 1);
                }
                return Err(e);
            },
        }
        i += 1;
    }
    proof {
        assert(vals(numbers@).take(numbers@.len() as int) =~= vals(numbers@));
    }
    Ok(acc)
}

} // verus!
