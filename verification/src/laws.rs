//! General laws of the library, stated over the same specifications that
//! the executable functions are proved against, and proved once for all
//! inputs.

use vstd::prelude::*;

use vstd::arithmetic::power::lemma_pow0;
use vstd::arithmetic::power::pow as powi;

use crate::pow::ipow_pair;
use crate::pow::pow_spec;
use crate::rat::add_val;
use crate::reduce::div_spec;
use crate::reduce::prod_v;
use crate::reduce::sum_v;

verus! {

/// Addition of rationals is commutative: the exact sum of two values is the
/// same in either order.
pub proof fn lemma_add_commutative(a: (int, int), b: (int, int))
    ensures
        add_val(a, b) == add_val(b, a),
{
    assert(a.0 * b.1 + b.0 * a.1 == b.0 * a.1 + a.0 * b.1);
    assert(a.1 * b.1 == b.1 * a.1) by (nonlinear_arith);
}

/// Addition of rationals is associative: the exact sum of three values does
/// not depend on the grouping.
#[verifier::rlimit(50)]
pub proof fn lemma_add_associative(a: (int, int), b: (int, int), c: (int, int))
    ensures
        add_val(add_val(a, b), c) == add_val(a, add_val(b, c)),
{
    assert((a.0 * b.1 + b.0 * a.1) * c.1 == a.0 * (b.1 * c.1) + (b.0 * c.1) * a.1)
        by (nonlinear_arith);
    assert(c.0 * (a.1 * b.1) == (c.0 * b.1) * a.1) by (nonlinear_arith);
    assert((b.0 * c.1) * a.1 + (c.0 * b.1) * a.1 == (b.0 * c.1 + c.0 * b.1) * a.1)
        by (nonlinear_arith);
    assert((a.1 * b.1) * c.1 == a.1 * (b.1 * c.1)) by (nonlinear_arith);
}

/// The sum of a single value is that value, exactly.
pub proof fn lemma_sum_singleton(a: (int, int))
    ensures
        sum_v(seq![a]) == a,
{
    assert(seq![a].drop_last() =~= Seq::<(int, int)>::empty());
    assert(sum_v(Seq::<(int, int)>::empty()) == (0int, 1int));
    assert(sum_v(seq![a]) == add_val((0int, 1int), a));
    assert(a.0 * 1 + 0 * a.1 == a.0) by (nonlinear_arith);
    assert(1 * a.1 == a.1) by (nonlinear_arith);
}

/// The sum fold does not depend on the order of the last two elements,
/// whatever came before them: swapping neighbours anywhere in the sequence
/// leaves the exact sum unchanged.
pub proof fn lemma_sum_swap(s: Seq<(int, int)>, a: (int, int), b: (int, int))
    ensures
        sum_v(s.push(a).push(b)) == sum_v(s.push(b).push(a)),
{
    let z = sum_v(s);
    assert(s.push(a).push(b).drop_last() =~= s.push(a));
    assert(s.push(a).drop_last() =~= s);
    assert(s.push(b).push(a).drop_last() =~= s.push(b));
    assert(s.push(b).drop_last() =~= s);
    assert(sum_v(s.push(a)) == add_val(z, a));
    assert(sum_v(s.push(b)) == add_val(z, b));
    assert(sum_v(s.push(a).push(b)) == add_val(add_val(z, a), b));
    assert(sum_v(s.push(b).push(a)) == add_val(add_val(z, b), a));
    lemma_add_associative(z, a, b);
    lemma_add_associative(z, b, a);
    lemma_add_commutative(a, b);
}

/// A power with a non-negative integer exponent is exactly the repeated
/// product of the base with itself: `prod_v` of `n` copies of the value is
/// the pair of `n`-th powers that the power function returns.
pub proof fn lemma_prod_repeat(b: (int, int), n: nat)
    ensures
        prod_v(Seq::new(n, |i: int| b)) == ipow_pair(b, n),
    decreases n,
{
    let s = Seq::new(n, |i: int| b);
    if n == 0 {
        lemma_pow0(b.0);
        lemma_pow0(b.1);
    } else {
        lemma_prod_repeat(b, (n - 1) as nat);
        assert(s.drop_last() =~= Seq::new((n - 1) as nat, |i: int| b));
        assert(powi(b.0, n) == b.0 * powi(b.0, (n - 1) as nat)) by {
            reveal(powi);
        }
        assert(powi(b.1, n) == b.1 * powi(b.1, (n - 1) as nat)) by {
            reveal(powi);
        }
        assert(powi(b.0, (n - 1) as nat) * b.0 == b.0 * powi(b.0, (n - 1) as nat))
            by (nonlinear_arith);
        assert(powi(b.1, (n - 1) as nat) * b.1 == b.1 * powi(b.1, (n - 1) as nat))
            by (nonlinear_arith);
    }
}

/// Division of well-formed values never produces an undefined outcome: the
/// fold yields either an exact rational with a positive denominator or an
/// explicit error signal, for every input sequence.
pub proof fn lemma_divide_defined_or_absent(s: Seq<(int, int)>)
    requires
        forall|i: int| 0 <= i < s.len() ==> #[trigger] s[i].1 > 0,
    ensures
        div_spec(s) matches Ok(v) ==> v.1 > 0,
    decreases s.len(),
{
    if s.len() > 1 {
        assert(forall|i: int| 0 <= i < s.drop_last().len() ==> #[trigger] s.drop_last()[i].1 > 0);
        lemma_divide_defined_or_absent(s.drop_last());
    }
}

/// The round trip between the two ways of raising to a whole power: when
/// `pow` succeeds on the exponent `n/1`, its result is exactly the product
/// fold of `n` copies of the base.
pub proof fn lemma_pow_is_repeated_multiplication(bv: (int, int), n: nat, rv: (int, int))
    requires
        pow_spec(bv, (n as int, 1int)) == Ok::<(int, int), crate::rat::MathError>(rv),
    ensures
        rv == prod_v(Seq::new(n, |i: int| bv)),
{
    vstd::arithmetic::div_mod::lemma_fundamental_div_mod_converse_div(n as int, 1, n as int, 0);
    vstd::arithmetic::div_mod::lemma_fundamental_div_mod_converse_mod(n as int, 1, n as int, 0);
    lemma_prod_repeat(bv, n);
}

} // verus!
