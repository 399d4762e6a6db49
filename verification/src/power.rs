//! The power function and its verified building blocks: binary
//! exponentiation over machine integers, a Newton iteration in floor
//! arithmetic for integer n-th roots, and the assembly of both into
//! exponentiation of a rational base by a rational exponent. The fractional
//! part of the exponent is handled as the q-th root of the p-th power of the
//! base, evaluated at a fixed decimal scale.

use vstd::prelude::*;

use vstd::arithmetic::div_mod::lemma_div_is_ordered;
use vstd::arithmetic::div_mod::lemma_div_multiples_vanish;
use vstd::arithmetic::div_mod::lemma_fundamental_div_mod;
use vstd::arithmetic::div_mod::lemma_fundamental_div_mod_converse_div;
use vstd::arithmetic::power::lemma0_pow;
use vstd::arithmetic::power::lemma1_pow;
use vstd::arithmetic::power::lemma_pow0;
use vstd::arithmetic::power::lemma_pow1;
use vstd::arithmetic::power::lemma_pow_increases;
use vstd::arithmetic::power::lemma_pow_multiplies;
use vstd::arithmetic::power::lemma_pow_positive;
use vstd::arithmetic::power::pow;

verus! {

/// Raising to a power preserves the order of non-negative bases.
pub proof fn lemma_pow_base_le(a: int, b: int, e: nat)
    requires
        0 <= a <= b,
    ensures
        0 <= pow(a, e) <= pow(b, e),
    decreases e,
{
    reveal(pow);
    if e == 0 {
    } else {
        lemma_pow_base_le(a, b, (e - 1) as nat);
        assert(a * pow(a, (e - 1) as nat) <= b * pow(b, (e - 1) as nat)) by (nonlinear_arith)
            requires
                0 <= a <= b,
                0 <= pow(a, (e - 1) as nat) <= pow(b, (e - 1) as nat),
        ;
        assert(0 <= a * pow(a, (e - 1) as nat)) by (nonlinear_arith)
            requires
                0 <= a,
                0 <= pow(a, (e - 1) as nat),
        ;
    }
}

/// The weighted arithmetic-geometric mean inequality in the form the Newton
/// step needs: `(q-1)*a^q + b^q >= q * a^(q-1) * b` for non-negative `a`,
/// `b`.
pub proof fn lemma_weighted_power_mean(a: int, b: int, q: nat)
    requires
        0 <= a,
        0 <= b,
        1 <= q,
    ensures
        (q - 1) * pow(a, q) + pow(b, q) >= q * pow(a, (q - 1) as nat) * b,
    decreases q,
{
    reveal(pow);
    if q == 1 {
        assert(pow(a, 0) == 1);
        assert(pow(b, 0) == 1);
        assert(pow(b, 1) == b * pow(b, 0));
        assert((q - 1) * pow(a, q) + pow(b, q) >= q * pow(a, (q - 1) as nat) * b)
            by (nonlinear_arith)
            requires
                q == 1nat,
                pow(a, (q - 1) as nat) == 1,
                pow(b, q) == b,
        ;
    } else {
        let k = (q - 1) as nat;
        lemma_weighted_power_mean(a, b, k);
        lemma_pow_base_le(if a <= b { a } else { b }, if a <= b { b } else { a }, k);
        let pa = pow(a, q);
        let pa1 = pow(a, k);
        let pa2 = pow(a, (k - 1) as nat);
        let pb = pow(b, q);
        let pb1 = pow(b, k);
        assert(pa == a * pa1);
        assert(pa1 == a * pa2);
        assert(pb == b * pb1);
        // The induction hypothesis, scaled by `a`, plus the ordering of the
        // two powers closes the step.
        assert((a - b) * (pa1 - pb1) >= 0) by (nonlinear_arith)
            requires
                (a <= b ==> pa1 <= pb1) && (b <= a ==> pb1 <= pa1),
        ;
        assert((q - 1) * pa + pb >= q * pa1 * b) by (nonlinear_arith)
            requires
                0 <= a,
                (k - 1) * pa1 + pb1 >= k * pa2 * b,
                (a - b) * (pa1 - pb1) >= 0,
                pa == a * pa1,
                pa1 == a * pa2,
                pb == b * pb1,
                q == k + 1,
        ;
    }
}

/// A power of a negated base is the power of the base, with the sign given
/// by the parity of the exponent.
pub proof fn lemma_pow_neg_base(m: int, e: nat)
    requires
        0 <= m,
    ensures
        pow(-m, e) == if e % 2 == 0 {
            pow(m, e)
        } else {
            -pow(m, e)
        },
    decreases e,
{
    reveal(pow);
    if e == 0 {
    } else {
        let k = (e - 1) as nat;
        lemma_pow_neg_base(m, k);
        assert(pow(-m, e) == (-m) * pow(-m, k));
        assert(pow(m, e) == m * pow(m, k));
        if e % 2 == 0 {
            assert(k % 2 == 1);
            assert((-m) * (-pow(m, k)) == m * pow(m, k)) by (nonlinear_arith);
        } else {
            assert(k % 2 == 0);
            assert((-m) * pow(m, k) == -(m * pow(m, k))) by (nonlinear_arith);
        }
    }
}

/// The Newton update, computed in floor arithmetic, never falls below any
/// `r >= 0` whose `q`-th power is at most `n`.
pub proof fn lemma_newton_above_root(n: int, q: nat, x: int, r: int)
    requires
        2 <= q,
        1 <= x,
        0 <= r,
        0 <= n,
        pow(r, q) <= n,
    ensures
        ((q - 1) * x + n / pow(x, (q - 1) as nat)) / (q as int) >= r,
{
    let k = (q - 1) as nat;
    let pq1 = pow(x, k);
    lemma_pow_positive(x, k);
    lemma_weighted_power_mean(x, r, q);
    assert(pow(x, q) == x * pq1) by {
        reveal(pow);
    }
    let d = n / pq1;
    lemma_fundamental_div_mod(n, pq1);
    let rem = n % pq1;
    assert(0 <= rem < pq1);
    assert(pq1 * ((q - 1) * x + d) >= pq1 * (q * r) - rem) by (nonlinear_arith)
        requires
            (q - 1) * (x * pq1) + pow(r, q) >= q * pq1 * r,
            n >= pow(r, q),
            n == pq1 * d + rem,
            0 <= rem,
    ;
    assert((q - 1) * x + d >= q * r) by (nonlinear_arith)
        requires
            pq1 * ((q - 1) * x + d) >= pq1 * (q * r) - rem,
            0 <= rem < pq1,
            0 < pq1,
    ;
    lemma_div_is_ordered(q * r, (q - 1) * x + d, q as int);
    lemma_div_multiples_vanish(r, q as int);
}

/// While the `q`-th power of `x` still exceeds `n`, the floor Newton update
/// is strictly below `x`.
pub proof fn lemma_newton_step_shrinks(n: int, q: nat, x: int)
    requires
        2 <= q,
        1 <= x,
        0 <= n,
        pow(x, q) > n,
    ensures
        n / pow(x, (q - 1) as nat) <= x - 1,
        ((q - 1) * x + n / pow(x, (q - 1) as nat)) / (q as int) <= x - 1,
{
    let k = (q - 1) as nat;
    let pq1 = pow(x, k);
    lemma_pow_positive(x, k);
    assert(pow(x, q) == x * pq1) by {
        reveal(pow);
    }
    let d = n / pq1;
    // n <= x * pq1 - 1, and (x * pq1 - 1) / pq1 == x - 1.
    assert(x * pq1 - 1 == (x - 1) * pq1 + (pq1 - 1)) by (nonlinear_arith);
    lemma_fundamental_div_mod_converse_div(x * pq1 - 1, pq1, x - 1, pq1 - 1);
    lemma_div_is_ordered(n, x * pq1 - 1, pq1);
    assert(d <= x - 1);
    // (q - 1) * x + d <= q * x - 1, and (q * x - 1) / q == x - 1.
    assert(q * x - 1 == (x - 1) * (q as int) + (q - 1)) by (nonlinear_arith);
    assert((q - 1) * x + d <= q * x - 1) by (nonlinear_arith)
        requires
            d <= x - 1,
    ;
    lemma_fundamental_div_mod_converse_div(q * x - 1, q as int, x - 1, q - 1);
    lemma_div_is_ordered((q - 1) * x + d, q * x - 1, q as int);
}

/// Binary exponentiation of `x` to the `k`, reporting `None` exactly when
/// the power does not fit the machine word.
pub fn pow_u128(x: u128, k: u128) -> (r: Option<u128>)
    ensures
        r matches Some(v) ==> v as int == pow(x as int, k as nat),
        r is None ==> pow(x as int, k as nat) > u128::MAX as int,
{
    if x == 0 {
        if k == 0 {
            proof {
                lemma_pow0(0);
            }
            return Some(1);
        }
        proof {
            lemma0_pow(k as nat);
        }
        return Some(0);
    }
    let mut result: u128 = 1;
    let mut b: u128 = x;
    let mut i: u128 = k;
    proof {
        lemma_pow0(x as int);
    }
    while i > 0
        invariant
            1 <= x,
            1 <= b,
            1 <= result,
            pow(x as int, k as nat) == result as int * pow(b as int, i as nat),
        decreases i,
    {
        if i % 2 == 1 {
            let next = match result.checked_mul(b) {
                Some(v) => v,
                None => {
                    proof {
                        lemma_pow1(b as int);
                        lemma_pow_increases(b as nat, 1, i as nat);
                        assert(result as int * pow(b as int, i as nat) >= result as int
                            * b as int) by (nonlinear_arith)
                            requires
                                pow(b as int, i as nat) >= b as int,
                                result >= 1,
                        ;
                    }
                    return None;
                },
            };
            proof {
                assert(pow(b as int, i as nat) == b as int * pow(b as int, (i - 1) as nat)) by {
                    reveal(pow);
                }
                assert(result as int * (b as int * pow(b as int, (i - 1) as nat)) == next as int
                    * pow(b as int, (i - 1) as nat)) by (nonlinear_arith)
                    requires
                        next == result as int * b as int,
                ;
                assert(next >= 1) by (nonlinear_arith)
                    requires
                        next as int == result as int * b as int,
                        result >= 1,
                        b >= 1,
                ;
            }
            result = next;
            proof {
                assert(pow(x as int, k as nat) == result as int * pow(b as int, (i - 1) as nat));
            }
        }
        let ghost iold: nat = i as nat;
        let ghost half_exp: nat = (if iold % 2 == 1 { iold - 1 } else { iold as int }) as nat;
        proof {
            assert(pow(x as int, k as nat) == result as int * pow(b as int, half_exp));
            assert(half_exp == 2 * (iold / 2));
        }
        i = i / 2;
        if i > 0 {
            let next = match b.checked_mul(b) {
                Some(v) => v,
                None => {
                    proof {
                        assert(pow(b as int, 2) == b as int * b as int) by {
                            reveal(pow);
                            lemma_pow1(b as int);
                        }
                        lemma_pow_increases(b as nat, 2, half_exp);
                        assert(result as int * pow(b as int, half_exp) >= b as int
                            * b as int) by (nonlinear_arith)
                            requires
                                pow(b as int, half_exp) >= b as int * b as int,
                                result >= 1,
                                b as int * b as int >= 0,
                        ;
                    }
                    return None;
                },
            };
            proof {
                lemma_pow_multiplies(b as int, 2, i as nat);
                assert(pow(b as int, 2) == b as int * b as int) by {
                    reveal(pow);
                    lemma_pow1(b as int);
                }
                assert(pow(next as int, i as nat) == pow(b as int, half_exp));
                assert(next >= 1) by (nonlinear_arith)
                    requires
                        next == b as int * b as int,
                        b >= 1,
                ;
            }
            b = next;
        } else {
            proof {
                lemma_pow0(b as int);
            }
        }
    }
    proof {
        lemma_pow0(b as int);
    }
    Some(result)
}

/// Whether `x^q > n`, answered exactly even when the power does not fit the
/// machine word.
fn pow_gt(x: u128, q: u128, n: u128) -> (r: bool)
    ensures
        r == (pow(x as int, q as nat) > n as int),
{
    match pow_u128(x, q) {
        Some(v) => v > n,
        None => true,
    }
}

/// The quotient `n / x^k`, exact even when the power does not fit the
/// machine word (the quotient is then zero).
fn div_by_pow(n: u128, x: u128, k: u128) -> (d: u128)
    requires
        x >= 1,
    ensures
        d as int == n as int / pow(x as int, k as nat),
{
    match pow_u128(x, k) {
        Some(p) => {
            proof {
                lemma_pow_positive(x as int, k as nat);
            }
            n / p
        },
        None => {
            proof {
                vstd::arithmetic::div_mod::lemma_basic_div(
                    n as int,
                    pow(x as int, k as nat),
                );
            }
            0
        },
    }
}

/// The floor of the `q`-th root of `n`: the unique `r >= 0` with
/// `r^q <= n < (r+1)^q`.
pub open spec fn root_floor(n: int, q: nat) -> int {
    choose|r: int| 0 <= r && #[trigger] pow(r, q) <= n < pow(r + 1, q)
}

/// The sandwich `r^q <= n < (r+1)^q` pins `r`: it is `root_floor(n, q)`.
pub proof fn lemma_root_floor_unique(n: int, q: nat, r: int)
    requires
        1 <= q,
        0 <= r,
        pow(r, q) <= n,
        n < pow(r + 1, q),
    ensures
        root_floor(n, q) == r,
{
    assert(0 <= r && pow(r, q) <= n < pow(r + 1, q));
    let r2 = root_floor(n, q);
    assert(0 <= r2 && pow(r2, q) <= n < pow(r2 + 1, q));
    if r2 < r {
        lemma_pow_base_le(r2 + 1, r, q);
        assert(pow(r2 + 1, q) <= n);
    } else if r2 > r {
        lemma_pow_base_le(r + 1, r2, q);
        assert(pow(r + 1, q) <= n);
    }
}

/// The floor of the `q`-th root of `n`, found by the Newton-Raphson
/// iteration in floor arithmetic: starting from an upper bound, the iterate
/// `x` is replaced by `((q-1)*x + n/x^(q-1)) / q` until its `q`-th power no
/// longer exceeds `n`. The result is characterised exactly by the sandwich
/// `r^q <= n < (r+1)^q`.
pub fn nth_root(n: u128, q: u128) -> (r: u128)
    requires
        2 <= q <= 127,
    ensures
        pow(r as int, q as nat) <= n as int,
        (n as int) < pow(r as int + 1, q as nat),
        r <= u64::MAX,
{
    if n == 0 {
        proof {
            lemma0_pow(q as nat);
            lemma1_pow(q as nat);
        }
        return 0;
    }
    let mut x: u128 = 1;
    proof {
        lemma1_pow(q as nat);
    }
    // Find an upper bound of the form x with x^q > n by doubling.
    while !pow_gt(x, q, n)
        invariant
            2 <= q <= 127,
            1 <= n,
            1 <= x,
            x <= 0x2_0000_0000_0000_0000u128,
            x == 1 || pow(x as int / 2, q as nat) <= n as int,
        decreases 2 * (n as int) - x as int,
    {
        proof {
            // x^q <= n keeps x itself below n, so the doubling terminates
            // and stays far from the machine bound.
            lemma_pow1(x as int);
            lemma_pow_increases(x as nat, 1, q as nat);
            lemma_pow_increases(x as nat, 2, q as nat);
            assert(pow(x as int, 2) == x as int * x as int) by {
                reveal(pow);
                lemma_pow1(x as int);
            }
            assert(x as int * x as int <= n) by {
                assert(pow(x as int, 2) <= pow(x as int, q as nat));
            }
            assert(x < 0x1_0000_0000_0000_0000u128) by (nonlinear_arith)
                requires
                    x as int * x as int <= n as int,
                    n <= u128::MAX,
                    1 <= x,
            ;
        }
        x = x * 2;
    }
    proof {
        lemma_pow_base_le(x as int, x as int + 1, q as nat);
    }
    // Newton iteration: each step stays at or above the true root and
    // strictly shrinks while the power still exceeds n.
    while pow_gt(x, q, n)
        invariant
            2 <= q <= 127,
            1 <= n,
            1 <= x,
            x <= 0x2_0000_0000_0000_0000u128,
            (n as int) < pow(x as int + 1, q as nat),
        decreases x,
    {
        let d = div_by_pow(n, x, q - 1);
        proof {
            lemma_newton_step_shrinks(n as int, q as nat, x as int);
            assert((q - 1) as int * x as int + d as int <= q as int * x as int
                - 1) by (nonlinear_arith)
                requires
                    d as int <= x as int - 1,
                    q >= 2,
            ;
            assert(q as int * x as int <= 127 * 0x2_0000_0000_0000_0000) by (nonlinear_arith)
                requires
                    q <= 127,
                    x <= 0x2_0000_0000_0000_0000u128,
                    1 <= x,
                    2 <= q,
            ;
        }
        let xn = ((q - 1) * x + d) / q;
        proof {
            // The update never falls below the true root, so the invariant
            // sandwich is maintained ...
            if pow(xn as int + 1, q as nat) <= n as int {
                lemma_newton_above_root(n as int, q as nat, x as int, xn as int + 1);
            }
            // ... and never falls below 1, because 1^q <= n.
            lemma1_pow(q as nat);
            lemma_newton_above_root(n as int, q as nat, x as int, 1);
        }
        x = xn;
    }
    proof {
        lemma_pow_increases(x as nat, 2, q as nat);
        assert(pow(x as int, 2) == x as int * x as int) by {
            reveal(pow);
            lemma_pow1(x as int);
        }
        assert(x <= u64::MAX) by (nonlinear_arith)
            requires
                x as int * x as int <= n as int,
                n <= u128::MAX,
                1 <= x,
        ;
    }
    x
}

} // verus!
