//! Exponentiation of a rational base by a rational exponent. The exponent
//! `en/ed` is split into its integer floor `e` and fractional remainder
//! `p/q` (`0 <= p < q`, `q = ed`), so that `base^(en/ed) =
//! base^e * (base^p)^(1/q)`. The integer part is computed by binary
//! exponentiation (with the reciprocal taken for negative `e`); the
//! fractional part is the `q`-th root of `base^p`, computed by the Newton
//! iteration at the fixed scale `SCALE`, so the root is exact to within
//! `1/SCALE`. Every outcome, including each failure, is pinned down by
//! `pow_spec`.

use vstd::prelude::*;

use vstd::arithmetic::div_mod::lemma_fundamental_div_mod;
use vstd::arithmetic::div_mod::lemma_mod_bound;
use vstd::arithmetic::div_mod::lemma_fundamental_div_mod_converse_div;
use vstd::arithmetic::div_mod::lemma_fundamental_div_mod_converse_mod;
use vstd::arithmetic::power::lemma_pow_increases;
use vstd::arithmetic::power::lemma_pow_positive;
use vstd::arithmetic::power::pow as powi;
use vstd::arithmetic::power2::lemma2_to64;
use vstd::arithmetic::power2::lemma_pow2;
use vstd::arithmetic::power2::lemma_pow2_adds;
use vstd::arithmetic::power2::pow2;

use crate::power::lemma_pow_base_le;
use crate::power::lemma_pow_neg_base;
use crate::power::lemma_root_floor_unique;
use crate::power::nth_root;
use crate::power::pow_u128;
use crate::power::root_floor;
use crate::rat::MathError;
use crate::rat::Rat;
use crate::rat::ok_den;
use crate::rat::ok_num;

verus! {

/// The denominator at which fractional roots are evaluated: roots are exact
/// to within `1/SCALE`, matching a convergence tolerance of ten to the
/// minus fifth.
pub const SCALE: u128 = 100000;

/// The absolute value of an integer.
pub open spec fn abs_i(x: int) -> int {
    if x < 0 {
        -x
    } else {
        x
    }
}

/// The exact value of a rational raised to a non-negative integer power:
/// numerator and denominator are exponentiated separately.
pub open spec fn ipow_pair(bv: (int, int), e: nat) -> (int, int) {
    (powi(bv.0, e), powi(bv.1, e))
}

/// When a rational raised to a non-negative integer power is representable.
pub open spec fn ipow_fits(bv: (int, int), e: nat) -> bool {
    powi(abs_i(bv.0), e) <= i128::MAX as int && powi(bv.1, e) <= i128::MAX as int
}

/// The reciprocal of a rational value, with the sign normalised into the
/// numerator. Only meaningful when `v.0 != 0`.
pub open spec fn recip_val(v: (int, int)) -> (int, int) {
    if v.0 < 0 {
        (-v.1, -v.0)
    } else {
        (v.1, v.0)
    }
}

/// The exact outcome of raising a rational to an integer power `e` of
/// either sign: the reciprocal of the positive power is taken for negative
/// `e`, and a zero base with negative `e` is a division by zero.
pub open spec fn pow_int_spec(bv: (int, int), e: int) -> Result<(int, int), MathError> {
    if e >= 0 {
        if ipow_fits(bv, e as nat) {
            Ok(ipow_pair(bv, e as nat))
        } else {
            Err(MathError::Overflow)
        }
    } else if bv.0 == 0 {
        Err(MathError::DivideByZero)
    } else if ipow_fits(bv, (-e) as nat) {
        Ok(recip_val(ipow_pair(bv, (-e) as nat)))
    } else {
        Err(MathError::Overflow)
    }
}

/// The exact outcome of the fractional contribution: the integer-power part
/// `ip` times the floor, at denominator `SCALE`, of the `q`-th root of
/// `base^p`. Only meaningful for `bv.0 > 0` and `1 <= p < q`.
pub open spec fn frac_spec(ip: (int, int), bv: (int, int), p: nat, q: nat) -> Result<
    (int, int),
    MathError,
> {
    let tn = powi(bv.0, p);
    let td = powi(bv.1, p);
    let sq = powi(SCALE as int, q);
    if !ipow_fits(bv, p) {
        Err(MathError::Overflow)
    } else if sq > u128::MAX as int {
        Err(MathError::Overflow)
    } else if tn * sq > u128::MAX as int {
        Err(MathError::Overflow)
    } else {
        let root = root_floor(tn * sq / td, q);
        if ok_num(ip.0 * root) && ok_den(ip.1 * SCALE as int) {
            Ok((ip.0 * root, ip.1 * SCALE as int))
        } else {
            Err(MathError::Overflow)
        }
    }
}

/// The exact outcome of `pow` on the values `bv` (base) and `ev`
/// (exponent): the integer power alone when the exponent is whole; a domain
/// error for a fractional power of a negative base; zero for a fractional
/// power of a zero base (division by zero when the exponent is negative);
/// and otherwise the integer power combined with the scaled `q`-th root.
pub open spec fn pow_spec(bv: (int, int), ev: (int, int)) -> Result<(int, int), MathError> {
    let e = ev.0 / ev.1;
    let p = ev.0 % ev.1;
    if p == 0 {
        pow_int_spec(bv, e)
    } else if bv.0 < 0 {
        Err(MathError::DomainError)
    } else if bv.0 == 0 {
        if e < 0 {
            Err(MathError::DivideByZero)
        } else {
            Ok((0int, 1int))
        }
    } else {
        match pow_int_spec(bv, e) {
            Err(er) => Err(er),
            Ok(ip) => frac_spec(ip, bv, p as nat, ev.1 as nat),
        }
    }
}

/// Floor division with remainder of a signed numerator by a positive
/// denominator.
fn floor_div_rem(en: i128, ed: i128) -> (r: (i128, i128))
    requires
        ed >= 1,
        en > i128::MIN,
    ensures
        r.0 as int == en as int / ed as int,
        r.1 as int == en as int % ed as int,
        r.0 > i128::MIN,
{
    let d = ed as u128;
    if en >= 0 {
        let m = en as u128;
        let qt = m / d;
        let rm = m % d;
        proof {
            lemma_fundamental_div_mod(m as int, d as int);
            assert(en as int == qt as int * ed as int + rm as int) by (nonlinear_arith)
                requires
                    m as int == d as int * qt as int + rm as int,
                    en as int == m as int,
                    d == ed,
            ;
            lemma_fundamental_div_mod_converse_div(en as int, ed as int, qt as int, rm as int);
            lemma_fundamental_div_mod_converse_mod(en as int, ed as int, qt as int, rm as int);
        }
        (qt as i128, rm as i128)
    } else {
        let m = (-en) as u128;
        let qt = m / d;
        let rm = m % d;
        proof {
            lemma_fundamental_div_mod(m as int, d as int);
        }
        if rm == 0 {
            proof {
                assert(en as int == (-(qt as int)) * ed as int + 0) by (nonlinear_arith)
                    requires
                        m as int == d as int * qt as int + rm as int,
                        rm == 0,
                        en as int == -(m as int),
                        d == ed,
                ;
                lemma_fundamental_div_mod_converse_div(en as int, ed as int, -(qt as int), 0);
                lemma_fundamental_div_mod_converse_mod(en as int, ed as int, -(qt as int), 0);
            }
            (-(qt as i128), 0)
        } else {
            proof {
                assert((qt as int) * (d as int) < (m as int)) by (nonlinear_arith)
                    requires
                        m as int == d as int * qt as int + rm as int,
                        rm >= 1,
                ;
                assert(qt < m) by (nonlinear_arith)
                    requires
                        (qt as int) * (d as int) < (m as int),
                        d >= 1,
                        qt >= 0,
                ;
                assert(en as int == (-(qt as int) - 1) * ed as int + (ed as int
                    - rm as int)) by (nonlinear_arith)
                    requires
                        m as int == d as int * qt as int + rm as int,
                        en as int == -(m as int),
                        d == ed,
                ;
                lemma_fundamental_div_mod_converse_div(
                    en as int,
                    ed as int,
                    -(qt as int) - 1,
                    ed as int - rm as int,
                );
                lemma_fundamental_div_mod_converse_mod(
                    en as int,
                    ed as int,
                    -(qt as int) - 1,
                    ed as int - rm as int,
                );
            }
            (-(qt as i128) - 1, (d - rm) as i128)
        }
    }
}

/// A scale power that fits the machine word keeps the root degree small
/// enough for the Newton iteration's word-size budget.
proof fn lemma_scale_q_bound(q: nat)
    requires
        powi(SCALE as int, q) <= u128::MAX as int,
    ensures
        q <= 127,
{
    if q > 127 {
        lemma_pow_base_le(2, SCALE as int, q);
        lemma_pow_increases(2nat, 128, q);
        lemma_pow2(128);
        lemma_pow2_adds(64, 64);
        lemma2_to64();
        assert(pow2(128) == 0x10000000000000000 * 0x10000000000000000);
        assert(false);
    }
}

/// A rational raised to a non-negative integer power, by binary
/// exponentiation of numerator and denominator. Succeeds exactly when both
/// powers are representable.
fn rat_ipow(b: &Rat, e: u128) -> (r: Result<Rat, MathError>)
    requires
        b.wf(),
    ensures
        r is Ok <==> ipow_fits(b.v(), e as nat),
        r matches Ok(v) ==> v.wf() && v.v() == ipow_pair(b.v(), e as nat),
        r is Err ==> r == Err::<Rat, MathError>(MathError::Overflow),
{
    let neg = b.num < 0;
    let mag: i128 = if neg {
        -b.num
    } else {
        b.num
    };
    let mn = match pow_u128(mag as u128, e) {
        Some(v) => v,
        None => return Err(MathError::Overflow),
    };
    if mn > i128::MAX as u128 {
        return Err(MathError::Overflow);
    }
    let dn = match pow_u128(b.den as u128, e) {
        Some(v) => v,
        None => return Err(MathError::Overflow),
    };
    if dn > i128::MAX as u128 {
        return Err(MathError::Overflow);
    }
    let num: i128 = if neg && e % 2 == 1 {
        -(mn as i128)
    } else {
        mn as i128
    };
    proof {
        lemma_pow_positive(b.den as int, e as nat);
        if neg {
            lemma_pow_neg_base(mag as int, e as nat);
        }
    }
    Ok(Rat { num, den: dn as i128 })
}

/// A rational raised to an integer power of either sign; a negative
/// exponent takes the reciprocal of the positive power.
fn rat_ipow_signed(b: &Rat, e: i128) -> (r: Result<Rat, MathError>)
    requires
        b.wf(),
        e > i128::MIN,
    ensures
        r matches Ok(v) ==> v.wf() && pow_int_spec(b.v(), e as int) == Ok::<
            (int, int),
            MathError,
        >(v.v()),
        r matches Err(er) ==> pow_int_spec(b.v(), e as int) == Err::<(int, int), MathError>(er),
{
    if e >= 0 {
        return rat_ipow(b, e as u128);
    }
    if b.num == 0 {
        return Err(MathError::DivideByZero);
    }
    let k = (-e) as u128;
    match rat_ipow(b, k) {
        Err(er) => Err(er),
        Ok(v) => {
            proof {
                // The numerator of the power of a non-zero base is non-zero.
                if b.num < 0 {
                    lemma_pow_positive(-(b.num as int), k as nat);
                    lemma_pow_neg_base(-(b.num as int), k as nat);
                } else {
                    lemma_pow_positive(b.num as int, k as nat);
                }
            }
            if v.num < 0 {
                Ok(Rat { num: -v.den, den: -v.num })
            } else {
                Ok(Rat { num: v.den, den: v.num })
            }
        },
    }
}

/// Raises a rational base to a rational exponent. The integer floor of the
/// exponent is applied by binary exponentiation, with the reciprocal taken
/// for a negative floor; a non-zero fractional remainder `p/q` contributes
/// the `q`-th root of `base^p`, evaluated to within `1/SCALE` by the Newton
/// iteration. A fractional power of a negative base is a domain error, a
/// negative power of zero is a division by zero, and every outcome,
/// including each overflow, is stated exactly by `pow_spec`.
pub fn pow(base: &Rat, exponent: &Rat) -> (r: Result<Rat, MathError>)
    requires
        base.wf(),
        exponent.wf(),
    ensures
        r matches Ok(v) ==> v.wf() && pow_spec(base.v(), exponent.v()) == Ok::<
            (int, int),
            MathError,
        >(v.v()),
        r matches Err(e) ==> pow_spec(base.v(), exponent.v()) == Err::<(int, int), MathError>(e),
{
    proof {
        lemma_mod_bound(exponent.num as int, exponent.den as int);
    }
    let ep = floor_div_rem(exponent.num, exponent.den);
    let e = ep.0;
    let p = ep.1;
    if p == 0 {
        return rat_ipow_signed(base, e);
    }
    if base.num < 0 {
        return Err(MathError::DomainError);
    }
    if base.num == 0 {
        if e < 0 {
            return Err(MathError::DivideByZero);
        }
        return Ok(Rat { num: 0, den: 1 });
    }
    let ip = match rat_ipow_signed(base, e) {
        Ok(v) => v,
        Err(er) => return Err(er),
    };
    let t = match rat_ipow(base, p as u128) {
        Ok(v) => v,
        Err(er) => return Err(er),
    };
    proof {
        lemma_pow_positive(base.num as int, p as nat);
        lemma_pow_positive(base.den as int, p as nat);
    }
    let q = exponent.den as u128;
    let sq = match pow_u128(SCALE, q) {
        Some(v) => v,
        None => return Err(MathError::Overflow),
    };
    let m = match (t.num as u128).checked_mul(sq) {
        Some(v) => v,
        None => return Err(MathError::Overflow),
    };
    let nn = m / (t.den as u128);
    proof {
        lemma_scale_q_bound(q as nat);
    }
    let root = nth_root(nn, q);
    proof {
        lemma_root_floor_unique(nn as int, q as nat, root as int);
    }
    let rn = match ip.num.checked_mul(root as i128) {
        Some(v) => v,
        None => return Err(MathError::Overflow),
    };
    if rn == i128::MIN {
        return Err(MathError::Overflow);
    }
    let rd = match ip.den.checked_mul(SCALE as i128) {
        Some(v) => v,
        None => return Err(MathError::Overflow),
    };
    proof {
        assert(ip.den as int * SCALE as int > 0) by (nonlinear_arith)
            requires
                ip.den >= 1,
        ;
    }
    Ok(Rat { num: rn, den: rd })
}

} // verus!
