//! Arbitrary-precision rationals for dense identifiers.
//!
//! The numbers themselves come from the `num` crates
//! (`num_rational::BigRational`, a reduced fraction of `num_bigint`
//! integers with a positive denominator). Verus sees them through a
//! small trusted boundary: `rat_frac` names the numerator/denominator
//! pair a value holds, and each wrapper states what one `num` operation
//! does to that pair. Everything else — the midpoint rule, the path
//! order, the density argument — is verified code on top.

use vstd::prelude::*;

use num::{BigInt, One, Zero};
use num_rational::BigRational;

verus! {

#[verifier::external_type_specification]
#[verifier::external_body]
#[verifier::reject_recursive_types(T)]
pub struct ExRatio<T>(num_rational::Ratio<T>);

#[verifier::external_type_specification]
#[verifier::external_body]
pub struct ExBigInt(num::BigInt);

/// The (numerator, denominator) pair a `BigRational` holds. `num`
/// keeps its `Ratio` values reduced, with a positive denominator.
pub uninterp spec fn rat_frac(r: BigRational) -> (int, int);

/// The numerator of the fraction.
pub open spec fn rnum(r: BigRational) -> int {
    rat_frac(r).0
}

/// The denominator of the fraction.
pub open spec fn rden(r: BigRational) -> int {
    rat_frac(r).1
}

/// Every rational this library builds has a positive denominator.
pub open spec fn rat_wf(r: BigRational) -> bool {
    rden(r) > 0
}

/// The value of `a` is strictly below the value of `b` (comparison of
/// fractions by cross-multiplication; denominators positive).
pub open spec fn rat_lt(a: BigRational, b: BigRational) -> bool {
    rnum(a) * rden(b) < rnum(b) * rden(a)
}

/// The values of `a` and `b` are equal as rational numbers.
pub open spec fn rat_eqv(a: BigRational, b: BigRational) -> bool {
    rnum(a) * rden(b) == rnum(b) * rden(a)
}

/// Relies on `num_rational::BigRational::zero`: the fraction 0/1.
#[verifier::external_body]
pub(crate) fn rat_zero() -> (r: BigRational)
    ensures
        rat_frac(r) == (0int, 1int),
{
    BigRational::zero()
}

/// Relies on `num_rational::BigRational::one`: the fraction 1/1.
#[verifier::external_body]
pub(crate) fn rat_one() -> (r: BigRational)
    ensures
        rat_frac(r) == (1int, 1int),
{
    BigRational::one()
}

/// Relies on `num_rational::Ratio::from_integer` (and
/// `num_bigint::BigInt::from`): the integer `n` as the fraction n/1.
#[verifier::external_body]
pub(crate) fn rat_from_u64(n: u64) -> (r: BigRational)
    ensures
        rat_frac(r) == (n as int, 1int),
{
    BigRational::from_integer(BigInt::from(n))
}

/// Relies on `num_rational::Ratio`'s addition: the result is the exact
/// sum, kept as a reduced fraction with a positive denominator.
#[verifier::external_body]
pub(crate) fn rat_add(a: &BigRational, b: &BigRational) -> (r: BigRational)
    requires
        rat_wf(*a),
        rat_wf(*b),
    ensures
        rat_wf(r),
        rnum(r) * (rden(*a) * rden(*b)) == (rnum(*a) * rden(*b) + rnum(*b) * rden(*a)) * rden(r),
{
    a + b
}

/// Relies on `num_rational::Ratio`'s subtraction: the exact difference.
#[verifier::external_body]
pub(crate) fn rat_sub(a: &BigRational, b: &BigRational) -> (r: BigRational)
    requires
        rat_wf(*a),
        rat_wf(*b),
    ensures
        rat_wf(r),
        rnum(r) * (rden(*a) * rden(*b)) == (rnum(*a) * rden(*b) - rnum(*b) * rden(*a)) * rden(r),
{
    a - b
}

/// Relies on `num_rational::Ratio`'s division: the exact quotient. The
/// divisor must be nonzero, since `num` panics on division by zero.
#[verifier::external_body]
pub(crate) fn rat_div(a: &BigRational, b: &BigRational) -> (r: BigRational)
    requires
        rat_wf(*a),
        rat_wf(*b),
        rnum(*b) != 0,
    ensures
        rat_wf(r),
        rnum(r) * (rnum(*b) * rden(*a)) == rnum(*a) * rden(*b) * rden(r),
{
    a / b
}

/// Relies on `num_rational::Ratio`'s `PartialOrd`, which compares the
/// rational values (cross-multiplication with positive denominators).
#[verifier::external_body]
pub(crate) fn rat_less(a: &BigRational, b: &BigRational) -> (r: bool)
    requires
        rat_wf(*a),
        rat_wf(*b),
    ensures
        r == rat_lt(*a, *b),
{
    a < b
}

/// Relies on `num_rational::Ratio`'s `PartialEq`: reduced fractions
/// are structurally equal exactly when their values are equal.
#[verifier::external_body]
pub(crate) fn rat_equal(a: &BigRational, b: &BigRational) -> (r: bool)
    requires
        rat_wf(*a),
        rat_wf(*b),
    ensures
        r == rat_eqv(*a, *b),
{
    a == b
}

/// Relies on `Clone` for `num_rational::Ratio`: the copy holds the same
/// fraction.
#[verifier::external_body]
pub(crate) fn rat_clone(a: &BigRational) -> (r: BigRational)
    ensures
        rat_frac(r) == rat_frac(*a),
{
    a.clone()
}

/// Relies on `num_rational::Ratio::denom` and `Ord` for
/// `num_bigint::BigInt`: whether the stored denominator is strictly
/// positive. Lets a path read back from outside be checked before the
/// library takes it as well-formed.
#[verifier::external_body]
pub(crate) fn rat_denom_positive(a: &BigRational) -> (r: bool)
    ensures
        r == rat_wf(*a),
{
    a.denom() > &BigInt::from(0u8)
}

/// Equal fractions have equal values.
pub proof fn lemma_eqv_from_frac(a: BigRational, b: BigRational)
    requires
        rat_frac(a) == rat_frac(b),
    ensures
        rat_eqv(a, b),
        rat_eqv(b, a),
{
}

proof fn lemma_cancel(x: int, y: int, c: int)
    requires
        x * c == y * c,
        c != 0,
    ensures
        x == y,
{
    assert(x == y) by (nonlinear_arith)
        requires
            x * c == y * c,
            c != 0,
    ;
}

/// A value strictly between `low` and `high` under the midpoint rule:
/// `low + 1` with only a lower bound, `high - 1` with only an upper
/// bound, `0` with no bound at all, and the average `(low + high) / 2`
/// with both. With both bounds in order, the result is strictly
/// between them.
pub(crate) fn rational_between(low: Option<&BigRational>, high: Option<&BigRational>) -> (r:
    BigRational)
    requires
        match low {
            Some(l) => rat_wf(*l),
            None => true,
        },
        match high {
            Some(h) => rat_wf(*h),
            None => true,
        },
    ensures
        rat_wf(r),
        match (low, high) {
            (None, None) => rat_frac(r) == (0int, 1int),
            (Some(l), None) => rnum(r) * rden(*l) == (rnum(*l) + rden(*l)) * rden(r) && rat_lt(
                *l,
                r,
            ),
            (None, Some(h)) => rnum(r) * rden(*h) == (rnum(*h) - rden(*h)) * rden(r) && rat_lt(
                r,
                *h,
            ),
            (Some(l), Some(h)) => rnum(r) * (2 * (rden(*l) * rden(*h))) == (rnum(*l) * rden(*h)
                + rnum(*h) * rden(*l)) * rden(r) && (rat_lt(*l, *h) ==> rat_lt(*l, r) && rat_lt(
                r,
                *h,
            )),
        },
{
    match (low, high) {
        (None, None) => rat_zero(),
        (Some(l), None) => {
            let one = rat_one();
            let r = rat_add(l, &one);
            proof {
                let (ln, ld) = rat_frac(*l);
                let (rn, rd) = rat_frac(r);
                assert(rn * ld == (ln + ld) * rd) by (nonlinear_arith)
                    requires
                        rn * (ld * 1) == (ln * 1 + 1 * ld) * rd,
                ;
                assert(ln * rd < rn * ld) by (nonlinear_arith)
                    requires
                        rn * ld == (ln + ld) * rd,
                        ld > 0,
                        rd > 0,
                ;
            }
            r
        },
        (None, Some(h)) => {
            let one = rat_one();
            let r = rat_sub(h, &one);
            proof {
                let (hn, hd) = rat_frac(*h);
                let (rn, rd) = rat_frac(r);
                assert(rn * hd == (hn - hd) * rd) by (nonlinear_arith)
                    requires
                        rn * (hd * 1) == (hn * 1 - 1 * hd) * rd,
                ;
                assert(rn * hd < hn * rd) by (nonlinear_arith)
                    requires
                        rn * hd == (hn - hd) * rd,
                        hd > 0,
                        rd > 0,
                ;
            }
            r
        },
        (Some(l), Some(h)) => {
            let s = rat_add(l, h);
            let two = rat_from_u64(2);
            let r = rat_div(&s, &two);
            proof {
                let (ln, ld) = rat_frac(*l);
                let (hn, hd) = rat_frac(*h);
                let (sn, sd) = rat_frac(s);
                let (rn, rd) = rat_frac(r);
                // value of the sum: sn/sd == (ln*hd + hn*ld)/(ld*hd)
                assert(sn * (ld * hd) == (ln * hd + hn * ld) * sd);
                // value of the quotient: rn/rd == sn/(2*sd)
                assert(rn * (2 * sd) == sn * rd) by (nonlinear_arith)
                    requires
                        rn * (2 * sd * 1) == sn * 1 * rd,
                ;
                // combine and cancel the positive factor sd
                assert((rn * (2 * (ld * hd))) * sd == ((ln * hd + hn * ld) * rd) * sd)
                    by (nonlinear_arith)
                    requires
                        sn * (ld * hd) == (ln * hd + hn * ld) * sd,
                        rn * (2 * sd) == sn * rd,
                ;
                lemma_cancel(rn * (2 * (ld * hd)), (ln * hd + hn * ld) * rd, sd);
                if rat_lt(*l, *h) {
                    assert(ln * rd < rn * ld) by (nonlinear_arith)
                        requires
                            rn * (2 * (ld * hd)) == (ln * hd + hn * ld) * rd,
                            ln * hd < hn * ld,
                            ld > 0,
                            hd > 0,
                            rd > 0,
                    ;
                    assert(rn * hd < hn * rd) by (nonlinear_arith)
                        requires
                            rn * (2 * (ld * hd)) == (ln * hd + hn * ld) * rd,
                            ln * hd < hn * ld,
                            ld > 0,
                            hd > 0,
                            rd > 0,
                    ;
                }
            }
            r
        },
    }
}

} // verus!
