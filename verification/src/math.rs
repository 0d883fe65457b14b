//! Fixed-point decimal values and the wide-ratio arithmetic they rest on.
//!
//! Amounts are plain `u128` token quantities. A rate or a fee is a [`Udec`],
//! an unsigned fixed-point number with eighteen decimal places, so its
//! atomic representation of `1.0` is [`DEC_ONE`]. Every operation that
//! needs a 256-bit intermediate goes through one of the trusted ratio
//! wrappers below; everything else is verified.

use vstd::prelude::*;

verus! {

/// Atomic units in one whole unit of a fixed-point decimal.
pub const DEC_ONE: u128 = 1_000_000_000_000_000_000;

/// Floor of `a * n / d` over the unbounded integers.
pub open spec fn ratio_floor(a: int, n: int, d: int) -> int {
    (a * n) / d
}

/// Ceiling of `a * n / d` over the unbounded integers (for `d > 0`).
pub open spec fn ratio_ceil(a: int, n: int, d: int) -> int {
    (a * n + d - 1) / d
}

/// Relies on `cosmwasm_std::Uint128::multiply_ratio`: returns
/// `self * numerator / denominator`, always floored; panics on a zero
/// denominator or when the result does not fit, which the contract rules out.
#[verifier::external_body]
pub(crate) fn mul_ratio_floor(a: u128, num: u128, den: u128) -> (r: u128)
    requires
        den > 0,
        ratio_floor(a as int, num as int, den as int) <= u128::MAX,
    ensures
        r as int == ratio_floor(a as int, num as int, den as int),
{
    cosmwasm_std::Uint128::new(a).multiply_ratio(num, den).u128()
}

/// Relies on `cosmwasm_std::Uint128::checked_multiply_ratio`: returns
/// `self * numerator / denominator` floored, or an error exactly on a zero
/// denominator or a result above `u128::MAX`.
#[verifier::external_body]
pub(crate) fn checked_mul_ratio_floor(a: u128, num: u128, den: u128) -> (r: Option<u128>)
    ensures
        r is Some <==> (den > 0 && ratio_floor(a as int, num as int, den as int) <= u128::MAX),
        r matches Some(v) ==> v as int == ratio_floor(a as int, num as int, den as int),
{
    cosmwasm_std::Uint128::new(a).checked_multiply_ratio(num, den).ok().map(|v| v.u128())
}

/// Relies on `cosmwasm_std::Uint128::checked_mul_ceil` with a
/// `(numerator, denominator)` fraction: returns `self * num / den` rounded
/// up, or an error exactly on a zero denominator or a result above
/// `u128::MAX`.
#[verifier::external_body]
pub(crate) fn checked_mul_ratio_ceil(a: u128, num: u128, den: u128) -> (r: Option<u128>)
    ensures
        r is Some <==> (den > 0 && ratio_ceil(a as int, num as int, den as int) <= u128::MAX),
        r matches Some(v) ==> v as int == ratio_ceil(a as int, num as int, den as int),
{
    cosmwasm_std::Uint128::new(a).checked_mul_ceil((num, den)).ok().map(|v| v.u128())
}

/// `a * b / c` never exceeds `a` when `b <= c`.
pub proof fn lemma_ratio_floor_le(a: int, b: int, c: int)
    by (nonlinear_arith)
    requires
        a >= 0,
        0 <= b <= c,
        c > 0,
    ensures
        0 <= ratio_floor(a, b, c) <= a,
{
}

/// The ceiling ratio `(a * b + c - 1) / c` never exceeds `a` when `b <= c`.
pub proof fn lemma_ratio_ceil_le(a: int, b: int, c: int)
    by (nonlinear_arith)
    requires
        a >= 0,
        0 <= b <= c,
        c > 0,
    ensures
        0 <= ratio_ceil(a, b, c) <= a,
{
}

/// An unsigned fixed-point decimal with eighteen fractional digits.
#[derive(Clone, Copy, Debug, PartialEq, Eq, Structural)]
pub struct Udec {
    pub atomics: u128,
}

impl Udec {
    /// The value as a count of atomic (`10^-18`) units.
    pub open spec fn val(self) -> int {
        self.atomics as int
    }

    pub fn zero() -> (r: Udec)
        ensures
            r.val() == 0,
    {
        Udec { atomics: 0 }
    }

    pub fn one() -> (r: Udec)
        ensures
            r.val() == DEC_ONE,
    {
        Udec { atomics: DEC_ONE }
    }

    pub fn new(atomics: u128) -> (r: Udec)
        ensures
            r.val() == atomics,
    {
        Udec { atomics }
    }

    pub fn is_zero(&self) -> (r: bool)
        ensures
            r <==> self.val() == 0,
    {
        self.atomics == 0
    }

    /// The fixed-point value closest to `num / den` from below.
    pub fn from_ratio(num: u128, den: u128) -> (r: Udec)
        requires
            den > 0,
            ratio_floor(num as int, DEC_ONE as int, den as int) <= u128::MAX,
        ensures
            r.val() == ratio_floor(num as int, DEC_ONE as int, den as int),
    {
        Udec { atomics: mul_ratio_floor(num, DEC_ONE, den) }
    }

    /// The multiplicative inverse, floored; `None` for zero.
    pub fn inv(&self) -> (r: Option<Udec>)
        ensures
            r is Some <==> self.val() != 0,
            r matches Some(v) ==> v.val() == ratio_floor(DEC_ONE as int, DEC_ONE as int, self.val()),
    {
        if self.atomics == 0 {
            None
        } else {
            proof {
                lemma_inv_fits(self.atomics as int);
            }
            Some(Udec { atomics: mul_ratio_floor(DEC_ONE, DEC_ONE, self.atomics) })
        }
    }

    pub fn lt(&self, other: &Udec) -> (r: bool)
        ensures
            r <==> self.val() < other.val(),
    {
        self.atomics < other.atomics
    }
}

proof fn lemma_inv_fits(a: int)
    by (nonlinear_arith)
    requires
        a >= 1,
    ensures
        ratio_floor(DEC_ONE as int, DEC_ONE as int, a) <= DEC_ONE * DEC_ONE,
        DEC_ONE * DEC_ONE <= u128::MAX,
{
}

} // verus!
