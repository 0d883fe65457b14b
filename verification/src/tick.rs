//! Price ticks: truncating quoted prices to significant figures.
//!
//! A tick of `n` keeps the `n` leading decimal digits of a price's atomic
//! representation and zeroes the rest, rounding down or up. A price is
//! valid for a tick exactly when truncating it down changes nothing.

use vstd::prelude::*;

use crate::fmt::{dec_chars, pow10};
use crate::math::{checked_mul_ratio_ceil, ratio_ceil, ratio_floor, Udec, DEC_ONE};

verus! {

/// The number of decimal digits in `n`.
pub open spec fn digits(n: int) -> int {
    dec_chars(n).len() as int
}

/// A tick size: how many significant figures a price may carry.
#[derive(Clone, Copy, Debug, PartialEq, Eq, Structural)]
pub struct Tick(pub u8);

#[derive(Clone, Debug, PartialEq, Eq)]
pub enum TickError {
    Invalid(u8),
    InvalidPrice { price: Udec, tick: u8 },
}

/// The power of ten that a truncation at this tick zeroes out:
/// one place for every digit of the price beyond the tick's figures.
pub open spec fn tick_pow(tick: int, atomics: int) -> int {
    pow10(digits(atomics) - tick)
}

/// A price truncated down to the tick's significant figures.
pub open spec fn trunc_floor(tick: int, atomics: int) -> int {
    (atomics / tick_pow(tick, atomics)) * tick_pow(tick, atomics)
}

/// A price truncated up: the fixed-point value the reference arithmetic
/// yields — the scaled quotient is floored to fixed-point first, then
/// its ceiling is taken — scaled back by the zeroed places.
pub open spec fn trunc_ceil(tick: int, atomics: int) -> int {
    ratio_ceil(ratio_floor(atomics, DEC_ONE as int, tick_pow(tick, atomics)), 1, DEC_ONE as int)
        * tick_pow(tick, atomics)
}

impl Tick {
    pub fn new(size: u8) -> (r: Tick)
        ensures
            r.0 == size,
    {
        Tick(size)
    }

    /// A tick must keep at least one significant figure.
    pub fn validate(&self) -> (r: Result<(), TickError>)
        ensures
            r is Ok <==> self.0 != 0,
            r matches Err(e) ==> e == TickError::Invalid(self.0),
    {
        if self.0 == 0 {
            return Err(TickError::Invalid(self.0));
        }
        Ok(())
    }

    /// A price is valid when it is nonzero and already sits on the tick:
    /// truncating it down changes nothing.
    pub fn validate_price(&self, v: &Udec) -> (r: Result<(), TickError>)
        requires
            1 <= self.0 <= digits(v.val()),
            ratio_floor(v.val(), DEC_ONE as int, tick_pow(self.0 as int, v.val())) <= u128::MAX,
        ensures
            r is Ok <==> (v.val() != 0 && v.val() == trunc_floor(self.0 as int, v.val())),
            r matches Err(e) ==> e == (TickError::InvalidPrice { price: *v, tick: self.0 }),
    {
        if v.is_zero() {
            return Err(TickError::InvalidPrice { price: *v, tick: self.0 });
        }
        if self.inv_absent(v) {
            return Err(TickError::InvalidPrice { price: *v, tick: self.0 });
        }
        let t = self.truncate_floor(v);
        if v.atomics == t.atomics {
            return Ok(());
        }
        Err(TickError::InvalidPrice { price: *v, tick: self.0 })
    }

    /// Rounds a price down onto the tick.
    pub fn truncate_floor(&self, v: &Udec) -> (r: Udec)
        requires
            1 <= self.0 <= digits(v.val()),
        ensures
            r.val() == trunc_floor(self.0 as int, v.val()),
    {
        let pow = self.places(v);
        let truncated: u128 = v.atomics / pow;
        proof {
            lemma_floor_times_pow_fits(v.val(), pow as int);
        }
        Udec::new(truncated * pow)
    }

    /// Rounds a price up onto the tick, through fixed-point scaling as the
    /// reference arithmetic does.
    pub fn truncate_ceil(&self, v: &Udec) -> (r: Udec)
        requires
            1 <= self.0 <= digits(v.val()),
            ratio_floor(v.val(), DEC_ONE as int, tick_pow(self.0 as int, v.val())) <= u128::MAX,
            trunc_ceil(self.0 as int, v.val()) <= u128::MAX,
        ensures
            r.val() == trunc_ceil(self.0 as int, v.val()),
    {
        let pow = self.places(v);
        let scaled: u128 = match crate::math::checked_mul_ratio_floor(v.atomics, DEC_ONE, pow) {
            Some(x) => x,
            None => {
                proof {
                    assert(false);
                }
                return Udec::zero();
            },
        };
        let truncated: u128 = match checked_mul_ratio_ceil(scaled, 1, DEC_ONE) {
            Some(x) => x,
            None => {
                proof {
                    lemma_ceil_one_le(scaled as int);
                    assert(false);
                }
                return Udec::zero();
            },
        };
        proof {
            lemma_ceil_times_pow_fits(self.0 as int, v.val(), scaled as int, truncated as int);
        }
        Udec::new(truncated * pow)
    }

    /// Ten to the number of places the tick zeroes in this price.
    fn places(&self, v: &Udec) -> (r: u128)
        requires
            1 <= self.0 <= digits(v.val()),
        ensures
            r as int == tick_pow(self.0 as int, v.val()),
            r >= 1,
    {
        let len = count_digits(v.atomics);
        let decimals = len - (self.0 as u32);
        proof {
            lemma_digits_max(v.val());
            lemma_pow10_fits(decimals as int);
        }
        pow_of_ten(decimals)
    }

    /// The reference price type always has an inverse for nonzero values;
    /// this mirrors that check.
    fn inv_absent(&self, v: &Udec) -> (r: bool)
        ensures
            r <==> v.val() == 0,
    {
        v.inv().is_none()
    }
}

/// Counts the decimal digits of a value.
pub fn count_digits(n: u128) -> (r: u32)
    ensures
        r as int == digits(n as int),
        r >= 1,
{
    let mut x: u128 = n;
    let mut d: u32 = 1;
    while x >= 10
        invariant
            1 <= d,
            digits(n as int) == (d - 1) + digits(x as int),
            d <= 40,
        decreases x,
    {
        proof {
            lemma_digits_pos(x as int / 10);
            lemma_digits_max(n as int);
            assert(digits(x as int) == 1 + digits(x as int / 10));
        }
        x = x / 10;
        d = d + 1;
    }
    proof {
        assert(digits(x as int) == 1);
    }
    d
}

/// Ten to the `k`.
fn pow_of_ten(k: u32) -> (r: u128)
    requires
        pow10(k as int) <= u128::MAX,
    ensures
        r as int == pow10(k as int),
        r >= 1,
{
    let mut r: u128 = 1;
    let mut i: u32 = 0;
    while i < k
        invariant
            0 <= i <= k,
            r as int == pow10(i as int),
            pow10(k as int) <= u128::MAX,
            r >= 1,
        decreases k - i,
    {
        proof {
            lemma_pow10_mono(i as int + 1, k as int);
        }
        r = r * 10;
        i = i + 1;
    }
    r
}

proof fn lemma_digits_pos(n: int)
    requires
        n >= 0,
    ensures
        digits(n) >= 1,
    decreases n,
{
    if n >= 10 {
        lemma_digits_pos(n / 10);
    }
}

/// A value's digit count never exceeds a bound whose power of ten exceeds
/// the value.
proof fn lemma_digits_le(n: int, k: int)
    requires
        0 <= n,
        1 <= k,
        n < pow10(k),
    ensures
        digits(n) <= k,
    decreases n,
{
    if n >= 10 {
        assert(pow10(k) == 10 * pow10(k - 1));
        assert(n / 10 < pow10(k - 1)) by (nonlinear_arith)
            requires
                n < 10 * pow10(k - 1),
                n >= 10,
                pow10(k - 1) >= 1,
        ;
        if k == 1 {
            reveal_with_fuel(pow10, 2);
            assert(false);
        }
        lemma_digits_le(n / 10, k - 1);
    }
}

proof fn lemma_pow10_39()
    ensures
        pow10(39) > u128::MAX,
        pow10(38) <= u128::MAX,
{
    reveal_with_fuel(pow10, 40);
}

/// Any representable value has at most thirty-nine digits.
proof fn lemma_digits_max(n: int)
    requires
        0 <= n <= u128::MAX,
    ensures
        digits(n) <= 39,
{
    lemma_pow10_39();
    lemma_digits_le(n, 39);
}

/// Powers of ten grow with the exponent.
proof fn lemma_pow10_mono(a: int, b: int)
    requires
        0 <= a <= b,
    ensures
        pow10(a) <= pow10(b),
        pow10(a) >= 1,
    decreases b - a,
{
    if a < b {
        lemma_pow10_mono(a, b - 1);
        assert(pow10(b) == 10 * pow10(b - 1));
        assert(pow10(b - 1) <= 10 * pow10(b - 1)) by (nonlinear_arith)
            requires
                pow10(b - 1) >= 1,
        ;
    } else {
        lemma_pow10_pos(a);
    }
}

proof fn lemma_pow10_pos(k: int)
    ensures
        pow10(k) >= 1,
    decreases k,
{
    if k > 0 {
        lemma_pow10_pos(k - 1);
    }
}

/// A truncation at most thirty-eight places stays representable.
proof fn lemma_pow10_fits(k: int)
    requires
        0 <= k <= 38,
    ensures
        pow10(k) <= u128::MAX,
{
    lemma_pow10_39();
    lemma_pow10_mono(k, 38);
}

/// The floored quotient scaled back never exceeds the value itself.
proof fn lemma_floor_times_pow_fits(a: int, pow: int)
    requires
        a >= 0,
        pow >= 1,
    ensures
        0 <= (a / pow) * pow <= a,
{
    vstd::arithmetic::div_mod::lemma_fundamental_div_mod(a, pow);
    vstd::arithmetic::div_mod::lemma_remainder_lower(a, pow);
    vstd::arithmetic::div_mod::lemma_div_pos_is_pos(a, pow);
    assert((a / pow) * pow == pow * (a / pow)) by (nonlinear_arith);
    assert((a / pow) * pow >= 0) by (nonlinear_arith)
        requires
            a / pow >= 0,
            pow >= 1,
    ;
}

/// The ceiling of an already-scaled value by one never overflows.
proof fn lemma_ceil_one_le(x: int)
    requires
        0 <= x <= u128::MAX,
    ensures
        ratio_ceil(x, 1, DEC_ONE as int) <= u128::MAX,
{
    crate::math::lemma_ratio_ceil_le(x, 1, DEC_ONE as int);
}

/// The assembled ceiling truncation equals its specification and fits.
proof fn lemma_ceil_times_pow_fits(tick: int, atomics: int, scaled: int, truncated: int)
    requires
        scaled == ratio_floor(atomics, DEC_ONE as int, tick_pow(tick, atomics)),
        truncated == ratio_ceil(scaled, 1, DEC_ONE as int),
        trunc_ceil(tick, atomics) <= u128::MAX,
        0 <= truncated,
        0 <= tick_pow(tick, atomics),
    ensures
        truncated * tick_pow(tick, atomics) == trunc_ceil(tick, atomics),
        0 <= truncated * tick_pow(tick, atomics) <= u128::MAX,
{
    assert(truncated * tick_pow(tick, atomics) >= 0) by (nonlinear_arith)
        requires
            truncated >= 0,
            tick_pow(tick, atomics) >= 0,
    ;
}

} // verus!
