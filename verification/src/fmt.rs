//! Decimal text for event attributes.
//!
//! Integer amounts and fixed-point rates appear in emitted events as
//! decimal strings. The digit sequences are defined by spec functions here;
//! the two trusted wrappers rely on the standard formatter to produce them,
//! and the fixed-point rendering is assembled from those in verified code.

use vstd::prelude::*;

use crate::math::{Udec, DEC_ONE};

verus! {

/// The character for a single decimal digit.
pub open spec fn digit_char(d: int) -> char {
    if d == 0 {
        '0'
    } else if d == 1 {
        '1'
    } else if d == 2 {
        '2'
    } else if d == 3 {
        '3'
    } else if d == 4 {
        '4'
    } else if d == 5 {
        '5'
    } else if d == 6 {
        '6'
    } else if d == 7 {
        '7'
    } else if d == 8 {
        '8'
    } else {
        '9'
    }
}

/// The decimal digits of `n`, most significant first, no leading zeros.
pub open spec fn dec_chars(n: int) -> Seq<char>
    decreases n,
{
    if n < 10 {
        seq![digit_char(n)]
    } else {
        dec_chars(n / 10).push(digit_char(n % 10))
    }
}

/// The decimal digits of `n` left-padded with zeros to `width` characters
/// (or the plain digits where they are already at least that wide).
pub open spec fn dec_chars_padded(n: int, width: int) -> Seq<char> {
    if dec_chars(n).len() >= width {
        dec_chars(n)
    } else {
        Seq::new((width - dec_chars(n).len()) as nat, |_i: int| '0') + dec_chars(n)
    }
}

/// The fractional digits of a fixed-point value: `frac` rendered over
/// `width` places with the trailing zeros removed; empty when `frac` is zero.
pub open spec fn frac_chars(frac: int, width: int) -> Seq<char>
    decreases width,
{
    if frac <= 0 || width <= 0 {
        Seq::empty()
    } else if frac % 10 == 0 {
        frac_chars(frac / 10, width - 1)
    } else {
        dec_chars_padded(frac, width)
    }
}

/// The text of a fixed-point value with eighteen fractional places:
/// the whole part, then a point and the trimmed fraction where one exists.
pub open spec fn udec_chars(atomics: int) -> Seq<char> {
    if atomics % (DEC_ONE as int) == 0 {
        dec_chars(atomics / (DEC_ONE as int))
    } else {
        dec_chars(atomics / (DEC_ONE as int)) + seq!['.'] + frac_chars(
            atomics % (DEC_ONE as int),
            18,
        )
    }
}

/// Powers of ten.
pub open spec fn pow10(k: int) -> int
    decreases k,
{
    if k <= 0 {
        1
    } else {
        10 * pow10(k - 1)
    }
}

/// Relies on `u128`'s `Display` implementation: the decimal digits of the
/// value, most significant first, without sign or leading zeros.
#[verifier::external_body]
pub fn fmt_u128(n: u128) -> (r: String)
    ensures
        r@ == dec_chars(n as int),
{
    format!("{}", n)
}

/// Relies on the standard formatter's zero-fill alignment: the decimal
/// digits of the value left-padded with zeros to the given width.
#[verifier::external_body]
fn fmt_padded(n: u128, width: usize) -> (r: String)
    ensures
        r@ == dec_chars_padded(n as int, width as int),
{
    format!("{:0>1$}", n, width)
}

/// Renders a fixed-point value the way its whole-and-fraction text reads.
pub fn fmt_udec(d: &Udec) -> (r: String)
    ensures
        r@ == udec_chars(d.val()),
{
    let whole: u128 = d.atomics / DEC_ONE;
    let frac: u128 = d.atomics % DEC_ONE;
    if frac == 0 {
        fmt_u128(whole)
    } else {
        let mut f: u128 = frac;
        let mut width: usize = 18;
        proof {
            lemma_pow10_18();
        }
        while f % 10 == 0
            invariant
                f > 0,
                1 <= width <= 18,
                f < pow10(width as int),
                frac_chars(frac as int, 18) == frac_chars(f as int, width as int),
            decreases width,
        {
            proof {
                lemma_trailing_zero_step(f as int, width as int);
            }
            f = f / 10;
            width = width - 1;
        }
        let head = fmt_u128(whole).concat(".");
        let tail = fmt_padded(f, width);
        proof {
            reveal_strlit(".");
            assert(head@ + tail@ =~= udec_chars(d.val()));
        }
        head.concat(tail.as_str())
    }
}

proof fn lemma_pow10_18()
    ensures
        pow10(18) == 1_000_000_000_000_000_000,
{
    reveal_with_fuel(pow10, 19);
}

/// A positive multiple of ten is at least ten, so a digit can be stripped
/// and a width place given up while the value stays in range.
proof fn lemma_trailing_zero_step(f: int, width: int)
    requires
        f > 0,
        f % 10 == 0,
        1 <= width,
        f < pow10(width),
    ensures
        f / 10 > 0,
        width >= 2,
        f / 10 < pow10(width - 1),
{
    assert(f >= 10) by (nonlinear_arith)
        requires
            f > 0,
            f % 10 == 0,
    ;
    if width == 1 {
        assert(pow10(1) == 10);
        assert(false);
    }
    assert(pow10(width) == 10 * pow10(width - 1));
    assert(f / 10 < pow10(width - 1)) by (nonlinear_arith)
        requires
            f < 10 * pow10(width - 1),
            f % 10 == 0,
            f > 0,
    ;
}

} // verus!
