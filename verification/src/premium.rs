//! Premium levels and their exchange rates.
//!
//! A tier is keyed by a discrete premium: the percentage knocked off the
//! oracle price that a bidder at that tier accepts. Premium `p` trades at
//! `oracle * (100 - p) / 100`, floored to fixed-point.

use vstd::prelude::*;

use crate::math::{lemma_ratio_floor_le, mul_ratio_floor, ratio_floor, Udec};

verus! {

/// The rate a premium level trades at against an oracle price.
pub open spec fn premium_rate(premium: int, oracle: int) -> int {
    ratio_floor(oracle, 100 - premium, 100)
}

/// A discrete price-tier key that maps to an exchange rate.
pub trait Premium {
    /// The premium as a number.
    spec fn premium_val(&self) -> int;

    /// The exchange rate this premium level trades at.
    fn to_rate(&self, oracle: &Udec) -> (r: Udec)
        requires
            0 <= self.premium_val() <= 100,
        ensures
            r.val() == premium_rate(self.premium_val(), oracle.val()),
    ;
}

impl Premium for u8 {
    open spec fn premium_val(&self) -> int {
        *self as int
    }

    fn to_rate(&self, oracle: &Udec) -> (r: Udec) {
        proof {
            lemma_ratio_floor_le(oracle.val(), 100 - *self as int, 100);
        }
        Udec::new(mul_ratio_floor(oracle.atomics, (100 - *self) as u128, 100))
    }
}

} // verus!
