//! Errors a swap walk can end with.

use vstd::prelude::*;

verus! {

/// Why a swap could not be completed.
#[derive(Clone, Copy, Debug, PartialEq, Eq, Structural)]
pub enum SwapError {
    /// A minimum- or exact-return policy was not met by what came back.
    InsufficientReturn { expected: u128, returned: u128 },
    /// An offer had to be split over liquidity that sums to nothing.
    DivideByZero,
    /// An accumulated amount left the representable range.
    Overflow,
}

} // verus!
