//! The errors an invocation can end with. Every kind is terminal: the
//! whole invocation aborts and nothing is committed.

use vstd::prelude::*;

use crate::bid_pool::BidPoolError;
use crate::exchange::error::SwapError;

verus! {

#[derive(Clone, Copy, Debug, PartialEq, Eq, Structural)]
pub enum ContractError {
    /// A position or tier lookup found nothing.
    NotFound,
    /// A tier key outside the configured range was rejected before any
    /// mutation.
    InvalidPremium { premium: u8 },
    /// An amount left the representable range during scaling or netting;
    /// this is also how owner-supplied funds running short surfaces.
    Overflow,
    /// A swap walk failed its policy.
    InsufficientReturn { expected: u128, returned: u128 },
    /// The caller lacks the required role.
    Unauthorized,
}

impl ContractError {
    /// Folds a pool-accounting error into a contract error.
    pub fn from_bid_pool(e: BidPoolError) -> (r: ContractError)
        ensures
            r == ContractError::Overflow,
    {
        match e {
            BidPoolError::Overflow => ContractError::Overflow,
        }
    }

    /// Folds a swap-walk error into a contract error.
    pub fn from_swap(e: SwapError) -> (r: ContractError)
        ensures
            r == (match e {
                SwapError::InsufficientReturn { expected, returned } => (
                ContractError::InsufficientReturn { expected, returned }),
                SwapError::DivideByZero => ContractError::Overflow,
                SwapError::Overflow => ContractError::Overflow,
            }),
    {
        match e {
            SwapError::InsufficientReturn { expected, returned } => {
                ContractError::InsufficientReturn { expected, returned }
            },
            SwapError::DivideByZero => ContractError::Overflow,
            SwapError::Overflow => ContractError::Overflow,
        }
    }
}

} // verus!
