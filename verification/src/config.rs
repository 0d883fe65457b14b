//! The exchange's configuration: its denominations, its tier bound, its
//! fees and where they go.

use vstd::prelude::*;

use crate::math::{Udec, DEC_ONE};
use crate::order_manager::Denoms;

verus! {

#[derive(Debug)]
pub struct Config {
    pub denoms: Denoms,
    pub executor: String,
    pub max_premium: u8,
    pub fee_maker: Udec,
    pub fee_taker: Udec,
    pub fee_address: String,
}

/// A configuration the core accepts: tier keys within range, fees that
/// are fractions, distinct denominations.
pub open spec fn config_wf(c: Config) -> bool {
    &&& c.max_premium <= 100
    &&& c.fee_maker.val() <= DEC_ONE
    &&& c.fee_taker.val() <= DEC_ONE
    &&& c.denoms.bid_spec() != c.denoms.ask_spec()
}

impl Config {
    /// Rejects a configuration the core cannot run with.
    pub fn validate(&self) -> (r: Result<(), ()>)
        ensures
            r is Ok <==> config_wf(*self),
    {
        if self.max_premium > 100 {
            return Err(());
        }
        if self.fee_maker.atomics > DEC_ONE || self.fee_taker.atomics > DEC_ONE {
            return Err(());
        }
        let b = self.denoms.bid();
        let a = self.denoms.ask();
        if *b == *a {
            return Err(());
        }
        Ok(())
    }

    /// Applies a privileged parameter update: each given field replaces
    /// the recorded one, everything else stays.
    pub fn update(
        &mut self,
        fee_taker: Option<Udec>,
        fee_maker: Option<Udec>,
        fee_address: Option<String>,
    ) -> (r: ())
        ensures
            final(self).fee_taker == (match fee_taker {
                Some(v) => v,
                None => old(self).fee_taker,
            }),
            final(self).fee_maker == (match fee_maker {
                Some(v) => v,
                None => old(self).fee_maker,
            }),
            (match fee_address {
                Some(v) => final(self).fee_address@ == v@,
                None => final(self).fee_address == old(self).fee_address,
            }),
            final(self).denoms == old(self).denoms,
            final(self).executor == old(self).executor,
            final(self).max_premium == old(self).max_premium,
    {
        match fee_taker {
            Some(v) => {
                self.fee_taker = v;
            },
            None => {},
        }
        match fee_maker {
            Some(v) => {
                self.fee_maker = v;
            },
            None => {},
        }
        match fee_address {
            Some(v) => {
                self.fee_address = v;
            },
            None => {},
        }
    }
}

} // verus!
