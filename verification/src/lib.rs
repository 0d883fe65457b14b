//! A price-tiered, pro-rata settlement exchange.
//!
//! Resting liquidity is grouped into discrete price tiers keyed by a
//! premium off an oracle price; incoming trade volume is matched against
//! the tiers best-price-first and distributed across each tier's
//! depositors proportionally, without touching every depositor's record
//! on every trade. The swap driver walks any ordered sequence of
//! liquidity sources under a settlement policy, and the order manager
//! reconciles one owner's targets across many tiers in a single netted
//! settlement.

pub mod balance;
pub mod bid_pool;
pub mod config;
pub mod contract;
pub mod credit;
pub mod error;
pub mod events;
pub mod exchange;
pub mod fmt;
pub mod math;
pub mod merge;
pub mod order;
pub mod order_manager;
pub mod pool;
pub mod premium;
pub mod state;
pub mod tick;
