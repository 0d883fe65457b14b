//! Batch reconciliation of one owner's orders.
//!
//! Given a list of `(premium, target)` pairs, each tier's order is brought
//! to its target size in caller-supplied order: realized proceeds are
//! claimed first (net of the maker fee, rounded up in the protocol's
//! favor), then the deposit is increased or retracted to the target, or a
//! new order is created. All fund movements net into one inbound and one
//! outbound balance; at the end the caller's funds are reduced by
//! everything required, and what remains is returned with the accrued
//! fees. Funds running short surfaces as the netting ledger's own
//! arithmetic error.

use vstd::prelude::*;

use crate::balance::Balance;
use crate::bid_pool::{sync_fits, sync_model, SumSnapshot};
use crate::error::ContractError;
use crate::events::{
    event_create_order, event_increase_order, event_retract_order, event_withdraw_order,
    order_event_matches,
};
use crate::exchange::swapper::Event;
use crate::math::{checked_mul_ratio_ceil, lemma_ratio_ceil_le, ratio_ceil, Udec, DEC_ONE};
use crate::order::Order;
use crate::pool::{order_written, pool_wf, tier_matches, Pool};
use crate::state::State;

verus! {

/// The pair of denominations a market trades: what bidders deposit, and
/// what they are bidding for.
#[derive(Debug)]
pub struct Denoms {
    pub bid: String,
    pub ask: String,
}

impl Denoms {
    pub open spec fn bid_spec(self) -> Seq<char> {
        self.bid@
    }

    pub open spec fn ask_spec(self) -> Seq<char> {
        self.ask@
    }

    /// Builds the pair as callers quote it: the asked token first, then
    /// the token bids are made in.
    pub fn new(ask: &str, bid: &str) -> (r: Denoms)
        ensures
            r.bid_spec() == bid@,
            r.ask_spec() == ask@,
    {
        Denoms { bid: bid.to_owned(), ask: ask.to_owned() }
    }

    pub fn bid(&self) -> (r: &String)
        ensures
            r@ == self.bid_spec(),
    {
        &self.bid
    }

    pub fn ask(&self) -> (r: &String)
        ensures
            r@ == self.ask_spec(),
    {
        &self.ask
    }
}

/// What a finished batch reports: funds to return to the owner, the fees
/// accrued, and the emitted events.
#[derive(Debug)]
pub struct ExecutionResult {
    pub withdraw: Balance,
    pub fees: Balance,
    pub events: Vec<Event>,
}

/// Reconciles one owner's orders across tiers in one settlement.
#[derive(Debug)]
pub struct OrderManager {
    pub denoms: Denoms,
    pub fee: Udec,
    pub max_premium: u8,
    pub owner: String,
    pub timestamp: u64,
    pub oracle: Udec,
    /// What the owner supplied, plus everything withdrawn and retracted.
    pub receive: Balance,
    /// What creating and increasing orders spends.
    pub send: Balance,
    pub fees: Balance,
    pub events: Vec<Event>,
}

/// A manager is sound when its balances are normalized and its fee is a
/// fraction.
pub open spec fn mgr_wf(m: OrderManager) -> bool {
    &&& m.receive.wf()
    &&& m.send.wf()
    &&& m.fees.wf()
    &&& m.max_premium <= 100
    &&& m.fee.val() <= DEC_ONE
    &&& m.denoms.bid_spec() != m.denoms.ask_spec()
}

/// The two managers agree on configuration.
pub open spec fn mgr_frame_fees(m0: OrderManager, m1: OrderManager) -> bool {
    &&& m1.denoms == m0.denoms
    &&& m1.fee == m0.fee
    &&& m1.max_premium == m0.max_premium
    &&& m1.owner@ == m0.owner@
    &&& m1.timestamp == m0.timestamp
    &&& m1.oracle == m0.oracle
    &&& m1.send == m0.send
}

/// The two managers agree on a step's fixed configuration, and the funds
/// ledger stays normalized.
pub open spec fn mgr_frame(m0: OrderManager, m1: OrderManager) -> bool {
    &&& m1.denoms == m0.denoms
    &&& m1.fee == m0.fee
    &&& m1.max_premium == m0.max_premium
    &&& m1.owner@ == m0.owner@
    &&& m1.timestamp == m0.timestamp
    &&& m1.oracle == m0.oracle
    &&& m1.receive.wf()
}

/// Whether `(st1, m1)` is what processing one `(premium, target)` entry
/// makes of `(st0, m0)`: proceeds claimed net of the maker fee, the
/// deposit brought exactly to the target, funds netted into the running
/// balances, and one tagged event per mutation.
pub open spec fn step_rel(
    st0: State,
    m0: OrderManager,
    premium: u8,
    target: u128,
    st1: State,
    m1: OrderManager,
) -> bool {
    &&& premium <= m0.max_premium
    &&& mgr_frame(m0, m1)
    &&& m1.send.wf() && m1.fees.wf()
    &&& st1.wf()
    &&& match st0.order(m0.owner@, premium) {
        None => {
            // A fresh order joins the tier with the full target.
            &&& m1.fees == m0.fees
            &&& (forall|d: Seq<char>|
                d != m0.denoms.bid_spec() ==> m1.send.get(d) == m0.send.get(d))
            &&& m1.send.get(m0.denoms.bid_spec()) == m0.send.get(m0.denoms.bid_spec()) + target
            &&& m1.events@.len() == m0.events@.len() + 1
            &&& (forall|i: int| 0 <= i < m0.events@.len() ==> #[trigger] m1.events@[i] == m0.events@[i])
            &&& order_event_matches(
                m1.events@.last(),
                "rujira-orca/order.create"@,
                m0.owner@,
                premium as int,
                "offer"@,
                target as int,
            )
            &&& tier_total(st1, premium) == tier_total(st0, premium) + target
            &&& tier_ledger(st1, premium) == tier_ledger(st0, premium)
            &&& (forall|q: u8| q != premium ==> st1.tier(q) == st0.tier(q))
            &&& saved_at_target(st1, m0.owner@, premium, m0.timestamp, target)
            &&& (forall|w: Seq<char>, q: u8|
                !(w == m0.owner@ && q == premium) ==> st1.order(w, q) == st0.order(w, q))
        },
        Some(rec) => {
            let ledger = tier_ledger(st0, premium);
            let synced = sync_model(
                rec.bid.deposited as int,
                rec.bid.filled as int,
                ledger,
                rec.bid.epoch_spec(),
                ledger.len() as int,
            );
            let dep = synced.0;
            let fill = synced.1;
            let fee = ratio_ceil(fill, m0.fee.val(), DEC_ONE as int);
            // Realized proceeds are claimed first, net of the maker fee.
            &&& (if fill > 0 {
                &&& m1.fees.get(m0.denoms.ask_spec()) == m0.fees.get(m0.denoms.ask_spec()) + fee
                &&& (forall|d: Seq<char>|
                    d != m0.denoms.ask_spec() ==> m1.fees.get(d) == m0.fees.get(d))
            } else {
                m1.fees == m0.fees
            })
            // Then the deposit is brought exactly to the target.
            &&& (if dep < target {
                &&& m1.send.get(m0.denoms.bid_spec()) == m0.send.get(m0.denoms.bid_spec()) + (
                target - dep)
                &&& (forall|d: Seq<char>|
                    d != m0.denoms.bid_spec() ==> m1.send.get(d) == m0.send.get(d))
            } else {
                m1.send == m0.send
            })
            &&& m1.events@.len() == m0.events@.len() + (if fill > 0 {
                1int
            } else {
                0int
            }) + (if dep == target {
                0int
            } else {
                1int
            })
            &&& (forall|i: int| 0 <= i < m0.events@.len() ==> #[trigger] m1.events@[i] == m0.events@[i])
            &&& (fill > 0 ==> order_event_matches(
                m1.events@[m0.events@.len() as int],
                "rujira-orca/order.withdraw"@,
                m0.owner@,
                premium as int,
                "amount"@,
                fill,
            ))
            &&& (dep < target ==> order_event_matches(
                m1.events@.last(),
                "rujira-orca/order.increase"@,
                m0.owner@,
                premium as int,
                "amount"@,
                target - dep,
            ))
            &&& (dep > target ==> order_event_matches(
                m1.events@.last(),
                "rujira-orca/order.retract"@,
                m0.owner@,
                premium as int,
                "amount"@,
                dep - target,
            ))
            &&& tier_total(st1, premium) == tier_total(st0, premium) + target - dep
            &&& tier_ledger(st1, premium) == tier_ledger(st0, premium)
            &&& (forall|q: u8| q != premium ==> st1.tier(q) == st0.tier(q))
            &&& (if fill == 0 && dep == target {
                // Nothing moved: the stored record is left as it was.
                st1.order(m0.owner@, premium) == st0.order(m0.owner@, premium)
            } else if dep == target {
                // Only proceeds were claimed: balances reconciled in
                // place, the caller-visible offer and timestamp kept.
                if target == 0 {
                    st1.order(m0.owner@, premium) is None
                } else {
                    st1.order(m0.owner@, premium) matches Some(r2) && r2.owner@ == m0.owner@
                        && r2.updated_at == rec.updated_at && r2.offer == rec.offer
                        && r2.bid.deposited == target && r2.bid.filled == 0
                }
            } else {
                saved_at_target(st1, m0.owner@, premium, m0.timestamp, target)
            })
            &&& (forall|w: Seq<char>, q: u8|
                !(w == m0.owner@ && q == premium) ==> st1.order(w, q) == st0.order(w, q))
        },
    }
}

/// The net amounts a step adds to the running "return to owner" balance:
/// claimed proceeds after the fee, and any retracted principal.
pub open spec fn step_receive(
    st0: State,
    m0: OrderManager,
    premium: u8,
    target: u128,
    m1: OrderManager,
) -> bool {
    match st0.order(m0.owner@, premium) {
        None => m1.receive == m0.receive,
        Some(rec) => {
            let ledger = tier_ledger(st0, premium);
            let synced = sync_model(
                rec.bid.deposited as int,
                rec.bid.filled as int,
                ledger,
                rec.bid.epoch_spec(),
                ledger.len() as int,
            );
            let dep = synced.0;
            let fill = synced.1;
            let fee = ratio_ceil(fill, m0.fee.val(), DEC_ONE as int);
            let from_claim = if fill > 0 {
                fill - fee
            } else {
                0
            };
            let from_retract = if dep > target {
                dep - target
            } else {
                0
            };
            &&& m1.receive.get(m0.denoms.ask_spec()) == m0.receive.get(m0.denoms.ask_spec())
                + from_claim
            &&& (m0.denoms.bid_spec() != m0.denoms.ask_spec() ==> m1.receive.get(
                m0.denoms.bid_spec(),
            ) == m0.receive.get(m0.denoms.bid_spec()) + from_retract)
            &&& (forall|d: Seq<char>|
                d != m0.denoms.ask_spec() && d != m0.denoms.bid_spec() ==> m1.receive.get(d)
                    == m0.receive.get(d))
        },
    }
}

/// A loaded pool agrees with the state: the tier's recorded aggregate and
/// ledger are exactly the pool's.
pub open spec fn pool_state_match(p: Pool, st: State) -> bool {
    match st.tier(p.premium) {
        Some(t) => t.pool == p.pool && t.snapshots@ == p.snapshots@,
        None => p.pool.total_spec() == 0 && p.pool.epoch_spec() == 0 && p.snapshots@.len() == 0,
    }
}

/// The tier's total deposit as recorded, zero for an unknown tier.
pub open spec fn tier_total(st: State, premium: u8) -> int {
    match st.tier(premium) {
        Some(t) => t.pool.total_spec(),
        None => 0,
    }
}

/// The tier's snapshot ledger as recorded, empty for an unknown tier.
pub open spec fn tier_ledger(st: State, premium: u8) -> Seq<SumSnapshot> {
    match st.tier(premium) {
        Some(t) => t.snapshots@,
        None => Seq::<SumSnapshot>::empty(),
    }
}

/// After a step the order stands exactly at its target, pruned when the
/// target was zero.
pub open spec fn saved_at_target(
    st: State,
    owner: Seq<char>,
    premium: u8,
    timestamp: u64,
    target: u128,
) -> bool {
    if target == 0 {
        st.order(owner, premium) is None
    } else {
        st.order(owner, premium) matches Some(rec) && rec.owner@ == owner && rec.premium == premium
            && rec.updated_at == timestamp && rec.offer == target && rec.bid.deposited == target
            && rec.bid.filled == 0
    }
}

/// Whether the whole batch relates `(st0, m0)` to `(st1, m1)`: each entry
/// in caller order steps the state and the accounting.
pub open spec fn steps_rel(
    st0: State,
    m0: OrderManager,
    entries: Seq<(u8, u128)>,
    st1: State,
    m1: OrderManager,
) -> bool
    decreases entries.len(),
{
    if entries.len() == 0 {
        st1 == st0 && m1 == m0
    } else {
        exists|mid_st: State, mid_m: OrderManager|
            {
                &&& #[trigger] step_rel(st0, m0, entries[0].0, entries[0].1, mid_st, mid_m)
                &&& step_receive(st0, m0, entries[0].0, entries[0].1, mid_m)
                &&& steps_rel(mid_st, mid_m, entries.skip(1), st1, m1)
            }
    }
}

/// Whether one `(premium, target)` entry can be processed from `(st, m)`
/// without failing: the tier key is in range, reconciling the stored
/// record stays representable, and every scaled amount and running sum
/// the step produces stays within range; a retraction must also be
/// covered by the tier's recorded deposit.
pub open spec fn step_ok(st: State, m: OrderManager, premium: u8, target: u128) -> bool {
    &&& premium <= m.max_premium
    &&& match st.order(m.owner@, premium) {
        None => {
            &&& tier_total(st, premium) + target <= u128::MAX
            &&& m.send.get(m.denoms.bid_spec()) + target <= u128::MAX
        },
        Some(rec) => {
            let ledger = tier_ledger(st, premium);
            &&& sync_fits(
                rec.bid.deposited as int,
                rec.bid.filled as int,
                ledger,
                rec.bid.epoch_spec(),
                ledger.len() as int,
            )
            &&& {
                let synced = sync_model(
                    rec.bid.deposited as int,
                    rec.bid.filled as int,
                    ledger,
                    rec.bid.epoch_spec(),
                    ledger.len() as int,
                );
                let dep = synced.0;
                let fill = synced.1;
                let fee = ratio_ceil(fill, m.fee.val(), DEC_ONE as int);
                &&& (fill > 0 ==> m.receive.get(m.denoms.ask_spec()) + (fill - fee) <= u128::MAX
                    && m.fees.get(m.denoms.ask_spec()) + fee <= u128::MAX)
                &&& (dep < target ==> tier_total(st, premium) + (target - dep) <= u128::MAX
                    && m.send.get(m.denoms.bid_spec()) + (target - dep) <= u128::MAX)
                &&& (dep > target ==> dep - target <= tier_total(st, premium) && m.receive.get(
                    m.denoms.bid_spec(),
                ) + (dep - target) <= u128::MAX)
            }
        },
    }
}

/// Whether every entry in turn can be processed, from whatever each prior
/// step leaves behind.
pub open spec fn steps_ok(st: State, m: OrderManager, entries: Seq<(u8, u128)>) -> bool
    decreases entries.len(),
{
    if entries.len() == 0 {
        true
    } else {
        step_ok(st, m, entries[0].0, entries[0].1) && forall|st1: State, m1: OrderManager|
            #[trigger] step_rel(st, m, entries[0].0, entries[0].1, st1, m1) && step_receive(
                st,
                m,
                entries[0].0,
                entries[0].1,
                m1,
            ) ==> steps_ok(st1, m1, entries.skip(1))
    }
}

/// Whether the owner's supplied and returned funds cover everything the
/// batch spends, denom by denom.
pub open spec fn covered(m: OrderManager) -> bool {
    forall|d: Seq<char>| #[trigger] m.send.get(d) <= m.receive.get(d)
}

impl OrderManager {
    /// A manager ready to process one owner's batch: the supplied funds
    /// credited, nothing yet spent, earned or emitted.
    pub fn new(
        denoms: Denoms,
        fee: Udec,
        max_premium: u8,
        owner: String,
        timestamp: u64,
        oracle: Udec,
        funds: Balance,
    ) -> (r: OrderManager)
        requires
            funds.wf(),
            max_premium <= 100,
            fee.val() <= DEC_ONE,
            denoms.bid_spec() != denoms.ask_spec(),
        ensures
            mgr_wf(r),
            r.denoms == denoms,
            r.fee == fee,
            r.max_premium == max_premium,
            r.owner == owner,
            r.timestamp == timestamp,
            r.oracle == oracle,
            r.receive == funds,
            r.send.entries@.len() == 0,
            r.fees.entries@.len() == 0,
            r.events@.len() == 0,
    {
        OrderManager {
            denoms,
            fee,
            max_premium,
            owner,
            timestamp,
            oracle,
            receive: funds,
            send: Balance::new(),
            fees: Balance::new(),
            events: Vec::new(),
        }
    }

    /// Claims an order's realized proceeds, if any: the maker fee, rounded
    /// up in the protocol's favor, accrues separately; the remainder joins
    /// the funds to return.
    fn maybe_withdraw(&mut self, st: &mut State, pool: &mut Pool, order: &mut Order) -> (r: Result<
        (),
        ContractError,
    >)
        requires
            old(st).wf(),
            mgr_wf(*old(self)),
            pool_wf(*old(pool)),
            old(pool).pending@.len() == 0,
            pool_state_match(*old(pool), *old(st)),
            old(order).bid.epoch_spec() == old(pool).pool.epoch_spec(),
        ensures
            final(st).wf(),
            mgr_wf(*final(self)),
            mgr_frame_fees(*old(self), *final(self)),
            *final(pool) == *old(pool),
            r matches Err(e) ==> e == ContractError::Overflow,
            r is Ok <==> ({
                let fill = old(order).bid.filled_spec();
                let fee = ratio_ceil(fill, old(self).fee.val(), DEC_ONE as int);
                fill == 0 || (old(self).receive.get(old(self).denoms.ask_spec()) + (fill - fee)
                    <= u128::MAX && old(self).fees.get(old(self).denoms.ask_spec()) + fee
                    <= u128::MAX)
            }),
            r matches Ok(()) ==> {
                let fill = old(order).bid.filled_spec();
                let fee = ratio_ceil(fill, old(self).fee.val(), DEC_ONE as int);
                &&& final(order).owner@ == old(order).owner@
                &&& final(order).updated_at == old(order).updated_at
                &&& final(order).offer == old(order).offer
                &&& final(order).bid.deposited_spec() == old(order).bid.deposited_spec()
                &&& final(order).bid.filled_spec() == 0
                &&& final(order).bid.epoch_spec() == old(order).bid.epoch_spec()
                &&& final(st).tiers@ == old(st).tiers@
                &&& (if fill > 0 {
                    &&& final(self).fees.get(old(self).denoms.ask_spec()) == old(self).fees.get(
                        old(self).denoms.ask_spec(),
                    ) + fee
                    &&& (forall|d: Seq<char>|
                        d != old(self).denoms.ask_spec() ==> final(self).fees.get(d) == old(
                            self,
                        ).fees.get(d))
                    &&& final(self).receive.get(old(self).denoms.ask_spec()) == old(
                        self,
                    ).receive.get(old(self).denoms.ask_spec()) + (fill - fee)
                    &&& (forall|d: Seq<char>|
                        d != old(self).denoms.ask_spec() ==> final(self).receive.get(d) == old(
                            self,
                        ).receive.get(d))
                    &&& final(self).events@.len() == old(self).events@.len() + 1
                    &&& (forall|i: int|
                        0 <= i < old(self).events@.len() ==> #[trigger] final(self).events@[i]
                            == old(self).events@[i])
                    &&& order_event_matches(
                        final(self).events@.last(),
                        "rujira-orca/order.withdraw"@,
                        old(order).owner@,
                        old(pool).premium as int,
                        "amount"@,
                        fill,
                    )
                    &&& order_written(
                        *final(order),
                        old(pool).premium,
                        *old(st),
                        *final(st),
                    )
                } else {
                    &&& *final(self) == *old(self)
                    &&& *final(st) == *old(st)
                    &&& *final(order) == *old(order)
                })
            },
    {
        if order.bid.filled() == 0 {
            return Ok(());
        }
        let amount = match pool.claim_order(st, order) {
            Ok(v) => v,
            Err(e) => {
                return Err(e);
            },
        };
        proof {
            lemma_ratio_ceil_le(amount as int, self.fee.val(), DEC_ONE as int);
        }
        let fee_amt: u128 = match checked_mul_ratio_ceil(amount, self.fee.atomics, DEC_ONE) {
            Some(f) => f,
            None => {
                proof {
                    assert(false);
                }
                return Err(ContractError::Overflow);
            },
        };
        match self.receive.add(self.denoms.ask(), amount - fee_amt) {
            Ok(()) => {},
            Err(e) => {
                return Err(e);
            },
        }
        match self.fees.add(self.denoms.ask(), fee_amt) {
            Ok(()) => {},
            Err(e) => {
                return Err(e);
            },
        }
        let ev = event_withdraw_order(pool, order, &amount);
        self.events.push(ev);
        Ok(())
    }

    /// Brings an existing, reconciled order to its target: claims first,
    /// then increases or retracts the difference.
    fn execute_existing_order(
        &mut self,
        st: &mut State,
        pool: &mut Pool,
        order: &mut Order,
        target: u128,
    ) -> (r: Result<(), ContractError>)
        requires
            old(st).wf(),
            mgr_wf(*old(self)),
            old(pool).premium <= old(self).max_premium,
            pool_wf(*old(pool)),
            old(pool).pending@.len() == 0,
            pool_state_match(*old(pool), *old(st)),
            old(order).bid.epoch_spec() == old(pool).pool.epoch_spec(),
            old(st).order(old(self).owner@, old(pool).premium) matches Some(rec) && {
                let ledger = tier_ledger(*old(st), old(pool).premium);
                let synced = sync_model(
                    rec.bid.deposited as int,
                    rec.bid.filled as int,
                    ledger,
                    rec.bid.epoch_spec(),
                    ledger.len() as int,
                );
                &&& sync_fits(
                    rec.bid.deposited as int,
                    rec.bid.filled as int,
                    ledger,
                    rec.bid.epoch_spec(),
                    ledger.len() as int,
                )
                &&& old(order).owner@ == old(self).owner@
                &&& old(order).updated_at == rec.updated_at
                &&& old(order).offer == rec.offer
                &&& old(order).bid.deposited_spec() == synced.0
                &&& old(order).bid.filled_spec() == synced.1
            },
            old(self).timestamp == old(self).timestamp,
        ensures
            final(st).wf(),
            mgr_wf(*final(self)),
            r matches Err(e) ==> e == ContractError::Overflow,
            r is Ok <==> step_ok(*old(st), *old(self), old(pool).premium, target),
            r matches Ok(()) ==> step_rel(
                *old(st),
                *old(self),
                old(pool).premium,
                target,
                *final(st),
                *final(self),
            ) && step_receive(*old(st), *old(self), old(pool).premium, target, *final(self)),
    {
        let ghost st0 = *st;
        let ghost m0 = *self;
        let ghost premium = old(pool).premium;
        let ghost rec = old(st).order(old(self).owner@, old(pool).premium)->0;
        let ghost ledger = tier_ledger(st0, premium);
        let ghost synced = sync_model(
            rec.bid.deposited as int,
            rec.bid.filled as int,
            ledger,
            rec.bid.epoch_spec(),
            ledger.len() as int,
        );
        proof {
            assert(ledger == old(pool).snapshots@);
        }
        match self.maybe_withdraw(st, pool, order) {
            Ok(()) => {},
            Err(e) => {
                return Err(e);
            },
        }
        let ghost st_w = *st;
        let ghost m_w = *self;
        let ghost ord_w = *order;
        proof {
            assert(st_w.tier(premium) == st0.tier(premium));
            assert(tier_matches(*pool, st_w));
        }
        let amount = order.amount();
        if amount < target {
            let diff = target - amount;
            let got = match pool.increase_order(st, order, self.timestamp, diff) {
                Ok(v) => v,
                Err(e) => {
                    return Err(e);
                },
            };
            match self.send.add(self.denoms.bid(), got) {
                Ok(()) => {},
                Err(e) => {
                    return Err(e);
                },
            }
            let ev = event_increase_order(pool, order, &diff);
            let ghost ev_pre = self.events@;
            self.events.push(ev);
            proof {
                assert(self.events@.drop_last() =~= ev_pre);
                lemma_step_events(m0.events@, m_w.events@, self.events@);
                assert(tier_total(*st, premium) == tier_total(st0, premium) + target - synced.0);
                assert(tier_ledger(*st, premium) =~= ledger);
                assert(step_rel(st0, m0, premium, target, *st, *self));
                assert(step_receive(st0, m0, premium, target, *self));
            }
        } else if amount > target {
            let diff = amount - target;
            let got = match pool.retract_order(st, order, self.timestamp, Some(diff)) {
                Ok(v) => v,
                Err(e) => {
                    return Err(e);
                },
            };
            match self.receive.add(self.denoms.bid(), got) {
                Ok(()) => {},
                Err(e) => {
                    return Err(e);
                },
            }
            let ev = event_retract_order(pool, order, &diff);
            let ghost ev_pre = self.events@;
            self.events.push(ev);
            proof {
                assert(self.events@.drop_last() =~= ev_pre);
                lemma_step_events(m0.events@, m_w.events@, self.events@);
                assert(tier_total(*st, premium) == tier_total(st0, premium) + target - synced.0);
                assert(tier_ledger(*st, premium) =~= ledger);
                assert(step_rel(st0, m0, premium, target, *st, *self));
                assert(step_receive(st0, m0, premium, target, *self));
            }
        } else {
            proof {
                assert(tier_total(*st, premium) == tier_total(st0, premium));
                assert(step_rel(st0, m0, premium, target, *st, *self));
                assert(step_receive(st0, m0, premium, target, *self));
            }
        }
        Ok(())
    }

    /// Opens a new order at the target size; the full amount is owed by
    /// the owner.
    fn execute_new_order(&mut self, st: &mut State, pool: &mut Pool, target: u128) -> (r: Result<
        (),
        ContractError,
    >)
        requires
            old(st).wf(),
            mgr_wf(*old(self)),
            old(pool).premium <= old(self).max_premium,
            pool_wf(*old(pool)),
            old(pool).pending@.len() == 0,
            pool_state_match(*old(pool), *old(st)),
            old(st).order(old(self).owner@, old(pool).premium) is None,
        ensures
            final(st).wf(),
            mgr_wf(*final(self)),
            r matches Err(e) ==> e == ContractError::Overflow,
            r is Ok <==> step_ok(*old(st), *old(self), old(pool).premium, target),
            r matches Ok(()) ==> step_rel(
                *old(st),
                *old(self),
                old(pool).premium,
                target,
                *final(st),
                *final(self),
            ) && step_receive(*old(st), *old(self), old(pool).premium, target, *final(self)),
    {
        let ghost st0 = *st;
        let ghost m0 = *self;
        let ghost premium = old(pool).premium;
        let order = match pool.create_order(st, self.timestamp, &self.owner, target) {
            Ok(o) => o,
            Err(e) => {
                return Err(e);
            },
        };
        let amt = order.amount();
        match self.send.add(self.denoms.bid(), amt) {
            Ok(()) => {},
            Err(e) => {
                return Err(e);
            },
        }
        let ev = event_create_order(pool, &order);
        let ghost ev_pre = self.events@;
        self.events.push(ev);
        proof {
            assert(self.events@.drop_last() =~= ev_pre);
            assert forall|i: int| 0 <= i < m0.events@.len() implies #[trigger] self.events@[i]
                == m0.events@[i] by {
                assert(self.events@[i] == self.events@.drop_last()[i]);
            }
            assert(tier_total(*st, premium) == tier_total(st0, premium) + target);
            assert(tier_ledger(*st, premium) =~= tier_ledger(st0, premium));
            assert(step_rel(st0, m0, premium, target, *st, *self));
            assert(step_receive(st0, m0, premium, target, *self));
        }
        Ok(())
    }

    /// Processes the batch in caller order, then nets everything spent
    /// against the supplied and returned funds. Succeeds whenever every
    /// entry can be processed and the owner's funds cover everything the
    /// batch spends; fails on a tier key beyond the configured bound —
    /// naming the first such entry — on amounts leaving the representable
    /// range, and on funds running short, which surfaces as the netting
    /// ledger's own arithmetic error. Nothing is reported on failure, and
    /// the host discards the partial state.
    pub fn execute_orders(&mut self, st: &mut State, o: Vec<(u8, u128)>) -> (r: Result<
        ExecutionResult,
        ContractError,
    >)
        requires
            old(st).wf(),
            mgr_wf(*old(self)),
        ensures
            r matches Ok(res) ==> {
                &&& final(st).wf()
                &&& res.withdraw.wf()
                &&& res.fees.wf()
                &&& exists|m1: OrderManager|
                    {
                        &&& #[trigger] steps_rel(*old(st), *old(self), o@, *final(st), m1)
                        &&& res.fees == m1.fees
                        &&& res.events@ == m1.events@
                        &&& (forall|d: Seq<char>|
                            #[trigger] res.withdraw.get(d) == m1.receive.get(d) - m1.send.get(d))
                    }
            },
            r matches Err(e) ==> (e is InvalidPremium || e == ContractError::Overflow),
            r matches Err(e) ==> (e is InvalidPremium ==> exists|i: int|
                0 <= i < o@.len() && (#[trigger] o@[i]).0 > old(self).max_premium && e == (
                ContractError::InvalidPremium { premium: o@[i].0 }) && (forall|j: int|
                    0 <= j < i ==> o@[j].0 <= old(self).max_premium)),
            (steps_ok(*old(st), *old(self), o@) && (forall|st1: State, m1: OrderManager|
                #[trigger] steps_rel(*old(st), *old(self), o@, st1, m1) ==> covered(m1)))
                ==> r is Ok,
    {
        let ghost st_start = *st;
        let ghost m_start = *self;
        let n = o.len();
        let mut idx: usize = 0;
        proof {
            assert(o@.skip(0) =~= o@);
        }
        while idx < n
            invariant
                n == o@.len(),
                0 <= idx <= n,
                st.wf(),
                mgr_wf(*self),
                st_start == *old(st),
                m_start == *old(self),
                self.max_premium == old(self).max_premium,
                forall|j: int| 0 <= j < idx ==> (#[trigger] o@[j]).0 <= old(self).max_premium,
                steps_rel(st_start, m_start, o@.take(idx as int), *st, *self),
                steps_ok(st_start, m_start, o@) ==> steps_ok(*st, *self, o@.skip(idx as int)),
            decreases n - idx,
        {
            let ghost st_pre = *st;
            let ghost m_pre = *self;
            let (premium, target) = o[idx];
            proof {
                assert(o@.skip(idx as int)[0] == o@[idx as int]);
                assert(o@.skip(idx as int).skip(1) =~= o@.skip(idx + 1));
            }
            if premium > self.max_premium {
                proof {
                    assert(o@[idx as int].0 == premium);
                    if steps_ok(st_start, m_start, o@) {
                        assert(step_ok(st_pre, m_pre, premium, target));
                        assert(false);
                    }
                }
                return Err(ContractError::InvalidPremium { premium });
            }
            let mut pool = Pool::load(st, premium, &self.oracle);
            match pool.load_order(st, &self.owner) {
                Ok(mut order) => {
                    proof {
                        crate::state::lemma_order_some_fields(st.orders@, self.owner@, premium);
                        assert(pool.snapshots@ == tier_ledger(st_pre, premium));
                    }
                    match self.execute_existing_order(st, &mut pool, &mut order, target) {
                        Ok(()) => {},
                        Err(e) => {
                            proof {
                                if steps_ok(st_start, m_start, o@) {
                                    assert(step_ok(st_pre, m_pre, premium, target));
                                    assert(false);
                                }
                            }
                            return Err(e);
                        },
                    }
                },
                Err(ContractError::NotFound) => {
                    match self.execute_new_order(st, &mut pool, target) {
                        Ok(()) => {},
                        Err(e) => {
                            proof {
                                if steps_ok(st_start, m_start, o@) {
                                    assert(step_ok(st_pre, m_pre, premium, target));
                                    assert(false);
                                }
                            }
                            return Err(e);
                        },
                    }
                },
                Err(_) => {
                    proof {
                        if steps_ok(st_start, m_start, o@) {
                            assert(step_ok(st_pre, m_pre, premium, target));
                            assert(pool.snapshots@ == tier_ledger(st_pre, premium));
                            assert(false);
                        }
                    }
                    return Err(ContractError::Overflow);
                },
            }
            proof {
                assert(step_rel(st_pre, m_pre, premium, target, *st, *self));
                assert(step_receive(st_pre, m_pre, premium, target, *self));
                lemma_steps_rel_snoc(st_start, m_start, o@, idx as int, st_pre, m_pre, *st, *self);
            }
            idx = idx + 1;
        }
        proof {
            assert(o@.take(n as int) =~= o@);
        }
        let ghost m1 = *self;
        let spent = self.send.entries.len();
        let mut k: usize = 0;
        while k < spent
            invariant
                spent == self.send.entries@.len(),
                0 <= k <= spent,
                self.receive.wf(),
                self.send == m1.send,
                self.fees == m1.fees,
                self.events == m1.events,
                mgr_wf(m1),
                st_start == *old(st),
                m_start == *old(self),
                steps_rel(st_start, m_start, o@, *st, m1),
                forall|j: int|
                    0 <= j < k ==> #[trigger] self.receive.get(m1.send.entries@[j].0@)
                        == m1.receive.get(m1.send.entries@[j].0@) - m1.send.entries@[j].1,
                forall|d: Seq<char>|
                    (forall|j: int| 0 <= j < k ==> (#[trigger] m1.send.entries@[j]).0@ != d)
                        ==> #[trigger] self.receive.get(d) == m1.receive.get(d),
            decreases spent - k,
        {
            let (denom, amt) = (self.send.entries[k].0.clone(), self.send.entries[k].1);
            let ghost dd = m1.send.entries@[k as int].0@;
            proof {
                assert forall|j: int| 0 <= j < k implies (#[trigger] m1.send.entries@[j]).0@ != dd
                    by {
                    assert(m1.send.entries@[j].0@ != m1.send.entries@[k as int].0@);
                }
                assert(self.receive.get(dd) == m1.receive.get(dd));
            }
            match self.receive.sub(&denom, amt) {
                Ok(()) => {},
                Err(e) => {
                    proof {
                        assert(denom@ == dd);
                        assert(amt as int > m1.receive.get(dd));
                        crate::balance::lemma_bal_unique_get(m1.send.entries@, k as int, dd);
                        assert(m1.send.get(dd) == m1.send.entries@[k as int].1 as int);
                        assert(m1.send.get(dd) > m1.receive.get(dd));
                        assert(!covered(m1));
                        assert(steps_rel(st_start, m_start, o@, *st, m1));
                    }
                    return Err(e);
                },
            }
            proof {
                assert forall|d: Seq<char>|
                    (forall|j: int| 0 <= j < k + 1 ==> (#[trigger] m1.send.entries@[j]).0@ != d)
                        implies #[trigger] self.receive.get(d) == m1.receive.get(d) by {
                    assert(m1.send.entries@[k as int].0@ != d);
                }
                assert forall|j: int| 0 <= j < k + 1 implies #[trigger] self.receive.get(
                    m1.send.entries@[j].0@,
                ) == m1.receive.get(m1.send.entries@[j].0@) - m1.send.entries@[j].1 by {
                    if j < k {
                        assert(m1.send.entries@[j].0@ != dd);
                    }
                }
            }
            k = k + 1;
        }
        proof {
            assert forall|d: Seq<char>| #[trigger] self.receive.get(d) == m1.receive.get(d)
                - m1.send.get(d) by {
                if exists|j: int|
                    0 <= j < m1.send.entries@.len() && (#[trigger] m1.send.entries@[j]).0@ == d {
                    let j = choose|j: int|
                        0 <= j < m1.send.entries@.len() && (#[trigger] m1.send.entries@[j]).0@
                            == d;
                    crate::balance::lemma_bal_unique_get(m1.send.entries@, j, d);
                } else {
                    assert forall|j: int| 0 <= j < m1.send.entries@.len() implies (
                    #[trigger] m1.send.entries@[j]).0@ != d by {}
                    crate::balance::lemma_bal_absent_pub(m1.send.entries@, d);
                }
            }
        }
        let mut withdraw = Balance::new();
        core::mem::swap(&mut self.receive, &mut withdraw);
        let mut fees_out = Balance::new();
        core::mem::swap(&mut self.fees, &mut fees_out);
        let mut events: Vec<Event> = Vec::new();
        core::mem::swap(&mut self.events, &mut events);
        Ok(ExecutionResult { withdraw, fees: fees_out, events })
    }
}

/// A prefix kept through one append is kept through the next.
pub proof fn lemma_step_events(base: Seq<Event>, mid: Seq<Event>, fin: Seq<Event>)
    requires
        base.len() <= mid.len(),
        forall|i: int| 0 <= i < base.len() ==> #[trigger] mid[i] == base[i],
        fin.len() == mid.len() + 1,
        fin.drop_last() == mid,
    ensures
        forall|i: int| 0 <= i < base.len() ==> #[trigger] fin[i] == base[i],
        base.len() < mid.len() ==> fin[base.len() as int] == mid[base.len() as int],
        fin.last() == fin[fin.len() - 1],
{
    assert forall|i: int| 0 <= i < base.len() implies #[trigger] fin[i] == base[i] by {
        assert(fin[i] == fin.drop_last()[i]);
    }
    if base.len() < mid.len() {
        assert(fin[base.len() as int] == fin.drop_last()[base.len() as int]);
    }
}

/// One more related step extends the chain.
pub proof fn lemma_steps_rel_snoc(
    st0: State,
    m0: OrderManager,
    entries: Seq<(u8, u128)>,
    i: int,
    st_mid: State,
    m_mid: OrderManager,
    st1: State,
    m1: OrderManager,
)
    requires
        0 <= i < entries.len(),
        steps_rel(st0, m0, entries.take(i), st_mid, m_mid),
        step_rel(st_mid, m_mid, entries[i].0, entries[i].1, st1, m1),
        step_receive(st_mid, m_mid, entries[i].0, entries[i].1, m1),
    ensures
        steps_rel(st0, m0, entries.take(i + 1), st1, m1),
    decreases i,
{
    if i == 0 {
        assert(entries.take(0).len() == 0);
        assert(st_mid == st0 && m_mid == m0);
        assert(entries.take(1)[0] == entries[0]);
        assert(entries.take(1).skip(1) =~= entries.take(0));
        assert(steps_rel(st1, m1, entries.take(1).skip(1), st1, m1));
        assert(step_rel(st0, m0, entries.take(1)[0].0, entries.take(1)[0].1, st1, m1)
            && step_receive(st0, m0, entries.take(1)[0].0, entries.take(1)[0].1, m1) && steps_rel(
            st1,
            m1,
            entries.take(1).skip(1),
            st1,
            m1,
        ));
    } else {
        let pfx = entries.take(i);
        let w = choose|mid_st: State, mid_m: OrderManager|
            {
                &&& #[trigger] step_rel(st0, m0, pfx[0].0, pfx[0].1, mid_st, mid_m)
                &&& step_receive(st0, m0, pfx[0].0, pfx[0].1, mid_m)
                &&& steps_rel(mid_st, mid_m, pfx.skip(1), st_mid, m_mid)
            };
        assert(pfx[0] == entries[0]);
        assert(pfx.skip(1) =~= entries.skip(1).take(i - 1));
        assert(entries.skip(1)[i - 1] == entries[i]);
        lemma_steps_rel_snoc(w.0, w.1, entries.skip(1), i - 1, st_mid, m_mid, st1, m1);
        assert(entries.take(i + 1)[0] == entries[0]);
        assert(entries.take(i + 1).skip(1) =~= entries.skip(1).take(i));
        assert(step_rel(st0, m0, entries.take(i + 1)[0].0, entries.take(i + 1)[0].1, w.0, w.1)
            && step_receive(st0, m0, entries.take(i + 1)[0].0, entries.take(i + 1)[0].1, w.1)
            && steps_rel(w.0, w.1, entries.take(i + 1).skip(1), st1, m1));
    }
}

} // verus!
