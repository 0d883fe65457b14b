//! A price tier as a liquidity source: the settlement pool wrapped with
//! its premium key and exchange rate, for keying orders and for walking
//! during swap execution.
//!
//! A loaded pool carries the tier's committed snapshot ledger and collects
//! the snapshots of uncommitted distributions separately; committing
//! persists the aggregate pool and appends the pending snapshots to the
//! tier's ledger. A tier emptied of deposits leaves the active index but
//! its accounting state is retained, so bids against it can still be
//! reconciled later.

use vstd::prelude::*;

use crate::bid_pool;
use crate::bid_pool::{dist_cb, dist_co, dist_noop, ledger_wf, Bid, SumSnapshot};
use crate::error::ContractError;
use crate::exchange::commitment::Commitment;
use crate::exchange::error::SwapError;
use crate::exchange::swappable::Swappable;
use crate::fmt::fmt_u128;
use crate::math::Udec;
use crate::order::Order;
use crate::premium::{premium_rate, Premium};
use crate::state::{
    lemma_tier_push, lemma_tier_update, tier_wf, OrderRecord, State, TierEntry,
};

verus! {

/// A price tier ready to trade: the aggregate pool, its committed ledger,
/// and any distributions not yet persisted.
#[derive(Debug)]
pub struct Pool {
    pub premium: u8,
    pub rate: Udec,
    pub pool: bid_pool::Pool,
    pub snapshots: Vec<SumSnapshot>,
    pub pending: Vec<SumSnapshot>,
}

/// A pool is sound when its combined ledger is, the aggregate has seen
/// exactly the combined epochs, and its premium is a valid tier key.
pub open spec fn pool_wf(p: Pool) -> bool {
    &&& ledger_wf(p.snapshots@ + p.pending@)
    &&& p.pool.epoch_spec() == p.snapshots@.len() + p.pending@.len()
    &&& p.premium <= 100
}

/// Whether a pool is exactly what loading this premium from this state
/// yields.
pub open spec fn loaded_from(p: Pool, st: State, premium: u8, oracle: int) -> bool {
    &&& p.premium == premium
    &&& p.rate.val() == premium_rate(premium as int, oracle)
    &&& p.pending@ =~= Seq::<SumSnapshot>::empty()
    &&& match st.tier(premium) {
        Some(t) => p.pool == t.pool && p.snapshots@ == t.snapshots@,
        None => p.pool == (bid_pool::Pool { total: 0, epoch: 0 }) && p.snapshots@ =~= Seq::<
            SumSnapshot,
        >::empty(),
    }
}

/// Whether a state is the given one with this pool's tier persisted: the
/// aggregate saved and the pending snapshots appended to the ledger.
pub open spec fn committed_into(p: Pool, st: State, post: State) -> bool {
    &&& post.orders@ == st.orders@
    &&& match post.tier(p.premium) {
        Some(t) => t.premium == p.premium && t.pool == p.pool && t.snapshots@ == p.snapshots@
            + p.pending@,
        None => false,
    }
    &&& forall|q: u8| q != p.premium ==> post.tier(q) == st.tier(q)
}

impl Pool {
    /// Loads a tier's accounting for a premium, deriving its rate from the
    /// oracle price; an unknown tier starts empty.
    pub fn load(st: &State, premium: u8, oracle: &Udec) -> (r: Pool)
        requires
            st.wf(),
            premium <= 100,
        ensures
            loaded_from(r, *st, premium, oracle.val()),
            pool_wf(r),
    {
        let rate = premium.to_rate(oracle);
        match st.tier_index(premium) {
            Some(i) => {
                let entry = &st.tiers[i];
                let r = Pool {
                    premium,
                    rate,
                    pool: entry.pool,
                    snapshots: copy_snapshots(&entry.snapshots),
                    pending: Vec::new(),
                };
                proof {
                    assert(r.snapshots@ + r.pending@ =~= r.snapshots@);
                }
                r
            },
            None => {
                let r = Pool {
                    premium,
                    rate,
                    pool: bid_pool::Pool::new(),
                    snapshots: Vec::new(),
                    pending: Vec::new(),
                };
                proof {
                    assert(r.snapshots@ + r.pending@ =~= r.snapshots@);
                }
                r
            },
        }
    }

    /// Loads every active tier, best rate first: ascending premium.
    pub fn iter(st: &State, oracle: &Udec) -> (r: Vec<Pool>)
        requires
            st.wf(),
        ensures
            forall|i: int|
                0 <= i < r@.len() ==> loaded_from(
                    #[trigger] r@[i],
                    *st,
                    r@[i].premium,
                    oracle.val(),
                ) && pool_wf(r@[i]) && st.active(r@[i].premium),
            forall|i: int, j: int| 0 <= i < j < r@.len() ==> r@[i].premium < r@[j].premium,
            forall|p: u8| st.active(p) ==> exists|i: int| 0 <= i < r@.len() && (#[trigger] r@[i]).premium == p,
    {
        let mut out: Vec<Pool> = Vec::new();
        let mut p: u16 = 0;
        while p < 256
            invariant
                st.wf(),
                0 <= p <= 256,
                forall|i: int|
                    0 <= i < out@.len() ==> loaded_from(
                        #[trigger] out@[i],
                        *st,
                        out@[i].premium,
                        oracle.val(),
                    ) && pool_wf(out@[i]) && st.active(out@[i].premium),
                forall|i: int, j: int| 0 <= i < j < out@.len() ==> out@[i].premium < out@[j].premium,
                forall|i: int| 0 <= i < out@.len() ==> (#[trigger] out@[i]).premium < p,
                forall|q: u8|
                    q < p && st.active(q) ==> exists|i: int|
                        0 <= i < out@.len() && (#[trigger] out@[i]).premium == q,
            decreases 256 - p,
        {
            let key: u8 = p as u8;
            match st.tier_index(key) {
                Some(i) => {
                    if st.tiers[i].pool.total() > 0 && key <= 100 {
                        let ghost pre = out@;
                        out.push(Pool::load(st, key, oracle));
                        proof {
                            assert(out@.drop_last() =~= pre);
                            assert(out@.last().premium == key);
                            assert forall|a: int| 0 <= a < out@.len() implies (
                            #[trigger] out@[a]).premium < p + 1 by {
                                if a < out@.len() - 1 {
                                    assert(out@[a] == pre[a]);
                                }
                            }
                        }
                    }
                },
                None => {},
            }
            proof {
                assert forall|q: u8| q < p + 1 && st.active(q) implies exists|i: int|
                    0 <= i < out@.len() && (#[trigger] out@[i]).premium == q by {
                    if q < p {
                        let i0 = choose|i: int|
                            0 <= i < out@.len() && (#[trigger] out@[i]).premium == q;
                        assert(0 <= i0 < out@.len() && out@[i0].premium == q);
                    } else {
                        assert(q == key);
                        assert(st.wf());
                        assert(out@[out@.len() - 1].premium == q);
                    }
                }
            }
            p = p + 1;
        }
        out
    }

    /// Opens a new order at this tier: joins the pool with the offered
    /// amount, persists the tier, and saves the order. Fails only when
    /// the tier's aggregate would leave the representable range, and then
    /// changes nothing.
    pub fn create_order(
        &mut self,
        st: &mut State,
        timestamp: u64,
        owner: &String,
        offer: u128,
    ) -> (r: Result<Order, ContractError>)
        requires
            old(st).wf(),
            pool_wf(*old(self)),
            old(self).pending@.len() == 0,
            tier_matches(*old(self), *old(st)),
        ensures
            final(st).wf(),
            r is Ok <==> old(self).pool.total_spec() + offer <= u128::MAX,
            r matches Err(e) ==> e == ContractError::Overflow && *final(self) == *old(self)
                && *final(st) == *old(st),
            r matches Ok(o) ==> {
                &&& o.owner@ == owner@
                &&& o.updated_at == timestamp
                &&& o.offer == offer
                &&& o.bid == (Bid {
                    deposited: offer,
                    filled: 0,
                    epoch: old(self).pool.epoch,
                })
                &&& final(self).pool.total_spec() == old(self).pool.total_spec() + offer
                &&& final(self).pool.epoch_spec() == old(self).pool.epoch_spec()
                &&& final(self).premium == old(self).premium
                &&& final(self).rate == old(self).rate
                &&& final(self).snapshots@ == old(self).snapshots@
                &&& final(self).pending@ == old(self).pending@
                &&& tier_written(*final(self), *old(st), *final(st))
                &&& order_written(o, old(self).premium, *old(st), *final(st))
                &&& pool_wf(*final(self))
            },
    {
        let bid = match self.pool.new_bid(offer) {
            Ok(b) => b,
            Err(e) => {
                return Err(ContractError::from_bid_pool(e));
            },
        };
        let order = Order {
            owner: owner.clone(),
            updated_at: timestamp,
            offer,
            bid,
        };
        let commit_res = Swappable::commit(self, st);
        proof {
            assert(commit_res is Ok);
        }
        order.save(st, self);
        Ok(order)
    }

    /// Loads the caller's order at this tier and reconciles it with
    /// everything distributed since it last looked.
    pub fn load_order(&self, st: &State, owner: &String) -> (r: Result<Order, ContractError>)
        requires
            st.wf(),
            pool_wf(*self),
            tier_matches(*self, *st),
        ensures
            r is Err <==> (st.order(owner@, self.premium) is None || !sync_fits_rec(
                *self,
                *st,
                owner@,
            )),
            r matches Err(e) ==> (st.order(owner@, self.premium) is None && e
                == ContractError::NotFound) || (st.order(owner@, self.premium) is Some && e
                == ContractError::Overflow),
            r matches Ok(o) ==> st.order(owner@, self.premium) matches Some(rec) && {
                let (d, f) = crate::bid_pool::sync_model(
                    rec.bid.deposited as int,
                    rec.bid.filled as int,
                    self.snapshots@,
                    rec.bid.epoch_spec(),
                    self.snapshots@.len() as int,
                );
                &&& o.owner@ == rec.owner@
                &&& o.updated_at == rec.updated_at
                &&& o.offer == rec.offer
                &&& o.bid.deposited as int == d
                &&& o.bid.filled as int == f
                &&& o.bid.epoch_spec() == self.snapshots@.len()
            },
    {
        let mut order = match Order::load(st, owner, self.premium) {
            Ok(o) => o,
            Err(e) => {
                return Err(e);
            },
        };
        proof {
            crate::state::lemma_order_some_index(st.orders@, owner@, self.premium);
            let i = choose|i: int|
                0 <= i < st.orders@.len() && #[trigger] st.orders@[i].owner@ == owner@
                    && st.orders@[i].premium == self.premium && st.order(owner@, self.premium)
                    == Some(st.orders@[i]);
            assert(match crate::state::tier_of(st.tiers@, st.orders@[i].premium) {
                Some(t) => st.orders@[i].bid.epoch_spec() <= t.snapshots@.len(),
                None => st.orders@[i].bid.epoch_spec() == 0,
            });
        }
        match self.sync_order(&mut order) {
            Ok(()) => Ok(order),
            Err(e) => Err(e),
        }
    }

    /// Adds principal to a reconciled order, persists the tier and saves
    /// the order. Fails only on amounts leaving the representable range,
    /// and then changes nothing.
    pub fn increase_order(
        &mut self,
        st: &mut State,
        order: &mut Order,
        timestamp: u64,
        amount: u128,
    ) -> (r: Result<u128, ContractError>)
        requires
            old(st).wf(),
            pool_wf(*old(self)),
            old(self).pending@.len() == 0,
            tier_matches(*old(self), *old(st)),
            old(order).bid.epoch_spec() == old(self).pool.epoch_spec(),
        ensures
            final(st).wf(),
            r is Ok <==> (old(order).bid.deposited_spec() + amount <= u128::MAX && old(
                self,
            ).pool.total_spec() + amount <= u128::MAX),
            r matches Err(e) ==> e == ContractError::Overflow && *final(self) == *old(self)
                && *final(st) == *old(st) && *final(order) == *old(order),
            r matches Ok(v) ==> {
                &&& v == amount
                &&& final(order).owner@ == old(order).owner@
                &&& final(order).updated_at == timestamp
                &&& final(order).bid.deposited_spec() == old(order).bid.deposited_spec() + amount
                &&& final(order).bid.filled_spec() == old(order).bid.filled_spec()
                &&& final(order).bid.epoch_spec() == old(order).bid.epoch_spec()
                &&& final(order).offer as int == final(order).bid.deposited_spec()
                &&& final(self).pool.total_spec() == old(self).pool.total_spec() + amount
                &&& final(self).pool.epoch_spec() == old(self).pool.epoch_spec()
                &&& final(self).premium == old(self).premium
                &&& final(self).rate == old(self).rate
                &&& final(self).snapshots@ == old(self).snapshots@
                &&& final(self).pending@ == old(self).pending@
                &&& pool_wf(*final(self))
                &&& tier_written(*final(self), *old(st), *final(st))
                &&& order_written(*final(order), old(self).premium, *old(st), *final(st))
            },
    {
        match order.bid.increase(&mut self.pool, amount) {
            Ok(()) => {},
            Err(e) => {
                return Err(ContractError::from_bid_pool(e));
            },
        }
        order.offer = order.amount();
        order.updated_at = timestamp;
        order.save(st, self);
        let commit_res = Swappable::commit(self, st);
        proof {
            assert(commit_res is Ok);
        }
        Ok(amount)
    }

    /// Withdraws principal from a reconciled order, capped to what remains
    /// unfilled; `None` retracts everything. Persists the tier and saves
    /// the order; returns the refunded amount.
    pub fn retract_order(
        &mut self,
        st: &mut State,
        order: &mut Order,
        timestamp: u64,
        amount: Option<u128>,
    ) -> (r: Result<u128, ContractError>)
        requires
            old(st).wf(),
            pool_wf(*old(self)),
            old(self).pending@.len() == 0,
            tier_matches(*old(self), *old(st)),
            old(order).bid.epoch_spec() == old(self).pool.epoch_spec(),
        ensures
            final(st).wf(),
            ({
                let asked = (match amount {
                    Some(a) => a as int,
                    None => old(order).bid.deposited_spec(),
                });
                let refund = if asked <= old(order).bid.deposited_spec() {
                    asked
                } else {
                    old(order).bid.deposited_spec()
                };
                &&& (r is Ok <==> refund <= old(self).pool.total_spec())
                &&& (r matches Err(e) ==> e == ContractError::Overflow && *final(self) == *old(
                    self,
                ) && *final(st) == *old(st) && *final(order) == *old(order))
                &&& (r matches Ok(v) ==> {
                    &&& v as int == refund
                    &&& final(order).owner@ == old(order).owner@
                    &&& final(order).updated_at == timestamp
                    &&& final(order).bid.deposited_spec() == old(order).bid.deposited_spec()
                        - refund
                    &&& final(order).bid.filled_spec() == old(order).bid.filled_spec()
                    &&& final(order).bid.epoch_spec() == old(order).bid.epoch_spec()
                    &&& final(order).offer as int == final(order).bid.deposited_spec()
                    &&& final(self).pool.total_spec() == old(self).pool.total_spec() - refund
                    &&& final(self).pool.epoch_spec() == old(self).pool.epoch_spec()
                    &&& final(self).premium == old(self).premium
                    &&& final(self).rate == old(self).rate
                    &&& final(self).snapshots@ == old(self).snapshots@
                    &&& final(self).pending@ == old(self).pending@
                    &&& pool_wf(*final(self))
                    &&& tier_written(*final(self), *old(st), *final(st))
                    &&& order_written(*final(order), old(self).premium, *old(st), *final(st))
                })
            }),
    {
        let refund = match order.bid.retract(&mut self.pool, amount) {
            Ok(v) => v,
            Err(e) => {
                return Err(ContractError::from_bid_pool(e));
            },
        };
        order.offer = order.amount();
        order.updated_at = timestamp;
        order.save(st, self);
        let commit_res = Swappable::commit(self, st);
        proof {
            assert(commit_res is Ok);
        }
        Ok(refund)
    }

    /// Takes an order's realized proceeds and saves the order, pruning it
    /// once it is empty. The tier's aggregate is untouched.
    pub fn claim_order(&mut self, st: &mut State, order: &mut Order) -> (r: Result<
        u128,
        ContractError,
    >)
        requires
            old(st).wf(),
            pool_wf(*old(self)),
            old(self).pending@.len() == 0,
            tier_matches(*old(self), *old(st)),
            old(order).bid.epoch_spec() == old(self).pool.epoch_spec(),
        ensures
            final(st).wf(),
            r is Ok,
            *final(self) == *old(self),
            r matches Ok(v) ==> {
                &&& v as int == old(order).bid.filled_spec()
                &&& final(order).owner@ == old(order).owner@
                &&& final(order).updated_at == old(order).updated_at
                &&& final(order).offer == old(order).offer
                &&& final(order).bid.deposited_spec() == old(order).bid.deposited_spec()
                &&& final(order).bid.filled_spec() == 0
                &&& final(order).bid.epoch_spec() == old(order).bid.epoch_spec()
                &&& final(st).tiers@ == old(st).tiers@
                &&& order_written(*final(order), old(self).premium, *old(st), *final(st))
            },
    {
        let claimed = order.bid.claim_filled();
        order.save(st, self);
        Ok(claimed)
    }

    /// Reconciles an order's bid with this tier's committed ledger.
    pub fn sync_order(&self, order: &mut Order) -> (r: Result<(), ContractError>)
        requires
            pool_wf(*self),
            old(order).bid.epoch_spec() <= self.snapshots@.len(),
        ensures
            final(order).owner@ == old(order).owner@,
            final(order).updated_at == old(order).updated_at,
            final(order).offer == old(order).offer,
            r is Ok <==> crate::bid_pool::sync_fits(
                old(order).bid.deposited as int,
                old(order).bid.filled as int,
                self.snapshots@,
                old(order).bid.epoch_spec(),
                self.snapshots@.len() as int,
            ),
            r matches Ok(()) ==> {
                let (d, f) = crate::bid_pool::sync_model(
                    old(order).bid.deposited as int,
                    old(order).bid.filled as int,
                    self.snapshots@,
                    old(order).bid.epoch_spec(),
                    self.snapshots@.len() as int,
                );
                final(order).bid.deposited as int == d && final(order).bid.filled as int == f
                    && final(order).bid.epoch_spec() == self.snapshots@.len()
            },
            r matches Err(e) ==> e == ContractError::Overflow && *final(order) == *old(order),
    {
        proof {
            lemma_prefix_ledger_wf(self.snapshots@, self.pending@);
        }
        match self.pool.sync_bid(&mut order.bid, &self.snapshots) {
            Ok(()) => Ok(()),
            Err(e) => Err(ContractError::from_bid_pool(e)),
        }
    }
}

/// A loaded pool agrees with the state it is about to write: the tier's
/// recorded ledger is exactly the pool's committed one.
pub open spec fn tier_matches(p: Pool, st: State) -> bool {
    match st.tier(p.premium) {
        Some(t) => t.snapshots@ == p.snapshots@,
        None => p.snapshots@.len() == 0,
    }
}

/// Whether reconciling the stored order stays representable.
pub open spec fn sync_fits_rec(p: Pool, st: State, owner: Seq<char>) -> bool {
    match st.order(owner, p.premium) {
        Some(rec) => crate::bid_pool::sync_fits(
            rec.bid.deposited as int,
            rec.bid.filled as int,
            p.snapshots@,
            rec.bid.epoch_spec(),
            p.snapshots@.len() as int,
        ),
        None => true,
    }
}

/// What a commit leaves of the tiers: this pool's tier persisted with its
/// combined ledger, every other tier untouched.
pub open spec fn tier_written(p: Pool, st0: State, post: State) -> bool {
    &&& match post.tier(p.premium) {
        Some(t) => t.premium == p.premium && t.pool == p.pool && t.snapshots@ == p.snapshots@
            + p.pending@,
        None => false,
    }
    &&& forall|q: u8| q != p.premium ==> post.tier(q) == st0.tier(q)
}

/// What saving an order leaves of the orders: the record itself while the
/// bid is live, nothing once it is empty; every other order untouched.
pub open spec fn order_written(o: Order, premium: u8, st0: State, post: State) -> bool {
    &&& (if o.bid.deposited_spec() == 0 && o.bid.filled_spec() == 0 {
        post.order(o.owner@, premium) is None
    } else {
        post.order(o.owner@, premium) matches Some(rec) && rec.owner@ == o.owner@ && rec.premium
            == premium && rec.updated_at == o.updated_at && rec.offer == o.offer && rec.bid
            == o.bid
    })
    &&& forall|w: Seq<char>, q: u8|
        !(w == o.owner@ && q == premium) ==> post.order(w, q) == st0.order(w, q)
}

/// A committed prefix of a sound combined ledger is itself sound.
pub proof fn lemma_prefix_ledger_wf(a: Seq<SumSnapshot>, b: Seq<SumSnapshot>)
    requires
        ledger_wf(a + b),
    ensures
        ledger_wf(a),
{
    assert forall|i: int| 0 <= i < a.len() implies crate::bid_pool::snap_wf(#[trigger] a[i])
        && a[i].epoch == i + 1 by {
        assert((a + b)[i] == a[i]);
    }
}

/// Copies a snapshot ledger.
fn copy_snapshots(v: &Vec<SumSnapshot>) -> (r: Vec<SumSnapshot>)
    ensures
        r@ == v@,
{
    let mut out: Vec<SumSnapshot> = Vec::new();
    let n = v.len();
    let mut i: usize = 0;
    while i < n
        invariant
            n == v@.len(),
            0 <= i <= n,
            out@ =~= v@.take(i as int),
        decreases n - i,
    {
        out.push(v[i]);
        proof {
            assert(out@ =~= v@.take(i + 1));
        }
        i = i + 1;
    }
    proof {
        assert(v@.take(n as int) =~= v@);
    }
    out
}

impl Swappable for Pool {
    open spec fn wf(&self) -> bool {
        pool_wf(*self)
    }

    open spec fn rate_spec(&self) -> int {
        self.rate.val()
    }

    open spec fn total_spec(&self) -> int {
        self.pool.total_spec()
    }

    open spec fn swap_ok(&self, offer: int) -> bool {
        self.pool.epoch_spec() < u64::MAX
    }

    open spec fn swap_posted(&self, offer: int, post: Pool) -> bool {
        &&& post.premium == self.premium
        &&& post.rate == self.rate
        &&& post.snapshots@ == self.snapshots@
        &&& if dist_noop(self.pool, offer, self.rate.val()) {
            post.pool == self.pool && post.pending@ == self.pending@
        } else {
            post.pool == (bid_pool::Pool {
                total: (self.pool.total_spec() - dist_cb(self.pool, offer, self.rate.val())) as u128,
                epoch: (self.pool.epoch + 1) as u64,
            }) && post.pending@ == self.pending@.push(
                SumSnapshot {
                    epoch: (self.pool.epoch + 1) as u64,
                    offer: dist_co(self.pool, offer, self.rate.val()) as u128,
                    bids: dist_cb(self.pool, offer, self.rate.val()) as u128,
                    total: self.pool.total,
                },
            )
        }
    }

    open spec fn swap_co(&self, offer: int) -> int {
        dist_co(self.pool, offer, self.rate.val())
    }

    open spec fn swap_cb(&self, offer: int) -> int {
        dist_cb(self.pool, offer, self.rate.val())
    }

    open spec fn attrs_spec(&self) -> Seq<(Seq<char>, Seq<char>)> {
        seq![("premium"@, crate::fmt::dec_chars(self.premium as int))]
    }

    open spec fn commit_ok(&self, st: State) -> bool {
        st.wf() && pool_wf(*self) && match st.tier(self.premium) {
            Some(t) => t.snapshots@.len() <= self.snapshots@.len() + self.pending@.len(),
            None => true,
        }
    }

    open spec fn commit_posted(&self, st: State, post: State) -> bool {
        committed_into(*self, st, post)
    }

    open spec fn commit_cm(&self, k: Seq<char>) -> Option<(int, int)> {
        None
    }

    open spec fn commit_sure(&self, st: State) -> bool {
        true
    }

    fn rate(&self) -> (r: Udec) {
        self.rate
    }

    fn total(&self) -> (r: u128) {
        self.pool.total()
    }

    fn attributes(&self) -> (r: Vec<(String, String)>) {
        let mut out: Vec<(String, String)> = Vec::new();
        let label = String::new().concat("premium");
        out.push((label, fmt_u128(self.premium as u128)));
        out
    }

    fn swap(&mut self, offer: u128) -> (r: Result<(u128, u128), SwapError>) {
        if self.pool.epoch() == u64::MAX {
            return Err(SwapError::Overflow);
        }
        let ghost pre = *self;
        let res = self.pool.distribute(offer, &self.rate);
        let ghost pool_after = self.pool;
        let n = res.snapshots.len();
        let mut i: usize = 0;
        while i < n
            invariant
                0 <= i <= n,
                n == res.snapshots@.len(),
                self.pool == pool_after,
                self.pending@ =~= pre.pending@ + res.snapshots@.take(i as int),
                self.premium == pre.premium,
                self.rate == pre.rate,
                self.snapshots@ == pre.snapshots@,
            decreases n - i,
        {
            self.pending.push(res.snapshots[i]);
            proof {
                assert(res.snapshots@.take(i + 1).drop_last() =~= res.snapshots@.take(i as int));
                assert(self.pending@ =~= pre.pending@ + res.snapshots@.take(i + 1));
            }
            i = i + 1;
        }
        proof {
            assert(res.snapshots@.take(n as int) =~= res.snapshots@);
            if dist_noop(pre.pool, offer as int, pre.rate.val()) {
                assert(pre.pending@ + res.snapshots@ =~= pre.pending@);
                assert(self.pending@ =~= pre.pending@);
                assert(self.pool == pre.pool);
            } else {
                let snap = SumSnapshot {
                    epoch: (pre.pool.epoch + 1) as u64,
                    offer: dist_co(pre.pool, offer as int, pre.rate.val()) as u128,
                    bids: dist_cb(pre.pool, offer as int, pre.rate.val()) as u128,
                    total: pre.pool.total,
                };
                assert(res.snapshots@[0] == snap);
                assert(pre.pending@ + res.snapshots@ =~= pre.pending@.push(snap));
                assert(self.pending@ =~= pre.pending@.push(snap));
                assert(self.pool == (bid_pool::Pool {
                    total: (pre.pool.total_spec() - dist_cb(
                        pre.pool,
                        offer as int,
                        pre.rate.val(),
                    )) as u128,
                    epoch: (pre.pool.epoch + 1) as u64,
                }));
                lemma_push_ledger_wf(pre.snapshots@, pre.pending@, snap);
            }
            assert(pre.swap_posted(offer as int, *self));
        }
        Ok((res.consumed_offer, res.consumed_bids))
    }

    fn commit(&self, st: &mut State) -> (r: Result<Commitment, SwapError>)
        ensures
            r is Ok,
    {
        let mut combined = copy_snapshots(&self.snapshots);
        let mut extra = copy_snapshots(&self.pending);
        combined.append(&mut extra);
        let entry = TierEntry { premium: self.premium, pool: self.pool, snapshots: combined };
        let ghost e = entry;
        let ghost pre_tiers = st.tiers@;
        match st.tier_index(self.premium) {
            Some(i) => {
                proof {
                    lemma_tier_update(st.tiers@, i as int, e);
                }
                st.tiers.set(i, entry);
                proof {
                    assert forall|k: int| 0 <= k < st.tiers@.len() implies tier_wf(
                        #[trigger] st.tiers@[k],
                    ) && st.tiers@[k].premium <= 100 by {
                        if k != i as int {
                            assert(st.tiers@[k] == pre_tiers[k]);
                        } else {
                            assert(st.tiers@[k] == e);
                        }
                    }
                }
            },
            None => {
                proof {
                    lemma_tier_push(st.tiers@, e);
                }
                st.tiers.push(entry);
                proof {
                    assert forall|k: int| 0 <= k < st.tiers@.len() implies tier_wf(
                        #[trigger] st.tiers@[k],
                    ) && st.tiers@[k].premium <= 100 by {
                        if k < st.tiers@.len() - 1 {
                            assert(st.tiers@[k] == pre_tiers[k]);
                        } else {
                            assert(st.tiers@[k] == e);
                        }
                    }
                }
            },
        }
        proof {
            lemma_orders_still_bounded(*old(st), *st, *self);
        }
        Ok(Commitment::empty())
    }
}

/// Appending the snapshot of one more distribution keeps the combined
/// ledger sound.
proof fn lemma_push_ledger_wf(a: Seq<SumSnapshot>, b: Seq<SumSnapshot>, s: SumSnapshot)
    requires
        ledger_wf(a + b),
        s.epoch == a.len() + b.len() + 1,
        s.bids <= s.total,
        s.total > 0,
    ensures
        ledger_wf(a + b.push(s)),
{
    assert(a + b.push(s) =~= (a + b).push(s));
    assert forall|i: int| 0 <= i < (a + b).push(s).len() implies crate::bid_pool::snap_wf(
        #[trigger] (a + b).push(s)[i],
    ) && (a + b).push(s)[i].epoch == i + 1 by {
        if i < (a + b).len() {
            assert((a + b).push(s)[i] == (a + b)[i]);
        }
    }
}

/// Writing a tier whose ledger only grows keeps every order's epoch bound.
proof fn lemma_orders_still_bounded(st: State, post: State, p: Pool)
    requires
        st.wf(),
        post.orders@ == st.orders@,
        pool_wf(p),
        match st.tier(p.premium) {
            Some(t) => t.snapshots@.len() <= p.snapshots@.len() + p.pending@.len(),
            None => true,
        },
        match post.tier(p.premium) {
            Some(t) => t.premium == p.premium && t.pool == p.pool && t.snapshots@ == p.snapshots@
                + p.pending@,
            None => false,
        },
        forall|q: u8| q != p.premium ==> post.tier(q) == st.tier(q),
        forall|i: int, j: int|
            0 <= i < j < post.tiers@.len() ==> (#[trigger] post.tiers@[i]).premium != (
            #[trigger] post.tiers@[j]).premium,
        forall|i: int| 0 <= i < post.tiers@.len() ==> tier_wf(#[trigger] post.tiers@[i]),
        forall|i: int| 0 <= i < post.tiers@.len() ==> (#[trigger] post.tiers@[i]).premium <= 100,
    ensures
        post.wf(),
{
    assert forall|i: int| 0 <= i < post.orders@.len() implies match crate::state::tier_of(
        post.tiers@,
        (#[trigger] post.orders@[i]).premium,
    ) {
        Some(t) => post.orders@[i].bid.epoch_spec() <= t.snapshots@.len(),
        None => post.orders@[i].bid.epoch_spec() == 0,
    } by {
        assert(st.orders@[i] == post.orders@[i]);
        let q = post.orders@[i].premium;
        assert(match crate::state::tier_of(st.tiers@, q) {
            Some(t) => st.orders@[i].bid.epoch_spec() <= t.snapshots@.len(),
            None => st.orders@[i].bid.epoch_spec() == 0,
        });
        if q == p.premium {
            assert(crate::state::tier_of(post.tiers@, q) == post.tier(q));
            assert(post.tier(q) matches Some(t) && t.snapshots@ == p.snapshots@ + p.pending@);
            assert((p.snapshots@ + p.pending@).len() == p.snapshots@.len() + p.pending@.len());
            match crate::state::tier_of(st.tiers@, q) {
                Some(t0) => {
                    assert(t0.snapshots@.len() <= p.snapshots@.len() + p.pending@.len());
                },
                None => {},
            }
        } else {
            assert(post.tier(q) == st.tier(q));
        }
    }
}

} // verus!
