//! The price-tier settlement pool.
//!
//! A pool aggregates the capital of every bid resting at one price tier.
//! Trade volume is distributed through [`Pool::distribute`], which only
//! advances the pool's aggregate counters and appends one [`SumSnapshot`]
//! to the tier's ledger; no individual bid is touched. A bid catches up
//! with everything distributed since it last looked by [`Pool::sync_bid`],
//! which replays the ledger entries between the bid's own epoch and the
//! ledger's end, paying out fills and drawing down the deposit
//! proportionally at each recorded epoch in turn. The ledger is
//! append-only and is never compacted.
//!
//! Rounding is conservative for the pool: a fill credited to a bid is
//! floored and a draw-down charged to it is rounded up, so replaying a
//! ledger never pays out more than was distributed and never leaves more
//! deposit standing than the pool holds.

use vstd::prelude::*;

use crate::math::{
    checked_mul_ratio_ceil, checked_mul_ratio_floor, lemma_ratio_ceil_le, mul_ratio_floor,
    ratio_ceil, ratio_floor, Udec, DEC_ONE,
};

verus! {

/// The epoch component of the key a snapshot is stored under.
pub type SumSnapshotKey = u64;

/// An error from pool accounting: a scaled amount left the representable
/// range.
#[derive(Clone, Copy, Debug, PartialEq, Eq, Structural)]
pub enum BidPoolError {
    Overflow,
}

/// The aggregate state of one price tier.
#[derive(Clone, Copy, Debug, PartialEq, Eq, Structural)]
pub struct Pool {
    /// Sum of the live bids' remaining deposits, as of the last snapshot.
    pub total: u128,
    /// Number of distributions recorded so far.
    pub epoch: u64,
}

/// One recorded distribution: what was consumed at that epoch and the
/// aggregate deposit it was shared over.
#[derive(Clone, Copy, Debug, PartialEq, Eq, Structural)]
pub struct SumSnapshot {
    /// The epoch this snapshot was recorded at (one-based).
    pub epoch: u64,
    /// Offer-side volume paid into the tier at this epoch.
    pub offer: u128,
    /// Bid-side capital consumed out of the tier at this epoch.
    pub bids: u128,
    /// The pool's total deposit immediately before this distribution.
    pub total: u128,
}

/// One depositor's claim against a tier.
#[derive(Clone, Copy, Debug, PartialEq, Eq, Structural)]
pub struct Bid {
    /// Remaining principal, as of the bid's own epoch.
    pub deposited: u128,
    /// Realized proceeds not yet claimed.
    pub filled: u128,
    /// The last ledger epoch this bid has been reconciled with.
    pub epoch: u64,
}

/// What one distribution consumed, and the snapshots it produced.
#[derive(Clone, Debug, PartialEq, Eq)]
pub struct Distribution {
    pub consumed_offer: u128,
    pub consumed_bids: u128,
    pub snapshots: Vec<SumSnapshot>,
}

/// A snapshot is sound when it consumed no more than the deposit it was
/// shared over, and was shared over something.
pub open spec fn snap_wf(s: SumSnapshot) -> bool {
    s.bids <= s.total && s.total > 0
}

/// A ledger is sound when every entry is, and entry `i` carries epoch
/// `i + 1`.
pub open spec fn ledger_wf(l: Seq<SumSnapshot>) -> bool {
    forall|i: int| 0 <= i < l.len() ==> snap_wf(#[trigger] l[i]) && l[i].epoch == i + 1
}

/// The deposit and fill a bid reaches by replaying ledger entries
/// `from .. upto`, starting from `(dep, fill)`. At each entry the fill
/// grows by the floored pro-rata share of the distributed offer and the
/// deposit shrinks by the ceiling pro-rata share of the consumed bids.
pub open spec fn sync_model(dep: int, fill: int, l: Seq<SumSnapshot>, from: int, upto: int) -> (
    int,
    int,
)
    decreases upto - from,
{
    if from >= upto {
        (dep, fill)
    } else {
        let s = l[from];
        let gain = ratio_floor(dep, s.offer as int, s.total as int);
        let loss = ratio_ceil(dep, s.bids as int, s.total as int);
        sync_model(dep - loss, fill + gain, l, from + 1, upto)
    }
}

/// Whether every intermediate value of that replay stays representable.
pub open spec fn sync_fits(dep: int, fill: int, l: Seq<SumSnapshot>, from: int, upto: int) -> bool
    decreases upto - from,
{
    if from >= upto {
        true
    } else {
        let s = l[from];
        let gain = ratio_floor(dep, s.offer as int, s.total as int);
        let loss = ratio_ceil(dep, s.bids as int, s.total as int);
        gain <= u128::MAX && fill + gain <= u128::MAX && sync_fits(
            dep - loss,
            fill + gain,
            l,
            from + 1,
            upto,
        )
    }
}

/// Whether a distribution is a no-op: nothing offered, nothing deposited,
/// or an offer too small to consume a single unit of deposit.
pub open spec fn dist_noop(p: Pool, offer: int, rate: int) -> bool {
    offer == 0 || p.total == 0 || ratio_floor(offer, rate, DEC_ONE as int) == 0
}

/// The offer a distribution consumes: the whole offer when the tier can
/// absorb its bid-side value, else the floored value of the whole remaining
/// deposit.
pub open spec fn dist_co(p: Pool, offer: int, rate: int) -> int {
    if dist_noop(p, offer, rate) {
        0
    } else if ratio_floor(offer, rate, DEC_ONE as int) <= p.total {
        offer
    } else {
        ratio_floor(p.total as int, DEC_ONE as int, rate)
    }
}

/// The bid-side capital a distribution consumes, never more than the
/// deposit on hand.
pub open spec fn dist_cb(p: Pool, offer: int, rate: int) -> int {
    if dist_noop(p, offer, rate) {
        0
    } else if ratio_floor(offer, rate, DEC_ONE as int) <= p.total {
        ratio_floor(offer, rate, DEC_ONE as int)
    } else {
        p.total as int
    }
}

impl Pool {
    pub open spec fn total_spec(self) -> int {
        self.total as int
    }

    pub open spec fn epoch_spec(self) -> int {
        self.epoch as int
    }

    pub fn new() -> (r: Pool)
        ensures
            r.total_spec() == 0,
            r.epoch_spec() == 0,
    {
        Pool { total: 0, epoch: 0 }
    }

    /// The tier holds no deposits and can be dropped from the active index.
    pub fn is_zero(&self) -> (r: bool)
        ensures
            r <==> self.total_spec() == 0,
    {
        self.total == 0
    }

    pub fn total(&self) -> (r: u128)
        ensures
            r as int == self.total_spec(),
    {
        self.total
    }

    pub fn epoch(&self) -> (r: u64)
        ensures
            r as int == self.epoch_spec(),
    {
        self.epoch
    }

    /// Opens a new bid at the current epoch; there is nothing for it to
    /// catch up on.
    pub fn new_bid(&mut self, amount: u128) -> (r: Result<Bid, BidPoolError>)
        ensures
            r matches Ok(b) ==> old(self).total_spec() + amount <= u128::MAX && b.deposited
                == amount && b.filled == 0 && b.epoch_spec() == old(self).epoch_spec()
                && final(self).total_spec() == old(self).total_spec() + amount && final(self).epoch_spec() == old(
                self,
            ).epoch_spec(),
            r is Err ==> old(self).total_spec() + amount > u128::MAX && *final(self) == *old(self),
    {
        match self.total.checked_add(amount) {
            Some(t) => {
                self.total = t;
                Ok(Bid { deposited: amount, filled: 0, epoch: self.epoch })
            },
            None => Err(BidPoolError::Overflow),
        }
    }

    /// Distributes trade volume through the tier: consumes up to the
    /// deposit on hand at the given rate, advances the epoch, and records
    /// one snapshot — without touching any bid. The consumed bid-side
    /// value never exceeds the deposit the tier held at the call.
    pub fn distribute(&mut self, offer: u128, rate: &Udec) -> (r: Distribution)
        requires
            old(self).epoch_spec() < u64::MAX,
        ensures
            r.consumed_offer as int == dist_co(*old(self), offer as int, rate.val()),
            r.consumed_bids as int == dist_cb(*old(self), offer as int, rate.val()),
            r.consumed_bids as int <= old(self).total_spec(),
            r.consumed_offer <= offer,
            final(self).total_spec() == old(self).total_spec() - dist_cb(
                *old(self),
                offer as int,
                rate.val(),
            ),
            dist_noop(*old(self), offer as int, rate.val()) ==> *final(self) == *old(self)
                && r.snapshots@ =~= Seq::<SumSnapshot>::empty(),
            !dist_noop(*old(self), offer as int, rate.val()) ==> final(self).epoch_spec() == old(
                self,
            ).epoch_spec() + 1 && r.snapshots@ =~= seq![
                SumSnapshot {
                    epoch: (old(self).epoch + 1) as u64,
                    offer: r.consumed_offer,
                    bids: r.consumed_bids,
                    total: old(self).total,
                },
            ],
    {
        if offer == 0 || self.total == 0 {
            return Distribution { consumed_offer: 0, consumed_bids: 0, snapshots: Vec::new() };
        }
        let (co, cb): (u128, u128) = match checked_mul_ratio_floor(offer, rate.atomics, DEC_ONE) {
            Some(full) if full <= self.total => (offer, full),
            _ => {
                // More bid-side value was asked for than the tier holds:
                // flush the whole deposit and floor the offer taken for it.
                proof {
                    assert(ratio_floor(offer as int, rate.val(), DEC_ONE as int)
                        > self.total as int);
                    lemma_capacity_branch(offer as int, rate.val(), self.total as int);
                }
                (mul_ratio_floor(self.total, DEC_ONE, rate.atomics), self.total)
            },
        };
        if cb == 0 {
            return Distribution { consumed_offer: 0, consumed_bids: 0, snapshots: Vec::new() };
        }
        let snapshot = SumSnapshot {
            epoch: self.epoch + 1,
            offer: co,
            bids: cb,
            total: self.total,
        };
        self.total = self.total - cb;
        self.epoch = self.epoch + 1;
        let mut snapshots: Vec<SumSnapshot> = Vec::new();
        snapshots.push(snapshot);
        Distribution { consumed_offer: co, consumed_bids: cb, snapshots }
    }

    /// Replays every ledger entry the bid has not yet seen, crediting its
    /// pro-rata fill and drawing down its deposit at each epoch in turn.
    /// Fails only when a scaled share leaves the representable range, and
    /// then changes nothing.
    pub fn sync_bid(&self, bid: &mut Bid, ledger: &Vec<SumSnapshot>) -> (r: Result<
        (),
        BidPoolError,
    >)
        requires
            ledger_wf(ledger@),
            old(bid).epoch_spec() <= ledger@.len(),
        ensures
            r is Ok <==> sync_fits(
                old(bid).deposited as int,
                old(bid).filled as int,
                ledger@,
                old(bid).epoch_spec(),
                ledger@.len() as int,
            ),
            r is Ok ==> {
                let (d, f) = sync_model(
                    old(bid).deposited as int,
                    old(bid).filled as int,
                    ledger@,
                    old(bid).epoch_spec(),
                    ledger@.len() as int,
                );
                final(bid).deposited as int == d && final(bid).filled as int == f && final(bid).epoch_spec()
                    == ledger@.len()
            },
            r is Err ==> *final(bid) == *old(bid),
            final(bid).epoch_spec() >= old(bid).epoch_spec(),
    {
        let ghost end = ledger@.len() as int;
        let mut dep: u128 = bid.deposited;
        let mut fill: u128 = bid.filled;
        let n: usize = ledger.len();
        let mut i: usize = bid.epoch as usize;
        while i < ledger.len()
            invariant
                ledger_wf(ledger@),
                old(bid).epoch_spec() <= i as int <= end,
                end == ledger@.len(),
                sync_model(
                    old(bid).deposited as int,
                    old(bid).filled as int,
                    ledger@,
                    old(bid).epoch_spec(),
                    end,
                ) == sync_model(dep as int, fill as int, ledger@, i as int, end),
                sync_fits(
                    old(bid).deposited as int,
                    old(bid).filled as int,
                    ledger@,
                    old(bid).epoch_spec(),
                    end,
                ) == sync_fits(dep as int, fill as int, ledger@, i as int, end),
                *bid == *old(bid),
            decreases end - i as int,
        {
            let s = ledger[i];
            proof {
                lemma_ratio_ceil_le(dep as int, s.bids as int, s.total as int);
            }
            let gain: u128 = match checked_mul_ratio_floor(dep, s.offer, s.total) {
                Some(g) => g,
                None => {
                    return Err(BidPoolError::Overflow);
                },
            };
            let new_fill: u128 = match fill.checked_add(gain) {
                Some(f) => f,
                None => {
                    return Err(BidPoolError::Overflow);
                },
            };
            let loss: u128 = match checked_mul_ratio_ceil(dep, s.bids, s.total) {
                Some(l) => l,
                None => {
                    proof {
                        lemma_ratio_ceil_le(dep as int, s.bids as int, s.total as int);
                    }
                    assert(false);
                    return Err(BidPoolError::Overflow);
                },
            };
            dep = dep - loss;
            fill = new_fill;
            i = i + 1;
        }
        bid.deposited = dep;
        bid.filled = fill;
        bid.epoch = ledger.len() as u64;
        Ok(())
    }
}

impl Bid {
    pub open spec fn deposited_spec(self) -> int {
        self.deposited as int
    }

    pub open spec fn filled_spec(self) -> int {
        self.filled as int
    }

    pub open spec fn epoch_spec(self) -> int {
        self.epoch as int
    }

    /// Remaining principal, as of the bid's own epoch.
    pub fn amount(&self) -> (r: u128)
        ensures
            r as int == self.deposited_spec(),
    {
        self.deposited
    }

    /// Realized proceeds not yet claimed.
    pub fn filled(&self) -> (r: u128)
        ensures
            r as int == self.filled_spec(),
    {
        self.filled
    }

    /// A bid with nothing deposited and nothing to claim can be removed.
    pub fn is_empty(&self) -> (r: bool)
        ensures
            r <==> (self.deposited_spec() == 0 && self.filled_spec() == 0),
    {
        self.deposited == 0 && self.filled == 0
    }

    /// The ledger key of the first snapshot this bid has not seen.
    pub fn sum_snapshot_key(&self) -> (r: SumSnapshotKey)
        ensures
            r as int == self.epoch_spec(),
    {
        self.epoch
    }

    /// Adds principal to a reconciled bid and to the pool's aggregate.
    pub fn increase(&mut self, pool: &mut Pool, amount: u128) -> (r: Result<(), BidPoolError>)
        requires
            old(self).epoch_spec() == old(pool).epoch_spec(),
        ensures
            r is Ok <==> (old(self).deposited_spec() + amount <= u128::MAX && old(
                pool,
            ).total_spec() + amount <= u128::MAX),
            r is Ok ==> final(self).deposited_spec() == old(self).deposited_spec() + amount
                && final(self).filled_spec() == old(self).filled_spec() && final(self).epoch_spec() == old(
                self,
            ).epoch_spec() && final(pool).total_spec() == old(pool).total_spec() + amount
                && final(pool).epoch_spec() == old(pool).epoch_spec(),
            r is Err ==> *final(self) == *old(self) && *final(pool) == *old(pool),
    {
        let new_dep: u128 = match self.deposited.checked_add(amount) {
            Some(d) => d,
            None => {
                return Err(BidPoolError::Overflow);
            },
        };
        let new_total: u128 = match pool.total.checked_add(amount) {
            Some(t) => t,
            None => {
                return Err(BidPoolError::Overflow);
            },
        };
        self.deposited = new_dep;
        pool.total = new_total;
        Ok(())
    }

    /// Withdraws principal from a reconciled bid, capped to what remains
    /// unfilled; `None` retracts everything. Returns the amount withdrawn.
    pub fn retract(&mut self, pool: &mut Pool, amount: Option<u128>) -> (r: Result<
        u128,
        BidPoolError,
    >)
        requires
            old(self).epoch_spec() == old(pool).epoch_spec(),
        ensures
            ({
                let asked = if amount is Some {
                    amount->0 as int
                } else {
                    old(self).deposited_spec()
                };
                let refund = if asked <= old(self).deposited_spec() {
                    asked
                } else {
                    old(self).deposited_spec()
                };
                &&& (r is Ok <==> refund <= old(pool).total_spec())
                &&& r matches Ok(v) ==> v as int == refund && final(self).deposited_spec() == old(
                    self,
                ).deposited_spec() - refund && final(self).filled_spec() == old(self).filled_spec()
                    && final(self).epoch_spec() == old(self).epoch_spec() && final(pool).total_spec() == old(
                    pool,
                ).total_spec() - refund && final(pool).epoch_spec() == old(pool).epoch_spec()
                &&& r is Err ==> *final(self) == *old(self) && *final(pool) == *old(pool)
            }),
    {
        let refund: u128 = match amount {
            Some(a) => if a <= self.deposited {
                a
            } else {
                self.deposited
            },
            None => self.deposited,
        };
        let new_total: u128 = match pool.total.checked_sub(refund) {
            Some(t) => t,
            None => {
                return Err(BidPoolError::Overflow);
            },
        };
        self.deposited = self.deposited - refund;
        pool.total = new_total;
        Ok(refund)
    }

    /// Takes the realized proceeds, leaving nothing further to claim.
    pub fn claim_filled(&mut self) -> (r: u128)
        ensures
            r as int == old(self).filled_spec(),
            final(self).filled_spec() == 0,
            final(self).deposited_spec() == old(self).deposited_spec(),
            final(self).epoch_spec() == old(self).epoch_spec(),
    {
        let r = self.filled;
        self.filled = 0;
        r
    }
}

/// In the capacity-limited branch the rate is positive and the floored
/// offer taken for the whole deposit never exceeds the offer tendered.
proof fn lemma_capacity_branch(offer: int, rate: int, total: int)
    requires
        offer >= 1,
        total >= 1,
        rate >= 0,
        ratio_floor(offer, rate, DEC_ONE as int) > total,
    ensures
        rate > 0,
        0 <= ratio_floor(total, DEC_ONE as int, rate) <= offer,
{
    let d = DEC_ONE as int;
    if rate == 0 {
        assert(offer * rate == 0) by (nonlinear_arith)
            requires
                rate == 0,
        ;
        assert(ratio_floor(offer, rate, d) == 0);
    }
    let q = (offer * rate) / d;
    vstd::arithmetic::div_mod::lemma_fundamental_div_mod(offer * rate, d);
    vstd::arithmetic::div_mod::lemma_remainder_lower(offer * rate, d);
    vstd::arithmetic::mul::lemma_mul_inequality(total + 1, q, d);
    assert(total * d < offer * rate) by (nonlinear_arith)
        requires
            (total + 1) * d <= q * d,
            offer * rate >= d * q,
            d > 0,
    ;
    vstd::arithmetic::div_mod::lemma_div_is_ordered(total * d, offer * rate, rate);
    vstd::arithmetic::div_mod::lemma_div_multiples_vanish(offer, rate);
    assert(offer * rate == rate * offer) by (nonlinear_arith);
    vstd::arithmetic::div_mod::lemma_div_pos_is_pos(total * d, rate);
    assert(total * d > 0) by (nonlinear_arith)
        requires
            total >= 1,
            d > 0,
    ;
}

// ---------------------------------------------------------------------
// Conservation: the pool's aggregate equals the sum of its bids' deposits
// under every deposit-changing operation, as long as no distribution has
// intervened since each bid last reconciled.
// ---------------------------------------------------------------------
/// The sum of a group of bids' deposits.
pub open spec fn deposits_sum(bids: Seq<Bid>) -> int
    decreases bids.len(),
{
    if bids.len() == 0 {
        0
    } else {
        deposits_sum(bids.drop_last()) + bids.last().deposited_spec()
    }
}

/// Opening a new bid preserves conservation: if the pool's total equalled
/// the bids' summed deposits before, it does so again with the new bid
/// counted.
pub proof fn lemma_join_conserves(p0: Pool, p1: Pool, bids: Seq<Bid>, b: Bid, amount: int)
    requires
        p0.total_spec() == deposits_sum(bids),
        b.deposited_spec() == amount,
        p1.total_spec() == p0.total_spec() + amount,
    ensures
        p1.total_spec() == deposits_sum(bids.push(b)),
{
    assert(bids.push(b).drop_last() =~= bids);
}

/// Increasing one bid preserves conservation: total and that bid's deposit
/// grow by the same amount.
pub proof fn lemma_increase_conserves(p0: Pool, p1: Pool, bids: Seq<Bid>, i: int, b: Bid, amount: int)
    requires
        0 <= i < bids.len(),
        p0.total_spec() == deposits_sum(bids),
        b.deposited_spec() == bids[i].deposited_spec() + amount,
        p1.total_spec() == p0.total_spec() + amount,
    ensures
        p1.total_spec() == deposits_sum(bids.update(i, b)),
{
    lemma_sum_update(bids, i, b);
}

/// Retracting from one bid preserves conservation: total and that bid's
/// deposit shrink by the same refund.
pub proof fn lemma_retract_conserves(p0: Pool, p1: Pool, bids: Seq<Bid>, i: int, b: Bid, refund: int)
    requires
        0 <= i < bids.len(),
        p0.total_spec() == deposits_sum(bids),
        b.deposited_spec() == bids[i].deposited_spec() - refund,
        p1.total_spec() == p0.total_spec() - refund,
    ensures
        p1.total_spec() == deposits_sum(bids.update(i, b)),
{
    lemma_sum_update(bids, i, b);
}

proof fn lemma_sum_update(bids: Seq<Bid>, i: int, b: Bid)
    requires
        0 <= i < bids.len(),
    ensures
        deposits_sum(bids.update(i, b)) == deposits_sum(bids) - bids[i].deposited_spec()
            + b.deposited_spec(),
    decreases bids.len(),
{
    if i == bids.len() - 1 {
        assert(bids.update(i, b).drop_last() =~= bids.drop_last());
    } else {
        assert(bids.update(i, b).drop_last() =~= bids.drop_last().update(i, b));
        lemma_sum_update(bids.drop_last(), i, b);
    }
}

/// One membership operation on a tier: a new bid joining, or an existing
/// bid's principal growing or shrinking.
#[derive(Clone, Copy, Debug)]
pub enum MembershipOp {
    Join { amount: u128 },
    Increase { member: usize, amount: u128 },
    Retract { member: usize, amount: Option<u128> },
}

/// The aggregate total and the individual deposits after one membership
/// operation, mirroring what `new_bid`, `increase` and `retract` do.
pub open spec fn op_apply(total: int, deps: Seq<int>, op: MembershipOp) -> (int, Seq<int>) {
    match op {
        MembershipOp::Join { amount } => (total + amount, deps.push(amount as int)),
        MembershipOp::Increase { member, amount } => if member < deps.len() {
            (total + amount, deps.update(member as int, deps[member as int] + amount))
        } else {
            (total, deps)
        },
        MembershipOp::Retract { member, amount } => if member < deps.len() {
            let asked = (match amount {
                Some(a) => a as int,
                None => deps[member as int],
            });
            let refund = if asked <= deps[member as int] {
                asked
            } else {
                deps[member as int]
            };
            (total - refund, deps.update(member as int, deps[member as int] - refund))
        } else {
            (total, deps)
        },
    }
}

/// The aggregate and the deposits after a whole sequence of membership
/// operations.
pub open spec fn ops_apply(total: int, deps: Seq<int>, ops: Seq<MembershipOp>) -> (int, Seq<int>)
    decreases ops.len(),
{
    if ops.len() == 0 {
        (total, deps)
    } else {
        let step = op_apply(total, deps, ops[0]);
        ops_apply(step.0, step.1, ops.skip(1))
    }
}

/// The sum of a group of deposits.
pub open spec fn deps_sum(deps: Seq<int>) -> int
    decreases deps.len(),
{
    if deps.len() == 0 {
        0
    } else {
        deps_sum(deps.drop_last()) + deps.last()
    }
}

/// Conservation: over every sequence of join, increase and retract
/// operations, the tier's aggregate equals the sum of its bids' deposits
/// after every step.
pub proof fn lemma_conservation_over_sequences(total: int, deps: Seq<int>, ops: Seq<MembershipOp>)
    requires
        total == deps_sum(deps),
    ensures
        ops_apply(total, deps, ops).0 == deps_sum(ops_apply(total, deps, ops).1),
    decreases ops.len(),
{
    if ops.len() > 0 {
        let step = op_apply(total, deps, ops[0]);
        lemma_op_conserves(total, deps, ops[0]);
        lemma_conservation_over_sequences(step.0, step.1, ops.skip(1));
    }
}

/// One membership operation moves the aggregate and the summed deposits by
/// the same amount.
pub proof fn lemma_op_conserves(total: int, deps: Seq<int>, op: MembershipOp)
    requires
        total == deps_sum(deps),
    ensures
        op_apply(total, deps, op).0 == deps_sum(op_apply(total, deps, op).1),
{
    match op {
        MembershipOp::Join { amount } => {
            assert(deps.push(amount as int).drop_last() =~= deps);
        },
        MembershipOp::Increase { member, amount } => {
            if member < deps.len() {
                lemma_deps_sum_update(deps, member as int, deps[member as int] + amount);
            }
        },
        MembershipOp::Retract { member, amount } => {
            if member < deps.len() {
                let asked = (match amount {
                    Some(a) => a as int,
                    None => deps[member as int],
                });
                let refund = if asked <= deps[member as int] {
                    asked
                } else {
                    deps[member as int]
                };
                lemma_deps_sum_update(deps, member as int, deps[member as int] - refund);
            }
        },
    }
}

proof fn lemma_deps_sum_update(deps: Seq<int>, i: int, v: int)
    requires
        0 <= i < deps.len(),
    ensures
        deps_sum(deps.update(i, v)) == deps_sum(deps) - deps[i] + v,
    decreases deps.len(),
{
    if i == deps.len() - 1 {
        assert(deps.update(i, v).drop_last() =~= deps.drop_last());
    } else {
        assert(deps.update(i, v).drop_last() =~= deps.drop_last().update(i, v));
        lemma_deps_sum_update(deps.drop_last(), i, v);
        assert(deps.update(i, v).last() == deps.last());
    }
}

/// Claiming is idempotent: with no distribution in between, reconciling
/// again moves nothing, and a second claim returns zero.
pub proof fn lemma_claim_idempotent(b: Bid, ledger: Seq<SumSnapshot>)
    requires
        b.epoch_spec() == ledger.len(),
    ensures
        sync_model(b.deposited_spec(), 0, ledger, b.epoch_spec(), ledger.len() as int) == (
            b.deposited_spec(),
            0int,
        ),
{
}

} // verus!
