//! The persisted state of the exchange, as one value.
//!
//! The logical schema has four parts: per-tier aggregate pools, the
//! append-only snapshot ledger of each tier, the set of resting orders
//! keyed by owner and tier, and — derived rather than stored — the index
//! of active tiers, which is exactly the tiers whose pools still hold
//! deposits.

use vstd::prelude::*;

use crate::bid_pool::{ledger_wf, Bid, Pool, SumSnapshot};

verus! {

/// One tier's persisted accounting: the aggregate pool and its ledger.
#[derive(Clone, Debug)]
pub struct TierEntry {
    pub premium: u8,
    pub pool: Pool,
    pub snapshots: Vec<SumSnapshot>,
}

/// One owner's persisted order at one tier.
#[derive(Clone, Debug)]
pub struct OrderRecord {
    pub owner: String,
    pub premium: u8,
    pub updated_at: u64,
    pub offer: u128,
    pub bid: Bid,
}

/// The whole persisted state.
#[derive(Debug)]
pub struct State {
    pub tiers: Vec<TierEntry>,
    pub orders: Vec<OrderRecord>,
}

/// The tier entry recorded for a premium, if any.
pub open spec fn tier_of(s: Seq<TierEntry>, premium: u8) -> Option<TierEntry>
    decreases s.len(),
{
    if s.len() == 0 {
        None
    } else if s.last().premium == premium {
        Some(s.last())
    } else {
        tier_of(s.drop_last(), premium)
    }
}

/// The order recorded for an owner and premium, if any.
pub open spec fn order_of(s: Seq<OrderRecord>, owner: Seq<char>, premium: u8) -> Option<OrderRecord>
    decreases s.len(),
{
    if s.len() == 0 {
        None
    } else if s.last().owner@ == owner && s.last().premium == premium {
        Some(s.last())
    } else {
        order_of(s.drop_last(), owner, premium)
    }
}

/// A tier entry is sound when its ledger is and the pool has seen exactly
/// the recorded epochs.
pub open spec fn tier_wf(t: TierEntry) -> bool {
    ledger_wf(t.snapshots@) && t.pool.epoch_spec() == t.snapshots@.len()
}

impl State {
    pub open spec fn wf(self) -> bool {
        &&& forall|i: int, j: int|
            0 <= i < j < self.tiers@.len() ==> (#[trigger] self.tiers@[i]).premium != (
            #[trigger] self.tiers@[j]).premium
        &&& forall|i: int| 0 <= i < self.tiers@.len() ==> tier_wf(#[trigger] self.tiers@[i])
        &&& forall|i: int| 0 <= i < self.tiers@.len() ==> (#[trigger] self.tiers@[i]).premium <= 100
        &&& forall|i: int, j: int|
            0 <= i < j < self.orders@.len() ==> ((#[trigger] self.orders@[i]).owner@ != (
            #[trigger] self.orders@[j]).owner@ || self.orders@[i].premium
                != self.orders@[j].premium)
        &&& forall|i: int|
            0 <= i < self.orders@.len() ==> match tier_of(
                self.tiers@,
                (#[trigger] self.orders@[i]).premium,
            ) {
                Some(t) => self.orders@[i].bid.epoch_spec() <= t.snapshots@.len(),
                None => self.orders@[i].bid.epoch_spec() == 0,
            }
    }

    /// What is recorded for a premium.
    pub open spec fn tier(self, premium: u8) -> Option<TierEntry> {
        tier_of(self.tiers@, premium)
    }

    /// What is recorded for an owner at a premium.
    pub open spec fn order(self, owner: Seq<char>, premium: u8) -> Option<OrderRecord> {
        order_of(self.orders@, owner, premium)
    }

    /// A tier is in the active index exactly while its pool holds deposits.
    pub open spec fn active(self, premium: u8) -> bool {
        match self.tier(premium) {
            Some(t) => t.pool.total_spec() > 0,
            None => false,
        }
    }

    pub fn new() -> (r: State)
        ensures
            r.wf(),
            forall|p: u8| r.tier(p) is None,
            forall|o: Seq<char>, p: u8| r.order(o, p) is None,
    {
        State { tiers: Vec::new(), orders: Vec::new() }
    }

    /// Checks the whole state for soundness, exactly as the contracts
    /// assume it: decodable storage from an untrusted source can be
    /// validated before any operation relies on it.
    pub fn check(&self) -> (r: bool)
        ensures
            r == self.wf(),
    {
        let nt = self.tiers.len();
        let mut i: usize = 0;
        while i < nt
            invariant
                nt == self.tiers@.len(),
                0 <= i <= nt,
                forall|a: int, b: int|
                    0 <= a < b < i ==> (#[trigger] self.tiers@[a]).premium != (
                    #[trigger] self.tiers@[b]).premium,
                forall|a: int| 0 <= a < i ==> tier_wf(#[trigger] self.tiers@[a]),
                forall|a: int| 0 <= a < i ==> (#[trigger] self.tiers@[a]).premium <= 100,
            decreases nt - i,
        {
            let entry = &self.tiers[i];
            if entry.premium > 100 {
                return false;
            }
            let len = entry.snapshots.len();
            if entry.pool.epoch() != len as u64 {
                return false;
            }
            let ghost gsnaps = entry.snapshots@;
            let mut j: usize = 0;
            while j < len
                invariant
                    len == gsnaps.len(),
                    0 <= j <= len,
                    i < nt,
                    nt == self.tiers@.len(),
                    gsnaps == entry.snapshots@,
                    gsnaps == self.tiers@[i as int].snapshots@,
                    forall|x: int|
                        0 <= x < j ==> crate::bid_pool::snap_wf(#[trigger] gsnaps[x]) && gsnaps[
                            x
                        ].epoch == x + 1,
                decreases len - j,
            {
                let snap = entry.snapshots[j];
                if snap.bids > snap.total || snap.total == 0 || snap.epoch != (j + 1) as u64 {
                    proof {
                        if self.wf() {
                            assert(tier_wf(self.tiers@[i as int]));
                            assert(crate::bid_pool::ledger_wf(gsnaps));
                            assert(crate::bid_pool::snap_wf(gsnaps[j as int]));
                            assert(gsnaps[j as int].epoch == j + 1);
                            assert(snap == gsnaps[j as int]);
                        }
                    }
                    return false;
                }
                j = j + 1;
            }
            let mut k: usize = 0;
            while k < i
                invariant
                    0 <= k <= i < nt,
                    nt == self.tiers@.len(),
                    entry.premium == self.tiers@[i as int].premium,
                    forall|x: int|
                        0 <= x < k ==> (#[trigger] self.tiers@[x]).premium != self.tiers@[
                            i as int
                        ].premium,
                decreases i - k,
            {
                if self.tiers[k].premium == entry.premium {
                    proof {
                        if self.wf() {
                            assert(self.tiers@[k as int].premium != self.tiers@[
                                i as int
                            ].premium);
                        }
                    }
                    return false;
                }
                k = k + 1;
            }
            i = i + 1;
        }
        let no = self.orders.len();
        let mut i: usize = 0;
        while i < no
            invariant
                no == self.orders@.len(),
                nt == self.tiers@.len(),
                0 <= i <= no,
                forall|a: int, b: int|
                    0 <= a < b < self.tiers@.len() ==> (#[trigger] self.tiers@[a]).premium != (
                    #[trigger] self.tiers@[b]).premium,
                forall|a: int| 0 <= a < self.tiers@.len() ==> tier_wf(#[trigger] self.tiers@[a]),
                forall|a: int|
                    0 <= a < self.tiers@.len() ==> (#[trigger] self.tiers@[a]).premium <= 100,
                forall|a: int, b: int|
                    0 <= a < b < i ==> ((#[trigger] self.orders@[a]).owner@ != (
                    #[trigger] self.orders@[b]).owner@ || self.orders@[a].premium
                        != self.orders@[b].premium),
                forall|a: int|
                    0 <= a < i ==> match tier_of(
                        self.tiers@,
                        (#[trigger] self.orders@[a]).premium,
                    ) {
                        Some(t) => self.orders@[a].bid.epoch_spec() <= t.snapshots@.len(),
                        None => self.orders@[a].bid.epoch_spec() == 0,
                    },
            decreases no - i,
        {
            let rec = &self.orders[i];
            match tier_position_raw(&self.tiers, rec.premium) {
                Some(t) => {
                    proof {
                        lemma_tier_found(self.tiers@, t as int, rec.premium);
                    }
                    if rec.bid.epoch > self.tiers[t].snapshots.len() as u64 {
                        proof {
                            if self.wf() {
                                assert(match tier_of(self.tiers@, self.orders@[i as int].premium) {
                                    Some(tt) => self.orders@[i as int].bid.epoch_spec()
                                        <= tt.snapshots@.len(),
                                    None => self.orders@[i as int].bid.epoch_spec() == 0,
                                });
                            }
                        }
                        return false;
                    }
                },
                None => {
                    proof {
                        lemma_tier_absent_of(self.tiers@, rec.premium);
                    }
                    if rec.bid.epoch != 0 {
                        proof {
                            if self.wf() {
                                assert(match tier_of(self.tiers@, self.orders@[i as int].premium) {
                                    Some(tt) => self.orders@[i as int].bid.epoch_spec()
                                        <= tt.snapshots@.len(),
                                    None => self.orders@[i as int].bid.epoch_spec() == 0,
                                });
                            }
                        }
                        return false;
                    }
                },
            }
            let mut k: usize = 0;
            while k < i
                invariant
                    0 <= k <= i < no,
                    no == self.orders@.len(),
                    rec.owner@ == self.orders@[i as int].owner@,
                    rec.premium == self.orders@[i as int].premium,
                    forall|x: int|
                        0 <= x < k ==> ((#[trigger] self.orders@[x]).owner@ != self.orders@[
                            i as int
                        ].owner@ || self.orders@[x].premium != self.orders@[i as int].premium),
                decreases i - k,
            {
                if self.orders[k].owner == rec.owner && self.orders[k].premium == rec.premium {
                    proof {
                        if self.wf() {
                            assert(self.orders@[k as int].owner@ != self.orders@[i as int].owner@
                                || self.orders@[k as int].premium != self.orders@[
                                i as int
                            ].premium);
                        }
                    }
                    return false;
                }
                k = k + 1;
            }
            i = i + 1;
        }
        true
    }

    /// Whether a tier is in the active index: recorded and holding
    /// deposits.
    pub fn is_active(&self, premium: u8) -> (r: bool)
        requires
            self.wf(),
        ensures
            r == self.active(premium),
    {
        match self.tier_index(premium) {
            Some(i) => self.tiers[i].pool.total() > 0,
            None => false,
        }
    }

    /// The index of the entry recorded for a premium.
    pub fn tier_index(&self, premium: u8) -> (r: Option<usize>)
        requires
            self.wf(),
        ensures
            r matches Some(i) ==> i < self.tiers@.len() && self.tiers@[i as int].premium == premium
                && self.tier(premium) == Some(self.tiers@[i as int]),
            r is None ==> self.tier(premium) is None,
    {
        let n = self.tiers.len();
        let mut i: usize = 0;
        while i < n
            invariant
                n == self.tiers@.len(),
                0 <= i <= n,
                self.wf(),
                forall|j: int| 0 <= j < i ==> (#[trigger] self.tiers@[j]).premium != premium,
            decreases n - i,
        {
            if self.tiers[i].premium == premium {
                proof {
                    lemma_tier_found(self.tiers@, i as int, premium);
                }
                return Some(i);
            }
            i = i + 1;
        }
        proof {
            lemma_tier_absent(self.tiers@, premium);
        }
        None
    }

    /// The index of the order recorded for an owner at a premium.
    pub fn order_index(&self, owner: &String, premium: u8) -> (r: Option<usize>)
        requires
            self.wf(),
        ensures
            r matches Some(i) ==> i < self.orders@.len() && self.orders@[i as int].owner@ == owner@
                && self.orders@[i as int].premium == premium && self.order(owner@, premium)
                == Some(self.orders@[i as int]),
            r is None ==> self.order(owner@, premium) is None,
    {
        let n = self.orders.len();
        let mut i: usize = 0;
        while i < n
            invariant
                n == self.orders@.len(),
                0 <= i <= n,
                self.wf(),
                forall|j: int|
                    0 <= j < i ==> ((#[trigger] self.orders@[j]).owner@ != owner@
                        || self.orders@[j].premium != premium),
            decreases n - i,
        {
            if self.orders[i].owner == *owner && self.orders[i].premium == premium {
                proof {
                    lemma_order_found(self.orders@, i as int, owner@, premium);
                }
                return Some(i);
            }
            i = i + 1;
        }
        proof {
            lemma_order_absent(self.orders@, owner@, premium);
        }
        None
    }
}

/// The first index at which a premium is recorded, if any; no soundness
/// assumed.
fn tier_position_raw(v: &Vec<TierEntry>, premium: u8) -> (r: Option<usize>)
    ensures
        r matches Some(i) ==> i < v@.len() && v@[i as int].premium == premium,
        r is None ==> forall|j: int| 0 <= j < v@.len() ==> (#[trigger] v@[j]).premium != premium,
{
    let n = v.len();
    let mut i: usize = 0;
    while i < n
        invariant
            n == v@.len(),
            0 <= i <= n,
            forall|j: int| 0 <= j < i ==> (#[trigger] v@[j]).premium != premium,
        decreases n - i,
    {
        if v[i].premium == premium {
            return Some(i);
        }
        i = i + 1;
    }
    None
}

/// A premium held by no entry is not recorded.
pub proof fn lemma_tier_absent_of(s: Seq<TierEntry>, premium: u8)
    requires
        forall|j: int| 0 <= j < s.len() ==> (#[trigger] s[j]).premium != premium,
    ensures
        tier_of(s, premium) is None,
{
    lemma_tier_absent(s, premium);
}

pub proof fn lemma_tier_found(s: Seq<TierEntry>, i: int, premium: u8)
    requires
        0 <= i < s.len(),
        s[i].premium == premium,
        forall|a: int, b: int|
            0 <= a < b < s.len() ==> (#[trigger] s[a]).premium != (#[trigger] s[b]).premium,
    ensures
        tier_of(s, premium) == Some(s[i]),
    decreases s.len(),
{
    if i < s.len() - 1 {
        assert(s.drop_last()[i] == s[i]);
        lemma_tier_found(s.drop_last(), i, premium);
    }
}

pub proof fn lemma_tier_absent(s: Seq<TierEntry>, premium: u8)
    requires
        forall|j: int| 0 <= j < s.len() ==> (#[trigger] s[j]).premium != premium,
    ensures
        tier_of(s, premium) is None,
    decreases s.len(),
{
    if s.len() > 0 {
        lemma_tier_absent(s.drop_last(), premium);
    }
}

pub proof fn lemma_order_found(s: Seq<OrderRecord>, i: int, owner: Seq<char>, premium: u8)
    requires
        0 <= i < s.len(),
        s[i].owner@ == owner,
        s[i].premium == premium,
        forall|a: int, b: int|
            0 <= a < b < s.len() ==> ((#[trigger] s[a]).owner@ != (#[trigger] s[b]).owner@
                || s[a].premium != s[b].premium),
    ensures
        order_of(s, owner, premium) == Some(s[i]),
    decreases s.len(),
{
    if i < s.len() - 1 {
        assert(s.drop_last()[i] == s[i]);
        lemma_order_found(s.drop_last(), i, owner, premium);
    }
}

pub proof fn lemma_order_absent(s: Seq<OrderRecord>, owner: Seq<char>, premium: u8)
    requires
        forall|j: int|
            0 <= j < s.len() ==> ((#[trigger] s[j]).owner@ != owner || s[j].premium != premium),
    ensures
        order_of(s, owner, premium) is None,
    decreases s.len(),
{
    if s.len() > 0 {
        lemma_order_absent(s.drop_last(), owner, premium);
    }
}

/// A recorded order is held at some index.
pub proof fn lemma_order_some_index(s: Seq<OrderRecord>, owner: Seq<char>, premium: u8)
    requires
        order_of(s, owner, premium) is Some,
    ensures
        exists|i: int|
            0 <= i < s.len() && #[trigger] s[i].owner@ == owner && s[i].premium == premium
                && order_of(s, owner, premium) == Some(s[i]),
    decreases s.len(),
{
    if s.last().owner@ == owner && s.last().premium == premium {
        assert(s[s.len() - 1].owner@ == owner);
    } else {
        lemma_order_some_index(s.drop_last(), owner, premium);
        let i = choose|i: int|
            0 <= i < s.drop_last().len() && #[trigger] s.drop_last()[i].owner@ == owner
                && s.drop_last()[i].premium == premium && order_of(s.drop_last(), owner, premium)
                == Some(s.drop_last()[i]);
        assert(s[i] == s.drop_last()[i]);
    }
}

/// A recorded order carries the key it is recorded under.
pub proof fn lemma_order_some_fields(s: Seq<OrderRecord>, owner: Seq<char>, premium: u8)
    requires
        order_of(s, owner, premium) is Some,
    ensures
        order_of(s, owner, premium)->0.owner@ == owner,
        order_of(s, owner, premium)->0.premium == premium,
    decreases s.len(),
{
    if !(s.last().owner@ == owner && s.last().premium == premium) {
        lemma_order_some_fields(s.drop_last(), owner, premium);
    }
}

/// Overwriting one tier index rewrites that premium's record and no other.
pub proof fn lemma_tier_update(s: Seq<TierEntry>, i: int, t: TierEntry)
    requires
        0 <= i < s.len(),
        s[i].premium == t.premium,
        forall|a: int, b: int|
            0 <= a < b < s.len() ==> (#[trigger] s[a]).premium != (#[trigger] s[b]).premium,
    ensures
        tier_of(s.update(i, t), t.premium) == Some(t),
        forall|p: u8| p != t.premium ==> tier_of(s.update(i, t), p) == tier_of(s, p),
        forall|a: int, b: int|
            0 <= a < b < s.update(i, t).len() ==> (#[trigger] s.update(i, t)[a]).premium != (
            #[trigger] s.update(i, t)[b]).premium,
    decreases s.len(),
{
    let s2 = s.update(i, t);
    assert forall|a: int, b: int| 0 <= a < b < s2.len() implies (#[trigger] s2[a]).premium != (
    #[trigger] s2[b]).premium by {
        assert(s[a].premium != s[b].premium);
    }
    if i == s.len() - 1 {
        assert(s2.last() == t);
        assert(s2.drop_last() =~= s.drop_last());
        assert forall|p: u8| p != t.premium implies tier_of(s2, p) == tier_of(s, p) by {
            assert(s.last().premium == t.premium);
        }
    } else {
        let dl = s.drop_last();
        let dl2 = s2.drop_last();
        assert(dl2 =~= dl.update(i, t));
        assert(dl[i] == s[i]);
        assert forall|a: int, b: int| 0 <= a < b < dl.len() implies (#[trigger] dl[a]).premium != (
        #[trigger] dl[b]).premium by {
            assert(dl[a] == s[a]);
            assert(dl[b] == s[b]);
        }
        lemma_tier_update(dl, i, t);
        assert(s2.last() == s.last());
        assert(s[i].premium != s[s.len() - 1].premium);
        assert(tier_of(s2, t.premium) == tier_of(dl2, t.premium));
        assert forall|p: u8| p != t.premium implies tier_of(s2, p) == tier_of(s, p) by {
            if s.last().premium != p {
                assert(tier_of(s2, p) == tier_of(dl2, p));
                assert(tier_of(s, p) == tier_of(dl, p));
            }
        }
    }
}

/// Appending a fresh tier records it and disturbs no other premium.
pub proof fn lemma_tier_push(s: Seq<TierEntry>, t: TierEntry)
    requires
        tier_of(s, t.premium) is None,
        forall|a: int, b: int|
            0 <= a < b < s.len() ==> (#[trigger] s[a]).premium != (#[trigger] s[b]).premium,
    ensures
        tier_of(s.push(t), t.premium) == Some(t),
        forall|p: u8| p != t.premium ==> tier_of(s.push(t), p) == tier_of(s, p),
        forall|a: int, b: int|
            0 <= a < b < s.push(t).len() ==> (#[trigger] s.push(t)[a]).premium != (
            #[trigger] s.push(t)[b]).premium,
    decreases s.len(),
{
    assert(s.push(t).drop_last() =~= s);
    lemma_tier_no_dup(s, t.premium);
}

proof fn lemma_tier_no_dup(s: Seq<TierEntry>, premium: u8)
    requires
        tier_of(s, premium) is None,
    ensures
        forall|j: int| 0 <= j < s.len() ==> (#[trigger] s[j]).premium != premium,
    decreases s.len(),
{
    if s.len() > 0 {
        lemma_tier_no_dup(s.drop_last(), premium);
        assert forall|j: int| 0 <= j < s.len() implies (#[trigger] s[j]).premium != premium by {
            if j < s.len() - 1 {
                assert(s.drop_last()[j] == s[j]);
            }
        }
    }
}

/// Overwriting one order index rewrites that key's record and no other.
pub proof fn lemma_order_update(s: Seq<OrderRecord>, i: int, o: OrderRecord)
    requires
        0 <= i < s.len(),
        s[i].owner@ == o.owner@,
        s[i].premium == o.premium,
        forall|a: int, b: int|
            0 <= a < b < s.len() ==> ((#[trigger] s[a]).owner@ != (#[trigger] s[b]).owner@
                || s[a].premium != s[b].premium),
    ensures
        order_of(s.update(i, o), o.owner@, o.premium) == Some(o),
        forall|w: Seq<char>, p: u8|
            !(w == o.owner@ && p == o.premium) ==> order_of(s.update(i, o), w, p) == order_of(
                s,
                w,
                p,
            ),
        forall|a: int, b: int|
            0 <= a < b < s.update(i, o).len() ==> ((#[trigger] s.update(i, o)[a]).owner@ != (
            #[trigger] s.update(i, o)[b]).owner@ || s.update(i, o)[a].premium != s.update(
                i,
                o,
            )[b].premium),
    decreases s.len(),
{
    let s2 = s.update(i, o);
    assert forall|a: int, b: int| 0 <= a < b < s2.len() implies ((#[trigger] s2[a]).owner@ != (
    #[trigger] s2[b]).owner@ || s2[a].premium != s2[b].premium) by {
        assert(s[a].owner@ != s[b].owner@ || s[a].premium != s[b].premium);
    }
    if i == s.len() - 1 {
        assert(s2.last() == o);
        assert(s2.drop_last() =~= s.drop_last());
        assert forall|w: Seq<char>, p: u8| !(w == o.owner@ && p == o.premium) implies order_of(
            s2,
            w,
            p,
        ) == order_of(s, w, p) by {
            assert(s.last().owner@ == o.owner@ && s.last().premium == o.premium);
        }
    } else {
        let dl = s.drop_last();
        let dl2 = s2.drop_last();
        assert(dl2 =~= dl.update(i, o));
        assert(dl[i] == s[i]);
        assert forall|a: int, b: int| 0 <= a < b < dl.len() implies ((#[trigger] dl[a]).owner@
            != (#[trigger] dl[b]).owner@ || dl[a].premium != dl[b].premium) by {
            assert(dl[a] == s[a]);
            assert(dl[b] == s[b]);
        }
        lemma_order_update(dl, i, o);
        assert(s2.last() == s.last());
        assert(s[i].owner@ != s[s.len() - 1].owner@ || s[i].premium != s[s.len() - 1].premium);
        assert(order_of(s2, o.owner@, o.premium) == order_of(dl2, o.owner@, o.premium));
        assert forall|w: Seq<char>, p: u8| !(w == o.owner@ && p == o.premium) implies order_of(
            s2,
            w,
            p,
        ) == order_of(s, w, p) by {
            if !(s.last().owner@ == w && s.last().premium == p) {
                assert(order_of(s2, w, p) == order_of(dl2, w, p));
                assert(order_of(s, w, p) == order_of(dl, w, p));
            }
        }
    }
}

/// Appending a fresh order records it and disturbs no other key.
pub proof fn lemma_order_push(s: Seq<OrderRecord>, o: OrderRecord)
    requires
        order_of(s, o.owner@, o.premium) is None,
        forall|a: int, b: int|
            0 <= a < b < s.len() ==> ((#[trigger] s[a]).owner@ != (#[trigger] s[b]).owner@
                || s[a].premium != s[b].premium),
    ensures
        order_of(s.push(o), o.owner@, o.premium) == Some(o),
        forall|w: Seq<char>, p: u8|
            !(w == o.owner@ && p == o.premium) ==> order_of(s.push(o), w, p) == order_of(s, w, p),
        forall|a: int, b: int|
            0 <= a < b < s.push(o).len() ==> ((#[trigger] s.push(o)[a]).owner@ != (
            #[trigger] s.push(o)[b]).owner@ || s.push(o)[a].premium != s.push(o)[b].premium),
    decreases s.len(),
{
    assert(s.push(o).drop_last() =~= s);
    lemma_order_no_dup(s, o.owner@, o.premium);
}

proof fn lemma_order_no_dup(s: Seq<OrderRecord>, owner: Seq<char>, premium: u8)
    requires
        order_of(s, owner, premium) is None,
    ensures
        forall|j: int|
            0 <= j < s.len() ==> ((#[trigger] s[j]).owner@ != owner || s[j].premium != premium),
    decreases s.len(),
{
    if s.len() > 0 {
        lemma_order_no_dup(s.drop_last(), owner, premium);
        assert forall|j: int| 0 <= j < s.len() implies ((#[trigger] s[j]).owner@ != owner
            || s[j].premium != premium) by {
            if j < s.len() - 1 {
                assert(s.drop_last()[j] == s[j]);
            }
        }
    }
}

/// Removing one order index erases that key's record and no other.
pub proof fn lemma_order_remove(s: Seq<OrderRecord>, i: int)
    requires
        0 <= i < s.len(),
        forall|a: int, b: int|
            0 <= a < b < s.len() ==> ((#[trigger] s[a]).owner@ != (#[trigger] s[b]).owner@
                || s[a].premium != s[b].premium),
    ensures
        order_of(s.remove(i), s[i].owner@, s[i].premium) is None,
        forall|w: Seq<char>, p: u8|
            !(w == s[i].owner@ && p == s[i].premium) ==> order_of(s.remove(i), w, p) == order_of(
                s,
                w,
                p,
            ),
        forall|a: int, b: int|
            0 <= a < b < s.remove(i).len() ==> ((#[trigger] s.remove(i)[a]).owner@ != (
            #[trigger] s.remove(i)[b]).owner@ || s.remove(i)[a].premium != s.remove(i)[b].premium),
    decreases s.len(),
{
    let s2 = s.remove(i);
    assert forall|a: int, b: int| 0 <= a < b < s2.len() implies ((#[trigger] s2[a]).owner@ != (
    #[trigger] s2[b]).owner@ || s2[a].premium != s2[b].premium) by {
        let a0 = if a < i { a } else { a + 1 };
        let b0 = if b < i { b } else { b + 1 };
        assert(s2[a] == s[a0]);
        assert(s2[b] == s[b0]);
        assert(s[a0].owner@ != s[b0].owner@ || s[a0].premium != s[b0].premium);
    }
    if i == s.len() - 1 {
        assert(s2 =~= s.drop_last());
        lemma_order_drop_others(s, s[i].owner@, s[i].premium);
        assert forall|w: Seq<char>, p: u8| !(w == s[i].owner@ && p == s[i].premium)
            implies order_of(s2, w, p) == order_of(s, w, p) by {
            assert(s.last().owner@ == s[i].owner@ && s.last().premium == s[i].premium);
        }
    } else {
        let dl = s.drop_last();
        let dl2 = s2.drop_last();
        assert(dl2 =~= dl.remove(i));
        assert(dl[i] == s[i]);
        assert forall|a: int, b: int| 0 <= a < b < dl.len() implies ((#[trigger] dl[a]).owner@
            != (#[trigger] dl[b]).owner@ || dl[a].premium != dl[b].premium) by {
            assert(dl[a] == s[a]);
            assert(dl[b] == s[b]);
        }
        lemma_order_remove(dl, i);
        assert(s2.last() == s.last());
        assert(s[i].owner@ != s[s.len() - 1].owner@ || s[i].premium != s[s.len() - 1].premium);
        assert(order_of(s2, s[i].owner@, s[i].premium) == order_of(dl2, s[i].owner@, s[i].premium));
        assert forall|w: Seq<char>, p: u8| !(w == s[i].owner@ && p == s[i].premium)
            implies order_of(s2, w, p) == order_of(s, w, p) by {
            if !(s.last().owner@ == w && s.last().premium == p) {
                assert(order_of(s2, w, p) == order_of(dl2, w, p));
                assert(order_of(s, w, p) == order_of(dl, w, p));
            }
        }
    }
}

proof fn lemma_order_drop_others(s: Seq<OrderRecord>, owner: Seq<char>, premium: u8)
    requires
        s.len() > 0,
        s.last().owner@ == owner,
        s.last().premium == premium,
        forall|a: int, b: int|
            0 <= a < b < s.len() ==> ((#[trigger] s[a]).owner@ != (#[trigger] s[b]).owner@
                || s[a].premium != s[b].premium),
    ensures
        order_of(s.drop_last(), owner, premium) is None,
{
    assert forall|j: int| 0 <= j < s.drop_last().len() implies ((
    #[trigger] s.drop_last()[j]).owner@ != owner || s.drop_last()[j].premium != premium) by {
        assert(s.drop_last()[j] == s[j]);
        assert(s[s.len() - 1].owner@ == owner);
    }
    lemma_order_absent(s.drop_last(), owner, premium);
}

} // verus!
