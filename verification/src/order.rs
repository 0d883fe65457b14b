//! Orders: the persisted wrapper binding an owner to a bid at one tier,
//! carrying the caller-visible offer and a timestamp. An order is saved
//! only while its bid is live; an emptied order is pruned. Listing pages
//! through one owner's orders in ascending tier order.

use vstd::prelude::*;

use crate::bid_pool::Bid;
use crate::error::ContractError;
use crate::pool::{order_written, Pool};
use crate::state::{
    lemma_order_push, lemma_order_remove, lemma_order_update, tier_of, OrderRecord, State,
};

verus! {

/// The default page size for listing, and its cap.
pub const DEFAULT_LIMIT: u8 = 10;

pub const MAX_LIMIT: u8 = 31;

/// One owner's order at one tier.
#[derive(Debug)]
pub struct Order {
    pub owner: String,
    pub updated_at: u64,
    /// Original offer amount, as it was at `updated_at` time.
    pub offer: u128,
    pub bid: Bid,
}

/// The pages of one owner's orders: the records at each premium this
/// owner holds, ascending, up to the given premium bound.
pub open spec fn owner_orders_upto(st: State, owner: Seq<char>, p: int) -> Seq<(u8, OrderRecord)>
    decreases p,
{
    if p <= 0 {
        Seq::<(u8, OrderRecord)>::empty()
    } else {
        owner_orders_upto(st, owner, p - 1) + (match st.order(owner, (p - 1) as u8) {
            Some(rec) => seq![((p - 1) as u8, rec)],
            None => Seq::<(u8, OrderRecord)>::empty(),
        })
    }
}

/// All of one owner's orders, ascending by premium.
pub open spec fn owner_orders(st: State, owner: Seq<char>) -> Seq<(u8, OrderRecord)> {
    owner_orders_upto(st, owner, 256)
}

impl Order {
    /// The remaining principal of the order's bid.
    pub fn amount(&self) -> (r: u128)
        ensures
            r as int == self.bid.deposited_spec(),
    {
        self.bid.amount()
    }

    /// Loads the order recorded for an owner at a premium; absent means
    /// not found.
    pub fn load(st: &State, owner: &String, premium: u8) -> (r: Result<Order, ContractError>)
        requires
            st.wf(),
        ensures
            r is Ok <==> st.order(owner@, premium) is Some,
            r matches Err(e) ==> e == ContractError::NotFound,
            r matches Ok(o) ==> st.order(owner@, premium) matches Some(rec) && o.owner@
                == rec.owner@ && o.updated_at == rec.updated_at && o.offer == rec.offer && o.bid
                == rec.bid,
    {
        match st.order_index(owner, premium) {
            Some(i) => {
                let rec = &st.orders[i];
                Ok(
                    Order {
                        owner: rec.owner.clone(),
                        updated_at: rec.updated_at,
                        offer: rec.offer,
                        bid: rec.bid,
                    },
                )
            },
            None => Err(ContractError::NotFound),
        }
    }

    /// Lists one owner's orders ascending by premium, skipping `offset`
    /// and returning at most `limit` entries, defaulted and capped.
    pub fn by_owner(st: &State, owner: &String, offset: Option<u8>, limit: Option<u8>) -> (r: Vec<
        (u8, Order),
    >)
        requires
            st.wf(),
        ensures
            ({
                let full = owner_orders(*st, owner@);
                let off = (match offset {
                    Some(o) => o as int,
                    None => 0,
                });
                let lim = (match limit {
                    Some(l) => if l < MAX_LIMIT {
                        l as int
                    } else {
                        MAX_LIMIT as int
                    },
                    None => DEFAULT_LIMIT as int,
                });
                let window = if off <= full.len() {
                    full.skip(off).take(if lim <= full.len() - off {
                        lim
                    } else {
                        full.len() - off
                    })
                } else {
                    Seq::<(u8, OrderRecord)>::empty()
                };
                &&& r@.len() == window.len()
                &&& forall|i: int|
                    0 <= i < r@.len() ==> (#[trigger] r@[i]).0 == window[i].0 && r@[i].1.owner@
                        == window[i].1.owner@ && r@[i].1.updated_at == window[i].1.updated_at
                        && r@[i].1.offer == window[i].1.offer && r@[i].1.bid == window[i].1.bid
            }),
    {
        let mut all: Vec<(u8, Order)> = Vec::new();
        let mut p: u16 = 0;
        while p < 256
            invariant
                st.wf(),
                0 <= p <= 256,
                all@.len() == owner_orders_upto(*st, owner@, p as int).len(),
                forall|i: int|
                    0 <= i < all@.len() ==> {
                        let full = owner_orders_upto(*st, owner@, p as int);
                        (#[trigger] all@[i]).0 == full[i].0 && all@[i].1.owner@ == full[i].1.owner@
                            && all@[i].1.updated_at == full[i].1.updated_at && all@[i].1.offer
                            == full[i].1.offer && all@[i].1.bid == full[i].1.bid
                    },
            decreases 256 - p,
        {
            let key: u8 = p as u8;
            let ghost pre = all@;
            match st.order_index(owner, key) {
                Some(i) => {
                    let rec = &st.orders[i];
                    all.push(
                        (
                            key,
                            Order {
                                owner: rec.owner.clone(),
                                updated_at: rec.updated_at,
                                offer: rec.offer,
                                bid: rec.bid,
                            },
                        ),
                    );
                    proof {
                        assert(all@.drop_last() =~= pre);
                        let full = owner_orders_upto(*st, owner@, p + 1);
                        assert(full == owner_orders_upto(*st, owner@, p as int) + seq![
                            (key, st.order(owner@, key)->0),
                        ]);
                        assert forall|k: int| 0 <= k < all@.len() implies {
                            (#[trigger] all@[k]).0 == full[k].0 && all@[k].1.owner@
                                == full[k].1.owner@ && all@[k].1.updated_at
                                == full[k].1.updated_at && all@[k].1.offer == full[k].1.offer
                                && all@[k].1.bid == full[k].1.bid
                        } by {
                            if k < all@.len() - 1 {
                                assert(all@[k] == pre[k]);
                                assert(full[k] == owner_orders_upto(*st, owner@, p as int)[k]);
                            } else {
                                assert(full[k] == (key, st.order(owner@, key)->0));
                            }
                        }
                    }
                },
                None => {
                    proof {
                        let full = owner_orders_upto(*st, owner@, p + 1);
                        assert(full =~= owner_orders_upto(*st, owner@, p as int));
                    }
                },
            }
            p = p + 1;
        }
        let off: usize = match offset {
            Some(o) => o as usize,
            None => 0,
        };
        let lim: usize = match limit {
            Some(l) => if l < MAX_LIMIT {
                l as usize
            } else {
                MAX_LIMIT as usize
            },
            None => DEFAULT_LIMIT as usize,
        };
        let mut out: Vec<(u8, Order)> = Vec::new();
        let n = all.len();
        let mut i: usize = off;
        proof {
            assert(owner_orders_upto(*st, owner@, 256) == owner_orders(*st, owner@));
        }
        while i < n && out.len() < lim
            invariant
                n == all@.len(),
                off <= i <= n || (off > n && i == off),
                out@.len() <= lim,
                i <= n ==> out@.len() == i - off,
                i > n ==> out@.len() == 0,
                forall|k: int|
                    0 <= k < out@.len() ==> (#[trigger] out@[k]).0 == all@[off + k].0
                        && out@[k].1.owner@ == all@[off + k].1.owner@ && out@[k].1.updated_at
                        == all@[off + k].1.updated_at && out@[k].1.offer == all@[off + k].1.offer
                        && out@[k].1.bid == all@[off + k].1.bid,
            decreases n - i,
        {
            let (key, o) = &all[i];
            let ghost pre_out = out@;
            out.push(
                (
                    *key,
                    Order {
                        owner: o.owner.clone(),
                        updated_at: o.updated_at,
                        offer: o.offer,
                        bid: o.bid,
                    },
                ),
            );
            proof {
                assert(out@.drop_last() =~= pre_out);
                assert forall|k: int| 0 <= k < out@.len() implies (#[trigger] out@[k]).0
                    == all@[off + k].0 && out@[k].1.owner@ == all@[off + k].1.owner@
                    && out@[k].1.updated_at == all@[off + k].1.updated_at && out@[k].1.offer
                    == all@[off + k].1.offer && out@[k].1.bid == all@[off + k].1.bid by {
                    if k < out@.len() - 1 {
                        assert(out@[k] == pre_out[k]);
                    }
                }
            }
            i = i + 1;
        }
        proof {
            let full = owner_orders(*st, owner@);
            let offi = off as int;
            let limi = lim as int;
            if offi <= full.len() {
                let take_n = if limi <= full.len() - offi {
                    limi
                } else {
                    full.len() - offi
                };
                let window = full.skip(offi).take(take_n);
                assert(out@.len() == window.len());
                assert forall|k: int| 0 <= k < out@.len() implies {
                    (#[trigger] out@[k]).0 == window[k].0 && out@[k].1.owner@ == window[k].1.owner@
                        && out@[k].1.updated_at == window[k].1.updated_at && out@[k].1.offer
                        == window[k].1.offer && out@[k].1.bid == window[k].1.bid
                } by {
                    assert(window[k] == full[offi + k]);
                }
            } else {
                assert(out@.len() == 0);
            }
        }
        out
    }

    /// Persists the order: saved under its owner and the pool's premium
    /// while the bid is live, pruned once it is empty.
    pub fn save(&self, st: &mut State, pool: &Pool) -> (r: ())
        requires
            old(st).wf(),
            match tier_of(old(st).tiers@, pool.premium) {
                Some(t) => self.bid.epoch_spec() <= t.snapshots@.len(),
                None => self.bid.epoch_spec() == 0,
            },
        ensures
            final(st).wf(),
            final(st).tiers@ == old(st).tiers@,
            order_written(*self, pool.premium, *old(st), *final(st)),
    {
        let empty = self.bid.is_empty();
        match st.order_index(&self.owner, pool.premium) {
            Some(i) => {
                if empty {
                    proof {
                        lemma_order_remove(st.orders@, i as int);
                    }
                    st.orders.remove(i);
                } else {
                    let rec = OrderRecord {
                        owner: self.owner.clone(),
                        premium: pool.premium,
                        updated_at: self.updated_at,
                        offer: self.offer,
                        bid: self.bid,
                    };
                    let ghost grec = rec;
                    proof {
                        lemma_order_update(st.orders@, i as int, grec);
                    }
                    st.orders.set(i, rec);
                }
            },
            None => {
                if !empty {
                    let rec = OrderRecord {
                        owner: self.owner.clone(),
                        premium: pool.premium,
                        updated_at: self.updated_at,
                        offer: self.offer,
                        bid: self.bid,
                    };
                    let ghost grec = rec;
                    proof {
                        lemma_order_push(st.orders@, grec);
                    }
                    st.orders.push(rec);
                }
            },
        }
    }
}

} // verus!
