//! The operations the exchange exposes, transport aside: execute or
//! simulate a market swap over the active tiers, and read tiers and
//! positions back.

use vstd::prelude::*;

use crate::error::ContractError;
use crate::exchange::commitment::Commitment;
use crate::exchange::error::SwapError;
use crate::exchange::swappable::{
    all_wf, commits_ok, commits_posted, totals_nonneg, totals_sum, Swappable,
};
use crate::exchange::swapper::{policy_pass, walk, SwapRequest, SwapResult, Swapper};
use crate::math::Udec;
use crate::order::Order;
use crate::order_manager::tier_ledger;
use crate::pool::{loaded_from, pool_wf, Pool};
use crate::premium::{premium_rate, Premium};
use crate::state::State;

verus! {

/// What the walked tiers must look like: each loaded from the state at
/// its own premium, strictly ascending, exactly the active tiers.
pub open spec fn walked_tiers(pools: Seq<Pool>, st: State, oracle: int) -> bool {
    &&& (forall|i: int|
        0 <= i < pools.len() ==> loaded_from(#[trigger] pools[i], st, pools[i].premium, oracle)
            && pool_wf(pools[i]) && st.active(pools[i].premium))
    &&& (forall|i: int, j: int| 0 <= i < j < pools.len() ==> pools[i].premium < pools[j].premium)
    &&& (forall|p: u8|
        st.active(p) ==> exists|i: int| 0 <= i < pools.len() && (#[trigger] pools[i]).premium == p)
}

/// Whether reconciling the stored position stays representable.
pub open spec fn position_fits(st: State, owner: Seq<char>, premium: u8) -> bool {
    match st.order(owner, premium) {
        Some(rec) => crate::bid_pool::sync_fits(
            rec.bid.deposited as int,
            rec.bid.filled as int,
            tier_ledger(st, premium),
            rec.bid.epoch_spec(),
            tier_ledger(st, premium).len() as int,
        ),
        None => true,
    }
}

/// Whether a walk over these tiers goes through: their summed capacity is
/// representable, every step completes, and the policy passes on the net
/// return.
pub open spec fn swap_goes_through(req: SwapRequest, offer: u128, fee: int, pools: Seq<Pool>) -> bool {
    let w = walk(pools, req, offer as int);
    let gross = steps_cb_of(w.0);
    &&& totals_sum(pools) <= u128::MAX
    &&& w.2
    &&& policy_pass(req, gross - crate::exchange::swapper::fee_of(gross, fee))
}

/// The walked tiers report no cross-party obligations of their own, so
/// any fold of them is empty and trivially representable.
proof fn lemma_pool_cms_none(s: Seq<Pool>)
    ensures
        forall|i: int, k: Seq<char>|
            0 <= i <= s.len() ==> #[trigger] crate::exchange::swappable::cms_combined(
                s.take(i),
                k,
            ) is None,
        crate::exchange::swappable::cms_fit(s),
        forall|k: Seq<char>| #[trigger] crate::exchange::swappable::cms_combined(s, k) is None,
{
    assert forall|i: int, k: Seq<char>| 0 <= i <= s.len() implies #[trigger] crate::exchange::swappable::cms_combined(
        s.take(i),
        k,
    ) is None by {
        lemma_pool_cms_none_upto(s.take(i), k);
    }
    assert forall|k: Seq<char>| #[trigger] crate::exchange::swappable::cms_combined(s, k)
        is None by {
        lemma_pool_cms_none_upto(s, k);
    }
}

proof fn lemma_pool_cms_none_upto(s: Seq<Pool>, k: Seq<char>)
    ensures
        crate::exchange::swappable::cms_combined(s, k) is None,
    decreases s.len(),
{
    if s.len() > 0 {
        lemma_pool_cms_none_upto(s.drop_last(), k);
    }
}

/// A caller-facing view of one position.
#[derive(Debug)]
pub struct OrderResponse {
    pub owner: String,
    pub premium: u8,
    pub rate: Udec,
    pub updated_at: u64,
    pub offer: u128,
    pub remaining: u128,
    pub filled: u128,
}

/// Builds the caller-facing view of a reconciled order.
pub fn order_response(order: &Order, premium: u8, oracle: &Udec) -> (r: OrderResponse)
    requires
        premium <= 100,
    ensures
        r.owner@ == order.owner@,
        r.premium == premium,
        r.rate.val() == premium_rate(premium as int, oracle.val()),
        r.updated_at == order.updated_at,
        r.offer == order.offer,
        r.remaining as int == order.bid.deposited_spec(),
        r.filled as int == order.bid.filled_spec(),
{
    OrderResponse {
        owner: order.owner.clone(),
        premium,
        rate: premium.to_rate(oracle),
        updated_at: order.updated_at,
        offer: order.offer,
        remaining: order.bid.amount(),
        filled: order.bid.filled(),
    }
}

/// Loads one position and reconciles it before reporting it. Succeeds
/// exactly when the position is recorded and its replay stays
/// representable; absent means not found, an unrepresentable replay the
/// arithmetic error.
pub fn get_position(st: &State, owner: &String, premium: u8, oracle: &Udec) -> (r: Result<
    OrderResponse,
    ContractError,
>)
    requires
        st.wf(),
        premium <= 100,
    ensures
        r is Ok <==> (st.order(owner@, premium) is Some && position_fits(*st, owner@, premium)),
        r matches Err(e) ==> (st.order(owner@, premium) is None && e == ContractError::NotFound)
            || (st.order(owner@, premium) is Some && !position_fits(*st, owner@, premium) && e
            == ContractError::Overflow),
        r matches Ok(o) ==> st.order(owner@, premium) matches Some(rec) && {
            let synced = crate::bid_pool::sync_model(
                rec.bid.deposited as int,
                rec.bid.filled as int,
                tier_ledger(*st, premium),
                rec.bid.epoch_spec(),
                tier_ledger(*st, premium).len() as int,
            );
            &&& o.owner@ == rec.owner@
            &&& o.premium == premium
            &&& o.rate.val() == premium_rate(premium as int, oracle.val())
            &&& o.updated_at == rec.updated_at
            &&& o.offer == rec.offer
            &&& o.remaining as int == synced.0
            &&& o.filled as int == synced.1
        },
{
    let pool = Pool::load(st, premium, oracle);
    proof {
        assert(pool.snapshots@ == tier_ledger(*st, premium));
    }
    let order = match pool.load_order(st, owner) {
        Ok(o) => o,
        Err(e) => {
            return Err(e);
        },
    };
    Ok(order_response(&order, premium, oracle))
}

/// The active tiers with their prices and capacities, ascending by
/// premium, windowed by offset and limit.
pub fn list_tiers(st: &State, oracle: &Udec, offset: usize, limit: usize) -> (r: Vec<
    (u8, Udec, u128),
>)
    requires
        st.wf(),
    ensures
        exists|pools: Seq<Pool>|
            {
                &&& #[trigger] walked_tiers(pools, *st, oracle.val())
                &&& r@.len() == (if offset <= pools.len() {
                    if limit <= pools.len() - offset {
                        limit as int
                    } else {
                        pools.len() - offset
                    }
                } else {
                    0
                })
                &&& (forall|i: int|
                    0 <= i < r@.len() ==> (#[trigger] r@[i]).0 == pools[offset + i].premium
                        && r@[i].1.val() == premium_rate(
                        pools[offset + i].premium as int,
                        oracle.val(),
                    ) && r@[i].2 as int == pools[offset + i].pool.total_spec())
            },
{
    let pools = Pool::iter(st, oracle);
    let ghost gpools = pools@;
    let n = pools.len();
    let mut out: Vec<(u8, Udec, u128)> = Vec::new();
    let mut i: usize = offset;
    while i < n && out.len() < limit
        invariant
            n == gpools.len(),
            pools@ == gpools,
            st.wf(),
            walked_tiers(gpools, *st, oracle.val()),
            offset <= i <= n || (offset > n && i == offset),
            out@.len() <= limit,
            i <= n ==> out@.len() == i - offset,
            i > n ==> out@.len() == 0,
            forall|k: int|
                0 <= k < out@.len() ==> (#[trigger] out@[k]).0 == gpools[offset + k].premium
                    && out@[k].1.val() == premium_rate(
                    gpools[offset + k].premium as int,
                    oracle.val(),
                ) && out@[k].2 as int == gpools[offset + k].pool.total_spec(),
        decreases n - i,
    {
        let p = &pools[i];
        let ghost pre = out@;
        out.push((p.premium, p.rate, p.pool.total()));
        proof {
            assert(out@.drop_last() =~= pre);
            assert forall|k: int| 0 <= k < out@.len() implies (#[trigger] out@[k]).0 == gpools[
                offset + k
            ].premium && out@[k].1.val() == premium_rate(
                gpools[offset + k].premium as int,
                oracle.val(),
            ) && out@[k].2 as int == gpools[offset + k].pool.total_spec() by {
                if k < out@.len() - 1 {
                    assert(out@[k] == pre[k]);
                }
            }
        }
        i = i + 1;
    }
    out
}

/// Executes one market swap: walks the active tiers best-rate-first,
/// judges the policy, and only then persists every touched tier and
/// merges their cross-party obligations. A failed walk changes nothing
/// that the host will keep.
pub fn execute_swap(
    st: &mut State,
    prefix: &str,
    offer: u128,
    req: SwapRequest,
    fee: Udec,
    oracle: &Udec,
) -> (r: Result<(SwapResult, Commitment), ContractError>)
    requires
        old(st).wf(),
        fee.val() <= crate::math::DEC_ONE,
    ensures
        final(st).wf(),
        r matches Ok((res, c)) ==> exists|pools: Seq<Pool>, posts: Seq<Pool>|
            #[trigger] swap_outcome(
                *old(st),
                *final(st),
                oracle.val(),
                req,
                offer,
                fee.val(),
                res,
                pools,
                posts,
            ) && c.wf(),
        (forall|pools: Seq<Pool>|
            #[trigger] walked_tiers(pools, *old(st), oracle.val()) ==> swap_goes_through(
                req,
                offer,
                fee.val(),
                pools,
            )) ==> r is Ok,
        r matches Err(e) ==> (e is InsufficientReturn ==> exists|pools: Seq<Pool>|
            #[trigger] walked_tiers(pools, *old(st), oracle.val()) && walk(
                pools,
                req,
                offer as int,
            ).2 && !policy_pass(
                req,
                steps_cb_of(walk(pools, req, offer as int).0) - crate::exchange::swapper::fee_of(
                    steps_cb_of(walk(pools, req, offer as int).0),
                    fee.val(),
                ),
            )),
{
    let mut pools = Pool::iter(st, oracle);
    let ghost pools0 = pools@;
    let total_ok = checked_pools_total(&pools);
    if !total_ok {
        proof {
            assert(walked_tiers(pools0, *old(st), oracle.val()));
            assert(!swap_goes_through(req, offer, fee.val(), pools0));
        }
        return Err(ContractError::Overflow);
    }
    let mut swapper: Swapper<Pool> = Swapper::new(str_to_string(prefix), offer, req, fee);
    let res = match swapper.swap(&mut pools) {
        Ok(v) => v,
        Err(e) => {
            proof {
                assert(walked_tiers(pools0, *old(st), oracle.val()));
                assert(!swap_goes_through(req, offer, fee.val(), pools0));
                match e {
                    SwapError::InsufficientReturn { .. } => {
                        assert(walk(pools0, req, offer as int).2);
                    },
                    _ => {},
                }
            }
            return Err(ContractError::from_swap(e));
        },
    };
    let ghost posts = swapper.pending@;
    let ghost w = walk(pools0, req, offer as int);
    proof {
        assert(posts.len() == w.0.len());
        assert forall|i: int| 0 <= i < posts.len() implies pool_wf(#[trigger] posts[i]) && posts[
            i
        ].premium == pools0[i].premium && posts[i].snapshots@ == pools0[i].snapshots@ by {
            assert(posts[0 + i] == posts[i]);
            assert(posts[0 + i].wf());
            assert(pools0[i].swap_posted(w.0[i].0, posts[0 + i]));
        }
        assert forall|i: int| 0 <= i < posts.len() implies match st.tier(
            (#[trigger] posts[i]).premium,
        ) {
            Some(t) => t.snapshots@.len() <= posts[i].snapshots@.len() + posts[i].pending@.len(),
            None => true,
        } by {
            assert(loaded_from(pools0[i], *st, pools0[i].premium, oracle.val()));
        }
        lemma_commits_ok_distinct(posts, pools0, *st);
        lemma_commits_sure_distinct(posts, pools0, *st);
        lemma_pool_cms_none(posts);
    }
    let commitment = match swapper.commit(st) {
        Ok(c) => c,
        Err(e) => {
            proof {
                assert(false);
            }
            return Err(ContractError::from_swap(e));
        },
    };
    proof {
        assert(walked_tiers(pools0, *old(st), oracle.val()));
        assert(commits_posted(posts, *old(st), *st));
        assert forall|i: int| 0 <= i < posts.len() implies pools0[i].swap_posted(
            w.0[i].0,
            #[trigger] posts[i],
        ) by {
            assert(posts[0 + i] == posts[i]);
            assert(pools0[i].swap_posted(w.0[i].0, posts[0 + i]));
        }
        assert(swap_outcome(
            *old(st),
            *st,
            oracle.val(),
            req,
            offer,
            fee.val(),
            res,
            pools0,
            posts,
        ));
    }
    let out: Result<(SwapResult, Commitment), ContractError> = Ok((res, commitment));
    proof {
        match &out {
            Ok(pair) => {
                assert(swap_outcome(
                    *old(st),
                    *st,
                    oracle.val(),
                    req,
                    offer,
                    fee.val(),
                    pair.0,
                    pools0,
                    posts,
                ));
                assert(pair.1.wf());
            },
            Err(_) => {},
        }
    }
    out
}

/// Walks the active tiers without persisting anything: the read-only
/// variant of a best-effort swap.
pub fn simulate_swap(st: &State, offer: u128, fee: Udec, oracle: &Udec) -> (r: Result<
    SwapResult,
    ContractError,
>)
    requires
        st.wf(),
        fee.val() <= crate::math::DEC_ONE,
    ensures
        r matches Ok(res) ==> exists|pools: Seq<Pool>|
            #[trigger] sim_outcome(*st, oracle.val(), offer, fee.val(), res, pools),
        (forall|pools: Seq<Pool>|
            #[trigger] walked_tiers(pools, *st, oracle.val()) ==> swap_goes_through(
                SwapRequest::Yolo,
                offer,
                fee.val(),
                pools,
            )) ==> r is Ok,
{
    let mut pools = Pool::iter(st, oracle);
    let ghost pools0 = pools@;
    let total_ok = checked_pools_total(&pools);
    if !total_ok {
        proof {
            assert(walked_tiers(pools0, *st, oracle.val()));
            assert(!swap_goes_through(SwapRequest::Yolo, offer, fee.val(), pools0));
        }
        return Err(ContractError::Overflow);
    }
    let mut swapper: Swapper<Pool> = Swapper::new(
        str_to_string(""),
        offer,
        SwapRequest::Yolo,
        fee,
    );
    let out: Result<SwapResult, ContractError> = match swapper.swap(&mut pools) {
        Ok(v) => Ok(v),
        Err(e) => Err(ContractError::from_swap(e)),
    };
    proof {
        match &out {
            Ok(res2) => {
                assert(walked_tiers(pools0, *st, oracle.val()));
                assert(sim_outcome(*st, oracle.val(), offer, fee.val(), *res2, pools0));
            },
            Err(_) => {
                assert(walked_tiers(pools0, *st, oracle.val()));
                assert(!swap_goes_through(SwapRequest::Yolo, offer, fee.val(), pools0));
            },
        }
    }
    out
}

/// Everything one persisted walk leaves behind: the walked tiers were
/// the active ones; the walk completed and satisfied its policy; the
/// reported amounts are exactly the walk's; and the touched tiers'
/// post-states were committed in order.
pub open spec fn swap_outcome(
    st0: State,
    stf: State,
    oracle: int,
    req: SwapRequest,
    offer: u128,
    fee: int,
    res: SwapResult,
    pools: Seq<Pool>,
    posts: Seq<Pool>,
) -> bool {
    let w = walk(pools, req, offer as int);
    let gross = steps_cb_of(w.0);
    let fee_amt = crate::exchange::swapper::fee_of(gross, fee);
    &&& walked_tiers(pools, st0, oracle)
    &&& commits_posted(posts, st0, stf)
    &&& w.2 && policy_pass(req, gross - fee_amt)
    &&& res.consumed_offer as int == steps_co_of(w.0)
    &&& res.remaining_offer as int == w.1
    &&& res.consumed_offer + res.remaining_offer == offer
    &&& res.fee_amount as int == fee_amt
    &&& res.return_amount as int == gross - fee_amt
    &&& posts.len() == w.0.len()
    &&& (forall|i: int|
        0 <= i < w.0.len() ==> pools[i].swap_posted(w.0[i].0, #[trigger] posts[i]))
}

/// Offer consumed over recorded walk steps.
pub open spec fn steps_co_of(steps: Seq<(int, int, int)>) -> int {
    crate::exchange::swapper::steps_co(steps)
}

/// Counter-value returned over recorded walk steps.
pub open spec fn steps_cb_of(steps: Seq<(int, int, int)>) -> int {
    crate::exchange::swapper::steps_cb(steps)
}

/// What one read-only walk reports: the walked tiers were the active
/// ones, the walk completed, and the amounts are exactly the walk's with
/// the fee taken off the gross return.
pub open spec fn sim_outcome(
    st: State,
    oracle: int,
    offer: u128,
    fee: int,
    res: SwapResult,
    pools: Seq<Pool>,
) -> bool {
    let w = walk(pools, SwapRequest::Yolo, offer as int);
    let gross = steps_cb_of(w.0);
    let fee_amt = crate::exchange::swapper::fee_of(gross, fee);
    &&& walked_tiers(pools, st, oracle)
    &&& w.2
    &&& res.return_amount as int == gross - fee_amt
    &&& res.fee_amount as int == fee_amt
    &&& res.consumed_offer as int == steps_co_of(w.0)
    &&& res.remaining_offer as int == w.1
    &&& res.consumed_offer + res.remaining_offer == offer
}

/// Relies on `str::to_owned` through the reference specification: the
/// owned copy reads the same.
fn str_to_string(s: &str) -> (r: String)
    ensures
        r@ == s@,
{
    s.to_owned()
}

/// Sums the walked pools' capacities, reporting whether the sum stays
/// representable.
fn checked_pools_total(pools: &Vec<Pool>) -> (r: bool)
    requires
        all_wf(pools@),
    ensures
        r <==> totals_sum(pools@) <= u128::MAX,
        totals_nonneg(pools@),
{
    let ghost items0 = pools@;
    let n = pools.len();
    let mut acc: u128 = 0;
    let mut i: usize = 0;
    proof {
        assert(items0.skip(0) =~= items0);
        lemma_pools_nonneg(items0);
    }
    while i < n
        invariant
            n == items0.len(),
            0 <= i <= n,
            pools@ == items0,
            all_wf(items0),
            totals_nonneg(items0),
            acc + totals_sum(items0.skip(i as int)) == totals_sum(items0),
        decreases n - i,
    {
        proof {
            assert(items0.skip(i as int)[0] == items0[i as int]);
            assert(items0.skip(i as int).skip(1) =~= items0.skip(i + 1));
            crate::exchange::swappable::lemma_skip_nonneg(items0, i + 1);
            crate::exchange::swappable::lemma_totals_sum_nonneg(items0.skip(i + 1));
        }
        let t = pools[i].pool.total();
        match acc.checked_add(t) {
            Some(v) => {
                acc = v;
            },
            None => {
                proof {
                    assert(totals_sum(items0) > u128::MAX);
                }
                return false;
            },
        }
        i = i + 1;
    }
    proof {
        assert(items0.skip(n as int) =~= Seq::<Pool>::empty());
    }
    true
}

proof fn lemma_pools_nonneg(pools: Seq<Pool>)
    ensures
        totals_nonneg(pools),
{
}

/// Each walked tier's commit is promised to succeed in turn: a tier's
/// commit always goes through, and earlier commits never touch a later
/// tier's record.
proof fn lemma_commits_sure_distinct(posts: Seq<Pool>, loaded: Seq<Pool>, st: State)
    requires
        st.wf(),
        posts.len() <= loaded.len(),
        forall|i: int| 0 <= i < posts.len() ==> pool_wf(#[trigger] posts[i]),
        forall|i: int|
            0 <= i < posts.len() ==> (#[trigger] posts[i]).premium == loaded[i].premium && posts[
                i
            ].snapshots@ == loaded[i].snapshots@,
        forall|i: int, j: int|
            0 <= i < j < loaded.len() ==> (#[trigger] loaded[i]).premium != (
            #[trigger] loaded[j]).premium,
        forall|i: int|
            0 <= i < posts.len() ==> match st.tier((#[trigger] posts[i]).premium) {
                Some(t) => t.snapshots@.len() <= posts[i].snapshots@.len() + posts[
                    i
                ].pending@.len(),
                None => true,
            },
    ensures
        crate::exchange::swappable::commits_sure(posts, st),
    decreases posts.len(),
{
    if posts.len() > 0 {
        assert(posts[0].commit_ok(st));
        assert forall|mid: State|
            #[trigger] posts[0].commit_posted(st, mid) && mid.wf()
                implies crate::exchange::swappable::commits_sure(posts.skip(1), mid) by {
            assert forall|i: int| 0 <= i < posts.skip(1).len() implies match (mid).tier((
            #[trigger] posts.skip(1)[i]).premium) {
                Some(t) => t.snapshots@.len() <= posts.skip(1)[i].snapshots@.len() + posts.skip(
                    1,
                )[i].pending@.len(),
                None => true,
            } by {
                assert(posts.skip(1)[i] == posts[i + 1]);
                assert(loaded[i + 1].premium != loaded[0].premium);
                assert(posts[i + 1].premium != posts[0].premium);
                assert(mid.tier(posts[i + 1].premium) == st.tier(posts[i + 1].premium));
            }
            assert forall|i: int| 0 <= i < posts.skip(1).len() implies pool_wf(
                #[trigger] posts.skip(1)[i],
            ) && posts.skip(1)[i].premium == loaded.skip(1)[i].premium && posts.skip(
                1,
            )[i].snapshots@ == loaded.skip(1)[i].snapshots@ by {
                assert(posts.skip(1)[i] == posts[i + 1]);
                assert(loaded.skip(1)[i] == loaded[i + 1]);
            }
            assert forall|i: int, j: int| 0 <= i < j < loaded.skip(1).len() implies (
            #[trigger] loaded.skip(1)[i]).premium != (#[trigger] loaded.skip(1)[j]).premium by {
                assert(loaded.skip(1)[i] == loaded[i + 1]);
                assert(loaded.skip(1)[j] == loaded[j + 1]);
            }
            lemma_commits_sure_distinct(posts.skip(1), loaded.skip(1), mid);
        }
    }
}

/// Each walked tier may be committed in turn: the premiums are distinct,
/// so earlier commits never touch a later tier's record.
proof fn lemma_commits_ok_distinct(posts: Seq<Pool>, loaded: Seq<Pool>, st: State)
    requires
        st.wf(),
        posts.len() <= loaded.len(),
        forall|i: int| 0 <= i < posts.len() ==> pool_wf(#[trigger] posts[i]),
        forall|i: int|
            0 <= i < posts.len() ==> (#[trigger] posts[i]).premium == loaded[i].premium && posts[
                i
            ].snapshots@ == loaded[i].snapshots@,
        forall|i: int, j: int|
            0 <= i < j < loaded.len() ==> (#[trigger] loaded[i]).premium != (
            #[trigger] loaded[j]).premium,
        forall|i: int|
            0 <= i < posts.len() ==> match st.tier((#[trigger] posts[i]).premium) {
                Some(t) => t.snapshots@.len() <= posts[i].snapshots@.len() + posts[
                    i
                ].pending@.len(),
                None => true,
            },
    ensures
        commits_ok(posts, st),
    decreases posts.len(),
{
    if posts.len() > 0 {
        assert(posts[0].commit_ok(st));
        assert forall|mid: State|
            #[trigger] posts[0].commit_posted(st, mid) && mid.wf() implies commits_ok(
            posts.skip(1),
            mid,
        ) by {
            assert forall|i: int| 0 <= i < posts.skip(1).len() implies match (mid).tier((
            #[trigger] posts.skip(1)[i]).premium) {
                Some(t) => t.snapshots@.len() <= posts.skip(1)[i].snapshots@.len() + posts.skip(
                    1,
                )[i].pending@.len(),
                None => true,
            } by {
                assert(posts.skip(1)[i] == posts[i + 1]);
                assert(loaded[i + 1].premium != loaded[0].premium);
                assert(posts[i + 1].premium != posts[0].premium);
                assert(mid.tier(posts[i + 1].premium) == st.tier(posts[i + 1].premium));
            }
            assert forall|i: int| 0 <= i < posts.skip(1).len() implies pool_wf(
                #[trigger] posts.skip(1)[i],
            ) && posts.skip(1)[i].premium == loaded.skip(1)[i].premium && posts.skip(
                1,
            )[i].snapshots@ == loaded.skip(1)[i].snapshots@ by {
                assert(posts.skip(1)[i] == posts[i + 1]);
                assert(loaded.skip(1)[i] == loaded[i + 1]);
            }
            assert forall|i: int, j: int| 0 <= i < j < loaded.skip(1).len() implies (
            #[trigger] loaded.skip(1)[i]).premium != (#[trigger] loaded.skip(1)[j]).premium by {
                assert(loaded.skip(1)[i] == loaded[i + 1]);
                assert(loaded.skip(1)[j] == loaded[j + 1]);
            }
            lemma_commits_ok_distinct(posts.skip(1), loaded.skip(1), mid);
        }
    }
}

} // verus!
