//! The swap driver: one policy-driven walk over ordered liquidity sources.
//!
//! The caller supplies sources pre-sorted from best to worst rate. The
//! driver consumes its offer source by source until it is exhausted, a
//! limit-price policy halts it, or the sources run out; it then deducts a
//! taker fee, rounded up in the fee-receiver's favor, and judges the
//! policy. A step that would breach a limit price is discarded whole, and
//! a failed walk commits nothing: committing is a separate, later call.

use vstd::prelude::*;

use crate::fmt::{dec_chars, fmt_u128, fmt_udec, udec_chars};
use crate::math::{
    checked_mul_ratio_ceil, checked_mul_ratio_floor, lemma_ratio_ceil_le, ratio_ceil, ratio_floor,
    Udec, DEC_ONE,
};
use crate::state::State;
use super::commitment::Commitment;
use super::error::SwapError;
use super::swappable::{all_wf, attrs_match, cms_combined, cms_fit, commits_ok, commits_posted, commits_sure, lemma_commits_posted_snoc, lemma_totals_sum_nonneg, totals_nonneg, totals_sum, Swappable};

verus! {

/// What a caller asks of a swap.
#[derive(Clone, Copy, Debug, PartialEq, Eq, Structural)]
pub enum SwapRequest {
    /// Take whatever the sources return.
    Yolo,
    /// Fail unless at least this much comes back, net of the fee.
    Min { min_return: u128 },
    /// Fail unless exactly this much comes back, net of the fee.
    Exact { exact_return: u128 },
    /// Stop before any step whose achieved price would exceed this, and
    /// return the unconsumed remainder.
    Limit { price: Udec },
}

/// One emitted trade record.
#[derive(Debug)]
pub struct Event {
    pub ty: String,
    pub attributes: Vec<(String, String)>,
}

/// What a finished walk reports.
#[derive(Debug)]
pub struct SwapResult {
    pub events: Vec<Event>,
    pub fee_amount: u128,
    pub return_amount: u128,
    pub consumed_offer: u128,
    pub remaining_offer: u128,
}

/// A trade event reads as: the walk's prefix tagged `/trade`, then the
/// rate, consumed offer and bought amount, then the source's own pairs.
pub open spec fn event_matches(
    e: Event,
    prefix: Seq<char>,
    rate: int,
    offer: int,
    bid: int,
    attrs: Seq<(Seq<char>, Seq<char>)>,
) -> bool {
    &&& e.ty@ == prefix + "/trade"@
    &&& e.attributes@.len() == 3 + attrs.len()
    &&& e.attributes@[0].0@ == "rate"@ && e.attributes@[0].1@ == udec_chars(rate)
    &&& e.attributes@[1].0@ == "offer"@ && e.attributes@[1].1@ == dec_chars(offer)
    &&& e.attributes@[2].0@ == "bid"@ && e.attributes@[2].1@ == dec_chars(bid)
    &&& forall|i: int|
        0 <= i < attrs.len() ==> (#[trigger] e.attributes@[3 + i]).0@ == attrs[i].0
            && e.attributes@[3 + i].1@ == attrs[i].1
}

/// Builds the trade event for one recorded step of a walk.
pub fn event<T: Swappable>(s: &T, prefix: &String, offer: u128, bid: u128) -> (e: Event)
    requires
        s.wf(),
    ensures
        event_matches(e, prefix@, s.rate_spec(), offer as int, bid as int, s.attrs_spec()),
{
    let ty = prefix.clone().concat("/trade");
    let mut attributes: Vec<(String, String)> = Vec::new();
    attributes.push((string_lit_rate(), fmt_udec(&s.rate())));
    attributes.push((string_lit_offer(), fmt_u128(offer)));
    attributes.push((string_lit_bid(), fmt_u128(bid)));
    let extra = s.attributes();
    let n = extra.len();
    let mut i: usize = 0;
    while i < n
        invariant
            n == extra@.len(),
            0 <= i <= n,
            attributes@.len() == 3 + i,
            attrs_match(extra@, s.attrs_spec()),
            attributes@[0].0@ == "rate"@ && attributes@[0].1@ == udec_chars(s.rate_spec()),
            attributes@[1].0@ == "offer"@ && attributes@[1].1@ == dec_chars(offer as int),
            attributes@[2].0@ == "bid"@ && attributes@[2].1@ == dec_chars(bid as int),
            forall|j: int|
                0 <= j < i ==> (#[trigger] attributes@[3 + j]).0@ == s.attrs_spec()[j].0
                    && attributes@[3 + j].1@ == s.attrs_spec()[j].1,
        decreases n - i,
    {
        let (k, v) = &extra[i];
        attributes.push((k.clone(), v.clone()));
        i = i + 1;
    }
    Event { ty, attributes }
}

fn string_lit_rate() -> (r: String)
    ensures
        r@ == "rate"@,
{
    let r = String::new();
    r.concat("rate")
}

fn string_lit_offer() -> (r: String)
    ensures
        r@ == "offer"@,
{
    let r = String::new();
    r.concat("offer")
}

fn string_lit_bid() -> (r: String)
    ensures
        r@ == "bid"@,
{
    let r = String::new();
    r.concat("bid")
}

/// Whether a step at these consumed amounts would breach a limit price:
/// the achieved price, floored to fixed-point, exceeds the cap.
pub open spec fn limit_breach(req: SwapRequest, co: int, cb: int) -> bool {
    match req {
        SwapRequest::Limit { price } => cb != 0 && ratio_floor(co, DEC_ONE as int, cb)
            > price.val(),
        _ => false,
    }
}

/// Whether a walk's net return satisfies the request's policy.
pub open spec fn policy_pass(req: SwapRequest, net: int) -> bool {
    match req {
        SwapRequest::Min { min_return } => net >= min_return,
        SwapRequest::Exact { exact_return } => net == exact_return,
        _ => true,
    }
}

/// The walk itself, as a value: processing sources front to back from a
/// remaining offer yields the recorded steps — each a source's post-state
/// with the offer it consumed and the amount it returned — the offer left
/// over, and whether every attempted step completed. The walk ends when
/// the offer is exhausted, a limit-price step is discarded, the sources
/// run out, or a step fails.
pub open spec fn walk<T: Swappable>(sources: Seq<T>, req: SwapRequest, remaining: int) -> (
    Seq<(int, int, int)>,
    int,
    bool,
)
    decreases sources.len(),
{
    if sources.len() == 0 {
        (Seq::<(int, int, int)>::empty(), remaining, true)
    } else {
        let src = sources[0];
        if !src.swap_ok(remaining) {
            (Seq::<(int, int, int)>::empty(), remaining, false)
        } else {
            let co = src.swap_co(remaining);
            let cb = src.swap_cb(remaining);
            if limit_breach(req, co, cb) {
                (Seq::<(int, int, int)>::empty(), remaining, true)
            } else if remaining - co == 0 {
                (seq![(remaining, co, cb)], 0, true)
            } else {
                let rest = walk(sources.skip(1), req, remaining - co);
                (seq![(remaining, co, cb)] + rest.0, rest.1, rest.2)
            }
        }
    }
}

/// Conservation over the walk: the offer consumed by the recorded steps
/// and the offer left over always rebuild the offer the walk began with.
pub proof fn lemma_walk_conserves_offer<T: Swappable>(
    sources: Seq<T>,
    req: SwapRequest,
    remaining: int,
)
    ensures
        steps_co(walk(sources, req, remaining).0) + walk(sources, req, remaining).1 == remaining,
    decreases sources.len(),
{
    let w = walk(sources, req, remaining);
    if sources.len() == 0 {
        assert(steps_co(w.0) == 0);
    } else {
        let src = sources[0];
        if !src.swap_ok(remaining) {
            assert(steps_co(w.0) == 0);
        } else {
            let co = src.swap_co(remaining);
            let cb = src.swap_cb(remaining);
            if limit_breach(req, co, cb) {
                assert(steps_co(w.0) == 0);
            } else if remaining - co == 0 {
                let single = seq![(remaining, co, cb)];
                assert(single.drop_last() =~= Seq::<(int, int, int)>::empty());
                assert(steps_co(single.drop_last()) == 0);
                assert(steps_co(single) == steps_co(single.drop_last()) + single.last().1);
                assert(w.0 == single && w.1 == 0);
            } else {
                let rest = walk(sources.skip(1), req, remaining - co);
                lemma_walk_conserves_offer(sources.skip(1), req, remaining - co);
                lemma_steps_co_cons((remaining, co, cb), rest.0);
                assert(w.0 == seq![(remaining, co, cb)] + rest.0 && w.1 == rest.1);
                assert(steps_co(w.0) == co + steps_co(rest.0));
            }
        }
    }
}

/// Consumption distributes over putting one step in front.
proof fn lemma_steps_co_cons(x: (int, int, int), steps: Seq<(int, int, int)>)
    ensures
        steps_co(seq![x] + steps) == x.1 + steps_co(steps),
    decreases steps.len(),
{
    let combined = seq![x] + steps;
    if steps.len() == 0 {
        assert(combined.len() == 1);
        assert(combined.last() == x);
        assert(combined.drop_last() =~= Seq::<(int, int, int)>::empty());
        assert(steps_co(combined.drop_last()) == 0);
        assert(steps_co(combined) == steps_co(combined.drop_last()) + combined.last().1);
        assert(steps_co(steps) == 0);
    } else {
        assert(combined.len() == steps.len() + 1);
        assert(combined.drop_last() =~= seq![x] + steps.drop_last());
        assert(combined.last() == steps.last());
        lemma_steps_co_cons(x, steps.drop_last());
        assert(steps_co(combined.drop_last()) == x.1 + steps_co(steps.drop_last()));
        assert(steps_co(combined) == steps_co(combined.drop_last()) + combined.last().1);
        assert(steps_co(steps) == steps_co(steps.drop_last()) + steps.last().1);
    }
    assert(steps_co(combined) == x.1 + steps_co(steps));
}

/// Offer consumed over recorded steps.
pub open spec fn steps_co(steps: Seq<(int, int, int)>) -> int
    decreases steps.len(),
{
    if steps.len() == 0 {
        0
    } else {
        steps_co(steps.drop_last()) + steps.last().1
    }
}

/// Gross counter-value returned over recorded steps.
pub open spec fn steps_cb(steps: Seq<(int, int, int)>) -> int
    decreases steps.len(),
{
    if steps.len() == 0 {
        0
    } else {
        steps_cb(steps.drop_last()) + steps.last().2
    }
}



/// The taker fee on a gross return: its fee-rate share, rounded up.
pub open spec fn fee_of(gross: int, fee: int) -> int {
    ratio_ceil(gross, fee, DEC_ONE as int)
}

/// Executes one swap over an ordered sequence of sources, consuming the
/// offer and accumulating the returned amount.
#[derive(Debug)]
pub struct Swapper<T> {
    pub event_prefix: String,
    pub events: Vec<Event>,
    pub fee: Udec,
    pub req: SwapRequest,
    pub consumed_offer: u128,
    pub remaining_offer: u128,
    pub returned: u128,
    pub pending: Vec<T>,
}

impl<T: Swappable> Swapper<T> {
    /// A driver ready to walk: nothing consumed, the whole offer
    /// remaining, nothing returned, nothing pending.
    pub fn new(event_prefix: String, offer: u128, req: SwapRequest, fee: Udec) -> (r: Swapper<T>)
        requires
            fee.val() <= DEC_ONE,
        ensures
            r.event_prefix == event_prefix,
            r.events@.len() == 0,
            r.fee == fee,
            r.req == req,
            r.consumed_offer == 0,
            r.remaining_offer == offer,
            r.returned == 0,
            r.pending@.len() == 0,
    {
        Swapper {
            event_prefix,
            events: Vec::new(),
            fee,
            req,
            consumed_offer: 0,
            remaining_offer: offer,
            returned: 0,
            pending: Vec::new(),
        }
    }

    /// Walks the sources in order, then deducts the taker fee and judges
    /// the policy. The consumed and remaining offer always rebuild the
    /// original offer exactly. A walk that fails, for policy or for a
    /// failed step, must not be committed.
    pub fn swap(&mut self, sources: &mut Vec<T>) -> (r: Result<SwapResult, SwapError>)
        requires
            old(self).fee.val() <= DEC_ONE,
            old(self).consumed_offer + old(self).remaining_offer <= u128::MAX,
            all_wf(old(sources)@),
            totals_nonneg(old(sources)@),
            old(self).returned + totals_sum(old(sources)@) <= u128::MAX,
        ensures
            ({
                let w = walk(old(sources)@, old(self).req, old(self).remaining_offer as int);
                let gross = old(self).returned + steps_cb(w.0);
                let fee = fee_of(gross, old(self).fee.val());
                let net = gross - fee;
                &&& w.0.len() <= old(sources)@.len()
                &&& (r is Ok <==> (w.2 && policy_pass(old(self).req, net)))
                &&& r matches Ok(res) ==> {
                    &&& res.consumed_offer as int == old(self).consumed_offer + steps_co(w.0)
                    &&& res.remaining_offer as int == w.1
                    &&& res.consumed_offer + res.remaining_offer == old(self).consumed_offer + old(
                        self,
                    ).remaining_offer
                    &&& res.fee_amount as int == fee
                    &&& res.return_amount as int == net
                    &&& final(self).pending@.len() == old(self).pending@.len() + w.0.len()
                    &&& (forall|i: int|
                        0 <= i < old(self).pending@.len() ==> #[trigger] final(self).pending@[i]
                            == old(self).pending@[i])
                    &&& (forall|i: int|
                        0 <= i < w.0.len() ==> old(sources)@[i].swap_posted(
                            w.0[i].0,
                            #[trigger] final(self).pending@[old(self).pending@.len() + i],
                        ))
                    &&& final(self).consumed_offer == res.consumed_offer
                    &&& final(self).remaining_offer == res.remaining_offer
                    &&& final(self).returned == res.return_amount
                    &&& final(self).req == old(self).req
                    &&& final(self).fee == old(self).fee
                    &&& res.events@.len() == old(self).events@.len() + w.0.len()
                    &&& (forall|i: int|
                        0 <= i < w.0.len() ==> (#[trigger] final(self).pending@[old(
                            self,
                        ).pending@.len() + i]).wf() && event_matches(
                            res.events@[old(self).events@.len() + i],
                            old(self).event_prefix@,
                            final(self).pending@[old(self).pending@.len() + i].rate_spec(),
                            w.0[i].1,
                            w.0[i].2,
                            final(self).pending@[old(self).pending@.len() + i].attrs_spec(),
                        ))
                }
                &&& r matches Err(e) ==> ((!w.2 && (e == SwapError::DivideByZero || e
                    == SwapError::Overflow)) || (w.2
                    && !policy_pass(old(self).req, net) && e == (SwapError::InsufficientReturn {
                    expected: match old(self).req {
                        SwapRequest::Min { min_return } => min_return,
                        SwapRequest::Exact { exact_return } => exact_return,
                        _ => 0,
                    },
                    returned: net as u128,
                })))
            }),
    {
        let ghost sources0 = sources@;
        proof {
            assert(sources0 == old(sources)@);
        }
        let ghost req0 = self.req;
        let ghost rem0 = self.remaining_offer as int;
        let ghost w0 = walk(sources0, req0, rem0);
        let ghost mut gsteps = Seq::<(int, int, int)>::empty();
        let ghost events0 = self.events@.len() as int;
        proof {
            assert(sources0.skip(0) =~= sources0);
        }
        loop
            invariant_except_break
                gsteps.len() + sources@.len() == sources0.len(),
                sources@ == sources0.skip(gsteps.len() as int),
                w0.0 == gsteps + walk(sources@, req0, self.remaining_offer as int).0,
                w0.1 == walk(sources@, req0, self.remaining_offer as int).1,
                w0.2 == walk(sources@, req0, self.remaining_offer as int).2,
            invariant
                sources0 == old(sources)@,
                gsteps.len() + sources@.len() <= sources0.len(),
                all_wf(sources@),
                totals_nonneg(sources@),
                self.fee == old(self).fee,
                self.req == old(self).req,
                self.event_prefix == old(self).event_prefix,
                self.fee.val() <= DEC_ONE,
                req0 == old(self).req,
                rem0 == old(self).remaining_offer as int,
                w0 == walk(sources0, req0, rem0),
                events0 == old(self).events@.len(),
                self.consumed_offer as int == old(self).consumed_offer + steps_co(gsteps),
                self.returned as int == old(self).returned + steps_cb(gsteps),
                self.remaining_offer as int == rem0 - steps_co(gsteps),
                self.consumed_offer + self.remaining_offer == old(self).consumed_offer + old(
                    self,
                ).remaining_offer,
                self.consumed_offer + self.remaining_offer <= u128::MAX,
                self.returned + totals_sum(sources@) <= u128::MAX,
                self.pending@.len() == old(self).pending@.len() + gsteps.len(),
                forall|i: int|
                    0 <= i < old(self).pending@.len() ==> #[trigger] self.pending@[i] == old(
                        self,
                    ).pending@[i],
                forall|i: int|
                    0 <= i < gsteps.len() ==> sources0[i].swap_posted(
                        gsteps[i].0,
                        #[trigger] self.pending@[old(self).pending@.len() + i],
                    ),
                self.events@.len() == events0 + gsteps.len(),
                forall|i: int|
                    0 <= i < gsteps.len() ==> (#[trigger] self.pending@[old(self).pending@.len()
                        + i]).wf() && event_matches(
                        self.events@[events0 + i],
                        old(self).event_prefix@,
                        self.pending@[old(self).pending@.len() + i].rate_spec(),
                        gsteps[i].1,
                        gsteps[i].2,
                        self.pending@[old(self).pending@.len() + i].attrs_spec(),
                    ),
            ensures
                w0.0 == gsteps,
                w0.1 == self.remaining_offer as int,
                w0.2 == true,
            decreases sources@.len(),
        {
            if sources.len() == 0 {
                proof {
                    assert(gsteps + walk(sources@, req0, self.remaining_offer as int).0 =~= gsteps);
                }
                break;
            }
            let ghost pre = sources@;
            let ghost rem_pre = self.remaining_offer as int;
            let ghost wr = walk(pre, req0, rem_pre);
            let mut v = sources.remove(0);
            proof {
                assert(pre.remove(0) =~= pre.skip(1));
                assert forall|i: int| 0 <= i < sources@.len() implies (#[trigger] sources@[i]).wf()
                    && sources@[i].total_spec() >= 0 by {
                    assert(sources@[i] == pre[i + 1]);
                }
            }
            let step = match v.swap(self.remaining_offer) {
                Ok(s) => s,
                Err(e) => {
                    proof {
                        assert(!pre[0].swap_ok(rem_pre));
                        assert(!wr.2);
                        assert(!w0.2);
                        assert(w0 == walk(sources0, req0, rem0));
                        assert(req0 == old(self).req);
                        assert(rem0 == old(self).remaining_offer as int);
                        assert(sources0 == old(sources)@);
                        assert(!walk(old(sources)@, old(self).req, old(self).remaining_offer as int).2);
                    }
                    return Err(e);
                },
            };
            let (co, cb) = step;
            let breach: bool = match self.req {
                SwapRequest::Limit { price } => {
                    if cb == 0 {
                        false
                    } else {
                        match checked_mul_ratio_floor(co, DEC_ONE, cb) {
                            Some(achieved) => achieved > price.atomics,
                            None => true,
                        }
                    }
                },
                _ => false,
            };
            proof {
                assert(breach == limit_breach(req0, co as int, cb as int));
            }
            if breach {
                proof {
                    assert(wr.0 =~= Seq::<(int, int, int)>::empty());
                    assert(gsteps + wr.0 =~= gsteps);
                }
                break;
            }
            let ev = event(&v, &self.event_prefix, co, cb);
            let ghost gstep = (rem_pre, co as int, cb as int);
            proof {
                lemma_totals_sum_nonneg(sources@);
                assert(totals_sum(pre) == pre[0].total_spec() + totals_sum(pre.skip(1)));
                assert(pre == sources0.skip(gsteps.len() as int));
                assert(sources0.skip(gsteps.len() as int).len() == sources0.len() - gsteps.len());
                assert(sources0.skip(gsteps.len() as int)[0] == sources0[gsteps.len() as int]);
                assert(sources0[gsteps.len() as int] == pre[0]);
            }
            self.events.push(ev);
            self.pending.push(v);
            self.consumed_offer = self.consumed_offer + co;
            self.remaining_offer = self.remaining_offer - co;
            self.returned = self.returned + cb;
            proof {
                let gs2 = gsteps.push(gstep);
                assert(gs2.drop_last() =~= gsteps);
                let k = gsteps.len() as int;
                gsteps = gs2;
                assert(pre =~= sources0.skip(k));
                assert forall|i: int| 0 <= i < pre.skip(1).len() implies pre.skip(1)[i]
                    == sources0.skip(k + 1)[i] by {
                    assert(pre.skip(1)[i] == pre[i + 1]);
                    assert(sources0.skip(k + 1)[i] == sources0[k + 1 + i]);
                    assert(pre[i + 1] == sources0.skip(k)[i + 1]);
                }
                assert forall|i: int| 0 <= i < sources0.skip(k + 1).len() implies pre.skip(1)[i]
                    == sources0.skip(k + 1)[i] by {
                    assert(pre.skip(1)[i] == pre[1 + i]);
                    assert(sources0.skip(k + 1)[i] == sources0[k + 1 + i]);
                    assert(sources0.skip(k)[1 + i] == sources0[k + 1 + i]);
                }
                assert(pre.skip(1).len() == sources0.skip(k + 1).len());
                assert(pre.skip(1) =~= sources0.skip(k + 1));
                assert(sources@ =~= sources0.skip(gsteps.len() as int));
                assert forall|i: int| 0 <= i < gsteps.len() implies sources0[i].swap_posted(
                    gsteps[i].0,
                    #[trigger] self.pending@[old(self).pending@.len() + i],
                ) by {
                    if i < k {
                        assert(gsteps[i] == gsteps.drop_last()[i]);
                        assert(self.pending@[old(self).pending@.len() + i] == self.pending@.drop_last()[old(
                            self,
                        ).pending@.len() + i]);
                    }
                }
                assert forall|i: int| 0 <= i < gsteps.len() implies (
                #[trigger] self.pending@[old(self).pending@.len() + i]).wf() && event_matches(
                    self.events@[events0 + i],
                    old(self).event_prefix@,
                    self.pending@[old(self).pending@.len() + i].rate_spec(),
                    gsteps[i].1,
                    gsteps[i].2,
                    self.pending@[old(self).pending@.len() + i].attrs_spec(),
                ) by {
                    if i < k {
                        assert(gsteps[i] == gsteps.drop_last()[i]);
                        assert(self.events@[events0 + i] == self.events@.drop_last()[events0 + i]);
                        assert(self.pending@[old(self).pending@.len() + i] == self.pending@.drop_last()[old(
                            self,
                        ).pending@.len() + i]);
                    } else {
                        assert(self.pending@.last() == self.pending@[old(self).pending@.len() + i]);
                        assert(self.events@.last() == self.events@[events0 + i]);
                    }
                }
            }
            if self.remaining_offer == 0 {
                proof {
                    assert(wr.0 =~= seq![gstep]);
                    assert(gsteps =~= gsteps.drop_last() + seq![gstep]);
                    assert(w0.0 =~= gsteps);
                }
                break;
            }
            proof {
                assert(wr.0 =~= seq![gstep] + walk(pre.skip(1), req0, rem_pre - co).0);
                assert(gsteps + walk(sources@, req0, self.remaining_offer as int).0 =~= gsteps
                    .drop_last() + wr.0);
                assert(w0.0 =~= gsteps + walk(sources@, req0, self.remaining_offer as int).0);
            }
        }
        let gross = self.returned;
        proof {
            lemma_ratio_ceil_le(gross as int, self.fee.val(), DEC_ONE as int);
        }
        let fee_amount: u128 = match checked_mul_ratio_ceil(gross, self.fee.atomics, DEC_ONE) {
            Some(f) => f,
            None => {
                proof {
                    assert(false);
                }
                return Err(SwapError::Overflow);
            },
        };
        self.returned = gross - fee_amount;
        match self.req {
            SwapRequest::Min { min_return } => {
                if self.returned < min_return {
                    return Err(SwapError::InsufficientReturn {
                        expected: min_return,
                        returned: self.returned,
                    });
                }
            },
            SwapRequest::Exact { exact_return } => {
                if self.returned != exact_return {
                    return Err(SwapError::InsufficientReturn {
                        expected: exact_return,
                        returned: self.returned,
                    });
                }
            },
            _ => {},
        }
        let mut events: Vec<Event> = Vec::new();
        core::mem::swap(&mut self.events, &mut events);
        Ok(SwapResult {
            events,
            fee_amount,
            return_amount: self.returned,
            consumed_offer: self.consumed_offer,
            remaining_offer: self.remaining_offer,
        })
    }

    /// Commits every source the walk touched, in walk order, merging the
    /// cross-party obligations each reports into one aggregate: per
    /// destination, the fold of what the sources report. Success is owed
    /// whenever each source's commit is, and the folded obligations stay
    /// representable. Called only after a successful walk.
    pub fn commit(&self, st: &mut State) -> (r: Result<Commitment, SwapError>)
        requires
            old(st).wf(),
            commits_ok(self.pending@, *old(st)),
        ensures
            final(st).wf(),
            r matches Ok(c) ==> c.wf() && commits_posted(self.pending@, *old(st), *final(st))
                && (forall|k: Seq<char>| #[trigger] c.get(k) == cms_combined(self.pending@, k)),
            commits_sure(self.pending@, *old(st)) && cms_fit(self.pending@) ==> r is Ok,
    {
        let mut res = Commitment::empty();
        let ghost st0 = *st;
        let n = self.pending.len();
        let mut i: usize = 0;
        proof {
            assert(self.pending@.skip(0) =~= self.pending@);
            assert(commits_posted(self.pending@.take(0), st0, *st)) by {
                assert(self.pending@.take(0).len() == 0);
            }
            assert(self.pending@.take(0).len() == 0);
        }
        while i < n
            invariant
                n == self.pending@.len(),
                0 <= i <= n,
                res.wf(),
                st.wf(),
                st0 == *old(st),
                commits_ok(self.pending@.skip(i as int), *st),
                commits_posted(self.pending@.take(i as int), st0, *st),
                forall|k: Seq<char>| #[trigger] res.get(k) == crate::exchange::swappable::cms_combined(
                    self.pending@.take(i as int),
                    k,
                ),
                commits_sure(self.pending@, st0) ==> commits_sure(
                    self.pending@.skip(i as int),
                    *st,
                ),
            decreases n - i,
        {
            let ghost st_pre = *st;
            proof {
                assert(self.pending@.skip(i as int)[0] == self.pending@[i as int]);
                assert(self.pending@.skip(i as int).skip(1) =~= self.pending@.skip(i + 1));
            }
            let c = match self.pending[i].commit(st) {
                Ok(v) => v,
                Err(e) => {
                    proof {
                        if commits_sure(self.pending@, st0) {
                            assert(self.pending@[i as int].commit_sure(st_pre));
                            assert(false);
                        }
                    }
                    return Err(e);
                },
            };
            proof {
                crate::exchange::swappable::lemma_cms_take_snoc(self.pending@, i as int);
            }
            let ghost gres = res;
            let ghost gc = c;
            let merged = res.merge(c);
            match merged {
                Ok(()) => {},
                Err(_) => {
                    proof {
                        if commits_sure(self.pending@, st0) && cms_fit(self.pending@) {
                            assert forall|k: Seq<char>|
                                match (#[trigger] gres.get(k), gc.get(k)) {
                                    (Some(x), Some(y)) => x.0 + y.0 <= u128::MAX && x.1 + y.1
                                        <= u128::MAX,
                                    _ => true,
                                } by {
                                crate::exchange::commitment::lemma_commitment_bounds(gres, k);
                                crate::exchange::commitment::lemma_commitment_bounds(gc, k);
                                assert(crate::exchange::swappable::cms_combined(
                                    self.pending@.take(i + 1),
                                    k,
                                ) == crate::exchange::commitment::combined(
                                    gres.get(k),
                                    gc.get(k),
                                ));
                            }
                            assert(crate::exchange::commitment::merge_fits(gres, gc));
                            assert(false);
                        }
                    }
                    return Err(SwapError::Overflow);
                },
            }
            proof {
                lemma_commits_posted_snoc(self.pending@, i as int, st0, st_pre, *st);
                assert forall|k: Seq<char>| #[trigger] res.get(k)
                    == crate::exchange::swappable::cms_combined(self.pending@.take(i + 1), k) by {
                    assert(crate::exchange::swappable::cms_combined(self.pending@.take(i + 1), k)
                        == crate::exchange::commitment::combined(
                        crate::exchange::swappable::cms_combined(self.pending@.take(i as int), k),
                        self.pending@[i as int].commit_cm(k),
                    ));
                }
            }
            i = i + 1;
        }
        proof {
            assert(self.pending@.take(n as int) =~= self.pending@);
        }
        Ok(res)
    }
}


} // verus!
