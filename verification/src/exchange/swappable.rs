//! The liquidity-source capability.
//!
//! Anything with a rate, a capacity, a swap mutation and a commit
//! finalization can stand in a walk: a single price tier, a homogeneous
//! group of equal-rate sources, or a pairwise union of two sources merged
//! at the same rank. Each implementation carries spec functions that give
//! its exact behaviour, so the walk over any mix of sources is itself
//! fully determined.

use vstd::prelude::*;

use crate::math::{
    checked_mul_ratio_ceil, checked_mul_ratio_floor, mul_ratio_floor, ratio_ceil, ratio_floor,
    Udec, DEC_ONE,
};
use crate::state::State;
use super::commitment::Commitment;
use super::error::SwapError;

verus! {

/// A liquidity source the swap driver can walk.
pub trait Swappable: Sized {
    /// The source is in a state its operations may be called in.
    spec fn wf(&self) -> bool;

    /// The rate the source trades at, in atomic fixed-point units.
    spec fn rate_spec(&self) -> int;

    /// The bid-side capacity available for swapping.
    spec fn total_spec(&self) -> int;

    /// Whether a swap of this offer completes rather than erroring.
    spec fn swap_ok(&self, offer: int) -> bool;

    /// Whether `post` is the source as it stands after a swap of this
    /// offer.
    spec fn swap_posted(&self, offer: int, post: Self) -> bool;

    /// The offer-side amount such a swap consumes.
    spec fn swap_co(&self, offer: int) -> int;

    /// The bid-side amount such a swap returns.
    spec fn swap_cb(&self, offer: int) -> int;

    /// The attribute pairs this source stamps on its trade events.
    spec fn attrs_spec(&self) -> Seq<(Seq<char>, Seq<char>)>;

    /// Whether this source may be committed into the given state.
    spec fn commit_ok(&self, st: State) -> bool;

    /// Whether `post` is the state after this source's pending mutations
    /// are persisted into `st`.
    spec fn commit_posted(&self, st: State, post: State) -> bool;

    /// The per-destination obligations this source's commit reports,
    /// a function of the source alone.
    spec fn commit_cm(&self, k: Seq<char>) -> Option<(int, int)>;

    /// A condition under which this source's commit is promised to
    /// succeed.
    spec fn commit_sure(&self, st: State) -> bool;

    fn rate(&self) -> (r: Udec)
        requires
            self.wf(),
        ensures
            r.val() == self.rate_spec(),
    ;

    fn total(&self) -> (r: u128)
        requires
            self.wf(),
        ensures
            r as int == self.total_spec(),
    ;

    fn attributes(&self) -> (r: Vec<(String, String)>)
        requires
            self.wf(),
        ensures
            attrs_match(r@, self.attrs_spec()),
    ;

    /// Consumes up to `offer` against this source, returning the consumed
    /// offer and the bid-side amount it bought.
    fn swap(&mut self, offer: u128) -> (r: Result<(u128, u128), SwapError>)
        requires
            old(self).wf(),
        ensures
            r is Ok <==> old(self).swap_ok(offer as int),
            r matches Ok((co, cb)) ==> old(self).swap_posted(offer as int, *final(self))
                && co as int == old(self).swap_co(offer as int) && cb as int == old(self).swap_cb(
                offer as int,
            ) && co <= offer && cb as int <= old(self).total_spec() && final(self).wf() && 0
                <= final(self).total_spec() && cb as int + final(self).total_spec() <= old(
                self,
            ).total_spec(),
            r matches Err(e) ==> (e == SwapError::DivideByZero || e == SwapError::Overflow),
    ;

    /// Persists this source's pending mutations and returns the
    /// cross-party obligations they imply.
    fn commit(&self, st: &mut State) -> (r: Result<Commitment, SwapError>)
        requires
            self.wf(),
            self.commit_ok(*old(st)),
            old(st).wf(),
        ensures
            final(st).wf(),
            r matches Ok(c) ==> c.wf() && self.commit_posted(*old(st), *final(st)) && (forall|
                k: Seq<char>,
            | #[trigger] c.get(k) == self.commit_cm(k)),
            r matches Err(e) ==> e == SwapError::Overflow,
            self.commit_sure(*old(st)) ==> r is Ok,
    ;
}

/// Every source is fit to be walked.
pub open spec fn all_wf<T: Swappable>(s: Seq<T>) -> bool {
    forall|i: int| 0 <= i < s.len() ==> (#[trigger] s[i]).wf()
}

/// Every source reports a non-negative capacity.
pub open spec fn totals_nonneg<T: Swappable>(s: Seq<T>) -> bool {
    forall|i: int| 0 <= i < s.len() ==> (#[trigger] s[i]).total_spec() >= 0
}

/// The summed capacity of a source sequence.
pub open spec fn totals_sum<T: Swappable>(s: Seq<T>) -> int
    decreases s.len(),
{
    if s.len() == 0 {
        0
    } else {
        s[0].total_spec() + totals_sum(s.skip(1))
    }
}

/// A sequence of non-negative capacities sums to something non-negative.
pub proof fn lemma_totals_sum_nonneg<T: Swappable>(s: Seq<T>)
    requires
        totals_nonneg(s),
    ensures
        totals_sum(s) >= 0,
    decreases s.len(),
{
    if s.len() > 0 {
        assert forall|i: int| 0 <= i < s.skip(1).len() implies (#[trigger] s.skip(
            1,
        )[i]).total_spec() >= 0 by {
            assert(s.skip(1)[i] == s[i + 1]);
        }
        lemma_totals_sum_nonneg(s.skip(1));
    }
}

/// Whether each source in turn may be committed into the states that the
/// ones before it leave behind.
pub open spec fn commits_ok<T: Swappable>(s: Seq<T>, st: State) -> bool
    decreases s.len(),
{
    if s.len() == 0 {
        true
    } else {
        s[0].wf() && s[0].commit_ok(st) && forall|mid: State|
            #[trigger] s[0].commit_posted(st, mid) && mid.wf() ==> commits_ok(s.skip(1), mid)
    }
}

/// Whether `post` is the state after committing each source in turn.
pub open spec fn commits_posted<T: Swappable>(s: Seq<T>, st: State, post: State) -> bool
    decreases s.len(),
{
    if s.len() == 0 {
        post == st
    } else {
        exists|mid: State|
            #[trigger] s[0].commit_posted(st, mid) && commits_posted(s.skip(1), mid, post)
    }
}

/// Whether each source in turn is promised to commit successfully, in the
/// states the ones before it leave behind.
pub open spec fn commits_sure<T: Swappable>(s: Seq<T>, st: State) -> bool
    decreases s.len(),
{
    if s.len() == 0 {
        true
    } else {
        s[0].wf() && s[0].commit_ok(st) && s[0].commit_sure(st) && forall|mid: State|
            #[trigger] s[0].commit_posted(st, mid) && mid.wf() ==> commits_sure(s.skip(1), mid)
    }
}

/// The fold of the sources' reported obligations, destination by
/// destination.
pub open spec fn cms_combined<T: Swappable>(s: Seq<T>, k: Seq<char>) -> Option<(int, int)>
    decreases s.len(),
{
    if s.len() == 0 {
        None
    } else {
        super::commitment::combined(cms_combined(s.drop_last(), k), s.last().commit_cm(k))
    }
}

/// Whether every prefix of that fold stays within the representable
/// range.
pub open spec fn cms_fit<T: Swappable>(s: Seq<T>) -> bool {
    forall|i: int, k: Seq<char>|
        0 <= i <= s.len() ==> match #[trigger] cms_combined(s.take(i), k) {
            Some(v) => 0 <= v.0 <= u128::MAX && 0 <= v.1 <= u128::MAX,
            None => true,
        }
}

/// The view of executable attribute pairs.
pub open spec fn attrs_view(r: Seq<(String, String)>) -> Seq<(Seq<char>, Seq<char>)> {
    r.map_values(|p: (String, String)| (p.0@, p.1@))
}

/// Attribute pairs read as the given view sequence.
pub open spec fn attrs_match(r: Seq<(String, String)>, m: Seq<(Seq<char>, Seq<char>)>) -> bool {
    r.len() == m.len() && forall|i: int|
        0 <= i < r.len() ==> (#[trigger] r[i]).0@ == m[i].0 && r[i].1@ == m[i].1
}

/// A single source with one fixed rate and a plain capacity, for walks
/// assembled directly from quoted amounts. The offer-limited branch rounds
/// the bought amount up; flushing the whole capacity floors the offer
/// taken for it.
#[derive(Debug)]
pub struct FixedRateSource {
    pub rate: Udec,
    pub amount: u128,
    pub attrs: Vec<(String, String)>,
}

/// Whether an offer's full bid-side value fits in this source.
pub open spec fn fixed_fits(s: FixedRateSource, offer: int) -> bool {
    ratio_ceil(offer, s.rate.val(), DEC_ONE as int) <= s.amount
}

impl FixedRateSource {
    pub fn new(rate: Udec, amount: u128, attrs: Vec<(String, String)>) -> (r: FixedRateSource)
        ensures
            r.rate == rate,
            r.amount == amount,
            r.attrs == attrs,
    {
        FixedRateSource { rate, amount, attrs }
    }
}

impl Swappable for FixedRateSource {
    open spec fn wf(&self) -> bool {
        true
    }

    open spec fn rate_spec(&self) -> int {
        self.rate.val()
    }

    open spec fn total_spec(&self) -> int {
        self.amount as int
    }

    open spec fn swap_ok(&self, offer: int) -> bool {
        true
    }

    open spec fn swap_posted(&self, offer: int, post: FixedRateSource) -> bool {
        if fixed_fits(*self, offer) {
            post == (FixedRateSource {
                amount: (self.amount - ratio_ceil(offer, self.rate.val(), DEC_ONE as int)) as u128,
                ..*self
            })
        } else {
            post == (FixedRateSource { amount: 0, ..*self })
        }
    }

    open spec fn swap_co(&self, offer: int) -> int {
        if fixed_fits(*self, offer) {
            offer
        } else {
            ratio_floor(self.amount as int, DEC_ONE as int, self.rate.val())
        }
    }

    open spec fn swap_cb(&self, offer: int) -> int {
        if fixed_fits(*self, offer) {
            ratio_ceil(offer, self.rate.val(), DEC_ONE as int)
        } else {
            self.amount as int
        }
    }

    open spec fn attrs_spec(&self) -> Seq<(Seq<char>, Seq<char>)> {
        self.attrs@.map_values(|p: (String, String)| (p.0@, p.1@))
    }

    open spec fn commit_ok(&self, st: State) -> bool {
        true
    }

    open spec fn commit_posted(&self, st: State, post: State) -> bool {
        post == st
    }

    open spec fn commit_cm(&self, k: Seq<char>) -> Option<(int, int)> {
        None
    }

    open spec fn commit_sure(&self, st: State) -> bool {
        true
    }

    fn rate(&self) -> (r: Udec) {
        self.rate
    }

    fn total(&self) -> (r: u128) {
        self.amount
    }

    fn attributes(&self) -> (r: Vec<(String, String)>) {
        let mut out: Vec<(String, String)> = Vec::new();
        let n = self.attrs.len();
        let mut i: usize = 0;
        while i < n
            invariant
                n == self.attrs@.len(),
                0 <= i <= n,
                out@.len() == i,
                forall|j: int|
                    0 <= j < i ==> (#[trigger] out@[j]).0@ == self.attrs@[j].0@ && out@[j].1@
                        == self.attrs@[j].1@,
            decreases n - i,
        {
            let (k, v) = &self.attrs[i];
            out.push((k.clone(), v.clone()));
            i = i + 1;
        }
        out
    }

    fn swap(&mut self, offer: u128) -> (r: Result<(u128, u128), SwapError>) {
        match checked_mul_ratio_ceil(offer, self.rate.atomics, DEC_ONE) {
            Some(full) if full <= self.amount => {
                self.amount = self.amount - full;
                Ok((offer, full))
            },
            _ => {
                let cb = self.amount;
                proof {
                    lemma_fixed_capacity(offer as int, self.rate.val(), self.amount as int);
                }
                let co = mul_ratio_floor(self.amount, DEC_ONE, self.rate.atomics);
                self.amount = 0;
                Ok((co, cb))
            },
        }
    }

    fn commit(&self, st: &mut State) -> (r: Result<Commitment, SwapError>) {
        Ok(Commitment::empty())
    }
}

/// When the ceiling value of an offer exceeds the capacity on hand, the
/// rate is positive and the floored offer taken for that capacity never
/// exceeds the offer itself.
proof fn lemma_fixed_capacity(offer: int, rate: int, amount: int)
    requires
        offer >= 0,
        amount >= 0,
        rate >= 0,
        ratio_ceil(offer, rate, DEC_ONE as int) > amount,
    ensures
        rate > 0,
        0 <= ratio_floor(amount, DEC_ONE as int, rate) <= offer,
{
    let d = DEC_ONE as int;
    if rate == 0 {
        assert(offer * rate == 0) by (nonlinear_arith)
            requires
                rate == 0,
        ;
        assert(ratio_ceil(offer, rate, d) == (d - 1) / d);
        assert((d - 1) / d == 0);
    }
    let x = offer * rate;
    let fx = x / d;
    let q = (x + d - 1) / d;
    vstd::arithmetic::div_mod::lemma_fundamental_div_mod(x, d);
    vstd::arithmetic::div_mod::lemma_remainder_lower(x, d);
    vstd::arithmetic::div_mod::lemma_remainder_upper(x, d);
    vstd::arithmetic::div_mod::lemma_fundamental_div_mod(x + d - 1, d);
    vstd::arithmetic::div_mod::lemma_remainder_lower(x + d - 1, d);
    vstd::arithmetic::div_mod::lemma_remainder_upper(x + d - 1, d);
    assert(d * q < d * (fx + 2)) by (nonlinear_arith)
        requires
            x + d - 1 == d * q + (x + d - 1) % d,
            x == d * fx + x % d,
            0 <= (x + d - 1) % d,
            x % d < d,
            d > 0,
    ;
    assert(q <= fx + 1) by (nonlinear_arith)
        requires
            d * q < d * (fx + 2),
            d > 0,
    ;
    assert(amount <= fx);
    vstd::arithmetic::mul::lemma_mul_inequality(amount, fx, d);
    assert(fx * d <= x) by (nonlinear_arith)
        requires
            x == d * fx + x % d,
            0 <= x % d,
    ;
    vstd::arithmetic::div_mod::lemma_div_is_ordered(amount * d, x, rate);
    vstd::arithmetic::div_mod::lemma_div_multiples_vanish(offer, rate);
    assert(offer * rate == rate * offer) by (nonlinear_arith);
    assert(amount * d >= 0) by (nonlinear_arith)
        requires
            amount >= 0,
            d > 0,
    ;
    vstd::arithmetic::div_mod::lemma_div_pos_is_pos(amount * d, rate);
}

} // verus!

// The group combinator: a homogeneous, equal-rate collection of sources
// that shares an incoming offer across its members in proportion to each
// member's remaining capacity, flooring every share. Floored shares can
// under-consume the nominal offer; the shortfall simply stays with the
// caller.
verus! {

/// The share of `amount` allotted to the next member: its capacity's
/// floored proportion of the group total, capped by what remains.
pub open spec fn group_share<T: Swappable>(item: T, amount: int, total: int, remaining: int) -> int {
    vstd::math::min(ratio_floor(amount, item.total_spec(), total), remaining)
}

/// Whether sharing an offer across the members completes without error.
pub open spec fn group_ok<T: Swappable>(items: Seq<T>, amount: int, total: int, remaining: int) -> bool
    decreases items.len(),
{
    if items.len() == 0 || remaining == 0 {
        true
    } else if total == 0 {
        false
    } else {
        let off = group_share(items[0], amount, total, remaining);
        items[0].swap_ok(off) && group_ok(
            items.skip(1),
            amount,
            total,
            remaining - items[0].swap_co(off),
        )
    }
}

/// The offer the members consume in aggregate.
pub open spec fn group_co<T: Swappable>(items: Seq<T>, amount: int, total: int, remaining: int) -> int
    decreases items.len(),
{
    if items.len() == 0 || remaining == 0 || total == 0 {
        0
    } else {
        let off = group_share(items[0], amount, total, remaining);
        let co = items[0].swap_co(off);
        co + group_co(items.skip(1), amount, total, remaining - co)
    }
}

/// The bid-side amount the members return in aggregate.
pub open spec fn group_cb<T: Swappable>(items: Seq<T>, amount: int, total: int, remaining: int) -> int
    decreases items.len(),
{
    if items.len() == 0 || remaining == 0 || total == 0 {
        0
    } else {
        let off = group_share(items[0], amount, total, remaining);
        items[0].swap_cb(off) + group_cb(
            items.skip(1),
            amount,
            total,
            remaining - items[0].swap_co(off),
        )
    }
}

/// Whether `post` records each member as its own swap leaves it, members
/// past an exhausted offer untouched.
pub open spec fn group_posted<T: Swappable>(
    items: Seq<T>,
    amount: int,
    total: int,
    remaining: int,
    post: Seq<T>,
) -> bool
    decreases items.len(),
{
    if items.len() == 0 || remaining == 0 {
        post == items
    } else {
        let off = group_share(items[0], amount, total, remaining);
        post.len() == items.len() && items[0].swap_posted(off, post[0]) && group_posted(
            items.skip(1),
            amount,
            total,
            remaining - items[0].swap_co(off),
            post.skip(1),
        )
    }
}

/// The members' event attributes, concatenated in order.
pub open spec fn group_attrs<T: Swappable>(items: Seq<T>) -> Seq<(Seq<char>, Seq<char>)>
    decreases items.len(),
{
    if items.len() == 0 {
        Seq::<(Seq<char>, Seq<char>)>::empty()
    } else {
        items[0].attrs_spec() + group_attrs(items.skip(1))
    }
}

/// Appending one member adds its capacity to the sum.
pub proof fn lemma_totals_sum_push<T: Swappable>(items: Seq<T>, x: T)
    ensures
        totals_sum(items.push(x)) == totals_sum(items) + x.total_spec(),
    decreases items.len(),
{
    let p = items.push(x);
    if items.len() == 0 {
        assert(p[0] == x);
        assert(p.skip(1) =~= Seq::<T>::empty());
        assert(totals_sum(p) == p[0].total_spec() + totals_sum(p.skip(1)));
    } else {
        assert(p[0] == items[0]);
        assert forall|i: int| 0 <= i < p.skip(1).len() implies p.skip(1)[i] == items.skip(1).push(
            x,
        )[i] by {
            assert(p.skip(1)[i] == p[1 + i]);
            if 1 + i < items.len() {
                assert(p[1 + i] == items[1 + i]);
                assert(items.skip(1)[i] == items[1 + i]);
            }
        }
        assert(p.skip(1).len() == items.skip(1).push(x).len());
        assert(p.skip(1) =~= items.skip(1).push(x));
        lemma_totals_sum_push(items.skip(1), x);
        assert(totals_sum(p) == p[0].total_spec() + totals_sum(p.skip(1)));
        assert(totals_sum(items) == items[0].total_spec() + totals_sum(items.skip(1)));
    }
}

/// Each member's capacity is bounded by the group total.
pub proof fn lemma_member_le_sum<T: Swappable>(items: Seq<T>, i: int)
    requires
        totals_nonneg(items),
        0 <= i < items.len(),
    ensures
        items[i].total_spec() <= totals_sum(items),
    decreases items.len(),
{
    lemma_skip_nonneg(items, 1);
    if i == 0 {
        lemma_totals_sum_nonneg(items.skip(1));
    } else {
        assert(items.skip(1)[i - 1] == items[i]);
        lemma_member_le_sum(items.skip(1), i - 1);
    }
}

/// Dropping leading members keeps capacities non-negative.
pub proof fn lemma_skip_nonneg<T: Swappable>(items: Seq<T>, n: int)
    requires
        totals_nonneg(items),
        0 <= n <= items.len(),
    ensures
        totals_nonneg(items.skip(n)),
        all_wf(items) ==> all_wf(items.skip(n)),
{
    assert forall|i: int| 0 <= i < items.skip(n).len() implies (#[trigger] items.skip(
        n,
    )[i]).total_spec() >= 0 && (all_wf(items) ==> items.skip(n)[i].wf()) by {
        assert(items.skip(n)[i] == items[n + i]);
    }
}

impl<T: Swappable> Swappable for Vec<T> {
    open spec fn wf(&self) -> bool {
        all_wf(self@) && totals_nonneg(self@) && totals_sum(self@) <= u128::MAX
    }

    open spec fn rate_spec(&self) -> int {
        if self@.len() == 0 {
            0
        } else {
            self@[0].rate_spec()
        }
    }

    open spec fn total_spec(&self) -> int {
        totals_sum(self@)
    }

    open spec fn swap_ok(&self, offer: int) -> bool {
        group_ok(self@, offer, totals_sum(self@), offer)
    }

    open spec fn swap_posted(&self, offer: int, post: Vec<T>) -> bool {
        group_posted(self@, offer, totals_sum(self@), offer, post@)
    }

    open spec fn swap_co(&self, offer: int) -> int {
        group_co(self@, offer, totals_sum(self@), offer)
    }

    open spec fn swap_cb(&self, offer: int) -> int {
        group_cb(self@, offer, totals_sum(self@), offer)
    }

    open spec fn attrs_spec(&self) -> Seq<(Seq<char>, Seq<char>)> {
        group_attrs(self@)
    }

    open spec fn commit_ok(&self, st: State) -> bool {
        commits_ok(self@, st)
    }

    open spec fn commit_posted(&self, st: State, post: State) -> bool {
        commits_posted(self@, st, post)
    }

    open spec fn commit_cm(&self, k: Seq<char>) -> Option<(int, int)> {
        cms_combined(self@, k)
    }

    open spec fn commit_sure(&self, st: State) -> bool {
        commits_sure(self@, st) && cms_fit(self@)
    }

    fn rate(&self) -> (r: Udec) {
        if self.len() == 0 {
            Udec::zero()
        } else {
            self[0].rate()
        }
    }

    fn total(&self) -> (r: u128) {
        let ghost items0 = self@;
        let n = self.len();
        let mut acc: u128 = 0;
        let mut i: usize = 0;
        proof {
            assert(items0.skip(0) =~= items0);
            lemma_totals_sum_nonneg(items0);
        }
        while i < n
            invariant
                n == items0.len(),
                0 <= i <= n,
                self@ == items0,
                all_wf(items0),
                totals_nonneg(items0),
                totals_sum(items0) <= u128::MAX,
                acc + totals_sum(items0.skip(i as int)) == totals_sum(items0),
            decreases n - i,
        {
            proof {
                assert(items0.skip(i as int)[0] == items0[i as int]);
                assert(items0.skip(i as int).skip(1) =~= items0.skip(i + 1));
                lemma_skip_nonneg(items0, i + 1);
                lemma_totals_sum_nonneg(items0.skip(i + 1));
            }
            let t = self[i].total();
            acc = acc + t;
            i = i + 1;
        }
        proof {
            assert(items0.skip(n as int) =~= Seq::<T>::empty());
        }
        acc
    }

    fn attributes(&self) -> (r: Vec<(String, String)>) {
        let ghost items0 = self@;
        let n = self.len();
        let mut out: Vec<(String, String)> = Vec::new();
        let mut i: usize = 0;
        proof {
            assert(items0.skip(0) =~= items0);
            assert(attrs_view(out@) + group_attrs(items0) =~= group_attrs(items0));
        }
        while i < n
            invariant
                n == items0.len(),
                0 <= i <= n,
                self@ == items0,
                all_wf(items0),
                group_attrs(items0) == attrs_view(out@) + group_attrs(items0.skip(i as int)),
            decreases n - i,
        {
            let a = self[i].attributes();
            let m = a.len();
            let mut j: usize = 0;
            proof {
                lemma_group_attrs_step(items0, i as int);
                assert(items0[i as int].attrs_spec().skip(0) =~= items0[i as int].attrs_spec());
            }
            while j < m
                invariant
                    m == a@.len(),
                    0 <= j <= m,
                    i < n,
                    n == items0.len(),
                    self@ == items0,
                    all_wf(items0),
                    attrs_match(a@, items0[i as int].attrs_spec()),
                    group_attrs(items0) == attrs_view(out@) + items0[i as int].attrs_spec().skip(
                        j as int,
                    ) + group_attrs(items0.skip(i + 1)),
                decreases m - j,
            {
                let (k, v) = &a[j];
                out.push((k.clone(), v.clone()));
                proof {
                    let sp = items0[i as int].attrs_spec();
                    assert(attrs_view(out@).drop_last() =~= attrs_view(out@.drop_last()));
                    assert(attrs_view(out@).last() == sp[j as int]);
                    assert(attrs_view(out@.drop_last()) + sp.skip(j as int) =~= attrs_view(out@)
                        + sp.skip(j + 1));
                    assert((attrs_view(out@.drop_last()) + sp.skip(j as int)) + group_attrs(
                        items0.skip(i + 1),
                    ) =~= (attrs_view(out@) + sp.skip(j + 1)) + group_attrs(items0.skip(i + 1)));
                }
                j = j + 1;
            }
            proof {
                let sp = items0[i as int].attrs_spec();
                assert(sp.skip(m as int) =~= Seq::<(Seq<char>, Seq<char>)>::empty());
                assert((attrs_view(out@) + sp.skip(m as int)) + group_attrs(items0.skip(i + 1))
                    =~= attrs_view(out@) + group_attrs(items0.skip(i + 1)));
            }
            i = i + 1;
        }
        proof {
            assert(items0.skip(n as int) =~= Seq::<T>::empty());
            assert(attrs_view(out@) + group_attrs(items0.skip(n as int)) =~= attrs_view(out@));
            assert forall|k: int| 0 <= k < out@.len() implies (#[trigger] out@[k]).0@
                == group_attrs(items0)[k].0 && out@[k].1@ == group_attrs(items0)[k].1 by {
                assert(attrs_view(out@)[k] == (out@[k].0@, out@[k].1@));
            }
        }
        out
    }

    fn swap(&mut self, amount: u128) -> (r: Result<(u128, u128), SwapError>) {
        let ghost items0 = self@;
        let ghost total0 = totals_sum(items0);
        let total = self.total();
        let mut remaining: u128 = amount;
        let mut consumed_offer: u128 = 0;
        let mut consumed_bids: u128 = 0;
        let mut out: Vec<T> = Vec::new();
        proof {
            assert(totals_sum(out@) == 0);
            lemma_totals_sum_nonneg(items0);
        }
        loop
            invariant_except_break
                group_ok(items0, amount as int, total0, amount as int) == group_ok(
                    self@,
                    amount as int,
                    total0,
                    remaining as int,
                ),
                group_ok(self@, amount as int, total0, remaining as int) ==> group_co(
                    items0,
                    amount as int,
                    total0,
                    amount as int,
                ) == consumed_offer + group_co(self@, amount as int, total0, remaining as int)
                    && group_cb(items0, amount as int, total0, amount as int) == consumed_bids
                    + group_cb(self@, amount as int, total0, remaining as int),
                forall|rest: Seq<T>|
                    group_posted(self@, amount as int, total0, remaining as int, rest)
                        ==> group_posted(items0, amount as int, total0, amount as int, out@ + rest),
            invariant
                items0 == old(self)@,
                total as int == total0,
                totals_sum(items0) == total0,
                total0 <= u128::MAX,
                all_wf(self@),
                totals_nonneg(self@),
                all_wf(out@),
                totals_nonneg(out@),
                consumed_offer <= amount,
                remaining as int == amount - consumed_offer,
                consumed_bids + totals_sum(self@) + totals_sum(out@) <= total0,
                totals_sum(self@) >= 0,
                totals_sum(out@) >= 0,
            ensures
                group_ok(items0, amount as int, total0, amount as int),
                consumed_offer as int == group_co(items0, amount as int, total0, amount as int),
                consumed_bids as int == group_cb(items0, amount as int, total0, amount as int),
                group_posted(items0, amount as int, total0, amount as int, out@),
                all_wf(out@),
                totals_nonneg(out@),
                consumed_offer <= amount,
                consumed_bids as int + totals_sum(out@) <= total0,
                totals_sum(out@) >= 0,
            decreases self@.len(),
        {
            if remaining == 0 {
                let ghost tail = self@;
                proof {
                    lemma_group_posted_refl(tail, amount as int, total0);
                    assert(group_co(tail, amount as int, total0, 0) == 0);
                    assert(group_cb(tail, amount as int, total0, 0) == 0);
                }
                let ghost out_pre = out@;
                let mut rest: Vec<T> = Vec::new();
                core::mem::swap(self, &mut rest);
                out.append(&mut rest);
                proof {
                    assert(out@ =~= out_pre + tail);
                    lemma_totals_sum_concat(out_pre, tail);
                    assert(group_posted(items0, amount as int, total0, amount as int, out@));
                    assert forall|i: int| 0 <= i < out@.len() implies (#[trigger] out@[i]).wf()
                        && out@[i].total_spec() >= 0 by {
                        if i < out_pre.len() {
                            assert(out@[i] == out_pre[i]);
                        } else {
                            assert(out@[i] == tail[i - out_pre.len()]);
                        }
                    }
                }
                break;
            }
            if self.len() == 0 {
                proof {
                    assert(group_posted(self@, amount as int, total0, remaining as int, self@));
                    assert(out@ + self@ =~= out@);
                }
                break;
            }
            if total == 0 {
                proof {
                    assert(!group_ok(self@, amount as int, total0, remaining as int));
                }
                return Err(SwapError::DivideByZero);
            }
            let ghost pre = self@;
            let ghost rem_pre = remaining as int;
            let mut x = self.remove(0);
            let ghost x0 = x;
            proof {
                assert(pre.remove(0) =~= pre.skip(1));
                lemma_member_le_sum(pre, 0);
                lemma_skip_nonneg(pre, 1);
                lemma_totals_sum_nonneg(pre.skip(1));
                assert(totals_sum(pre) <= total0);
                crate::math::lemma_ratio_floor_le(
                    amount as int,
                    pre[0].total_spec(),
                    total as int,
                );
            }
            let share = mul_ratio_floor(amount, x.total(), total);
            let off = if share < remaining {
                share
            } else {
                remaining
            };
            proof {
                assert(off as int == group_share(pre[0], amount as int, total0, rem_pre));
            }
            let (c_off, c_bids) = match x.swap(off) {
                Ok(p) => p,
                Err(e) => {
                    proof {
                        assert(!pre[0].swap_ok(off as int));
                        assert(!group_ok(pre, amount as int, total0, rem_pre));
                    }
                    return Err(e);
                },
            };
            let ghost out_pre = out@;
            proof {
                lemma_totals_sum_push(out@, x);
                assert(totals_sum(pre) == pre[0].total_spec() + totals_sum(pre.skip(1)));
            }
            out.push(x);
            consumed_offer = consumed_offer + c_off;
            consumed_bids = consumed_bids + c_bids;
            remaining = remaining - c_off;
            proof {
                let ghost xp = out@.last();
                assert(out@.drop_last() =~= out_pre);
                assert forall|rest: Seq<T>|
                    group_posted(self@, amount as int, total0, remaining as int, rest)
                        implies group_posted(
                    items0,
                    amount as int,
                    total0,
                    amount as int,
                    out@ + rest,
                ) by {
                    let combined = seq![xp] + rest;
                    assert(combined[0] == xp);
                    assert(combined.skip(1) =~= rest);
                    assert(group_posted(pre, amount as int, total0, rem_pre, combined));
                    assert(out_pre + combined =~= out@ + rest);
                }
                assert forall|i: int| 0 <= i < out@.len() implies (#[trigger] out@[i]).wf()
                    && out@[i].total_spec() >= 0 by {
                    if i < out@.len() - 1 {
                        assert(out@[i] == out@.drop_last()[i]);
                    }
                }
            }
        }
        *self = out;
        Ok((consumed_offer, consumed_bids))
    }

    fn commit(&self, st: &mut State) -> (r: Result<Commitment, SwapError>) {
        let mut res = Commitment::empty();
        let ghost st0 = *st;
        let n = self.len();
        let mut i: usize = 0;
        proof {
            assert(self@.skip(0) =~= self@);
            assert(commits_posted(self@.take(0), st0, *st)) by {
                assert(self@.take(0).len() == 0);
            }
            assert(self@.take(0).len() == 0);
        }
        while i < n
            invariant
                n == self@.len(),
                0 <= i <= n,
                res.wf(),
                st.wf(),
                st0 == *old(st),
                commits_ok(self@.skip(i as int), *st),
                commits_posted(self@.take(i as int), st0, *st),
                forall|k: Seq<char>| #[trigger] res.get(k) == cms_combined(self@.take(i as int), k),
                commits_sure(self@, st0) ==> commits_sure(self@.skip(i as int), *st),
            decreases n - i,
        {
            let ghost st_pre = *st;
            proof {
                assert(self@.skip(i as int)[0] == self@[i as int]);
                assert(self@.skip(i as int).skip(1) =~= self@.skip(i + 1));
            }
            let c = match self[i].commit(st) {
                Ok(v) => v,
                Err(e) => {
                    proof {
                        if commits_sure(self@, st0) {
                            assert(self@[i as int].commit_sure(st_pre));
                            assert(false);
                        }
                    }
                    return Err(e);
                },
            };
            proof {
                lemma_cms_take_snoc(self@, i as int);
            }
            let ghost gres = res;
            let ghost gc = c;
            let merged = res.merge(c);
            match merged {
                Ok(()) => {},
                Err(_) => {
                    proof {
                        if commits_sure(self@, st0) && cms_fit(self@) {
                            assert forall|k: Seq<char>|
                                match (#[trigger] gres.get(k), gc.get(k)) {
                                    (Some(x), Some(y)) => x.0 + y.0 <= u128::MAX && x.1 + y.1
                                        <= u128::MAX,
                                    _ => true,
                                } by {
                                super::commitment::lemma_commitment_bounds(gres, k);
                                super::commitment::lemma_commitment_bounds(gc, k);
                                assert(cms_combined(self@.take(i + 1), k)
                                    == super::commitment::combined(gres.get(k), gc.get(k)));
                            }
                            assert(super::commitment::merge_fits(gres, gc));
                            assert(false);
                        }
                    }
                    return Err(SwapError::Overflow);
                },
            }
            proof {
                lemma_commits_posted_snoc(self@, i as int, st0, st_pre, *st);
                assert forall|k: Seq<char>| #[trigger] res.get(k) == cms_combined(
                    self@.take(i + 1),
                    k,
                ) by {
                    assert(cms_combined(self@.take(i + 1), k) == super::commitment::combined(
                        cms_combined(self@.take(i as int), k),
                        self@[i as int].commit_cm(k),
                    ));
                }
            }
            i = i + 1;
        }
        proof {
            assert(self@.take(n as int) =~= self@);
        }
        Ok(res)
    }
}

/// Extending a take-prefix by one more source folds that source's
/// obligations onto the prefix's.
pub proof fn lemma_cms_take_snoc<T: Swappable>(s: Seq<T>, i: int)
    requires
        0 <= i < s.len(),
    ensures
        forall|k: Seq<char>| #[trigger] cms_combined(s.take(i + 1), k)
            == super::commitment::combined(cms_combined(s.take(i), k), s[i].commit_cm(k)),
{
    assert forall|k: Seq<char>| #[trigger] cms_combined(s.take(i + 1), k)
        == super::commitment::combined(cms_combined(s.take(i), k), s[i].commit_cm(k)) by {
        assert(s.take(i + 1).drop_last() =~= s.take(i));
        assert(s.take(i + 1).last() == s[i]);
    }
}

/// Extending a committed prefix by one more source's commit keeps the
/// chain: the states thread through the new step.
pub proof fn lemma_commits_posted_snoc<T: Swappable>(
    s: Seq<T>,
    i: int,
    st0: State,
    mid: State,
    post: State,
)
    requires
        0 <= i < s.len(),
        commits_posted(s.take(i), st0, mid),
        s[i].commit_posted(mid, post),
    ensures
        commits_posted(s.take(i + 1), st0, post),
    decreases i,
{
    if i == 0 {
        assert(s.take(0).len() == 0);
        assert(st0 == mid);
        assert(s.take(1)[0] == s[0]);
        assert(s.take(1).skip(1) =~= s.take(0));
        assert(s.take(1).skip(1).len() == 0);
        assert(commits_posted(s.take(1).skip(1), post, post));
        assert(s.take(1)[0].commit_posted(st0, post) && commits_posted(
            s.take(1).skip(1),
            post,
            post,
        ));
    } else {
        let pfx = s.take(i);
        let mid1 = choose|m: State|
            #[trigger] pfx[0].commit_posted(st0, m) && commits_posted(pfx.skip(1), m, mid);
        assert(pfx[0] == s[0]);
        assert(pfx.skip(1) =~= s.skip(1).take(i - 1));
        assert(s.skip(1)[i - 1] == s[i]);
        lemma_commits_posted_snoc(s.skip(1), i - 1, mid1, mid, post);
        assert(s.take(i + 1)[0] == s[0]);
        assert(s.take(i + 1).skip(1) =~= s.skip(1).take(i));
        assert(s.take(i + 1)[0].commit_posted(st0, mid1) && commits_posted(
            s.take(i + 1).skip(1),
            mid1,
            post,
        ));
    }
}


proof fn lemma_group_attrs_step<T: Swappable>(items: Seq<T>, i: int)
    requires
        0 <= i < items.len(),
    ensures
        group_attrs(items.skip(i)) == items[i].attrs_spec() + group_attrs(items.skip(i + 1)),
{
    assert(items.skip(i)[0] == items[i]);
    assert(items.skip(i).skip(1) =~= items.skip(i + 1));
}

proof fn lemma_group_attrs_end<T: Swappable>(items: Seq<T>)
    ensures
        group_attrs(items.skip(items.len() as int)) =~= Seq::<(Seq<char>, Seq<char>)>::empty(),
{
    assert(items.skip(items.len() as int) =~= Seq::<T>::empty());
}

/// The first member's capacity is bounded by the group total.
proof fn lemma_member_le_sum_entry<T: Swappable>(items: Seq<T>, total: int)
    requires
        totals_nonneg(items),
        items.len() > 0,
        totals_sum(items) == total,
    ensures
        0 <= items[0].total_spec() <= total,
{
    lemma_member_le_sum(items, 0);
}

/// Concatenated sequences sum their capacities part by part.
proof fn lemma_totals_sum_concat<T: Swappable>(a: Seq<T>, b: Seq<T>)
    ensures
        totals_sum(a + b) == totals_sum(a) + totals_sum(b),
    decreases a.len(),
{
    if a.len() == 0 {
        assert(a + b =~= b);
    } else {
        assert((a + b)[0] == a[0]);
        assert((a + b).skip(1) =~= a.skip(1) + b);
        lemma_totals_sum_concat(a.skip(1), b);
    }
}

/// Sharing nothing leaves every member as it stands.
proof fn lemma_group_posted_refl<T: Swappable>(items: Seq<T>, amount: int, total: int)
    ensures
        group_posted(items, amount, total, 0, items),
{
}

} // verus!

// The pairwise union combinator: two differently-ranked sources merged at
// one rank. When both sides present an item, an incoming offer is split
// between them in proportion to their totals, flooring each share; when
// only one side has an item, it receives the whole offer.
verus! {

#[derive(Debug)]
pub enum EitherOrBoth<T, V> {
    Both(T, V),
    Left(T),
    Right(V),
}

/// The left share of an offer split proportionally to the sides' totals.
pub open spec fn pair_left_offer<T: Swappable, V: Swappable>(a: T, b: V, amount: int) -> int {
    ratio_floor(amount, a.total_spec(), a.total_spec() + b.total_spec())
}

impl<T: Swappable, V: Swappable> Swappable for EitherOrBoth<T, V> {
    open spec fn wf(&self) -> bool {
        match self {
            EitherOrBoth::Both(a, b) => a.wf() && b.wf() && 0 <= a.total_spec() && 0
                <= b.total_spec() && a.total_spec() + b.total_spec() <= u128::MAX,
            EitherOrBoth::Left(a) => a.wf(),
            EitherOrBoth::Right(b) => b.wf(),
        }
    }

    open spec fn rate_spec(&self) -> int {
        match self {
            EitherOrBoth::Both(a, _) => a.rate_spec(),
            EitherOrBoth::Left(a) => a.rate_spec(),
            EitherOrBoth::Right(b) => b.rate_spec(),
        }
    }

    open spec fn total_spec(&self) -> int {
        match self {
            EitherOrBoth::Both(a, b) => a.total_spec() + b.total_spec(),
            EitherOrBoth::Left(a) => a.total_spec(),
            EitherOrBoth::Right(b) => b.total_spec(),
        }
    }

    open spec fn swap_ok(&self, offer: int) -> bool {
        match self {
            EitherOrBoth::Both(a, b) => {
                let oa = pair_left_offer(*a, *b, offer);
                a.total_spec() + b.total_spec() != 0 && a.swap_ok(oa) && b.swap_ok(offer - oa)
            },
            EitherOrBoth::Left(a) => a.swap_ok(offer),
            EitherOrBoth::Right(b) => b.swap_ok(offer),
        }
    }

    open spec fn swap_posted(&self, offer: int, post: EitherOrBoth<T, V>) -> bool {
        match self {
            EitherOrBoth::Both(a, b) => {
                let oa = pair_left_offer(*a, *b, offer);
                match post {
                    EitherOrBoth::Both(a2, b2) => a.swap_posted(oa, a2) && b.swap_posted(
                        offer - oa,
                        b2,
                    ),
                    _ => false,
                }
            },
            EitherOrBoth::Left(a) => match post {
                EitherOrBoth::Left(a2) => a.swap_posted(offer, a2),
                _ => false,
            },
            EitherOrBoth::Right(b) => match post {
                EitherOrBoth::Right(b2) => b.swap_posted(offer, b2),
                _ => false,
            },
        }
    }

    open spec fn swap_co(&self, offer: int) -> int {
        match self {
            EitherOrBoth::Both(a, b) => {
                let oa = pair_left_offer(*a, *b, offer);
                a.swap_co(oa) + b.swap_co(offer - oa)
            },
            EitherOrBoth::Left(a) => a.swap_co(offer),
            EitherOrBoth::Right(b) => b.swap_co(offer),
        }
    }

    open spec fn swap_cb(&self, offer: int) -> int {
        match self {
            EitherOrBoth::Both(a, b) => {
                let oa = pair_left_offer(*a, *b, offer);
                a.swap_cb(oa) + b.swap_cb(offer - oa)
            },
            EitherOrBoth::Left(a) => a.swap_cb(offer),
            EitherOrBoth::Right(b) => b.swap_cb(offer),
        }
    }

    open spec fn attrs_spec(&self) -> Seq<(Seq<char>, Seq<char>)> {
        match self {
            EitherOrBoth::Both(a, b) => a.attrs_spec() + b.attrs_spec(),
            EitherOrBoth::Left(a) => a.attrs_spec(),
            EitherOrBoth::Right(b) => b.attrs_spec(),
        }
    }

    open spec fn commit_ok(&self, st: State) -> bool {
        match self {
            EitherOrBoth::Both(a, b) => a.wf() && b.wf() && a.commit_ok(st) && forall|mid: State|
                #[trigger] a.commit_posted(st, mid) && mid.wf() ==> b.commit_ok(mid),
            EitherOrBoth::Left(a) => a.commit_ok(st),
            EitherOrBoth::Right(b) => b.commit_ok(st),
        }
    }

    open spec fn commit_posted(&self, st: State, post: State) -> bool {
        match self {
            EitherOrBoth::Both(a, b) => exists|mid: State|
                #[trigger] a.commit_posted(st, mid) && b.commit_posted(mid, post),
            EitherOrBoth::Left(a) => a.commit_posted(st, post),
            EitherOrBoth::Right(b) => b.commit_posted(st, post),
        }
    }

    open spec fn commit_cm(&self, k: Seq<char>) -> Option<(int, int)> {
        match self {
            EitherOrBoth::Both(a, b) => super::commitment::combined(
                a.commit_cm(k),
                b.commit_cm(k),
            ),
            EitherOrBoth::Left(a) => a.commit_cm(k),
            EitherOrBoth::Right(b) => b.commit_cm(k),
        }
    }

    open spec fn commit_sure(&self, st: State) -> bool {
        match self {
            EitherOrBoth::Both(a, b) => {
                &&& a.commit_sure(st)
                &&& (forall|mid: State|
                    #[trigger] a.commit_posted(st, mid) && mid.wf() ==> b.commit_sure(mid))
                &&& (forall|k: Seq<char>|
                    match #[trigger] super::commitment::combined(a.commit_cm(k), b.commit_cm(k)) {
                        Some(v) => 0 <= v.0 <= u128::MAX && 0 <= v.1 <= u128::MAX,
                        None => true,
                    })
            },
            EitherOrBoth::Left(a) => a.commit_sure(st),
            EitherOrBoth::Right(b) => b.commit_sure(st),
        }
    }

    fn rate(&self) -> (r: Udec) {
        match self {
            EitherOrBoth::Both(a, _) => a.rate(),
            EitherOrBoth::Left(a) => a.rate(),
            EitherOrBoth::Right(b) => b.rate(),
        }
    }

    fn total(&self) -> (r: u128) {
        match self {
            EitherOrBoth::Both(a, b) => a.total() + b.total(),
            EitherOrBoth::Left(a) => a.total(),
            EitherOrBoth::Right(b) => b.total(),
        }
    }

    fn attributes(&self) -> (r: Vec<(String, String)>) {
        match self {
            EitherOrBoth::Both(a, b) => {
                let mut res = a.attributes();
                let mut more = b.attributes();
                let ghost ra = res@;
                let ghost rb = more@;
                res.append(&mut more);
                proof {
                    assert(res@ =~= ra + rb);
                    assert forall|i: int| 0 <= i < res@.len() implies (#[trigger] res@[i]).0@
                        == self.attrs_spec()[i].0 && res@[i].1@ == self.attrs_spec()[i].1 by {
                        if i < ra.len() {
                            assert(res@[i] == ra[i]);
                        } else {
                            assert(res@[i] == rb[i - ra.len()]);
                        }
                    }
                }
                res
            },
            EitherOrBoth::Left(a) => a.attributes(),
            EitherOrBoth::Right(b) => b.attributes(),
        }
    }

    fn swap(&mut self, offer: u128) -> (r: Result<(u128, u128), SwapError>) {
        match self {
            EitherOrBoth::Both(a, b) => {
                let ta = a.total();
                let tb = b.total();
                let den = ta + tb;
                let offer_a = match checked_mul_ratio_floor(offer, ta, den) {
                    Some(v) => v,
                    None => {
                        proof {
                            if den > 0 {
                                crate::math::lemma_ratio_floor_le(offer as int, ta as int, den as int);
                            }
                        }
                        return Err(SwapError::DivideByZero);
                    },
                };
                proof {
                    crate::math::lemma_ratio_floor_le(offer as int, ta as int, den as int);
                }
                let offer_b = offer - offer_a;
                let (co_a, cb_a) = match a.swap(offer_a) {
                    Ok(v) => v,
                    Err(e) => {
                        return Err(e);
                    },
                };
                let (co_b, cb_b) = match b.swap(offer_b) {
                    Ok(v) => v,
                    Err(e) => {
                        return Err(e);
                    },
                };
                Ok((co_a + co_b, cb_a + cb_b))
            },
            EitherOrBoth::Left(a) => a.swap(offer),
            EitherOrBoth::Right(b) => b.swap(offer),
        }
    }

    fn commit(&self, st: &mut State) -> (r: Result<Commitment, SwapError>) {
        match self {
            EitherOrBoth::Both(a, b) => {
                let ghost st0 = *st;
                let mut ca = match a.commit(st) {
                    Ok(v) => v,
                    Err(e) => {
                        return Err(e);
                    },
                };
                let ghost mid = *st;
                let cb = match b.commit(st) {
                    Ok(v) => v,
                    Err(e) => {
                        return Err(e);
                    },
                };
                let ghost gca = ca;
                let ghost gcb = cb;
                match ca.merge(cb) {
                    Ok(()) => {},
                    Err(e) => {
                        proof {
                            if self.commit_sure(st0) {
                                assert forall|k: Seq<char>|
                                    match (#[trigger] gca.get(k), gcb.get(k)) {
                                        (Some(x), Some(y)) => x.0 + y.0 <= u128::MAX && x.1 + y.1
                                            <= u128::MAX,
                                        _ => true,
                                    } by {
                                    super::commitment::lemma_commitment_bounds(gca, k);
                                    super::commitment::lemma_commitment_bounds(gcb, k);
                                    assert(gca.get(k) == a.commit_cm(k));
                                    assert(gcb.get(k) == b.commit_cm(k));
                                    assert(match super::commitment::combined(
                                        a.commit_cm(k),
                                        b.commit_cm(k),
                                    ) {
                                        Some(v) => 0 <= v.0 <= u128::MAX && 0 <= v.1
                                            <= u128::MAX,
                                        None => true,
                                    });
                                }
                                assert(super::commitment::merge_fits(gca, gcb));
                                assert(false);
                            }
                        }
                        return Err(e);
                    },
                }
                proof {
                    assert(a.commit_posted(st0, mid) && b.commit_posted(mid, *st));
                }
                Ok(ca)
            },
            EitherOrBoth::Left(a) => a.commit(st),
            EitherOrBoth::Right(b) => b.commit(st),
        }
    }
}

} // verus!
