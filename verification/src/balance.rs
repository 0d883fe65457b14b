//! Multi-denomination balances, kept normalized: one entry per denom,
//! every amount positive.

use vstd::prelude::*;

use crate::error::ContractError;

verus! {

/// One amount of one denomination.
#[derive(Debug, Clone)]
pub struct Coin {
    pub denom: String,
    pub amount: u128,
}

/// Builds a coin.
pub fn coin(amount: u128, denom: &str) -> (r: Coin)
    ensures
        r.denom@ == denom@,
        r.amount == amount,
{
    Coin { denom: denom.to_owned(), amount }
}

/// What a balance reads is always a representable amount.
pub proof fn lemma_bal_get_bound(s: Seq<(String, u128)>, d: Seq<char>)
    ensures
        0 <= bal_get(s, d) <= u128::MAX,
    decreases s.len(),
{
    if s.len() > 0 && s.last().0@ != d {
        lemma_bal_get_bound(s.drop_last(), d);
    }
}

/// The amount a balance holds of a denom; zero when absent.
pub open spec fn bal_get(s: Seq<(String, u128)>, d: Seq<char>) -> int
    decreases s.len(),
{
    if s.len() == 0 {
        0
    } else if s.last().0@ == d {
        s.last().1 as int
    } else {
        bal_get(s.drop_last(), d)
    }
}

/// Whether a balance carries an entry for a denom at all.
pub open spec fn bal_present(s: Seq<(String, u128)>, d: Seq<char>) -> bool
    decreases s.len(),
{
    if s.len() == 0 {
        false
    } else if s.last().0@ == d {
        true
    } else {
        bal_present(s.drop_last(), d)
    }
}

/// A normalized multi-denomination balance.
#[derive(Debug)]
pub struct Balance {
    pub entries: Vec<(String, u128)>,
}

impl Balance {
    /// What this balance holds of a denom.
    pub open spec fn get(self, d: Seq<char>) -> int {
        bal_get(self.entries@, d)
    }

    pub open spec fn present(self, d: Seq<char>) -> bool {
        bal_present(self.entries@, d)
    }

    pub open spec fn wf(self) -> bool {
        &&& forall|i: int, j: int|
            0 <= i < j < self.entries@.len() ==> (#[trigger] self.entries@[i]).0@ != (
            #[trigger] self.entries@[j]).0@
        &&& forall|i: int| 0 <= i < self.entries@.len() ==> (#[trigger] self.entries@[i]).1 > 0
    }

    pub fn new() -> (r: Balance)
        ensures
            r.wf(),
            forall|d: Seq<char>| r.get(d) == 0 && !r.present(d),
            r.entries@.len() == 0,
    {
        Balance { entries: Vec::new() }
    }

    /// Whether the balance is empty.
    pub fn is_empty(&self) -> (r: bool)
        ensures
            r <==> self.entries@.len() == 0,
    {
        self.entries.len() == 0
    }

    /// The amount held of a denom.
    pub fn amount_of(&self, denom: &String) -> (r: u128)
        requires
            self.wf(),
        ensures
            r as int == self.get(denom@),
    {
        match bal_position(&self.entries, denom) {
            Some(i) => self.entries[i].1,
            None => 0,
        }
    }

    /// Whether at least this much of a denom is covered; a zero amount
    /// still needs the denom to be present.
    pub fn has(&self, denom: &String, amount: u128) -> (r: bool)
        requires
            self.wf(),
        ensures
            r <==> (self.present(denom@) && self.get(denom@) >= amount),
    {
        match bal_position(&self.entries, denom) {
            Some(i) => self.entries[i].1 >= amount,
            None => false,
        }
    }

    /// Credits a denom. Fails only when the sum leaves the representable
    /// range, and then changes nothing.
    pub fn add(&mut self, denom: &String, amount: u128) -> (r: Result<(), ContractError>)
        requires
            old(self).wf(),
        ensures
            final(self).wf(),
            r is Ok <==> old(self).get(denom@) + amount <= u128::MAX,
            r matches Err(e) ==> e == ContractError::Overflow && *final(self) == *old(self),
            r is Ok ==> final(self).get(denom@) == old(self).get(denom@) + amount && (forall|
                d: Seq<char>,
            |
                d != denom@ ==> final(self).get(d) == old(self).get(d) && final(self).present(d)
                    == old(self).present(d)) && (final(self).present(denom@) <==> (old(self).get(
                denom@,
            ) + amount > 0 || old(self).present(denom@))),
    {
        proof {
            lemma_bal_get_bound(self.entries@, denom@);
            if !bal_present(self.entries@, denom@) {
                lemma_bal_not_present_zero(self.entries@, denom@);
            }
        }
        if amount == 0 {
            return Ok(());
        }
        match bal_position(&self.entries, denom) {
            Some(i) => {
                let (_, cur) = self.entries[i];
                let new_amt = match cur.checked_add(amount) {
                    Some(v) => v,
                    None => {
                        return Err(ContractError::Overflow);
                    },
                };
                let ghost pre = self.entries@;
                let k2 = denom.clone();
                proof {
                    lemma_bal_update(pre, i as int, k2, new_amt);
                }
                self.entries.set(i, (k2, new_amt));
                Ok(())
            },
            None => {
                let ghost pre = self.entries@;
                self.entries.push((denom.clone(), amount));
                proof {
                    assert(self.entries@.drop_last() =~= pre);
                    lemma_bal_push(pre, self.entries@);
                }
                Ok(())
            },
        }
    }

    /// Debits a denom. Fails exactly when the balance does not cover the
    /// amount, and then changes nothing; an entry drawn down to zero is
    /// dropped.
    pub fn sub(&mut self, denom: &String, amount: u128) -> (r: Result<(), ContractError>)
        requires
            old(self).wf(),
        ensures
            final(self).wf(),
            r is Ok <==> amount <= old(self).get(denom@),
            r matches Err(e) ==> e == ContractError::Overflow && *final(self) == *old(self),
            r is Ok ==> final(self).get(denom@) == old(self).get(denom@) - amount && (forall|
                d: Seq<char>,
            |
                d != denom@ ==> final(self).get(d) == old(self).get(d) && final(self).present(d)
                    == old(self).present(d)),
    {
        proof {
            lemma_bal_get_bound(self.entries@, denom@);
        }
        if amount == 0 {
            return Ok(());
        }
        match bal_position(&self.entries, denom) {
            Some(i) => {
                let (_, cur) = self.entries[i];
                if cur < amount {
                    return Err(ContractError::Overflow);
                }
                let ghost pre = self.entries@;
                if cur == amount {
                    proof {
                        lemma_bal_remove(pre, i as int);
                    }
                    self.entries.remove(i);
                } else {
                    let k2 = denom.clone();
                    proof {
                        lemma_bal_update(pre, i as int, k2, (cur - amount) as u128);
                    }
                    self.entries.set(i, (k2, cur - amount));
                }
                Ok(())
            },
            None => Err(ContractError::Overflow),
        }
    }
}

/// Comparing two balances as what they hold, not how it is arranged.
impl PartialEq for Balance {
    fn eq(&self, other: &Balance) -> (r: bool) {
        let ab = balances_leq(self, other);
        let ba = balances_leq(other, self);
        let r = ab && ba;
        proof {
            if r {
                assert forall|d: Seq<char>| self.get(d) == other.get(d) && self.present(d)
                    == other.present(d) by {
                    if bal_present(self.entries@, d) {
                        lemma_bal_present_exists(self.entries@, d);
                        let i = choose|i: int|
                            0 <= i < self.entries@.len() && (#[trigger] self.entries@[i]).0@ == d;
                        assert(bal_present(other.entries@, self.entries@[i].0@));
                    } else if bal_present(other.entries@, d) {
                        lemma_bal_present_exists(other.entries@, d);
                        let i = choose|i: int|
                            0 <= i < other.entries@.len() && (#[trigger] other.entries@[i]).0@
                                == d;
                        assert(bal_present(self.entries@, other.entries@[i].0@));
                    } else {
                        lemma_bal_not_present_zero(self.entries@, d);
                        lemma_bal_not_present_zero(other.entries@, d);
                    }
                }
            } else {
                if !ab {
                    let i = choose|i: int|
                        0 <= i < self.entries@.len() && !(bal_present(
                            other.entries@,
                            (#[trigger] self.entries@[i]).0@,
                        ) && bal_get(other.entries@, self.entries@[i].0@) == bal_get(
                            self.entries@,
                            self.entries@[i].0@,
                        ));
                    lemma_bal_present_some_u(self.entries@, i, self.entries@[i].0@);
                    let dw = self.entries@[i].0@;
                    assert(!(self.get(dw) == other.get(dw) && self.present(dw) == other.present(
                        dw,
                    )));
                } else {
                    let i = choose|i: int|
                        0 <= i < other.entries@.len() && !(bal_present(
                            self.entries@,
                            (#[trigger] other.entries@[i]).0@,
                        ) && bal_get(self.entries@, other.entries@[i].0@) == bal_get(
                            other.entries@,
                            other.entries@[i].0@,
                        ));
                    lemma_bal_present_some_u(other.entries@, i, other.entries@[i].0@);
                    let dw = other.entries@[i].0@;
                    assert(!(self.get(dw) == other.get(dw) && self.present(dw) == other.present(
                        dw,
                    )));
                }
            }
        }
        r
    }
}

/// An absent denom reads as zero.
proof fn lemma_bal_not_present_zero(s: Seq<(String, u128)>, d: Seq<char>)
    requires
        !bal_present(s, d),
    ensures
        bal_get(s, d) == 0,
    decreases s.len(),
{
    if s.len() > 0 {
        lemma_bal_not_present_zero(s.drop_last(), d);
    }
}

proof fn lemma_bal_present_some_u(s: Seq<(String, u128)>, i: int, d: Seq<char>)
    requires
        0 <= i < s.len(),
        s[i].0@ == d,
    ensures
        bal_present(s, d),
    decreases s.len(),
{
    if i < s.len() - 1 && s.last().0@ != d {
        assert(s.drop_last()[i] == s[i]);
        lemma_bal_present_some_u(s.drop_last(), i, d);
    }
}

impl vstd::std_specs::cmp::PartialEqSpecImpl for Balance {
    open spec fn obeys_eq_spec() -> bool {
        true
    }

    open spec fn eq_spec(&self, other: &Balance) -> bool {
        forall|d: Seq<char>| self.get(d) == other.get(d) && self.present(d) == other.present(d)
    }
}

/// Whether every denom named in `a` reads the same in both balances.
fn balances_leq(a: &Balance, b: &Balance) -> (r: bool)
    ensures
        r <==> (forall|i: int|
            0 <= i < a.entries@.len() ==> bal_present(b.entries@, (#[trigger] a.entries@[i]).0@)
                && bal_get(b.entries@, a.entries@[i].0@) == bal_get(
                a.entries@,
                a.entries@[i].0@,
            )),
{
    let n = a.entries.len();
    let mut i: usize = 0;
    while i < n
        invariant
            n == a.entries@.len(),
            0 <= i <= n,
            forall|j: int|
                0 <= j < i ==> bal_present(b.entries@, (#[trigger] a.entries@[j]).0@) && bal_get(
                    b.entries@,
                    a.entries@[j].0@,
                ) == bal_get(a.entries@, a.entries@[j].0@),
        decreases n - i,
    {
        let d = &a.entries[i].0;
        let (ga, _) = bal_lookup(&a.entries, d);
        let (gb, pb) = bal_lookup(&b.entries, d);
        if !pb || ga != gb {
            return false;
        }
        i = i + 1;
    }
    true
}

/// What a balance reads for a denom, and whether an entry exists — the
/// last entry wins, mirroring the specification order.
fn bal_lookup(v: &Vec<(String, u128)>, denom: &String) -> (r: (u128, bool))
    ensures
        r.0 as int == bal_get(v@, denom@),
        r.1 == bal_present(v@, denom@),
{
    let n = v.len();
    let mut i: usize = n;
    proof {
        assert(v@.take(n as int) =~= v@);
    }
    while i > 0
        invariant
            0 <= i <= n,
            n == v@.len(),
            bal_get(v@, denom@) == bal_get(v@.take(i as int), denom@),
            bal_present(v@, denom@) == bal_present(v@.take(i as int), denom@),
        decreases i,
    {
        proof {
            assert(v@.take(i as int).last() == v@[i - 1]);
            assert(v@.take(i as int).drop_last() =~= v@.take(i - 1));
        }
        if v[i - 1].0 == *denom {
            return (v[i - 1].1, true);
        }
        i = i - 1;
    }
    proof {
        assert(v@.take(0).len() == 0);
    }
    (0, false)
}

/// A present denom is named by some entry.
proof fn lemma_bal_present_exists(s: Seq<(String, u128)>, d: Seq<char>)
    requires
        bal_present(s, d),
    ensures
        exists|i: int| 0 <= i < s.len() && (#[trigger] s[i]).0@ == d,
    decreases s.len(),
{
    if s.last().0@ == d {
        assert(s[s.len() - 1].0@ == d);
    } else {
        lemma_bal_present_exists(s.drop_last(), d);
        let i = choose|i: int| 0 <= i < s.drop_last().len() && (#[trigger] s.drop_last()[i]).0@ == d;
        assert(s[i] == s.drop_last()[i]);
    }
}

/// Extends a balance to cover what `sent` and `received` report.
pub trait NativeBalancePlus: Sized {
    /// What the value holds of a denom.
    spec fn get_spec(&self, d: Seq<char>) -> int;

    /// The value is normalized.
    spec fn wf_spec(&self) -> bool;

    /// The decrease in coins between `self` and `new`, denom by denom.
    fn sent(&self, new: &Self) -> (r: Self)
        requires
            self.wf_spec(),
            new.wf_spec(),
        ensures
            r.wf_spec(),
            forall|d: Seq<char>|
                #[trigger] r.get_spec(d) == if self.get_spec(d) > new.get_spec(d) {
                    self.get_spec(d) - new.get_spec(d)
                } else {
                    0
                },
    ;

    /// The increase in coins between `self` and `new`, denom by denom.
    fn received(&self, new: &Self) -> (r: Self)
        requires
            self.wf_spec(),
            new.wf_spec(),
        ensures
            r.wf_spec(),
            forall|d: Seq<char>|
                #[trigger] r.get_spec(d) == if new.get_spec(d) > self.get_spec(d) {
                    new.get_spec(d) - self.get_spec(d)
                } else {
                    0
                },
    ;
}

impl NativeBalancePlus for Balance {
    open spec fn get_spec(&self, d: Seq<char>) -> int {
        self.get(d)
    }

    open spec fn wf_spec(&self) -> bool {
        self.wf()
    }

    fn sent(&self, new: &Balance) -> (r: Balance) {
        diff_balance(self, new)
    }

    fn received(&self, new: &Balance) -> (r: Balance) {
        diff_balance(new, self)
    }
}

/// The positive part of `a - b`, denom by denom.
fn diff_balance(a: &Balance, b: &Balance) -> (r: Balance)
    requires
        a.wf(),
        b.wf(),
    ensures
        r.wf(),
        forall|d: Seq<char>|
            #[trigger] r.get(d) == if a.get(d) > b.get(d) {
                a.get(d) - b.get(d)
            } else {
                0
            },
{
    let n = a.entries.len();
    let mut out: Vec<(String, u128)> = Vec::new();
    let mut i: usize = 0;
    while i < n
        invariant
            n == a.entries@.len(),
            0 <= i <= n,
            a.wf(),
            b.wf(),
            forall|x: int, y: int|
                0 <= x < y < out@.len() ==> (#[trigger] out@[x]).0@ != (#[trigger] out@[y]).0@,
            forall|x: int| 0 <= x < out@.len() ==> (#[trigger] out@[x]).1 > 0,
            forall|j: int|
                0 <= j < i ==> #[trigger] bal_get(out@, a.entries@[j].0@) == (if bal_get(
                    a.entries@,
                    a.entries@[j].0@,
                ) > bal_get(b.entries@, a.entries@[j].0@) {
                    bal_get(a.entries@, a.entries@[j].0@) - bal_get(b.entries@, a.entries@[j].0@)
                } else {
                    0
                }),
            forall|x: int|
                0 <= x < out@.len() ==> exists|j: int|
                    0 <= j < i && (#[trigger] out@[x]).0@ == a.entries@[j].0@,
        decreases n - i,
    {
        let (d, amt) = &a.entries[i];
        let ghost dd = a.entries@[i as int].0@;
        let ghost pre = out@;
        proof {
            lemma_bal_found(a.entries@, i as int, dd);
            assert forall|j: int| 0 <= j < i implies (#[trigger] a.entries@[j]).0@ != dd by {
                assert(a.entries@[j].0@ != a.entries@[i as int].0@);
            }
            if bal_present(pre, dd) {
                lemma_bal_present_exists(pre, dd);
                let x = choose|x: int| 0 <= x < pre.len() && (#[trigger] pre[x]).0@ == dd;
                let j0 = choose|j: int| 0 <= j < i && (#[trigger] pre[x]).0@ == a.entries@[j].0@;
                assert(a.entries@[j0].0@ != dd);
            }
            assert(!bal_present(pre, dd));
            lemma_bal_not_present_zero(pre, dd);
            assert(bal_get(pre, dd) == 0);
        }
        let b_amt = b.amount_of(d);
        if *amt > b_amt {
            out.push((d.clone(), *amt - b_amt));
            proof {
                assert(out@.drop_last() =~= pre);
                assert(out@.last().0@ == dd);
                assert(out@.last().1 > 0);
                assert(bal_get(out@, dd) == out@.last().1);
                assert forall|d2: Seq<char>| d2 != dd implies #[trigger] bal_get(out@, d2)
                    == bal_get(pre, d2) && bal_present(out@, d2) == bal_present(pre, d2) by {
                    assert(out@.last().0@ != d2);
                }
                lemma_bal_no_dup(pre, dd);
                assert forall|x: int, y: int| 0 <= x < y < out@.len() implies (
                #[trigger] out@[x]).0@ != (#[trigger] out@[y]).0@ by {
                    assert(out@[x] == pre[x]);
                    if y < out@.len() - 1 {
                        assert(out@[y] == pre[y]);
                    } else {
                        assert(out@[y].0@ == dd);
                        assert(pre[x].0@ != dd);
                    }
                }
                assert forall|x: int| 0 <= x < out@.len() implies (#[trigger] out@[x]).1 > 0 by {
                    if x < out@.len() - 1 {
                        assert(out@[x] == pre[x]);
                    }
                }
                assert(out@[out@.len() - 1].0@ == a.entries@[i as int].0@);
                assert forall|x: int| 0 <= x < out@.len() implies exists|j: int|
                    0 <= j < i + 1 && (#[trigger] out@[x]).0@ == a.entries@[j].0@ by {
                    if x < out@.len() - 1 {
                        assert(out@[x] == pre[x]);
                        let j0 = choose|j: int|
                            0 <= j < i && (#[trigger] pre[x]).0@ == a.entries@[j].0@;
                        assert(0 <= j0 < i + 1 && out@[x].0@ == a.entries@[j0].0@);
                    } else {
                        assert(0 <= i < i + 1 && out@[x].0@ == a.entries@[i as int].0@);
                    }
                }
            }
        } else {
            proof {
                assert(bal_get(out@, dd) == 0);
                assert forall|x: int| 0 <= x < out@.len() implies exists|j: int|
                    0 <= j < i + 1 && (#[trigger] out@[x]).0@ == a.entries@[j].0@ by {
                    let j0 = choose|j: int|
                        0 <= j < i && (#[trigger] out@[x]).0@ == a.entries@[j].0@;
                    assert(0 <= j0 < i + 1 && out@[x].0@ == a.entries@[j0].0@);
                }
            }
        }
        proof {
            assert forall|j: int| 0 <= j < i + 1 implies #[trigger] bal_get(
                out@,
                a.entries@[j].0@,
            ) == (if bal_get(a.entries@, a.entries@[j].0@) > bal_get(
                b.entries@,
                a.entries@[j].0@,
            ) {
                bal_get(a.entries@, a.entries@[j].0@) - bal_get(b.entries@, a.entries@[j].0@)
            } else {
                0
            }) by {
                if j < i {
                    assert(a.entries@[j].0@ != dd);
                    assert(bal_get(out@, a.entries@[j].0@) == bal_get(pre, a.entries@[j].0@));
                }
            }
        }
        i = i + 1;
    }
    proof {
        assert forall|d: Seq<char>| #[trigger] bal_get(out@, d) == (if bal_get(a.entries@, d)
            > bal_get(b.entries@, d) {
            bal_get(a.entries@, d) - bal_get(b.entries@, d)
        } else {
            0
        }) by {
            if exists|j: int| 0 <= j < n && (#[trigger] a.entries@[j]).0@ == d {
                let j = choose|j: int| 0 <= j < n && (#[trigger] a.entries@[j]).0@ == d;
                assert(bal_get(out@, a.entries@[j].0@) == (if bal_get(a.entries@, a.entries@[j].0@)
                    > bal_get(b.entries@, a.entries@[j].0@) {
                    bal_get(a.entries@, a.entries@[j].0@) - bal_get(b.entries@, a.entries@[j].0@)
                } else {
                    0
                }));
            } else {
                assert forall|j: int| 0 <= j < a.entries@.len() implies (
                #[trigger] a.entries@[j]).0@ != d by {}
                lemma_bal_absent_all(a.entries@, d);
                lemma_bal_get_bound(b.entries@, d);
                if bal_present(out@, d) {
                    lemma_bal_present_exists(out@, d);
                    let x = choose|x: int| 0 <= x < out@.len() && (#[trigger] out@[x]).0@ == d;
                    let j0 = choose|j: int|
                        0 <= j < n && (#[trigger] out@[x]).0@ == a.entries@[j].0@;
                    assert(a.entries@[j0].0@ != d);
                }
                lemma_bal_not_present_zero(out@, d);
            }
        }
    }
    Balance { entries: out }
}

/// The index at which a denom is recorded, under uniqueness.
fn bal_position(v: &Vec<(String, u128)>, denom: &String) -> (r: Option<usize>)
    requires
        forall|i: int, j: int|
            0 <= i < j < v@.len() ==> (#[trigger] v@[i]).0@ != (#[trigger] v@[j]).0@,
    ensures
        r matches Some(i) ==> i < v@.len() && v@[i as int].0@ == denom@ && bal_present(v@, denom@)
            && bal_get(v@, denom@) == v@[i as int].1,
        r is None ==> !bal_present(v@, denom@) && bal_get(v@, denom@) == 0,
{
    let r = bal_position_raw(v, denom);
    proof {
        match r {
            Some(i) => {
                lemma_bal_found(v@, i as int, denom@);
            },
            None => {},
        }
    }
    r
}

/// The first index at which a denom is recorded, if any.
fn bal_position_raw(v: &Vec<(String, u128)>, denom: &String) -> (r: Option<usize>)
    ensures
        r matches Some(i) ==> i < v@.len() && v@[i as int].0@ == denom@ && bal_present(v@, denom@),
        r is None ==> !bal_present(v@, denom@) && bal_get(v@, denom@) == 0,
{
    let n = v.len();
    let mut i: usize = 0;
    while i < n
        invariant
            n == v@.len(),
            0 <= i <= n,
            forall|j: int| 0 <= j < i ==> (#[trigger] v@[j]).0@ != denom@,
        decreases n - i,
    {
        if v[i].0 == *denom {
            proof {
                lemma_bal_present_some(v@, i as int, denom@);
            }
            return Some(i);
        }
        i = i + 1;
    }
    proof {
        lemma_bal_absent_all(v@, denom@);
    }
    None
}

proof fn lemma_bal_found(s: Seq<(String, u128)>, i: int, d: Seq<char>)
    requires
        0 <= i < s.len(),
        s[i].0@ == d,
        forall|a: int, b: int| 0 <= a < b < s.len() ==> (#[trigger] s[a]).0@ != (#[trigger] s[b]).0@,
    ensures
        bal_get(s, d) == s[i].1,
        bal_present(s, d),
    decreases s.len(),
{
    if i < s.len() - 1 {
        assert(s.drop_last()[i] == s[i]);
        assert forall|a: int, b: int| 0 <= a < b < s.drop_last().len() implies (
        #[trigger] s.drop_last()[a]).0@ != (#[trigger] s.drop_last()[b]).0@ by {
            assert(s.drop_last()[a] == s[a]);
            assert(s.drop_last()[b] == s[b]);
        }
        assert(s[i].0@ != s[s.len() - 1].0@);
        lemma_bal_found(s.drop_last(), i, d);
    }
}

proof fn lemma_bal_present_some(s: Seq<(String, u128)>, i: int, d: Seq<char>)
    requires
        0 <= i < s.len(),
        s[i].0@ == d,
    ensures
        bal_present(s, d),
    decreases s.len(),
{
    if i < s.len() - 1 && s.last().0@ != d {
        assert(s.drop_last()[i] == s[i]);
        lemma_bal_present_some(s.drop_last(), i, d);
    }
}

proof fn lemma_bal_absent_all(s: Seq<(String, u128)>, d: Seq<char>)
    requires
        forall|j: int| 0 <= j < s.len() ==> (#[trigger] s[j]).0@ != d,
    ensures
        !bal_present(s, d),
        bal_get(s, d) == 0,
    decreases s.len(),
{
    if s.len() > 0 {
        assert forall|j: int| 0 <= j < s.drop_last().len() implies (#[trigger] s.drop_last()[j]).0@
            != d by {
            assert(s.drop_last()[j] == s[j]);
        }
        lemma_bal_absent_all(s.drop_last(), d);
    }
}

/// Under unique keys, the entry at a denom's index is what the balance
/// reads for it.
pub proof fn lemma_bal_unique_get(s: Seq<(String, u128)>, j: int, d: Seq<char>)
    requires
        0 <= j < s.len(),
        s[j].0@ == d,
        forall|a: int, b: int| 0 <= a < b < s.len() ==> (#[trigger] s[a]).0@ != (#[trigger] s[b]).0@,
    ensures
        bal_get(s, d) == s[j].1,
{
    lemma_bal_found(s, j, d);
}

/// A denom held by no entry reads as zero, publicly.
pub proof fn lemma_bal_absent_pub(s: Seq<(String, u128)>, d: Seq<char>)
    requires
        forall|j: int| 0 <= j < s.len() ==> (#[trigger] s[j]).0@ != d,
    ensures
        bal_get(s, d) == 0,
        !bal_present(s, d),
{
    lemma_bal_absent_all(s, d);
}

/// A denom held by no entry reads as zero.
proof fn lemma_bal_absent(s: Seq<(String, u128)>, d: Seq<char>)
    requires
        forall|j: int| 0 <= j < s.len() ==> (#[trigger] s[j]).0@ != d,
    ensures
        bal_get(s, d) == 0,
        !bal_present(s, d),
{
    lemma_bal_absent_all(s, d);
}

proof fn lemma_bal_update(s: Seq<(String, u128)>, i: int, nk: String, v: u128)
    requires
        0 <= i < s.len(),
        s[i].0@ == nk@,
        forall|a: int, b: int| 0 <= a < b < s.len() ==> (#[trigger] s[a]).0@ != (#[trigger] s[b]).0@,
    ensures
        ({
            let s2 = s.update(i, (nk, v));
            &&& bal_get(s2, nk@) == v
            &&& bal_present(s2, nk@)
            &&& forall|d: Seq<char>|
                d != nk@ ==> bal_get(s2, d) == bal_get(s, d) && bal_present(s2, d) == bal_present(
                    s,
                    d,
                )
            &&& forall|a: int, b: int|
                0 <= a < b < s2.len() ==> (#[trigger] s2[a]).0@ != (#[trigger] s2[b]).0@
        }),
    decreases s.len(),
{
    let s2 = s.update(i, (nk, v));
    assert forall|a: int, b: int| 0 <= a < b < s2.len() implies (#[trigger] s2[a]).0@ != (
    #[trigger] s2[b]).0@ by {
        assert(s[a].0@ != s[b].0@);
    }
    if i == s.len() - 1 {
        assert(s2.last() == (nk, v));
        assert(s2.drop_last() =~= s.drop_last());
        assert forall|d: Seq<char>| d != nk@ implies bal_get(s2, d) == bal_get(s, d)
            && bal_present(s2, d) == bal_present(s, d) by {
            assert(s.last().0@ == nk@);
        }
    } else {
        let dl = s.drop_last();
        let dl2 = s2.drop_last();
        assert(dl2 =~= dl.update(i, (nk, v)));
        assert(dl[i] == s[i]);
        assert forall|a: int, b: int| 0 <= a < b < dl.len() implies (#[trigger] dl[a]).0@ != (
        #[trigger] dl[b]).0@ by {
            assert(dl[a] == s[a]);
            assert(dl[b] == s[b]);
        }
        lemma_bal_update(dl, i, nk, v);
        assert(s2.last() == s.last());
        assert(s[i].0@ != s[s.len() - 1].0@);
        assert(bal_get(s2, nk@) == bal_get(dl2, nk@));
        assert(bal_present(s2, nk@) == bal_present(dl2, nk@));
        assert forall|d: Seq<char>| d != nk@ implies bal_get(s2, d) == bal_get(s, d)
            && bal_present(s2, d) == bal_present(s, d) by {
            if s.last().0@ != d {
                assert(bal_get(s2, d) == bal_get(dl2, d));
                assert(bal_get(s, d) == bal_get(dl, d));
                assert(bal_present(s2, d) == bal_present(dl2, d));
                assert(bal_present(s, d) == bal_present(dl, d));
            }
        }
    }
}

proof fn lemma_bal_push(pre: Seq<(String, u128)>, post: Seq<(String, u128)>)
    requires
        post.len() == pre.len() + 1,
        post.drop_last() == pre,
        !bal_present(pre, post.last().0@),
        forall|a: int, b: int|
            0 <= a < b < pre.len() ==> (#[trigger] pre[a]).0@ != (#[trigger] pre[b]).0@,
    ensures
        bal_get(post, post.last().0@) == post.last().1,
        bal_present(post, post.last().0@),
        forall|d: Seq<char>|
            d != post.last().0@ ==> bal_get(post, d) == bal_get(pre, d) && bal_present(post, d)
                == bal_present(pre, d),
        forall|a: int, b: int|
            0 <= a < b < post.len() ==> (#[trigger] post[a]).0@ != (#[trigger] post[b]).0@,
{
    lemma_bal_no_dup(pre, post.last().0@);
    assert forall|a: int, b: int| 0 <= a < b < post.len() implies (#[trigger] post[a]).0@ != (
    #[trigger] post[b]).0@ by {
        if b < post.len() - 1 {
            assert(pre[a] == post[a]);
            assert(pre[b] == post[b]);
        } else {
            assert(pre[a] == post[a]);
        }
    }
}

proof fn lemma_bal_no_dup(s: Seq<(String, u128)>, d: Seq<char>)
    requires
        !bal_present(s, d),
    ensures
        forall|j: int| 0 <= j < s.len() ==> (#[trigger] s[j]).0@ != d,
    decreases s.len(),
{
    if s.len() > 0 {
        lemma_bal_no_dup(s.drop_last(), d);
        assert forall|j: int| 0 <= j < s.len() implies (#[trigger] s[j]).0@ != d by {
            if j < s.len() - 1 {
                assert(s.drop_last()[j] == s[j]);
            }
        }
    }
}

proof fn lemma_bal_remove(s: Seq<(String, u128)>, i: int)
    requires
        0 <= i < s.len(),
        forall|a: int, b: int| 0 <= a < b < s.len() ==> (#[trigger] s[a]).0@ != (#[trigger] s[b]).0@,
    ensures
        ({
            let s2 = s.remove(i);
            &&& bal_get(s2, s[i].0@) == 0
            &&& !bal_present(s2, s[i].0@)
            &&& forall|d: Seq<char>|
                d != s[i].0@ ==> bal_get(s2, d) == bal_get(s, d) && bal_present(s2, d)
                    == bal_present(s, d)
            &&& forall|a: int, b: int|
                0 <= a < b < s2.len() ==> (#[trigger] s2[a]).0@ != (#[trigger] s2[b]).0@
        }),
    decreases s.len(),
{
    let s2 = s.remove(i);
    assert forall|a: int, b: int| 0 <= a < b < s2.len() implies (#[trigger] s2[a]).0@ != (
    #[trigger] s2[b]).0@ by {
        let a0 = if a < i {
            a
        } else {
            a + 1
        };
        let b0 = if b < i {
            b
        } else {
            b + 1
        };
        assert(s2[a] == s[a0]);
        assert(s2[b] == s[b0]);
        assert(s[a0].0@ != s[b0].0@);
    }
    if i == s.len() - 1 {
        assert(s2 =~= s.drop_last());
        assert forall|j: int| 0 <= j < s2.len() implies (#[trigger] s2[j]).0@ != s[i].0@ by {
            assert(s2[j] == s[j]);
        }
        lemma_bal_absent_all(s2, s[i].0@);
        assert forall|d: Seq<char>| d != s[i].0@ implies bal_get(s2, d) == bal_get(s, d)
            && bal_present(s2, d) == bal_present(s, d) by {
            assert(s.last().0@ == s[i].0@);
        }
    } else {
        let dl = s.drop_last();
        let dl2 = s2.drop_last();
        assert(dl2 =~= dl.remove(i));
        assert(dl[i] == s[i]);
        assert forall|a: int, b: int| 0 <= a < b < dl.len() implies (#[trigger] dl[a]).0@ != (
        #[trigger] dl[b]).0@ by {
            assert(dl[a] == s[a]);
            assert(dl[b] == s[b]);
        }
        lemma_bal_remove(dl, i);
        assert(s2.last() == s.last());
        assert(s[i].0@ != s[s.len() - 1].0@);
        assert(bal_get(s2, s[i].0@) == bal_get(dl2, s[i].0@));
        assert(bal_present(s2, s[i].0@) == bal_present(dl2, s[i].0@));
        assert forall|d: Seq<char>| d != s[i].0@ implies bal_get(s2, d) == bal_get(s, d)
            && bal_present(s2, d) == bal_present(s, d) by {
            if s.last().0@ != d {
                assert(bal_get(s2, d) == bal_get(dl2, d));
                assert(bal_get(s, d) == bal_get(dl, d));
                assert(bal_present(s2, d) == bal_present(dl2, d));
                assert(bal_present(s, d) == bal_present(dl, d));
            }
        }
    }
}

} // verus!
