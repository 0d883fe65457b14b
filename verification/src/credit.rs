//! Liquidation-order preferences: "do not spend X while Y is still held".
//!
//! An account holder records constraints of the form *liquidating the key
//! denom is invalid while the value denom is still owned*. Chains of such
//! constraints must terminate, so every insertion checks that no cycle
//! was created; a spend is validated by walking the chain from the spent
//! denom and rejecting it if any denom along it is still held.

use vstd::prelude::*;

use crate::balance::{Balance, Coin};

verus! {

/// The constraint recorded for a denom, if any.
pub open spec fn pref_of(s: Seq<(String, String)>, k: Seq<char>) -> Option<Seq<char>>
    decreases s.len(),
{
    if s.len() == 0 {
        None
    } else if s.last().0@ == k {
        Some(s.last().1@)
    } else {
        pref_of(s.drop_last(), k)
    }
}

/// Whether following constraints from `from` hits `target` within `fuel`
/// steps.
pub open spec fn reaches(s: Seq<(String, String)>, from: Seq<char>, target: Seq<char>, fuel: nat) -> bool
    decreases fuel,
{
    if from == target {
        true
    } else if fuel == 0 {
        false
    } else {
        match pref_of(s, from) {
            Some(next) => reaches(s, next, target, (fuel - 1) as nat),
            None => false,
        }
    }
}

/// The chain of denoms that must be absent before `key` may be spent,
/// deepest first, within `fuel` steps.
pub open spec fn chain_deps(s: Seq<(String, String)>, key: Seq<char>, fuel: nat) -> Seq<Seq<char>>
    decreases fuel,
{
    if fuel == 0 {
        Seq::<Seq<char>>::empty()
    } else {
        match pref_of(s, key) {
            Some(next) => chain_deps(s, next, (fuel - 1) as nat).push(next),
            None => Seq::<Seq<char>>::empty(),
        }
    }
}

#[derive(Debug)]
pub enum LiquidationPreferenceOrderError {
    Invalid { coin: Coin, before: String },
    Circular(String),
    LimitReached(u8),
}

/// The recorded constraints: key denom may not be liquidated while value
/// denom is held. Bounded in size; cycles are rejected on insertion.
#[derive(Debug)]
pub struct LiquidationPreferenceOrder {
    pub map: Vec<(String, String)>,
    pub limit: u8,
}

impl LiquidationPreferenceOrder {
    pub open spec fn get(self, k: Seq<char>) -> Option<Seq<char>> {
        pref_of(self.map@, k)
    }

    pub open spec fn wf(self) -> bool {
        forall|i: int, j: int|
            0 <= i < j < self.map@.len() ==> (#[trigger] self.map@[i]).0@ != (
            #[trigger] self.map@[j]).0@
    }

    pub open spec fn len_spec(self) -> int {
        self.map@.len() as int
    }

    pub open spec fn limit_spec(self) -> int {
        self.limit as int
    }

    /// An empty preference set with the standard bound.
    pub fn new() -> (r: LiquidationPreferenceOrder)
        ensures
            r.wf(),
            r.len_spec() == 0,
            r.limit_spec() == 100,
            forall|k: Seq<char>| r.get(k) is None,
    {
        LiquidationPreferenceOrder { map: Vec::new(), limit: 100 }
    }

    /// Records that `key` may not be liquidated while `value` is held.
    /// Fails when the bound is reached, or when the new constraint lets a
    /// chain starting from `value` run back to some recorded denom; the
    /// cycle check runs over the already-updated map. Returns what `key`
    /// mapped to before.
    pub fn insert(&mut self, key: &String, value: &String) -> (r: Result<
        Option<String>,
        LiquidationPreferenceOrderError,
    >)
        requires
            old(self).wf(),
            old(self).len_spec() < usize::MAX - 1,
        ensures
            final(self).wf(),
            final(self).limit_spec() == old(self).limit_spec(),
            old(self).len_spec() >= old(self).limit_spec() ==> r is Err && (r matches Err(e)
                ==> e == (LiquidationPreferenceOrderError::LimitReached(old(self).limit)))
                && *final(self) == *old(self),
            old(self).len_spec() < old(self).limit_spec() ==> {
                &&& final(self).get(key@) == Some(value@)
                &&& (forall|k: Seq<char>| k != key@ ==> final(self).get(k) == old(self).get(k))
                &&& (r is Ok <==> (forall|i: int|
                    0 <= i < final(self).map@.len() ==> !reaches(
                        final(self).map@,
                        value@,
                        (#[trigger] final(self).map@[i]).0@,
                        (final(self).map@.len() + 1) as nat,
                    )))
                &&& (r matches Ok(v) ==> match old(self).get(key@) {
                    Some(prev) => v matches Some(p) && p@ == prev,
                    None => v is None,
                })
                &&& (r matches Err(e) ==> e is Circular)
            },
    {
        if self.map.len() >= self.limit as usize {
            return Err(LiquidationPreferenceOrderError::LimitReached(self.limit));
        }
        let vchain = value.clone();
        let res: Option<String> = match kv_position(&self.map, key) {
            Some(i) => {
                let prev = self.map[i].1.clone();
                let ghost pre = self.map@;
                let k2 = key.clone();
                let v2 = value.clone();
                proof {
                    lemma_pref_update_one(pre, i as int, k2, v2);
                }
                self.map.set(i, (k2, v2));
                Some(prev)
            },
            None => {
                let ghost pre = self.map@;
                self.map.push((key.clone(), value.clone()));
                proof {
                    lemma_pref_no_dup(pre, self.map@.last().0@);
                    assert(self.map@.drop_last() =~= pre);
                    assert forall|x: int, y: int| 0 <= x < y < self.map@.len() implies (
                    #[trigger] self.map@[x]).0@ != (#[trigger] self.map@[y]).0@ by {
                        if y < self.map@.len() - 1 {
                            assert(pre[x] == self.map@[x]);
                            assert(pre[y] == self.map@[y]);
                        } else {
                            assert(pre[x] == self.map@[x]);
                        }
                    }
                    assert forall|k: Seq<char>| k != self.map@.last().0@ implies #[trigger] pref_of(
                        self.map@,
                        k,
                    ) == pref_of(pre, k) by {
                        assert(self.map@.last().0@ != k);
                    }
                }
                None
            },
        };
        let ghost mid = *self;
        proof {
            assert(self.limit_spec() == old(self).limit_spec());
            assert(pref_of(self.map@, key@) == Some(value@));
        }
        let n = self.map.len();
        let mut i: usize = 0;
        while i < n
            invariant
                n == self.map@.len(),
                0 <= i <= n,
                *self == mid,
                mid.limit_spec() == old(self).limit_spec(),
                pref_of(mid.map@, key@) == Some(value@),
                vchain@ == value@,
                forall|k: Seq<char>| k != key@ ==> pref_of(mid.map@, k) == old(self).get(k),
                old(self).len_spec() < old(self).limit_spec(),
                (match old(self).get(key@) {
                    Some(prev) => res matches Some(p) && p@ == prev,
                    None => res is None,
                }),
                self.wf(),
                self.map@.len() < usize::MAX - 1,
                forall|j: int|
                    0 <= j < i ==> !reaches(
                        self.map@,
                        vchain@,
                        (#[trigger] self.map@[j]).0@,
                        (self.map@.len() + 1) as nat,
                    ),
            decreases n - i,
        {
            let start_key = self.map[i].0.clone();
            match self.validate_chain(&vchain, &start_key) {
                Ok(()) => {},
                Err(e) => {
                    proof {
                        assert(reaches(
                            self.map@,
                            vchain@,
                            self.map@[i as int].0@,
                            (self.map@.len() + 1) as nat,
                        ));
                    }
                    return Err(e);
                },
            }
            i = i + 1;
        }
        Ok(res)
    }

    /// Walks the chain from `key`; fails exactly when it can run to
    /// `start` within one step more than the map's size.
    pub fn validate_chain(&self, key: &String, start: &String) -> (r: Result<
        (),
        LiquidationPreferenceOrderError,
    >)
        requires
            self.wf(),
            self.len_spec() < usize::MAX - 1,
        ensures
            r is Ok <==> !reaches(self.map@, key@, start@, (self.map@.len() + 1) as nat),
            r matches Err(e) ==> e is Circular,
    {
        let mut cur: String = key.clone();
        let mut fuel: usize = self.map.len() + 1;
        loop
            invariant
                self.wf(),
                reaches(self.map@, key@, start@, (self.map@.len() + 1) as nat) == reaches(
                    self.map@,
                    cur@,
                    start@,
                    fuel as nat,
                ),
            decreases fuel,
        {
            if cur == *start {
                return Err(LiquidationPreferenceOrderError::Circular(start.clone()));
            }
            if fuel == 0 {
                return Ok(());
            }
            match kv_position(&self.map, &cur) {
                None => {
                    return Ok(());
                },
                Some(j) => {
                    cur = self.map[j].1.clone();
                    fuel = fuel - 1;
                },
            }
        }
    }

    /// The denoms that must be absent before `key` may be spent, deepest
    /// first.
    pub fn dependencies(&self, key: &String) -> (r: Vec<String>)
        requires
            self.wf(),
            self.len_spec() < usize::MAX - 1,
        ensures
            r@.len() == chain_deps(self.map@, key@, (self.map@.len() + 1) as nat).len(),
            forall|i: int|
                0 <= i < r@.len() ==> (#[trigger] r@[i])@ == chain_deps(
                    self.map@,
                    key@,
                    (self.map@.len() + 1) as nat,
                )[i],
    {
        let mut chain: Vec<String> = Vec::new();
        let mut cur: String = key.clone();
        let mut fuel: usize = self.map.len() + 1;
        let ghost full = chain_deps(self.map@, key@, (self.map@.len() + 1) as nat);
        loop
            invariant
                self.wf(),
                full == chain_deps(self.map@, key@, (self.map@.len() + 1) as nat),
                full.len() == chain_deps(self.map@, cur@, fuel as nat).len() + chain@.len(),
                forall|i: int|
                    0 <= i < chain@.len() ==> (#[trigger] chain@[i])@ == full[full.len() - 1 - i],
                chain_deps(self.map@, cur@, fuel as nat) == full.take(
                    full.len() - chain@.len(),
                ),
            ensures
                full.len() == chain@.len(),
                forall|i: int|
                    0 <= i < chain@.len() ==> (#[trigger] chain@[i])@ == full[full.len() - 1 - i],
            decreases fuel,
        {
            if fuel == 0 {
                proof {
                    assert(chain_deps(self.map@, cur@, 0) =~= Seq::<Seq<char>>::empty());
                }
                break;
            }
            match kv_position(&self.map, &cur) {
                None => {
                    proof {
                        assert(chain_deps(self.map@, cur@, fuel as nat) =~= Seq::<
                            Seq<char>,
                        >::empty());
                    }
                    break;
                },
                Some(j) => {
                    let next = self.map[j].1.clone();
                    let ghost chain_pre = chain@;
                    let ghost m0 = full.len() - chain_pre.len();
                    proof {
                        let rest = chain_deps(self.map@, cur@, fuel as nat);
                        assert(rest == chain_deps(self.map@, next@, (fuel - 1) as nat).push(next@));
                        assert(rest.drop_last() =~= chain_deps(self.map@, next@, (fuel - 1) as nat));
                        assert(full.take(m0).drop_last() =~= full.take(m0 - 1));
                        assert(rest.last() == next@);
                        assert(full.take(m0)[m0 - 1] == full[m0 - 1]);
                        assert(full[m0 - 1] == next@);
                    }
                    chain.push(next.clone());
                    proof {
                        assert(chain@.drop_last() =~= chain_pre);
                        assert(chain@.last()@ == next@);
                        assert forall|i: int| 0 <= i < chain@.len() implies (
                        #[trigger] chain@[i])@ == full[full.len() - 1 - i] by {
                            if i < chain@.len() - 1 {
                                assert(chain@[i] == chain_pre[i]);
                            }
                        }
                    }
                    cur = next;
                    fuel = fuel - 1;
                },
            }
        }
        let m = chain.len();
        let mut out: Vec<String> = Vec::new();
        let mut k: usize = 0;
        while k < m
            invariant
                m == chain@.len(),
                m == full.len(),
                0 <= k <= m,
                out@.len() == k,
                forall|i: int| 0 <= i < chain@.len() ==> (#[trigger] chain@[i])@ == full[full.len()
                    - 1 - i],
                forall|i: int| 0 <= i < k ==> (#[trigger] out@[i])@ == full[i],
            decreases m - k,
        {
            out.push(chain[m - 1 - k].clone());
            k = k + 1;
        }
        out
    }

    /// Checks a spend against the recorded order: liquidating the spent
    /// denom is invalid while any denom along its constraint chain is
    /// still held.
    pub fn validate(&self, spent: &Coin, remaining: &Balance) -> (r: Result<
        (),
        LiquidationPreferenceOrderError,
    >)
        requires
            self.wf(),
            remaining.wf(),
            self.len_spec() < usize::MAX - 1,
        ensures
            r is Ok <==> (forall|i: int|
                0 <= i < chain_deps(
                    self.map@,
                    spent.denom@,
                    (self.map@.len() + 1) as nat,
                ).len() ==> !remaining.present(
                    #[trigger] chain_deps(
                        self.map@,
                        spent.denom@,
                        (self.map@.len() + 1) as nat,
                    )[i],
                )),
            r matches Err(e) ==> e is Invalid,
    {
        let deps = self.dependencies(&spent.denom);
        let n = deps.len();
        let ghost full = chain_deps(self.map@, spent.denom@, (self.map@.len() + 1) as nat);
        let mut i: usize = 0;
        while i < n
            invariant
                n == deps@.len(),
                0 <= i <= n,
                remaining.wf(),
                full == chain_deps(self.map@, spent.denom@, (self.map@.len() + 1) as nat),
                deps@.len() == full.len(),
                forall|j: int| 0 <= j < deps@.len() ==> (#[trigger] deps@[j])@ == full[j],
                forall|j: int| 0 <= j < i ==> !remaining.present(#[trigger] full[j]),
            decreases n - i,
        {
            let dep = &deps[i];
            proof {
                crate::balance::lemma_bal_get_bound(remaining.entries@, dep@);
            }
            if remaining.has(dep, 0) {
                return Err(LiquidationPreferenceOrderError::Invalid {
                    coin: Coin { denom: spent.denom.clone(), amount: spent.amount },
                    before: dep.clone(),
                });
            }
            i = i + 1;
        }
        Ok(())
    }

    /// Removes the constraint recorded for a denom, returning what it
    /// mapped to.
    pub fn remove(&mut self, key: &String) -> (r: Option<String>)
        requires
            old(self).wf(),
        ensures
            final(self).wf(),
            final(self).limit_spec() == old(self).limit_spec(),
            final(self).get(key@) is None,
            forall|k: Seq<char>| k != key@ ==> final(self).get(k) == old(self).get(k),
            r matches Some(v) ==> old(self).get(key@) == Some(v@),
            r is None ==> old(self).get(key@) is None,
    {
        match kv_position(&self.map, key) {
            Some(i) => {
                let ghost pre = self.map@;
                let (_k, v) = self.map.remove(i);
                proof {
                    lemma_pref_remove(pre, i as int);
                }
                Some(v)
            },
            None => None,
        }
    }
}

/// The index at which a key is recorded, if it is.
fn kv_position(v: &Vec<(String, String)>, key: &String) -> (r: Option<usize>)
    requires
        forall|i: int, j: int|
            0 <= i < j < v@.len() ==> (#[trigger] v@[i]).0@ != (#[trigger] v@[j]).0@,
    ensures
        r matches Some(i) ==> i < v@.len() && v@[i as int].0@ == key@ && pref_of(v@, key@) == Some(
            v@[i as int].1@,
        ),
        r is None ==> pref_of(v@, key@) is None,
{
    let n = v.len();
    let mut i: usize = 0;
    while i < n
        invariant
            n == v@.len(),
            0 <= i <= n,
            forall|a: int, b: int|
                0 <= a < b < v@.len() ==> (#[trigger] v@[a]).0@ != (#[trigger] v@[b]).0@,
            forall|j: int| 0 <= j < i ==> (#[trigger] v@[j]).0@ != key@,
        decreases n - i,
    {
        if v[i].0 == *key {
            proof {
                lemma_pref_found(v@, i as int, key@);
            }
            return Some(i);
        }
        i = i + 1;
    }
    proof {
        lemma_pref_absent(v@, key@);
    }
    None
}

proof fn lemma_pref_found(s: Seq<(String, String)>, i: int, k: Seq<char>)
    requires
        0 <= i < s.len(),
        s[i].0@ == k,
        forall|a: int, b: int| 0 <= a < b < s.len() ==> (#[trigger] s[a]).0@ != (#[trigger] s[b]).0@,
    ensures
        pref_of(s, k) == Some(s[i].1@),
    decreases s.len(),
{
    if i < s.len() - 1 {
        assert(s.drop_last()[i] == s[i]);
        assert forall|a: int, b: int| 0 <= a < b < s.drop_last().len() implies (
        #[trigger] s.drop_last()[a]).0@ != (#[trigger] s.drop_last()[b]).0@ by {
            assert(s.drop_last()[a] == s[a]);
            assert(s.drop_last()[b] == s[b]);
        }
        assert(s[i].0@ != s[s.len() - 1].0@);
        lemma_pref_found(s.drop_last(), i, k);
    }
}

proof fn lemma_pref_absent(s: Seq<(String, String)>, k: Seq<char>)
    requires
        forall|j: int| 0 <= j < s.len() ==> (#[trigger] s[j]).0@ != k,
    ensures
        pref_of(s, k) is None,
    decreases s.len(),
{
    if s.len() > 0 {
        assert forall|j: int| 0 <= j < s.drop_last().len() implies (#[trigger] s.drop_last()[j]).0@
            != k by {
            assert(s.drop_last()[j] == s[j]);
        }
        lemma_pref_absent(s.drop_last(), k);
    }
}

proof fn lemma_pref_no_dup(s: Seq<(String, String)>, k: Seq<char>)
    requires
        pref_of(s, k) is None,
    ensures
        forall|j: int| 0 <= j < s.len() ==> (#[trigger] s[j]).0@ != k,
    decreases s.len(),
{
    if s.len() > 0 {
        lemma_pref_no_dup(s.drop_last(), k);
        assert forall|j: int| 0 <= j < s.len() implies (#[trigger] s[j]).0@ != k by {
            if j < s.len() - 1 {
                assert(s.drop_last()[j] == s[j]);
            }
        }
    }
}

proof fn lemma_pref_update_one(s: Seq<(String, String)>, i: int, nk: String, nv: String)
    requires
        0 <= i < s.len(),
        s[i].0@ == nk@,
        forall|a: int, b: int| 0 <= a < b < s.len() ==> (#[trigger] s[a]).0@ != (#[trigger] s[b]).0@,
    ensures
        ({
            let s2 = s.update(i, (nk, nv));
            &&& pref_of(s2, nk@) == Some(nv@)
            &&& forall|k2: Seq<char>| k2 != nk@ ==> pref_of(s2, k2) == pref_of(s, k2)
            &&& forall|a: int, b: int|
                0 <= a < b < s2.len() ==> (#[trigger] s2[a]).0@ != (#[trigger] s2[b]).0@
        }),
    decreases s.len(),
{
    let s2 = s.update(i, (nk, nv));
    assert forall|a: int, b: int| 0 <= a < b < s2.len() implies (#[trigger] s2[a]).0@ != (
    #[trigger] s2[b]).0@ by {
        assert(s[a].0@ != s[b].0@);
    }
    if i == s.len() - 1 {
        assert(s2.last() == (nk, nv));
        assert(s2.drop_last() =~= s.drop_last());
        assert forall|k2: Seq<char>| k2 != nk@ implies pref_of(s2, k2) == pref_of(s, k2) by {
            assert(s.last().0@ == nk@);
        }
    } else {
        let dl = s.drop_last();
        let dl2 = s2.drop_last();
        assert(dl2 =~= dl.update(i, (nk, nv)));
        assert(dl[i] == s[i]);
        assert forall|a: int, b: int| 0 <= a < b < dl.len() implies (#[trigger] dl[a]).0@ != (
        #[trigger] dl[b]).0@ by {
            assert(dl[a] == s[a]);
            assert(dl[b] == s[b]);
        }
        lemma_pref_update_one(dl, i, nk, nv);
        assert(s2.last() == s.last());
        assert(s[i].0@ != s[s.len() - 1].0@);
        assert(pref_of(s2, nk@) == pref_of(dl2, nk@));
        assert forall|k2: Seq<char>| k2 != nk@ implies pref_of(s2, k2) == pref_of(s, k2) by {
            if s.last().0@ != k2 {
                assert(pref_of(s2, k2) == pref_of(dl2, k2));
                assert(pref_of(s, k2) == pref_of(dl, k2));
            }
        }
    }
}

proof fn lemma_pref_remove(s: Seq<(String, String)>, i: int)
    requires
        0 <= i < s.len(),
        forall|a: int, b: int| 0 <= a < b < s.len() ==> (#[trigger] s[a]).0@ != (#[trigger] s[b]).0@,
    ensures
        ({
            let s2 = s.remove(i);
            &&& pref_of(s2, s[i].0@) is None
            &&& forall|k2: Seq<char>| k2 != s[i].0@ ==> pref_of(s2, k2) == pref_of(s, k2)
            &&& forall|a: int, b: int|
                0 <= a < b < s2.len() ==> (#[trigger] s2[a]).0@ != (#[trigger] s2[b]).0@
        }),
    decreases s.len(),
{
    let s2 = s.remove(i);
    assert forall|a: int, b: int| 0 <= a < b < s2.len() implies (#[trigger] s2[a]).0@ != (
    #[trigger] s2[b]).0@ by {
        let a0 = if a < i {
            a
        } else {
            a + 1
        };
        let b0 = if b < i {
            b
        } else {
            b + 1
        };
        assert(s2[a] == s[a0]);
        assert(s2[b] == s[b0]);
        assert(s[a0].0@ != s[b0].0@);
    }
    if i == s.len() - 1 {
        assert(s2 =~= s.drop_last());
        assert forall|j: int| 0 <= j < s2.len() implies (#[trigger] s2[j]).0@ != s[i].0@ by {
            assert(s2[j] == s[j]);
        }
        lemma_pref_absent(s2, s[i].0@);
        assert forall|k2: Seq<char>| k2 != s[i].0@ implies pref_of(s2, k2) == pref_of(s, k2) by {
            assert(s.last().0@ == s[i].0@);
        }
    } else {
        let dl = s.drop_last();
        let dl2 = s2.drop_last();
        assert(dl2 =~= dl.remove(i));
        assert(dl[i] == s[i]);
        assert forall|a: int, b: int| 0 <= a < b < dl.len() implies (#[trigger] dl[a]).0@ != (
        #[trigger] dl[b]).0@ by {
            assert(dl[a] == s[a]);
            assert(dl[b] == s[b]);
        }
        lemma_pref_remove(dl, i);
        assert(s2.last() == s.last());
        assert(s[i].0@ != s[s.len() - 1].0@);
        assert(pref_of(s2, s[i].0@) == pref_of(dl2, s[i].0@));
        assert forall|k2: Seq<char>| k2 != s[i].0@ implies pref_of(s2, k2) == pref_of(s, k2) by {
            if s.last().0@ != k2 {
                assert(pref_of(s2, k2) == pref_of(dl2, k2));
                assert(pref_of(s, k2) == pref_of(dl, k2));
            }
        }
    }
}

} // verus!
