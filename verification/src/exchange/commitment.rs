//! The deferred cross-party settlement aggregator.
//!
//! A commitment records, per destination, the offer and counter amounts
//! that must be forwarded as one outbound instruction when a walk commits.
//! Merging two commitments sums the pair recorded against each destination,
//! so many tiers forwarding to one counterparty collapse into one entry.

use vstd::prelude::*;

use super::error::SwapError;

verus! {

/// An additive mapping from destination identity to accumulated
/// `(offer, counter)` amounts.
#[derive(Debug)]
pub struct Commitment {
    pub quotes: Vec<(String, (u128, u128))>,
}

/// The pair recorded for a destination, searched from the back so the most
/// recently written entry wins; entries are unique, so any entry wins.
pub open spec fn lookup(s: Seq<(String, (u128, u128))>, k: Seq<char>) -> Option<(int, int)>
    decreases s.len(),
{
    if s.len() == 0 {
        None
    } else if s.last().0@ == k {
        Some((s.last().1.0 as int, s.last().1.1 as int))
    } else {
        lookup(s.drop_last(), k)
    }
}

/// Pointwise sum of two per-destination records.
pub open spec fn combined(a: Option<(int, int)>, b: Option<(int, int)>) -> Option<(int, int)> {
    match (a, b) {
        (None, None) => None,
        (Some(x), None) => Some(x),
        (None, Some(y)) => Some(y),
        (Some(x), Some(y)) => Some((x.0 + y.0, x.1 + y.1)),
    }
}

/// Whether every per-destination sum of two commitments stays
/// representable.
pub open spec fn merge_fits(a: Commitment, b: Commitment) -> bool {
    forall|k: Seq<char>|
        match (#[trigger] a.get(k), b.get(k)) {
            (Some(x), Some(y)) => x.0 + y.0 <= u128::MAX && x.1 + y.1 <= u128::MAX,
            _ => true,
        }
}

/// Pointwise addition is symmetric in its arguments.
pub proof fn lemma_combined_symmetric(a: Option<(int, int)>, b: Option<(int, int)>)
    ensures
        combined(a, b) == combined(b, a),
{
}

/// Merging the empty commitment always succeeds and changes nothing: the
/// empty commitment is the identity of the aggregation.
pub proof fn lemma_merge_empty_identity(a: Commitment, b: Commitment)
    requires
        forall|k: Seq<char>| b.get(k) is None,
    ensures
        merge_fits(a, b),
        forall|k: Seq<char>| #[trigger] combined(a.get(k), b.get(k)) == a.get(k),
{
}

impl Commitment {
    /// What this commitment records for each destination.
    pub open spec fn get(self, k: Seq<char>) -> Option<(int, int)> {
        lookup(self.quotes@, k)
    }

    pub open spec fn wf(self) -> bool {
        forall|i: int, j: int|
            0 <= i < j < self.quotes@.len() ==> (#[trigger] self.quotes@[i]).0@ != (
            #[trigger] self.quotes@[j]).0@
    }

    /// A commitment with no obligations recorded.
    pub fn empty() -> (r: Commitment)
        ensures
            r.wf(),
            forall|k: Seq<char>| r.get(k) is None,
    {
        Commitment { quotes: Vec::new() }
    }

    /// A commitment holding one quote against one destination.
    pub fn new(contract: &String, quote: (u128, u128)) -> (r: Commitment)
        ensures
            r.wf(),
            r.get(contract@) == Some((quote.0 as int, quote.1 as int)),
            forall|k: Seq<char>| k != contract@ ==> r.get(k) is None,
    {
        let mut quotes: Vec<(String, (u128, u128))> = Vec::new();
        quotes.push((contract.clone(), quote));
        proof {
            assert(quotes@.last().0@ == contract@);
            assert forall|k: Seq<char>| k != contract@ implies lookup(quotes@, k) is None by {
                assert(quotes@.drop_last().len() == 0);
                assert(lookup(quotes@.drop_last(), k) is None);
            }
        }
        Commitment { quotes }
    }

    /// The recorded destinations and amounts, for the caller to realize.
    pub fn entries(&self) -> (r: &Vec<(String, (u128, u128))>)
        ensures
            r == &self.quotes,
    {
        &self.quotes
    }

    /// Folds another commitment in, summing the amounts recorded against
    /// each shared destination. Succeeds exactly when every such sum stays
    /// representable; fails with the arithmetic error otherwise, leaving
    /// this commitment unspecified but well-formed.
    pub fn merge(&mut self, other: Commitment) -> (r: Result<(), SwapError>)
        requires
            old(self).wf(),
            other.wf(),
        ensures
            final(self).wf(),
            r is Ok <==> merge_fits(*old(self), other),
            r is Ok ==> forall|k: Seq<char>|
                #[trigger] final(self).get(k) == combined(old(self).get(k), other.get(k)),
            r is Err ==> r == Result::<(), SwapError>::Err(SwapError::Overflow),
    {
        let n = other.quotes.len();
        let mut idx: usize = 0;
        while idx < n
            invariant
                n == other.quotes@.len(),
                0 <= idx <= n,
                self.wf(),
                other.wf(),
                forall|k: Seq<char>| #[trigger]
                    self.get(k) == combined(old(self).get(k), lookup(other.quotes@.take(idx as int), k)),
            decreases n - idx,
        {
            let (key, (a, b)) = &other.quotes[idx];
            let ghost pre = *self;
            proof {
                lemma_lookup_unique(other.quotes@, idx as int, key@);
                lemma_lookup_found(other.quotes@, idx as int, key@);
            }
            match self.position_of(key) {
                Some(i) => {
                    let (cur_a, cur_b) = self.quotes[i].1;
                    let new_a = match cur_a.checked_add(*a) {
                        Some(v) => v,
                        None => {
                            proof {
                                assert(old(self).get(key@) == Some((cur_a as int, cur_b as int)));
                                assert(!merge_fits(*old(self), other));
                            }
                            return Err(SwapError::Overflow);
                        },
                    };
                    let new_b = match cur_b.checked_add(*b) {
                        Some(v) => v,
                        None => {
                            proof {
                                assert(old(self).get(key@) == Some((cur_a as int, cur_b as int)));
                                assert(!merge_fits(*old(self), other));
                            }
                            return Err(SwapError::Overflow);
                        },
                    };
                    let k2 = key.clone();
                    proof {
                        lemma_lookup_update(pre.quotes@, i as int, k2, (new_a, new_b));
                    }
                    self.quotes.set(i, (k2, (new_a, new_b)));
                    proof {
                        let taken = other.quotes@.take(idx + 1);
                        assert(taken.last() == other.quotes@[idx as int]);
                        assert(taken.drop_last() =~= other.quotes@.take(idx as int));
                        lemma_lookup_unique(other.quotes@, idx as int, key@);
                        assert(lookup(taken, key@) == Some((*a as int, *b as int)));
                        assert(pre.get(key@) == combined(
                            old(self).get(key@),
                            lookup(other.quotes@.take(idx as int), key@),
                        ));
                        assert(old(self).get(key@) == Some((cur_a as int, cur_b as int)));
                        assert forall|k: Seq<char>| #[trigger] self.get(k) == combined(
                            old(self).get(k),
                            lookup(taken, k),
                        ) by {
                            if k == key@ {
                                assert(self.get(k) == Some((new_a as int, new_b as int)));
                            } else {
                                assert(taken.last().0@ == key@);
                                assert(lookup(taken, k) == lookup(
                                    other.quotes@.take(idx as int),
                                    k,
                                ));
                                assert(self.get(k) == pre.get(k));
                            }
                        }
                    }
                },
                None => {
                    let k2 = key.clone();
                    self.quotes.push((k2, (*a, *b)));
                    proof {
                        lemma_lookup_no_dup(pre.quotes@, key@);
                        assert(self.quotes@.drop_last() =~= pre.quotes@);
                        assert forall|x: int, y: int| 0 <= x < y < self.quotes@.len() implies (
                        #[trigger] self.quotes@[x]).0@ != (#[trigger] self.quotes@[y]).0@ by {
                            if y < self.quotes@.len() - 1 {
                                assert(pre.quotes@[x] == self.quotes@[x]);
                                assert(pre.quotes@[y] == self.quotes@[y]);
                            } else {
                                assert(pre.quotes@[x] == self.quotes@[x]);
                            }
                        }
                        assert forall|k: Seq<char>| k != key@ implies #[trigger] self.get(k)
                            == pre.get(k) by {
                            assert(self.quotes@.last().0@ == key@);
                        }
                        let taken = other.quotes@.take(idx + 1);
                        assert(taken.last() == other.quotes@[idx as int]);
                        assert(taken.drop_last() =~= other.quotes@.take(idx as int));
                        lemma_lookup_unique(other.quotes@, idx as int, key@);
                        assert(lookup(taken, key@) == Some((*a as int, *b as int)));
                        assert(pre.get(key@) == combined(
                            old(self).get(key@),
                            lookup(other.quotes@.take(idx as int), key@),
                        ));
                        assert(old(self).get(key@) is None);
                        assert(self.get(key@) == Some((*a as int, *b as int)));
                        assert forall|k: Seq<char>| #[trigger] self.get(k) == combined(
                            old(self).get(k),
                            lookup(taken, k),
                        ) by {
                            if k != key@ {
                                assert(taken.last().0@ == key@);
                                assert(lookup(taken, k) == lookup(
                                    other.quotes@.take(idx as int),
                                    k,
                                ));
                                assert(self.get(k) == pre.get(k));
                            }
                        }
                    }
                },
            }
            idx = idx + 1;
        }
        proof {
            assert(other.quotes@.take(n as int) =~= other.quotes@);
            assert forall|k: Seq<char>|
                match (#[trigger] old(self).get(k), other.get(k)) {
                    (Some(x), Some(y)) => x.0 + y.0 <= u128::MAX && x.1 + y.1 <= u128::MAX,
                    _ => true,
                } by {
                assert(self.get(k) == combined(
                    old(self).get(k),
                    lookup(other.quotes@.take(n as int), k),
                ));
                lemma_lookup_bounds(self.quotes@, k);
            }
        }
        Ok(())
    }

    /// The index at which a destination is recorded, if it is.
    fn position_of(&self, key: &String) -> (r: Option<usize>)
        requires
            self.wf(),
        ensures
            r matches Some(i) ==> i < self.quotes@.len() && self.quotes@[i as int].0@ == key@
                && self.get(key@) == Some(
                (self.quotes@[i as int].1.0 as int, self.quotes@[i as int].1.1 as int),
            ),
            r is None ==> self.get(key@) is None,
    {
        let n = self.quotes.len();
        let mut i: usize = 0;
        while i < n
            invariant
                n == self.quotes@.len(),
                0 <= i <= n,
                self.wf(),
                forall|j: int| 0 <= j < i ==> (#[trigger] self.quotes@[j]).0@ != key@,
            decreases n - i,
        {
            if self.quotes[i].0 == *key {
                proof {
                    lemma_lookup_found(self.quotes@, i as int, key@);
                }
                return Some(i);
            }
            i = i + 1;
        }
        proof {
            lemma_lookup_absent(self.quotes@, key@);
        }
        None
    }
}

/// Whatever a commitment records stays within the representable range.
pub proof fn lemma_commitment_bounds(c: Commitment, k: Seq<char>)
    ensures
        match c.get(k) {
            Some(v) => 0 <= v.0 <= u128::MAX && 0 <= v.1 <= u128::MAX,
            None => true,
        },
{
    lemma_lookup_bounds(c.quotes@, k);
}

/// Whatever a commitment records stays within the representable range.
proof fn lemma_lookup_bounds(s: Seq<(String, (u128, u128))>, k: Seq<char>)
    ensures
        match lookup(s, k) {
            Some(v) => 0 <= v.0 <= u128::MAX && 0 <= v.1 <= u128::MAX,
            None => true,
        },
    decreases s.len(),
{
    if s.len() > 0 && s.last().0@ != k {
        lemma_lookup_bounds(s.drop_last(), k);
    }
}

/// A sequence with unique keys looks up to the entry any index holds.
proof fn lemma_lookup_found(s: Seq<(String, (u128, u128))>, i: int, k: Seq<char>)
    requires
        0 <= i < s.len(),
        s[i].0@ == k,
        forall|a: int, b: int| 0 <= a < b < s.len() ==> (#[trigger] s[a]).0@ != (#[trigger] s[b]).0@,
    ensures
        lookup(s, k) == Some((s[i].1.0 as int, s[i].1.1 as int)),
    decreases s.len(),
{
    if i == s.len() - 1 {
    } else {
        assert(s.drop_last()[i] == s[i]);
        lemma_lookup_found(s.drop_last(), i, k);
    }
}

/// A key that looks up to nothing is held by no entry.
proof fn lemma_lookup_no_dup(s: Seq<(String, (u128, u128))>, k: Seq<char>)
    requires
        lookup(s, k) is None,
    ensures
        forall|j: int| 0 <= j < s.len() ==> (#[trigger] s[j]).0@ != k,
    decreases s.len(),
{
    if s.len() > 0 {
        lemma_lookup_no_dup(s.drop_last(), k);
        assert forall|j: int| 0 <= j < s.len() implies (#[trigger] s[j]).0@ != k by {
            if j < s.len() - 1 {
                assert(s.drop_last()[j] == s[j]);
            }
        }
    }
}

/// A key no entry holds looks up to nothing.
proof fn lemma_lookup_absent(s: Seq<(String, (u128, u128))>, k: Seq<char>)
    requires
        forall|j: int| 0 <= j < s.len() ==> (#[trigger] s[j]).0@ != k,
    ensures
        lookup(s, k) is None,
    decreases s.len(),
{
    if s.len() > 0 {
        lemma_lookup_absent(s.drop_last(), k);
    }
}

/// Overwriting the entry at a key's index moves only that key's record.
proof fn lemma_lookup_update(s: Seq<(String, (u128, u128))>, i: int, nk: String, v: (u128, u128))
    requires
        0 <= i < s.len(),
        s[i].0@ == nk@,
        forall|a: int, b: int| 0 <= a < b < s.len() ==> (#[trigger] s[a]).0@ != (#[trigger] s[b]).0@,
    ensures
        ({
            let s2 = s.update(i, (nk, v));
            &&& lookup(s2, nk@) == Some((v.0 as int, v.1 as int))
            &&& forall|k2: Seq<char>| k2 != nk@ ==> lookup(s2, k2) == lookup(s, k2)
            &&& forall|a: int, b: int|
                0 <= a < b < s2.len() ==> (#[trigger] s2[a]).0@ != (#[trigger] s2[b]).0@
        }),
    decreases s.len(),
{
    let s2 = s.update(i, (nk, v));
    assert forall|a: int, b: int| 0 <= a < b < s2.len() implies (#[trigger] s2[a]).0@ != (
    #[trigger] s2[b]).0@ by {
        assert(s[a].0@ != s[b].0@);
    }
    if i == s.len() - 1 {
        assert(s2.last() == (nk, v));
        assert(s2.drop_last() =~= s.drop_last());
        assert(lookup(s2, nk@) == Some((v.0 as int, v.1 as int)));
        assert forall|k2: Seq<char>| k2 != nk@ implies lookup(s2, k2) == lookup(s, k2) by {
            assert(s.last().0@ == nk@);
        }
    } else {
        let dl = s.drop_last();
        let dl2 = s2.drop_last();
        assert(dl2 =~= dl.update(i, (nk, v)));
        assert(dl[i] == s[i]);
        assert forall|a: int, b: int| 0 <= a < b < dl.len() implies (#[trigger] dl[a]).0@ != (
        #[trigger] dl[b]).0@ by {
            assert(dl[a] == s[a]);
            assert(dl[b] == s[b]);
        }
        lemma_lookup_update(dl, i, nk, v);
        assert(s2.last() == s.last());
        assert(s[i].0@ != s[s.len() - 1].0@);
        assert(lookup(s2, nk@) == lookup(dl2, nk@));
        assert forall|k2: Seq<char>| k2 != nk@ implies lookup(s2, k2) == lookup(s, k2) by {
            if s.last().0@ != k2 {
                assert(lookup(s2, k2) == lookup(dl2, k2));
                assert(lookup(s, k2) == lookup(dl, k2));
            }
        }
    }
}

/// In a unique-keyed sequence, extending a prefix by its next entry sets
/// exactly that entry's key.
proof fn lemma_lookup_unique(s: Seq<(String, (u128, u128))>, i: int, k: Seq<char>)
    requires
        0 <= i < s.len(),
        s[i].0@ == k,
        forall|a: int, b: int| 0 <= a < b < s.len() ==> (#[trigger] s[a]).0@ != (#[trigger] s[b]).0@,
    ensures
        lookup(s.take(i), k) is None,
{
    assert forall|j: int| 0 <= j < s.take(i).len() implies (#[trigger] s.take(i)[j]).0@ != k by {
        assert(s.take(i)[j] == s[j]);
    }
    lemma_lookup_absent(s.take(i), k);
}

} // verus!
