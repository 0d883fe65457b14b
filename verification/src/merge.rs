//! Merging ranked lanes: one step of an N-way ordered merge.
//!
//! Each lane is a rank-ascending queue. One merge step finds the minimal
//! rank among the lanes' heads and takes, from every lane whose head
//! carries exactly that rank, that head — so items of equal rank arrive
//! together, in lane order, and each lane advances past what it
//! contributed.

use vstd::prelude::*;

verus! {

/// Whether a group of lanes has nothing left to merge.
pub open spec fn all_lanes_empty<T>(lanes: Seq<Vec<(u64, T)>>) -> bool {
    forall|i: int| 0 <= i < lanes.len() ==> (#[trigger] lanes[i])@.len() == 0
}

/// Whether `m` is the minimal rank among the lanes' heads: some head
/// carries it, and no head is ranked below it.
pub open spec fn minimal_head_rank<T>(lanes: Seq<Vec<(u64, T)>>, m: u64) -> bool {
    &&& exists|i: int| 0 <= i < lanes.len() && (#[trigger] lanes[i])@.len() > 0 && lanes[i]@[0].0 == m
    &&& forall|i: int|
        0 <= i < lanes.len() && (#[trigger] lanes[i])@.len() > 0 ==> lanes[i]@[0].0 >= m
}

/// The heads ranked `m`, in lane order.
pub open spec fn heads_at<T>(lanes: Seq<Vec<(u64, T)>>, m: u64) -> Seq<(u64, T)>
    decreases lanes.len(),
{
    if lanes.len() == 0 {
        Seq::<(u64, T)>::empty()
    } else {
        heads_at(lanes.drop_last(), m) + (if lanes.last()@.len() > 0 && lanes.last()@[0].0 == m {
            seq![lanes.last()@[0]]
        } else {
            Seq::<(u64, T)>::empty()
        })
    }
}

/// Whether `post` is `pre` with every head ranked `m` removed and every
/// other lane untouched.
pub open spec fn lanes_advanced<T>(
    pre: Seq<Vec<(u64, T)>>,
    post: Seq<Vec<(u64, T)>>,
    m: u64,
) -> bool {
    &&& post.len() == pre.len()
    &&& forall|i: int|
        0 <= i < pre.len() ==> (#[trigger] post[i])@ == (if pre[i]@.len() > 0 && pre[i]@[0].0 == m {
            pre[i]@.skip(1)
        } else {
            pre[i]@
        })
}

/// Takes one merged group from the lanes: nothing when every lane is
/// empty; otherwise, for the minimal rank among the heads, exactly the
/// heads carrying it, each removed from its lane, every other lane left
/// as it stands.
pub fn merge_next<T>(lanes: &mut Vec<Vec<(u64, T)>>) -> (r: Option<Vec<(u64, T)>>)
    ensures
        r is None <==> all_lanes_empty(old(lanes)@),
        r is None ==> *final(lanes) == *old(lanes),
        r matches Some(group) ==> exists|m: u64|
            {
                &&& #[trigger] minimal_head_rank(old(lanes)@, m)
                &&& group@ == heads_at(old(lanes)@, m)
                &&& group@.len() > 0
                &&& lanes_advanced(old(lanes)@, final(lanes)@, m)
            },
{
    let ghost lanes0 = lanes@;
    let n = lanes.len();
    let mut best: Option<u64> = None;
    let mut i: usize = 0;
    while i < n
        invariant
            n == lanes@.len(),
            lanes@ == lanes0,
            0 <= i <= n,
            best is None ==> forall|j: int| 0 <= j < i ==> (#[trigger] lanes0[j])@.len() == 0,
            best matches Some(b) ==> (exists|j: int|
                0 <= j < i && (#[trigger] lanes0[j])@.len() > 0 && lanes0[j]@[0].0 == b) && (forall|
                j: int,
            | 0 <= j < i && (#[trigger] lanes0[j])@.len() > 0 ==> lanes0[j]@[0].0 >= b),
        decreases n - i,
    {
        if lanes[i].len() > 0 {
            let rk = lanes[i][0].0;
            match best {
                None => {
                    best = Some(rk);
                },
                Some(b) => {
                    if rk < b {
                        best = Some(rk);
                    }
                },
            }
        }
        i = i + 1;
    }
    let m = match best {
        None => {
            return None;
        },
        Some(b) => b,
    };
    let mut group: Vec<(u64, T)> = Vec::new();
    let mut rest: Vec<Vec<(u64, T)>> = Vec::new();
    let mut k: usize = 0;
    proof {
        assert(heads_at(lanes0.take(0), m) =~= Seq::<(u64, T)>::empty());
    }
    while k < n
        invariant
            n == lanes@.len() + rest@.len(),
            lanes@ == lanes0.skip(k as int),
            0 <= k <= n,
            n == lanes0.len(),
            rest@.len() == k,
            group@ == heads_at(lanes0.take(k as int), m),
            forall|j: int|
                0 <= j < k ==> (#[trigger] rest@[j])@ == (if lanes0[j]@.len() > 0 && lanes0[j]@[0].0
                    == m {
                    lanes0[j]@.skip(1)
                } else {
                    lanes0[j]@
                }),
        decreases n - k,
    {
        let ghost pre = lanes@;
        let mut lane = lanes.remove(0);
        proof {
            assert(pre.remove(0) =~= pre.skip(1));
            assert(pre.skip(1) =~= lanes0.skip(k + 1)) by {
                assert forall|x: int| 0 <= x < pre.skip(1).len() implies pre.skip(1)[x]
                    == lanes0.skip(k + 1)[x] by {
                    assert(pre.skip(1)[x] == pre[1 + x]);
                    assert(pre[1 + x] == lanes0.skip(k as int)[1 + x]);
                    assert(lanes0.skip(k as int)[1 + x] == lanes0[k + 1 + x]);
                    assert(lanes0.skip(k + 1)[x] == lanes0[k + 1 + x]);
                }
                assert(pre.skip(1).len() == lanes0.skip(k + 1).len());
            }
            assert(lane == lanes0.skip(k as int)[0]);
            assert(lanes0.skip(k as int)[0] == lanes0[k as int]);
            assert(heads_at(lanes0.take(k + 1), m) == heads_at(lanes0.take(k as int), m) + (
            if lanes0[k as int]@.len() > 0 && lanes0[k as int]@[0].0 == m {
                seq![lanes0[k as int]@[0]]
            } else {
                Seq::<(u64, T)>::empty()
            })) by {
                assert(lanes0.take(k + 1).drop_last() =~= lanes0.take(k as int));
                assert(lanes0.take(k + 1).last() == lanes0[k as int]);
            }
        }
        let ghost gpre = group@;
        if lane.len() > 0 && lane[0].0 == m {
            let head = lane.remove(0);
            proof {
                assert(head == lanes0[k as int]@[0]);
                assert(lane@ =~= lanes0[k as int]@.skip(1)) by {
                    assert(lane@ == lanes0[k as int]@.remove(0));
                    assert(lanes0[k as int]@.remove(0) =~= lanes0[k as int]@.skip(1));
                }
            }
            group.push(head);
            proof {
                assert(group@.drop_last() =~= gpre);
                assert(group@ =~= gpre + seq![lanes0[k as int]@[0]]);
            }
        } else {
            proof {
                assert(gpre + Seq::<(u64, T)>::empty() =~= gpre);
            }
        }
        let ghost rpre = rest@;
        rest.push(lane);
        proof {
            assert(rest@.drop_last() =~= rpre);
            assert forall|j: int|
                0 <= j < k + 1 implies (#[trigger] rest@[j])@ == (if lanes0[j]@.len() > 0
                    && lanes0[j]@[0].0 == m {
                    lanes0[j]@.skip(1)
                } else {
                    lanes0[j]@
                }) by {
                if j < k {
                    assert(rest@[j] == rpre[j]);
                }
            }
        }
        k = k + 1;
    }
    core::mem::swap(lanes, &mut rest);
    proof {
        assert(lanes0.take(n as int) =~= lanes0);
        assert(group@.len() > 0) by {
            let j = choose|j: int|
                0 <= j < lanes0.len() && (#[trigger] lanes0[j])@.len() > 0 && lanes0[j]@[0].0 == m;
            lemma_heads_at_nonempty(lanes0, m, j);
        }
        assert(minimal_head_rank(lanes0, m));
    }
    Some(group)
}

/// A lane whose head carries the rank contributes to the group.
proof fn lemma_heads_at_nonempty<T>(lanes: Seq<Vec<(u64, T)>>, m: u64, j: int)
    requires
        0 <= j < lanes.len(),
        lanes[j]@.len() > 0,
        lanes[j]@[0].0 == m,
    ensures
        heads_at(lanes, m).len() > 0,
    decreases lanes.len(),
{
    if j < lanes.len() - 1 {
        assert(lanes.drop_last()[j] == lanes[j]);
        lemma_heads_at_nonempty(lanes.drop_last(), m, j);
    }
}

} // verus!
