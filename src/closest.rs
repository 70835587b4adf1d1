//! Choosing the closest of a set of candidate hits.
//!
//! A hit distance is the ordered key of the ray parameter at which an
//! object is first met after the lower end of the search interval.
use vstd::prelude::*;

verus! {

/// Hit distance reported for object `k`, when below `bound`.
pub open spec fn hit_below(hits: Seq<Option<u64>>, k: int, bound: u64) -> bool {
    match hits[k] {
        Some(t) => t < bound,
        None => false,
    }
}

/// Hit distance reported for object `k`, when at most `bound`.
pub open spec fn hit_at_most(hits: Seq<Option<u64>>, k: int, bound: u64) -> bool {
    match hits[k] {
        Some(t) => t <= bound,
        None => false,
    }
}

/// `r` is the closest of the hits below `t_max`, the first one on ties;
/// `None` when there is none.
pub open spec fn is_closest(hits: Seq<Option<u64>>, t_max: u64, r: Option<(usize, u64)>) -> bool {
    match r {
        None => forall|k: int| 0 <= k < hits.len() ==> !#[trigger] hit_below(hits, k, t_max),
        Some((i, t)) => {
            &&& i < hits.len()
            &&& hits[i as int] == Some(t)
            &&& t < t_max
            &&& forall|k: int| 0 <= k < hits.len() ==> !#[trigger] hit_below(hits, k, t)
            &&& forall|k: int| 0 <= k < i ==> !#[trigger] hit_at_most(hits, k, t)
        },
    }
}

/// The closest of the hits below `t_max`, scanning the list in order and
/// narrowing the bound to the closest hit so far.
pub fn closest_hit(hits: &Vec<Option<u64>>, t_max: u64) -> (r: Option<(usize, u64)>)
    ensures
        is_closest(hits@, t_max, r),
{
    let mut best: Option<(usize, u64)> = None;
    let mut k: usize = 0;
    while k < hits.len()
        invariant
            k <= hits@.len(),
            is_closest(hits@.subrange(0, k as int), t_max, best),
        decreases hits@.len() - k,
    {
        let bound = match best {
            Some((_, t)) => t,
            None => t_max,
        };
        let ghost prev = hits@.subrange(0, k as int);
        let ghost next = hits@.subrange(0, k + 1);
        assert forall|j: int| 0 <= j < k implies #[trigger] next[j] == prev[j] by {}
        assert(next[k as int] == hits@[k as int]);
        let take = match hits[k] {
            Some(t) => t < bound,
            None => false,
        };
        if take {
            let t = hits[k].unwrap();
            best = Some((k, t));
            assert forall|j: int| 0 <= j < next.len() implies !#[trigger] hit_below(next, j, t) by {
                if j < k {
                    assert(!hit_below(prev, j, bound));
                }
            }
            assert forall|j: int| 0 <= j < k implies !#[trigger] hit_at_most(next, j, t) by {
                assert(!hit_below(prev, j, bound));
            }
        } else {
            match best {
                Some((i, u)) => {
                    assert forall|j: int| 0 <= j < i implies !#[trigger] hit_at_most(next, j, u) by {
                        assert(!hit_at_most(prev, j, u));
                    }
                    assert forall|j: int| 0 <= j < next.len() implies !#[trigger] hit_below(next, j, u) by {
                        if j < k {
                            assert(!hit_below(prev, j, u));
                        }
                    }
                },
                None => {
                    assert forall|j: int| 0 <= j < next.len() implies !#[trigger] hit_below(next, j, t_max) by {
                        if j < k {
                            assert(!hit_below(prev, j, t_max));
                        }
                    }
                },
            }
        }
        k = k + 1;
    }
    assert(hits@.subrange(0, hits@.len() as int) =~= hits@);
    best
}

} // verus!
