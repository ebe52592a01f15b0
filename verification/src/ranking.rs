//! Ranking of whales by their scores.

use vstd::prelude::*;
use crate::ieee::{rank, spec_is_nan, flt_lt, order_rank, lt, F32_MAX_BITS};

verus! {

/// Index `i` comes before index `j` when its value is smaller, or when the
/// values are equal and `i` is the smaller index (a stable order).
pub open spec fn precedes(v: Seq<u32>, i: int, j: int) -> bool {
    rank(v[i]) < rank(v[j]) || (rank(v[i]) == rank(v[j]) && i < j)
}

/// `s` lists indices of `v` in strictly increasing `precedes` order.
pub open spec fn sorted_by_value(v: Seq<u32>, s: Seq<usize>) -> bool {
    forall|a: int, b: int| 0 <= a < b < s.len() ==> #[trigger] precedes(v, s[a] as int, s[b] as int)
}

/// The indices of `values` ordered by value, ties kept in index order.
///
/// The result is a permutation of `0..values.len()`.
pub fn stable_order(values: &Vec<u32>) -> (order: Vec<usize>)
    ensures
        order@.len() == values@.len(),
        forall|j: int| 0 <= j < order@.len() ==> #[trigger] order@[j] < values@.len(),
        forall|x: usize| x < values@.len() ==> order@.contains(x),
        sorted_by_value(values@, order@),
{
    let len = values.len();
    let mut order: Vec<usize> = Vec::new();
    let mut i: usize = 0;
    while i < len
        invariant
            len == values@.len(),
            i <= len,
            order@.len() == i,
            forall|j: int| 0 <= j < order@.len() ==> #[trigger] order@[j] < i,
            forall|x: usize| x < i ==> order@.contains(x),
            sorted_by_value(values@, order@),
        decreases len - i,
    {
        let key = order_rank(values[i]);
        let mut p: usize = 0;
        while p < order.len() && order_rank(values[order[p]]) <= key
            invariant
                len == values@.len(),
                i < len,
                key == rank(values@[i as int]),
                order@.len() == i,
                forall|j: int| 0 <= j < order@.len() ==> #[trigger] order@[j] < i,
                p <= order@.len(),
                forall|j: int| 0 <= j < p ==> rank(values@[#[trigger] order@[j] as int]) <= key,
            decreases order@.len() - p,
        {
            p = p + 1;
        }
        let ghost old_order = order@;
        order.insert(p, i);
        proof {
            let v = values@;
            let s = order@;
            assert(s == old_order.insert(p as int, i));
            assert forall|a: int, b: int| 0 <= a < b < s.len() implies #[trigger] precedes(
                v,
                s[a] as int,
                s[b] as int,
            ) by {
                if a < p && b < p {
                    assert(s[a] == old_order[a] && s[b] == old_order[b]);
                    assert(precedes(v, old_order[a] as int, old_order[b] as int));
                } else if a < p && b == p {
                    assert(s[a] == old_order[a]);
                    assert(rank(v[old_order[a] as int]) <= key);
                } else if a < p && b > p {
                    assert(s[a] == old_order[a] && s[b] == old_order[b - 1]);
                    assert(precedes(v, old_order[a] as int, old_order[b - 1] as int));
                } else if a == p {
                    assert(s[b] == old_order[b - 1]);
                    assert(rank(v[old_order[p as int] as int]) > key);
                    if b - 1 > p {
                        assert(precedes(v, old_order[p as int] as int, old_order[b - 1] as int));
                    }
                } else {
                    assert(s[a] == old_order[a - 1] && s[b] == old_order[b - 1]);
                    assert(precedes(v, old_order[a - 1] as int, old_order[b - 1] as int));
                }
            }
            assert forall|x: usize| x < i + 1 implies order@.contains(x) by {
                if x == i {
                    assert(s[p as int] == x);
                } else {
                    assert(old_order.contains(x));
                    let j = choose|j: int| 0 <= j < old_order.len() && old_order[j] == x;
                    if j < p {
                        assert(s[j] == x);
                    } else {
                        assert(s[j + 1] == x);
                    }
                }
            }
        }
        i = i + 1;
    }
    order
}

/// The indices of the `n` smallest values, smallest first; equal values keep
/// their index order.
///
/// Every value is compared when there are two or more, so none may be NaN then.
pub fn top_n_elements(solutions: &Vec<u32>, n: usize) -> (top: Vec<usize>)
    requires
        n < solutions@.len(),
        solutions@.len() >= 2 ==> forall|i: int|
            0 <= i < solutions@.len() ==> !spec_is_nan(#[trigger] solutions@[i]),
    ensures
        top@.len() == n,
        forall|j: int| 0 <= j < n ==> #[trigger] top@[j] < solutions@.len(),
        sorted_by_value(solutions@, top@),
        forall|x: usize|
            x < solutions@.len() && !top@.contains(x) ==> forall|j: int|
                0 <= j < n ==> precedes(solutions@, #[trigger] top@[j] as int, x as int),
{
    let mut order = stable_order(solutions);
    let ghost full = order@;
    order.truncate(n);
    proof {
        assert(order@ == full.subrange(0, n as int));
        assert forall|x: usize| x < solutions@.len() && !order@.contains(x) implies forall|j: int|
            0 <= j < n ==> precedes(solutions@, #[trigger] order@[j] as int, x as int) by {
            assert(full.contains(x));
            let q = choose|q: int| 0 <= q < full.len() && full[q] == x;
            if q < n {
                assert(order@[q] == x);
            }
            assert forall|j: int| 0 <= j < n implies precedes(
                solutions@,
                #[trigger] order@[j] as int,
                x as int,
            ) by {
                assert(order@[j] == full[j]);
                assert(precedes(solutions@, full[j] as int, full[q] as int));
            }
        }
    }
    order
}

/// The best whale among the first `n` scores: the running minimum starting
/// from `f32::MAX`, replaced only by a strictly smaller score.
pub open spec fn best_among(scores: Seq<u32>, n: nat) -> (int, u32)
    decreases n,
{
    if n == 0 {
        (0, F32_MAX_BITS)
    } else {
        let prev = best_among(scores, (n - 1) as nat);
        if flt_lt(scores[n - 1], prev.1) {
            (n - 1, scores[n - 1])
        } else {
            prev
        }
    }
}

proof fn lemma_best_among(scores: Seq<u32>, n: nat)
    requires
        n <= scores.len(),
    ensures
        0 <= best_among(scores, n).0 && (n > 0 ==> best_among(scores, n).0 < n),
        best_among(scores, n).1 == F32_MAX_BITS || best_among(scores, n).1
            == scores[best_among(scores, n).0],
        !spec_is_nan(best_among(scores, n).1),
        forall|j: int| 0 <= j < n ==> !flt_lt(#[trigger] scores[j], best_among(scores, n).1),
    decreases n,
{
    if n > 0 {
        lemma_best_among(scores, (n - 1) as nat);
    }
}

/// Finds the best whale from the scores of their solutions and counts one
/// evaluation per score.
///
/// The best is the first whale whose score is strictly below `f32::MAX` and
/// below every earlier score; with no such whale it is whale 0 with score
/// `f32::MAX`. No score is strictly below the returned one.
pub fn find_best_whale(scores: &Vec<u32>, evaluations: &mut usize) -> (best: (usize, u32))
    requires
        *old(evaluations) + scores@.len() <= usize::MAX,
    ensures
        best.0 as int == best_among(scores@, scores@.len()).0,
        best.1 == best_among(scores@, scores@.len()).1,
        *final(evaluations) == *old(evaluations) + scores@.len(),
        scores@.len() > 0 ==> best.0 < scores@.len(),
        best.1 == F32_MAX_BITS || best.1 == scores@[best.0 as int],
        forall|j: int| 0 <= j < scores@.len() ==> !flt_lt(#[trigger] scores@[j], best.1),
{
    let mut best_whale: usize = 0;
    let mut best_whale_score: u32 = F32_MAX_BITS;
    let mut id: usize = 0;
    while id < scores.len()
        invariant
            id <= scores@.len(),
            *evaluations == *old(evaluations) + id,
            *old(evaluations) + scores@.len() <= usize::MAX,
            (best_whale as int, best_whale_score) == best_among(scores@, id as nat),
        decreases scores@.len() - id,
    {
        let score = scores[id];
        *evaluations = *evaluations + 1;
        if lt(score, best_whale_score) {
            best_whale_score = score;
            best_whale = id;
        }
        id = id + 1;
    }
    proof {
        lemma_best_among(scores@, scores@.len());
    }
    (best_whale, best_whale_score)
}

} // verus!
