//! Assignment of data points to the clusters whose centres a whale carries.

use vstd::prelude::*;
use rand::rngs::StdRng;
use crate::ieee::{rank, spec_is_nan, gt, eq};
use crate::random::shuffle_indices;

verus! {

/// Whether the constraint `constraint` between a point labelled `this` and a
/// point labelled `other` is broken: a must-link (`1`) between different
/// clusters, or a cannot-link (`-1`) inside one cluster.
pub open spec fn breaks(constraint: i8, other: usize, this: usize) -> bool {
    (constraint == 1 && other != this) || (constraint == -1 && other == this)
}

/// Number of broken constraints among the first `n` entries of `row`, the
/// constraint row of point `p`, under the labelling `labels`.
pub open spec fn violations(row: Seq<i8>, labels: Seq<usize>, p: int, n: nat) -> nat
    decreases n,
{
    if n == 0 {
        0
    } else {
        violations(row, labels, p, (n - 1) as nat) + if breaks(row[n - 1], labels[n - 1], labels[p]) {
            1nat
        } else {
            0nat
        }
    }
}

proof fn lemma_violations_bounded(row: Seq<i8>, labels: Seq<usize>, p: int, n: nat)
    ensures
        violations(row, labels, p, n) <= n,
    decreases n,
{
    if n > 0 {
        lemma_violations_bounded(row, labels, p, (n - 1) as nat);
    }
}

/// The infeasibility that point `point_id` has under the labelling
/// `cluster_points`: how many of its constraints are broken.
pub fn calc_inf_delta(rest: &Vec<Vec<i8>>, point_id: usize, cluster_points: &Vec<usize>) -> (inf: usize)
    requires
        point_id < rest@.len(),
        rest@[point_id as int]@.len() <= cluster_points@.len(),
        rest@[point_id as int]@.len() > 0 ==> point_id < cluster_points@.len(),
    ensures
        inf == violations(rest@[point_id as int]@, cluster_points@, point_id as int, rest@[point_id as int]@.len()),
{
    let row = &rest[point_id];
    let mut inf: usize = 0;
    let mut pair: usize = 0;
    while pair < row.len()
        invariant
            row@ == rest@[point_id as int]@,
            row@.len() <= cluster_points@.len(),
            row@.len() > 0 ==> point_id < cluster_points@.len(),
            pair <= row@.len(),
            inf == violations(row@, cluster_points@, point_id as int, pair as nat),
        decreases row@.len() - pair,
    {
        proof {
            lemma_violations_bounded(row@, cluster_points@, point_id as int, pair as nat);
        }
        let value = row[pair];
        let contains = cluster_points[pair] == cluster_points[point_id];
        if value == 1 && !contains {
            inf = inf + 1;
        } else if value == -1 && contains {
            inf = inf + 1;
        }
        pair = pair + 1;
    }
    inf
}

/// How many of the first `n` entries of `row`, other than entry `skip`,
/// equal `v`.
pub open spec fn count_value(row: Seq<i8>, v: i8, skip: int, n: nat) -> nat
    decreases n,
{
    if n == 0 {
        0
    } else {
        count_value(row, v, skip, (n - 1) as nat) + if n - 1 != skip && row[n - 1] == v {
            1nat
        } else {
            0nat
        }
    }
}

/// The count of point `p`'s broken constraints depends on the labels only
/// through which points share `p`'s cluster: two labellings that agree on
/// that give the same count (so renaming clusters changes nothing).
pub proof fn lemma_violations_relabel(row: Seq<i8>, l1: Seq<usize>, l2: Seq<usize>, p: int, n: nat)
    requires
        forall|q: int| 0 <= q < n ==> (#[trigger] l1[q] == l1[p]) == (l2[q] == l2[p]),
    ensures
        violations(row, l1, p, n) == violations(row, l2, p, n),
    decreases n,
{
    if n > 0 {
        lemma_violations_relabel(row, l1, l2, p, (n - 1) as nat);
        assert((l1[n - 1] == l1[p]) == (l2[n - 1] == l2[p]));
    }
}

/// With every point in `p`'s cluster, exactly its cannot-links are broken;
/// with every other point outside `p`'s cluster, exactly its must-links to
/// other points are broken, plus a cannot-link with itself.
pub proof fn lemma_violations_extremes(row: Seq<i8>, labels: Seq<usize>, p: int, n: nat)
    ensures
        (forall|q: int| 0 <= q < n ==> #[trigger] labels[q] == labels[p]) ==> violations(row, labels, p, n)
            == count_value(row, -1i8, -1, n),
        (forall|q: int| 0 <= q < n && q != p ==> #[trigger] labels[q] != labels[p]) ==> violations(row, labels, p, n)
            == count_value(row, 1i8, p, n) + if 0 <= p < n && row[p] == -1 { 1nat } else { 0nat },
    decreases n,
{
    if n > 0 {
        lemma_violations_extremes(row, labels, p, (n - 1) as nat);
        if forall|q: int| 0 <= q < n ==> #[trigger] labels[q] == labels[p] {
            assert(forall|q: int| 0 <= q < n - 1 ==> #[trigger] labels[q] == labels[p]);
            assert(labels[n - 1] == labels[p]);
        }
        if forall|q: int| 0 <= q < n && q != p ==> #[trigger] labels[q] != labels[p] {
            assert(forall|q: int| 0 <= q < n - 1 && q != p ==> #[trigger] labels[q] != labels[p]);
            if n - 1 != p {
                assert(labels[n - 1] != labels[p]);
            }
        }
    }
}

/// The largest cluster below `n` that has no point yet, or -1.
pub open spec fn last_empty(counts: Seq<usize>, n: nat) -> int
    decreases n,
{
    if n == 0 {
        -1
    } else if counts[n - 1] == 0 {
        n - 1
    } else {
        last_empty(counts, (n - 1) as nat)
    }
}

/// The first of the first `n` entries of `row` with the least value.
pub open spec fn first_argmin(row: Seq<u32>, n: nat) -> int
    decreases n,
{
    if n <= 1 {
        0
    } else {
        let j = first_argmin(row, (n - 1) as nat);
        if rank(row[n - 1]) < rank(row[j]) {
            n - 1
        } else {
            j
        }
    }
}

/// The cluster a point goes to, given how many points each of the `k`
/// clusters has and the point's distances to the `k` centres: the last empty
/// cluster while there is one, otherwise the nearest centre (the first of
/// equally near ones).
pub open spec fn chosen_cluster(counts: Seq<usize>, row: Seq<u32>, k: nat) -> int {
    let e = last_empty(counts, k);
    if e >= 0 {
        e
    } else if k == 1 {
        0
    } else {
        first_argmin(row, k)
    }
}

/// Labels and cluster sizes after the first `t` points of `order` have been
/// placed; `n` points, `k` clusters, and every point starts with label `k + 1`.
pub open spec fn assignment(order: Seq<usize>, dist: Seq<Vec<u32>>, n: nat, k: nat, t: nat) -> (Seq<usize>, Seq<usize>)
    decreases t,
{
    if t == 0 {
        (Seq::new(n, |i: int| (k + 1) as usize), Seq::new(k, |i: int| 0usize))
    } else {
        let prev = assignment(order, dist, n, k, (t - 1) as nat);
        let p = order[t - 1] as int;
        let c = chosen_cluster(prev.1, dist[p]@, k);
        (prev.0.update(p, c as usize), prev.1.update(c, (prev.1[c] + 1) as usize))
    }
}

/// The order in which candidate clusters are listed for a point: empty
/// clusters in decreasing order, then the others in increasing order.
pub open spec fn candidate_order(counts: Seq<usize>, n: nat) -> Seq<usize>
    decreases n,
{
    if n == 0 {
        Seq::empty()
    } else {
        let prev = candidate_order(counts, (n - 1) as nat);
        if counts[n - 1] == 0 {
            seq![(n - 1) as usize] + prev
        } else {
            prev.push((n - 1) as usize)
        }
    }
}

proof fn lemma_last_empty(counts: Seq<usize>, n: nat)
    requires
        n <= counts.len(),
    ensures
        -1 <= last_empty(counts, n) < n,
        last_empty(counts, n) >= 0 ==> counts[last_empty(counts, n)] == 0,
        last_empty(counts, n) == -1 ==> forall|c: int| 0 <= c < n ==> #[trigger] counts[c] != 0,
        forall|c: int| last_empty(counts, n) < c < n ==> #[trigger] counts[c] != 0,
    decreases n,
{
    if n > 0 {
        lemma_last_empty(counts, (n - 1) as nat);
    }
}

proof fn lemma_candidate_order(counts: Seq<usize>, n: nat)
    requires
        n <= counts.len(),
        n < usize::MAX,
    ensures
        candidate_order(counts, n).len() == n,
        last_empty(counts, n) >= 0 ==> candidate_order(counts, n)[0] == last_empty(counts, n),
        last_empty(counts, n) == -1 ==> forall|i: int| 0 <= i < n ==> #[trigger] candidate_order(counts, n)[i] == i,
    decreases n,
{
    if n > 0 {
        lemma_candidate_order(counts, (n - 1) as nat);
        lemma_last_empty(counts, (n - 1) as nat);
        let prev = candidate_order(counts, (n - 1) as nat);
        if counts[n - 1] != 0 {
            assert(candidate_order(counts, n) == prev.push((n - 1) as usize));
            if last_empty(counts, n) >= 0 {
                assert(prev.len() > 0);
            }
        }
    }
}

proof fn lemma_first_argmin(row: Seq<u32>, n: nat)
    requires
        1 <= n <= row.len(),
    ensures
        0 <= first_argmin(row, n) < n,
        forall|j: int| 0 <= j < n ==> rank(row[first_argmin(row, n)]) <= rank(#[trigger] row[j]),
        forall|j: int| 0 <= j < first_argmin(row, n) ==> rank(row[first_argmin(row, n)]) < rank(#[trigger] row[j]),
    decreases n,
{
    if n > 1 {
        lemma_first_argmin(row, (n - 1) as nat);
    }
}

/// Candidate clusters for a point, built as the search builds them: each
/// empty cluster goes to the front, each other cluster whose infeasibility
/// change is the least goes to the back.
fn candidate_clusters(cluster_points: &Vec<usize>, diff_inf: &Vec<usize>, min_inf: usize, k: u32) -> (cands: Vec<usize>)
    requires
        cluster_points@.len() == k,
        diff_inf@.len() == k,
        forall|i: int| 0 <= i < k ==> #[trigger] diff_inf@[i] == min_inf,
    ensures
        cands@ == candidate_order(cluster_points@, k as nat),
{
    let mut cands: Vec<usize> = Vec::new();
    let mut id: usize = 0;
    while id < k as usize
        invariant
            cluster_points@.len() == k,
            diff_inf@.len() == k,
            forall|i: int| 0 <= i < k ==> #[trigger] diff_inf@[i] == min_inf,
            id <= k,
            cands@ == candidate_order(cluster_points@, id as nat),
        decreases k - id,
    {
        let ghost prev = cands@;
        if cluster_points[id] == 0 {
            cands.insert(0, id);
            assert(cands@ =~= seq![id] + prev);
        } else if diff_inf[id] == min_inf {
            cands.push(id);
        }
        id = id + 1;
    }
    cands
}

/// Position of the nearest distance: the running minimum keeps the earlier
/// value unless it is greater, then the first distance equal to it is taken.
fn nearest(distances: &Vec<u32>) -> (best: usize)
    requires
        distances@.len() >= 1,
        forall|i: int| 0 <= i < distances@.len() ==> !spec_is_nan(#[trigger] distances@[i]),
    ensures
        best == first_argmin(distances@, distances@.len()),
{
    let len = distances.len();
    let mut min_distance = distances[0];
    let mut j: usize = 1;
    while j < len
        invariant
            len == distances@.len(),
            1 <= j <= len,
            forall|i: int| 0 <= i < len ==> !spec_is_nan(#[trigger] distances@[i]),
            0 <= first_argmin(distances@, j as nat) < j,
            rank(min_distance) == rank(distances@[first_argmin(distances@, j as nat)]),
            !spec_is_nan(min_distance),
        decreases len - j,
    {
        proof {
            lemma_first_argmin(distances@, j as nat);
        }
        if gt(min_distance, distances[j]) {
            min_distance = distances[j];
        }
        j = j + 1;
    }
    proof {
        lemma_first_argmin(distances@, len as nat);
    }
    let ghost a = first_argmin(distances@, len as nat);
    let mut best: usize = 0;
    while best < len && !eq(distances[best], min_distance)
        invariant
            len == distances@.len(),
            forall|i: int| 0 <= i < len ==> !spec_is_nan(#[trigger] distances@[i]),
            0 <= a < len,
            rank(min_distance) == rank(distances@[a]),
            !spec_is_nan(min_distance),
            forall|i: int| 0 <= i < a ==> rank(distances@[a]) < rank(#[trigger] distances@[i]),
            best <= a,
        decreases len - best,
    {
        best = best + 1;
    }
    best
}

/// The cluster for point `point_id`, decided as the search decides it.
fn choose_cluster(
    dist: &Vec<Vec<u32>>,
    rest: &Vec<Vec<i8>>,
    point_id: usize,
    clusters: &Vec<usize>,
    cluster_points: &Vec<usize>,
    k: u32,
) -> (c: usize)
    requires
        1 <= k < u32::MAX,
        point_id < clusters@.len(),
        point_id < dist@.len(),
        point_id < rest@.len(),
        rest@[point_id as int]@.len() <= clusters@.len(),
        cluster_points@.len() == k,
        dist@[point_id as int]@.len() >= k,
        k >= 2 && last_empty(cluster_points@, k as nat) == -1 ==> nan_free_row(dist@, point_id as int, k as nat),
    ensures
        c as int == chosen_cluster(cluster_points@, dist@[point_id as int]@, k as nat),
        c < k,
{
    let mut diff_inf: Vec<usize> = Vec::new();
    let ghost d = violations(rest@[point_id as int]@, clusters@, point_id as int, rest@[point_id as int]@.len());
    let mut i: u32 = 0;
    while i < k
        invariant
            i <= k,
            point_id < clusters@.len(),
            point_id < rest@.len(),
            rest@[point_id as int]@.len() <= clusters@.len(),
            d == violations(rest@[point_id as int]@, clusters@, point_id as int, rest@[point_id as int]@.len()),
            diff_inf@.len() == i,
            forall|j: int| 0 <= j < i ==> #[trigger] diff_inf@[j] == d,
        decreases k - i,
    {
        diff_inf.push(calc_inf_delta(rest, point_id, clusters));
        i = i + 1;
    }
    let mut min_inf_delta = diff_inf[0];
    let mut j: usize = 1;
    while j < diff_inf.len()
        invariant
            diff_inf@.len() == k,
            forall|q: int| 0 <= q < k ==> #[trigger] diff_inf@[q] == d,
            min_inf_delta == d,
            1 <= j <= k,
        decreases k - j,
    {
        if diff_inf[j] < min_inf_delta {
            min_inf_delta = diff_inf[j];
        }
        j = j + 1;
    }
    let cands = candidate_clusters(cluster_points, &diff_inf, min_inf_delta, k);
    proof {
        lemma_candidate_order(cluster_points@, k as nat);
        lemma_last_empty(cluster_points@, k as nat);
    }
    let row = &dist[point_id];
    if cluster_points[cands[0]] == 0 || cands.len() == 1 {
        cands[0]
    } else {
        let mut distances: Vec<u32> = Vec::new();
        let mut q: usize = 0;
        while q < cands.len()
            invariant
                cands@ == candidate_order(cluster_points@, k as nat),
                cands@.len() == k,
                k >= 2,
                last_empty(cluster_points@, k as nat) == -1,
                forall|x: int| 0 <= x < k ==> #[trigger] cands@[x] == x,
                row@ == dist@[point_id as int]@,
                row@.len() >= k,
                q <= k,
                distances@.len() == q,
                forall|x: int| 0 <= x < q ==> #[trigger] distances@[x] == row@[x],
            decreases k - q,
        {
            distances.push(row[cands[q]]);
            q = q + 1;
        }
        assert(distances@ =~= row@.subrange(0, k as int));
        proof {
            assert forall|x: nat| x <= k implies first_argmin(distances@, x) == first_argmin(row@, x) by {
                lemma_first_argmin_prefix(distances@, row@, x, k as nat);
            }
        }
        let best_cluster = nearest(&distances);
        proof {
            lemma_first_argmin(row@, k as nat);
        }
        best_cluster
    }
}

proof fn lemma_first_argmin_prefix(a: Seq<u32>, b: Seq<u32>, x: nat, k: nat)
    requires
        x <= k,
        a.len() == k,
        k <= b.len(),
        forall|i: int| 0 <= i < k ==> #[trigger] a[i] == b[i],
    ensures
        first_argmin(a, x) == first_argmin(b, x),
    decreases x,
{
    if x > 1 {
        lemma_first_argmin_prefix(a, b, (x - 1) as nat, k);
        lemma_first_argmin_bound(a, (x - 1) as nat);
    }
}

proof fn lemma_first_argmin_bound(row: Seq<u32>, n: nat)
    ensures
        0 <= first_argmin(row, n) && (n >= 1 ==> first_argmin(row, n) < n),
    decreases n,
{
    if n > 1 {
        lemma_first_argmin_bound(row, (n - 1) as nat);
    }
}

/// Some point carries label `c`.
pub open spec fn cluster_used(labels: Seq<usize>, c: int) -> bool {
    exists|p: int| 0 <= p < labels.len() && labels[p] == c
}

/// `order` lists each of the points `0..n` exactly once.
pub open spec fn is_point_permutation(order: Seq<usize>, n: nat) -> bool {
    &&& order.len() == n
    &&& order.no_duplicates()
    &&& forall|i: int| 0 <= i < order.len() ==> #[trigger] order[i] < n
    &&& forall|x: usize| x < n ==> order.contains(x)
}

/// Point `p` can be placed: it has a constraint row no longer than the number
/// of points, and a distance to each of the `k` centres.
pub open spec fn placeable(dist: Seq<Vec<u32>>, rest: Seq<Vec<i8>>, k: nat, p: int) -> bool {
    &&& 0 <= p < dist.len()
    &&& p < rest.len()
    &&& rest[p]@.len() <= dist.len()
    &&& dist[p]@.len() >= k
}

/// None of the distances from point `p` to the `k` centres is NaN.
pub open spec fn nan_free_row(dist: Seq<Vec<u32>>, p: int, k: nat) -> bool {
    forall|c: int| 0 <= c < k ==> !spec_is_nan(#[trigger] dist[p]@[c])
}

/// Where a point goes once no cluster is empty: its nearest centre, the first
/// of equally near ones.
pub open spec fn nearest_centre(row: Seq<u32>, k: nat) -> int {
    if k == 1 { 0 } else { first_argmin(row, k) }
}

proof fn lemma_chosen_in_range(counts: Seq<usize>, row: Seq<u32>, k: nat)
    requires
        k >= 1,
        counts.len() == k,
    ensures
        0 <= chosen_cluster(counts, row, k) < k,
{
    lemma_last_empty(counts, k);
    lemma_first_argmin_bound(row, k);
}

proof fn lemma_assignment_shape(order: Seq<usize>, dist: Seq<Vec<u32>>, n: nat, k: nat, t: nat)
    requires
        t <= order.len(),
        t > 0 ==> k >= 1,
        forall|i: int| 0 <= i < order.len() ==> #[trigger] order[i] < n,
    ensures
        assignment(order, dist, n, k, t).0.len() == n,
        assignment(order, dist, n, k, t).1.len() == k,
        forall|c: int| 0 <= c < k ==> #[trigger] assignment(order, dist, n, k, t).1[c] <= t,
    decreases t,
{
    if t > 0 {
        lemma_assignment_shape(order, dist, n, k, (t - 1) as nat);
        let prev = assignment(order, dist, n, k, (t - 1) as nat);
        lemma_chosen_in_range(prev.1, dist[order[t - 1] as int]@, k);
    }
}

proof fn lemma_last_empty_prefix(counts: Seq<usize>, n: nat, m: nat)
    requires
        m <= n <= counts.len(),
        forall|c: int| 0 <= c < n ==> (#[trigger] counts[c] == 0) == (c < m),
    ensures
        last_empty(counts, n) == m - 1,
    decreases n,
{
    if n > m {
        lemma_last_empty_prefix(counts, (n - 1) as nat, m);
    } else if n > 0 {
        assert(counts[n - 1] == 0);
    }
}

proof fn lemma_assignment_counts(order: Seq<usize>, dist: Seq<Vec<u32>>, n: nat, k: nat, t: nat)
    requires
        1 <= k <= usize::MAX,
        t <= order.len(),
        order.len() <= usize::MAX,
        forall|i: int| 0 <= i < order.len() ==> #[trigger] order[i] < n,
    ensures
        t <= k ==> forall|c: int| 0 <= c < k ==> #[trigger] assignment(order, dist, n, k, t).1[c]
            == if c >= k - t { 1usize } else { 0usize },
        t < k ==> last_empty(assignment(order, dist, n, k, t).1, k) == k - t - 1,
        t >= k ==> forall|c: int| 0 <= c < k ==> #[trigger] assignment(order, dist, n, k, t).1[c] >= 1,
        t >= k ==> last_empty(assignment(order, dist, n, k, t).1, k) == -1,
    decreases t,
{
    lemma_assignment_shape(order, dist, n, k, t);
    if t > 0 {
        let t1 = (t - 1) as nat;
        lemma_assignment_counts(order, dist, n, k, t1);
        lemma_assignment_shape(order, dist, n, k, t1);
        let prev = assignment(order, dist, n, k, t1);
        let cur = assignment(order, dist, n, k, t);
        let p = order[t1 as int] as int;
        let row = dist[p]@;
        lemma_chosen_in_range(prev.1, row, k);
        let c = chosen_cluster(prev.1, row, k);
        assert(cur.1 == prev.1.update(c, (prev.1[c] + 1) as usize));
        assert(prev.1[c] <= t1);
        if t1 < k {
            lemma_last_empty_prefix(prev.1, k, (k - t1) as nat);
            assert(c == k - 1 - t1);
        } else {
            lemma_last_empty(prev.1, k);
        }
        if t >= k {
            assert forall|x: int| 0 <= x < k implies #[trigger] cur.1[x] >= 1 by {
                if x != c {
                    assert(cur.1[x] == prev.1[x]);
                }
            }
        }
    }
    if t < k {
        lemma_last_empty_prefix(assignment(order, dist, n, k, t).1, k, (k - t) as nat);
    } else {
        lemma_last_empty(assignment(order, dist, n, k, t).1, k);
        if last_empty(assignment(order, dist, n, k, t).1, k) >= 0 {
            assert(assignment(order, dist, n, k, t).1[last_empty(assignment(order, dist, n, k, t).1, k)] >= 1);
        }
    }
}

proof fn lemma_assignment_progress(order: Seq<usize>, dist: Seq<Vec<u32>>, n: nat, k: nat, t: nat)
    requires
        1 <= k <= usize::MAX,
        t <= order.len(),
        order.len() <= usize::MAX,
        order.no_duplicates(),
        forall|i: int| 0 <= i < order.len() ==> #[trigger] order[i] < n,
    ensures
        forall|i: int| 0 <= i < t ==> #[trigger] assignment(order, dist, n, k, t).0[order[i] as int] < k,
        forall|i: int| 0 <= i < t && i < k ==> #[trigger] assignment(order, dist, n, k, t).0[order[i] as int]
            == k - 1 - i,
        forall|i: int| k <= i < t ==> #[trigger] assignment(order, dist, n, k, t).0[order[i] as int]
            == nearest_centre(dist[order[i] as int]@, k),
    decreases t,
{
    lemma_assignment_shape(order, dist, n, k, t);
    if t > 0 {
        let t1 = (t - 1) as nat;
        lemma_assignment_progress(order, dist, n, k, t1);
        lemma_assignment_shape(order, dist, n, k, t1);
        lemma_assignment_counts(order, dist, n, k, t1);
        let prev = assignment(order, dist, n, k, t1);
        let cur = assignment(order, dist, n, k, t);
        let p = order[t1 as int] as int;
        let row = dist[p]@;
        lemma_chosen_in_range(prev.1, row, k);
        lemma_first_argmin_bound(row, k);
        let c = chosen_cluster(prev.1, row, k);
        assert(cur.0 == prev.0.update(p, c as usize));
        if t1 < k {
            assert(c == k - 1 - t1);
        } else {
            assert(c == nearest_centre(row, k));
        }
        assert forall|i: int| k <= i < t implies #[trigger] cur.0[order[i] as int] == nearest_centre(
            dist[order[i] as int]@,
            k,
        ) by {
            if i < t1 {
                assert(order[i] != order[t1 as int]);
            }
        }
        assert forall|i: int| 0 <= i < t implies #[trigger] cur.0[order[i] as int] < k by {
            if i < t1 {
                assert(order[i] != order[t1 as int]);
            }
        }
        assert forall|i: int| 0 <= i < t && i < k implies #[trigger] cur.0[order[i] as int] == k - 1 - i by {
            if i < t1 {
                assert(order[i] != order[t1 as int]);
            }
        }
    }
}

/// Placing every point once, in any order, gives every point a cluster below
/// `k`; the first `k` points of the order go to clusters `k - 1` down to `0`,
/// so with at least `k` points no cluster is left empty, and every later point
/// goes to its nearest centre.
pub proof fn lemma_assignment_valid(order: Seq<usize>, dist: Seq<Vec<u32>>, n: nat, k: nat)
    requires
        1 <= k <= usize::MAX,
        n <= usize::MAX,
        is_point_permutation(order, n),
    ensures
        forall|p: int| 0 <= p < n ==> #[trigger] assignment(order, dist, n, k, n).0[p] < k,
        forall|i: int| 0 <= i < n && i < k ==> #[trigger] assignment(order, dist, n, k, n).0[order[i] as int]
            == k - 1 - i,
        n >= k ==> forall|c: int| 0 <= c < k ==> #[trigger] cluster_used(assignment(order, dist, n, k, n).0, c),
        forall|i: int| k <= i < n ==> #[trigger] assignment(order, dist, n, k, n).0[order[i] as int]
            == nearest_centre(dist[order[i] as int]@, k),
{
    lemma_assignment_progress(order, dist, n, k, n);
    let labels = assignment(order, dist, n, k, n).0;
    assert forall|p: int| 0 <= p < n implies #[trigger] labels[p] < k by {
        assert(order.contains(p as usize));
        let i = choose|i: int| 0 <= i < order.len() && order[i] == p as usize;
        assert(labels[order[i] as int] < k);
    }
    if n >= k {
        assert forall|c: int| 0 <= c < k implies #[trigger] cluster_used(labels, c) by {
            let i = k - 1 - c;
            assert(labels[order[i] as int] == c);
            assert(labels.len() == n) by {
                lemma_assignment_shape(order, dist, n, k, n);
            }
        }
    }
}

/// Places the points in the given order: each point goes to the last empty
/// cluster while there is one, otherwise to its nearest centre.
///
/// `dist[p][c]` is the distance from point `p` to centre `c`; there are as
/// many points as rows of `dist`.
pub fn assign_clusters(order: &Vec<usize>, dist: &Vec<Vec<u32>>, rest: &Vec<Vec<i8>>, k: u32) -> (clusters: Vec<usize>)
    requires
        k < u32::MAX,
        order@.len() > 0 ==> k >= 1,
        forall|i: int| 0 <= i < order@.len() ==> placeable(dist@, rest@, k as nat, #[trigger] order@[i] as int),
        k >= 2 ==> forall|i: int| k <= i < order@.len() ==> nan_free_row(dist@, #[trigger] order@[i] as int, k as nat),
    ensures
        clusters@ == assignment(order@, dist@, dist@.len(), k as nat, order@.len()).0,
{
    let n = dist.len();
    let mut clusters: Vec<usize> = vec![(k + 1) as usize; n];
    let mut cluster_points: Vec<usize> = vec![0; k as usize];
    assert(clusters@ =~= Seq::new(n as nat, |i: int| (k + 1) as usize));
    assert(cluster_points@ =~= Seq::new(k as nat, |i: int| 0usize));
    let mut t: usize = 0;
    while t < order.len()
        invariant
            n == dist@.len(),
            k < u32::MAX,
            order@.len() > 0 ==> k >= 1,
            forall|i: int| 0 <= i < order@.len() ==> placeable(dist@, rest@, k as nat, #[trigger] order@[i] as int),
            k >= 2 ==> forall|i: int| k <= i < order@.len() ==> nan_free_row(dist@, #[trigger] order@[i] as int, k as nat),
            t <= order@.len(),
            (clusters@, cluster_points@) == assignment(order@, dist@, n as nat, k as nat, t as nat),
        decreases order@.len() - t,
    {
        proof {
            assert(forall|i: int| 0 <= i < order@.len() ==> #[trigger] order@[i] < n) by {
                assert forall|i: int| 0 <= i < order@.len() implies #[trigger] order@[i] < n by {
                    assert(placeable(dist@, rest@, k as nat, order@[i] as int));
                }
            }
            lemma_assignment_shape(order@, dist@, n as nat, k as nat, t as nat);
            assert(order@.len() <= usize::MAX);
            lemma_assignment_counts(order@, dist@, n as nat, k as nat, t as nat);
        }
        let point_id = order[t];
        assert(placeable(dist@, rest@, k as nat, point_id as int));
        assert(k >= 2 && t >= k ==> nan_free_row(dist@, order@[t as int] as int, k as nat));
        let c = choose_cluster(dist, rest, point_id, &clusters, &cluster_points, k);
        clusters.set(point_id, c);
        let size = cluster_points[c] + 1;
        cluster_points.set(c, size);
        t = t + 1;
    }
    clusters
}

/// Broken constraints between point `p` and the points after it, among the
/// first `n` entries of its row.
pub open spec fn later_violations(row: Seq<i8>, labels: Seq<usize>, p: int, n: int) -> nat
    decreases n - p,
{
    if n <= p + 1 {
        0
    } else {
        later_violations(row, labels, p, n - 1) + if breaks(row[n - 1], labels[n - 1], labels[p]) {
            1nat
        } else {
            0nat
        }
    }
}

/// Broken constraints over all pairs `p < q` among the first `m` points, each
/// pair counted once.
pub open spec fn infeasibility_of(rest: Seq<Vec<i8>>, labels: Seq<usize>, m: nat) -> nat
    decreases m,
{
    if m == 0 {
        0
    } else {
        infeasibility_of(rest, labels, (m - 1) as nat) + later_violations(
            rest[m - 1]@,
            labels,
            m - 1,
            rest[m - 1]@.len() as int,
        )
    }
}

proof fn lemma_later_violations_bounded(row: Seq<i8>, labels: Seq<usize>, p: int, n: int)
    requires
        0 <= p,
    ensures
        later_violations(row, labels, p, n) <= if n > 0 { n } else { 0 },
    decreases n - p,
{
    if n > p + 1 {
        lemma_later_violations_bounded(row, labels, p, n - 1);
    }
}

/// The infeasibility of a labelling: how many constraints between distinct
/// points it breaks, each pair counted once.
pub fn infeasibility(sol: &Vec<usize>, rest: &Vec<Vec<i8>>) -> (inf: u64)
    requires
        rest@.len() <= sol@.len(),
        sol@.len() <= u32::MAX,
        forall|p: int| 0 <= p < rest@.len() ==> #[trigger] rest@[p]@.len() <= sol@.len(),
    ensures
        inf == infeasibility_of(rest@, sol@, rest@.len()),
{
    let mut inf: u64 = 0;
    let mut p: usize = 0;
    while p < rest.len()
        invariant
            rest@.len() <= sol@.len(),
            sol@.len() <= u32::MAX,
            forall|q: int| 0 <= q < rest@.len() ==> #[trigger] rest@[q]@.len() <= sol@.len(),
            p <= rest@.len(),
            inf == infeasibility_of(rest@, sol@, p as nat),
            inf <= p * sol@.len(),
        decreases rest@.len() - p,
    {
        let row = &rest[p];
        let mut count: u64 = 0;
        let mut q: usize = p + 1;
        if q > row.len() {
            q = row.len();
        }
        assert(later_violations(row@, sol@, p as int, q as int) == 0);
        while q < row.len()
            invariant
                row@ == rest@[p as int]@,
                row@.len() <= sol@.len(),
                sol@.len() <= u32::MAX,
                p < sol@.len(),
                q <= row@.len(),
                q >= p + 1 || q == row@.len(),
                count == later_violations(row@, sol@, p as int, q as int),
                count <= q,
            decreases row@.len() - q,
        {
            if breaks_exec(row[q], sol[q], sol[p]) {
                count = count + 1;
            }
            q = q + 1;
        }
        proof {
            lemma_later_violations_bounded(row@, sol@, p as int, row@.len() as int);
            assert((p + 1) * sol@.len() == p * sol@.len() + sol@.len()) by (nonlinear_arith);
            assert(p * sol@.len() <= u32::MAX * u32::MAX) by (nonlinear_arith)
                requires p <= u32::MAX, sol@.len() <= u32::MAX;
        }
        inf = inf + count;
        p = p + 1;
    }
    inf
}

/// Constraints among the entries of `row` after position `p`, up to `n`.
pub open spec fn later_constraints(row: Seq<i8>, p: int, n: int) -> nat
    decreases n - p,
{
    if n <= p + 1 {
        0
    } else {
        later_constraints(row, p, n - 1) + if row[n - 1] != 0 { 1nat } else { 0nat }
    }
}

/// Constraints over all pairs `p < q` among the first `m` rows.
pub open spec fn constraints_of(rest: Seq<Vec<i8>>, m: nat) -> nat
    decreases m,
{
    if m == 0 {
        0
    } else {
        constraints_of(rest, (m - 1) as nat) + later_constraints(rest[m - 1]@, m - 1, rest[m - 1]@.len() as int)
    }
}

/// How many constraints the matrix states: non-zero entries above the
/// diagonal.
pub fn restriction_count(rest: &Vec<Vec<i8>>) -> (count: u64)
    requires
        rest@.len() <= u32::MAX,
        forall|p: int| 0 <= p < rest@.len() ==> #[trigger] rest@[p]@.len() <= u32::MAX,
    ensures
        count == constraints_of(rest@, rest@.len()),
{
    let mut count: u64 = 0;
    let mut p: usize = 0;
    while p < rest.len()
        invariant
            rest@.len() <= u32::MAX,
            forall|q: int| 0 <= q < rest@.len() ==> #[trigger] rest@[q]@.len() <= u32::MAX,
            p <= rest@.len(),
            count == constraints_of(rest@, p as nat),
            count <= p * 0xffff_ffffnat,
        decreases rest@.len() - p,
    {
        let row = &rest[p];
        let mut here: u64 = 0;
        let mut q: usize = p + 1;
        if q > row.len() {
            q = row.len();
        }
        while q < row.len()
            invariant
                row@ == rest@[p as int]@,
                row@.len() <= u32::MAX,
                q <= row@.len(),
                q >= p + 1 || q == row@.len(),
                here == later_constraints(row@, p as int, q as int),
                here <= q,
            decreases row@.len() - q,
        {
            if row[q] != 0 {
                here = here + 1;
            }
            q = q + 1;
        }
        proof {
            assert((p + 1) * 0xffff_ffffnat == p * 0xffff_ffffnat + 0xffff_ffffnat) by (nonlinear_arith);
            assert(p * 0xffff_ffffnat <= 0xffff_ffffnat * 0xffff_ffffnat) by (nonlinear_arith)
                requires p <= 0xffff_ffffnat;
        }
        count = count + here;
        p = p + 1;
    }
    count
}

fn breaks_exec(constraint: i8, other: usize, this: usize) -> (r: bool)
    ensures
        r == breaks(constraint, other, this),
{
    (constraint == 1 && other != this) || (constraint == -1 && other == this)
}

/// Entries equal to `v` in `row` after position `p`, up to `n`.
pub open spec fn later_count(row: Seq<i8>, v: i8, p: int, n: int) -> nat
    decreases n - p,
{
    if n <= p + 1 {
        0
    } else {
        later_count(row, v, p, n - 1) + if row[n - 1] == v { 1nat } else { 0nat }
    }
}

/// Entries equal to `v` above the diagonal of the first `m` rows.
pub open spec fn count_above_diagonal(rest: Seq<Vec<i8>>, v: i8, m: nat) -> nat
    decreases m,
{
    if m == 0 {
        0
    } else {
        count_above_diagonal(rest, v, (m - 1) as nat) + later_count(rest[m - 1]@, v, m - 1, rest[m - 1]@.len() as int)
    }
}

/// Two labellings put the same points together.
pub open spec fn same_partition(l1: Seq<usize>, l2: Seq<usize>) -> bool {
    &&& l1.len() == l2.len()
    &&& forall|a: int, b: int| 0 <= a < l1.len() && 0 <= b < l1.len() ==> (#[trigger] l1[a] == #[trigger] l1[b]) == (
        l2[a] == l2[b])
}

proof fn lemma_later_violations_relabel(row: Seq<i8>, l1: Seq<usize>, l2: Seq<usize>, p: int, n: int)
    requires
        0 <= p < l1.len(),
        n <= l1.len(),
        same_partition(l1, l2),
    ensures
        later_violations(row, l1, p, n) == later_violations(row, l2, p, n),
    decreases n - p,
{
    if n > p + 1 {
        lemma_later_violations_relabel(row, l1, l2, p, n - 1);
        assert((l1[n - 1] == l1[p]) == (l2[n - 1] == l2[p]));
    }
}

/// The infeasibility depends on the labels only through which points share a
/// cluster: labellings with the same partition (one a renaming of the other)
/// have the same infeasibility.
pub proof fn lemma_infeasibility_relabel(rest: Seq<Vec<i8>>, l1: Seq<usize>, l2: Seq<usize>, m: nat)
    requires
        m <= rest.len(),
        m <= l1.len(),
        forall|p: int| 0 <= p < m ==> #[trigger] rest[p]@.len() <= l1.len(),
        same_partition(l1, l2),
    ensures
        infeasibility_of(rest, l1, m) == infeasibility_of(rest, l2, m),
    decreases m,
{
    if m > 0 {
        lemma_infeasibility_relabel(rest, l1, l2, (m - 1) as nat);
        lemma_later_violations_relabel(rest[m - 1]@, l1, l2, m - 1, rest[m - 1]@.len() as int);
    }
}

proof fn lemma_later_violations_extremes(row: Seq<i8>, labels: Seq<usize>, p: int, n: int)
    requires
        0 <= p,
    ensures
        (forall|q: int| p < q < n ==> #[trigger] labels[q] == labels[p]) ==> later_violations(row, labels, p, n)
            == later_count(row, -1i8, p, n),
        (forall|q: int| p < q < n ==> #[trigger] labels[q] != labels[p]) ==> later_violations(row, labels, p, n)
            == later_count(row, 1i8, p, n),
    decreases n - p,
{
    if n > p + 1 {
        lemma_later_violations_extremes(row, labels, p, n - 1);
        if forall|q: int| p < q < n ==> #[trigger] labels[q] == labels[p] {
            assert(forall|q: int| p < q < n - 1 ==> #[trigger] labels[q] == labels[p]);
            assert(labels[n - 1] == labels[p]);
        }
        if forall|q: int| p < q < n ==> #[trigger] labels[q] != labels[p] {
            assert(forall|q: int| p < q < n - 1 ==> #[trigger] labels[q] != labels[p]);
            assert(labels[n - 1] != labels[p]);
        }
    }
}

/// With every point in one cluster, the infeasibility is the number of
/// cannot-links; with every point in its own cluster, it is the number of
/// must-links (each pair counted once).
pub proof fn lemma_infeasibility_extremes(rest: Seq<Vec<i8>>, labels: Seq<usize>, m: nat)
    requires
        m <= rest.len(),
        forall|p: int| 0 <= p < m ==> #[trigger] rest[p]@.len() <= labels.len(),
    ensures
        (forall|a: int, b: int| 0 <= a < labels.len() && 0 <= b < labels.len() ==> #[trigger] labels[a] == #[trigger] labels[b])
            ==> infeasibility_of(rest, labels, m) == count_above_diagonal(rest, -1i8, m),
        (forall|a: int, b: int|
            0 <= a < labels.len() && 0 <= b < labels.len() && a != b ==> #[trigger] labels[a] != #[trigger] labels[b])
            ==> infeasibility_of(rest, labels, m) == count_above_diagonal(rest, 1i8, m),
    decreases m,
{
    if m > 0 {
        lemma_infeasibility_extremes(rest, labels, (m - 1) as nat);
        let p = m - 1;
        let row = rest[p]@;
        lemma_later_violations_extremes(row, labels, p, row.len() as int);
        if forall|a: int, b: int| 0 <= a < labels.len() && 0 <= b < labels.len() ==> #[trigger] labels[a] == #[trigger] labels[b] {
            if row.len() > p + 1 {
                assert(p < labels.len());
                assert forall|q: int| p < q < row.len() implies #[trigger] labels[q] == labels[p] by {
                    assert(labels[q] == labels[p]);
                }
            }
        }
        if forall|a: int, b: int|
            0 <= a < labels.len() && 0 <= b < labels.len() && a != b ==> #[trigger] labels[a] != #[trigger] labels[b] {
            if row.len() > p + 1 {
                assert(p < labels.len());
                assert forall|q: int| p < q < row.len() implies #[trigger] labels[q] != labels[p] by {
                    assert(labels[q] != labels[p]);
                }
            }
        }
    }
}

/// A labelling is a valid solution for `k` clusters: every label is below
/// `k` and no cluster is empty.
pub open spec fn spec_valid_sol(sol: Seq<usize>, k: nat) -> bool {
    &&& forall|p: int| 0 <= p < sol.len() ==> #[trigger] sol[p] < k
    &&& forall|c: int| 0 <= c < k ==> #[trigger] cluster_used(sol, c)
}

/// Whether `sol` is a valid solution for `k` clusters.
pub fn valid_sol(sol: &Vec<usize>, k: u32) -> (valid: bool)
    ensures
        valid == spec_valid_sol(sol@, k as nat),
{
    let n = sol.len();
    let mut used: Vec<bool> = Vec::new();
    let mut c: u32 = 0;
    while c < k
        invariant
            c <= k,
            used@.len() == c,
            forall|x: int| 0 <= x < c ==> !#[trigger] used@[x],
        decreases k - c,
    {
        used.push(false);
        c = c + 1;
    }
    let mut p: usize = 0;
    while p < n
        invariant
            n == sol@.len(),
            p <= n,
            used@.len() == k,
            forall|q: int| 0 <= q < p ==> #[trigger] sol@[q] < k,
            forall|x: int| 0 <= x < k ==> (#[trigger] used@[x] <==> exists|q: int| 0 <= q < p && sol@[q] == x),
        decreases n - p,
    {
        let label = sol[p];
        if label >= k as usize {
            return false;
        }
        used.set(label, true);
        proof {
            assert forall|x: int| 0 <= x < k implies (#[trigger] used@[x] <==> exists|q: int| 0 <= q < p + 1 && sol@[q] == x) by {
                if x == label {
                    assert(sol@[p as int] == x);
                } else if exists|q: int| 0 <= q < p + 1 && sol@[q] == x {
                    let q = choose|q: int| 0 <= q < p + 1 && sol@[q] == x;
                    assert(q < p);
                }
            }
        }
        p = p + 1;
    }
    let mut c: usize = 0;
    while c < k as usize
        invariant
            n == sol@.len(),
            used@.len() == k,
            c <= k,
            forall|q: int| 0 <= q < n ==> #[trigger] sol@[q] < k,
            forall|x: int| 0 <= x < k ==> (#[trigger] used@[x] <==> exists|q: int| 0 <= q < n && sol@[q] == x),
            forall|x: int| 0 <= x < c ==> #[trigger] cluster_used(sol@, x),
        decreases k - c,
    {
        if !used[c] {
            assert(!cluster_used(sol@, c as int));
            return false;
        }
        c = c + 1;
    }
    true
}

/// The points `n - 1` down to `0`.
fn points_descending(n: usize) -> (order: Vec<usize>)
    ensures
        is_point_permutation(order@, n as nat),
        forall|j: int| 0 <= j < n ==> #[trigger] order@[j] == n - 1 - j,
{
    let mut order: Vec<usize> = Vec::new();
    let mut i = n;
    while i > 0
        invariant
            i <= n,
            order@.len() == n - i,
            forall|j: int| 0 <= j < order@.len() ==> #[trigger] order@[j] == n - 1 - j,
        decreases i,
    {
        i = i - 1;
        order.push(i);
    }
    assert forall|x: usize| x < n implies order@.contains(x) by {
        assert(order@[n - 1 - x] == x);
    }
    order
}

pub(crate) proof fn lemma_shuffle_keeps_permutation(before: Seq<usize>, after: Seq<usize>, n: nat)
    requires
        is_point_permutation(before, n),
        after.to_multiset() == before.to_multiset(),
    ensures
        is_point_permutation(after, n),
{
    broadcast use vstd::seq_lib::group_to_multiset_ensures;

    before.lemma_multiset_has_no_duplicates();
    assert(after.len() == after.to_multiset().len());
    assert(before.len() == before.to_multiset().len());
    assert forall|x: usize| after.to_multiset().contains(x) implies after.to_multiset().count(x) == 1 by {
        assert(before.to_multiset().contains(x));
    }
    after.lemma_multiset_has_no_duplicates_conv();
    assert forall|i: int| 0 <= i < after.len() implies #[trigger] after[i] < n by {
        assert(after.contains(after[i]));
        assert(before.to_multiset().count(after[i]) > 0);
        assert(before.contains(after[i]));
    }
    assert forall|x: usize| x < n implies after.contains(x) by {
        assert(before.contains(x));
        assert(after.to_multiset().count(x) > 0);
    }
}

/// Labels for visiting the points in `order`, in closed form: the first `k`
/// points visited open clusters `k - 1` down to `0`, and every later point
/// goes to its nearest centre.
pub open spec fn visit_labels(order: Seq<usize>, dist: Seq<Vec<u32>>, k: nat, labels: Seq<usize>) -> bool {
    &&& forall|i: int| 0 <= i < order.len() && i < k ==> #[trigger] labels[order[i] as int] == k - 1 - i
    &&& forall|i: int| k <= i < order.len() ==> #[trigger] labels[order[i] as int] == nearest_centre(
        dist[order[i] as int]@,
        k,
    )
}

/// Labels every point with a cluster: the points are visited in an order that
/// the generator shuffles, and each goes to the last empty cluster while there
/// is one, otherwise to its nearest centre.
///
/// `dist[p][c]` is the distance from point `p` to centre `c`. Whatever order
/// the generator gives, the first `k` points visited open clusters `k - 1`
/// down to `0` and every later point goes to its nearest centre, so the
/// labelling is valid. Distances are compared only for points visited after
/// the first `k`, hence only when there are more points than clusters.
pub fn cluster_assignation(
    dist: &Vec<Vec<u32>>,
    rest: &Vec<Vec<i8>>,
    k: u32,
    _id: u64,
    rng: &mut StdRng,
) -> (clusters: Vec<usize>)
    requires
        k < u32::MAX,
        dist@.len() > 0 ==> k >= 1,
        k <= dist@.len(),
        forall|p: int| 0 <= p < dist@.len() ==> placeable(dist@, rest@, k as nat, p),
        k >= 2 && dist@.len() > k ==> forall|p: int| 0 <= p < dist@.len() ==> nan_free_row(dist@, p, k as nat),
    ensures
        exists|order: Seq<usize>|
            #![trigger is_point_permutation(order, dist@.len())]
            is_point_permutation(order, dist@.len()) && clusters@ == assignment(
                order,
                dist@,
                dist@.len(),
                k as nat,
                dist@.len(),
            ).0 && visit_labels(order, dist@, k as nat, clusters@),
        clusters@.len() == dist@.len(),
        spec_valid_sol(clusters@, k as nat),
{
    let n = dist.len();
    let mut order = points_descending(n);
    let ghost before = order@;
    shuffle_indices(&mut order, rng);
    proof {
        lemma_shuffle_keeps_permutation(before, order@, n as nat);
    }
    let clusters = assign_clusters(&order, dist, rest, k);
    proof {
        if n > 0 {
            lemma_assignment_valid(order@, dist@, n as nat, k as nat);
        }
        lemma_assignment_shape(order@, dist@, n as nat, k as nat, n as nat);
    }
    clusters
}

} // verus!
