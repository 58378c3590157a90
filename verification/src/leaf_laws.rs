//! The two ways of building a pruned leaf compared: from a matrix of dot products, and by measuring
//! pair by pair.

use crate::arith::Arithmetic;
use crate::knn::Edge;
use crate::ladder::ladder;
use crate::leaf_build::{cell_of, leaf_matrix};
use crate::leaf_robust::{
    candidate_matrix, direct_entry, direct_matrix, leaf_candidates, leaf_choice, listed_distances,
    node_edges, others, pruned_leaf_edges,
};
use crate::measure::PairTable;
use crate::metric::Metric;
use crate::number::Real;
use crate::prune::{
    climb, climb_valid, near_to_far, occluded, position_ratio, pruned, taken_valid, walk,
};
use vstd::prelude::*;

verus! {

/// Two tables of occlusion ratios lead to the same verdicts at every threshold.
pub open spec fn same_verdicts(a: PairTable, b: PairTable, n: int, alphas: Seq<Real>) -> bool {
    forall|r: int, s: int, p: int|
        0 <= r < alphas.len() && 0 <= p < s < n ==> (#[trigger] alphas[r]).lt(#[trigger] a(s, p))
            == alphas[r].lt(b(s, p))
}

proof fn walk_alike(
    a: PairTable,
    b: PairTable,
    taken: Seq<int>,
    s: int,
    n: int,
    degree: int,
    alphas: Seq<Real>,
    r: int,
)
    requires
        same_verdicts(a, b, n, alphas),
        0 <= r < alphas.len(),
        0 <= s,
        forall|k: int| 0 <= k < taken.len() ==> 0 <= #[trigger] taken[k],
    ensures
        walk(a, taken, s, n, degree, alphas[r]) == walk(b, taken, s, n, degree, alphas[r]),
    decreases n - s,
{
    if s < n && taken.len() < degree {
        let alpha = alphas[r];
        assert(occluded(a, taken, s, alpha) == occluded(b, taken, s, alpha)) by {
            if occluded(a, taken, s, alpha) {
                let k = choose|k: int|
                    0 <= k < taken.len() && #[trigger] taken[k] < s && alpha.lt(a(s, taken[k]));
                assert(alphas[r].lt(a(s, taken[k])) == alphas[r].lt(b(s, taken[k])));
            }
            if occluded(b, taken, s, alpha) {
                let k = choose|k: int|
                    0 <= k < taken.len() && #[trigger] taken[k] < s && alpha.lt(b(s, taken[k]));
                assert(alphas[r].lt(a(s, taken[k])) == alphas[r].lt(b(s, taken[k])));
            }
        }
        if taken.contains(s) || occluded(a, taken, s, alpha) {
            walk_alike(a, b, taken, s + 1, n, degree, alphas, r);
        } else {
            walk_alike(a, b, taken.push(s), s + 1, n, degree, alphas, r);
        }
    }
}

proof fn climb_alike(
    a: PairTable,
    b: PairTable,
    n: int,
    degree: int,
    alphas: Seq<Real>,
    rounds: int,
)
    requires
        same_verdicts(a, b, n, alphas),
        0 <= degree,
        rounds <= alphas.len(),
    ensures
        climb(a, n, degree, alphas, rounds) == climb(b, n, degree, alphas, rounds),
    decreases rounds,
{
    if rounds > 0 {
        climb_alike(a, b, n, degree, alphas, rounds - 1);
        let taken = climb(a, n, degree, alphas, rounds - 1);
        climb_valid(a, n, degree, alphas, rounds - 1);
        assert(taken_valid(taken, n, degree));
        walk_alike(a, b, taken, 0, n, degree, alphas, rounds - 1);
    }
}

/// Pruning takes the same positions from tables that lead to the same verdicts.
pub proof fn pruned_alike(
    a: PairTable,
    b: PairTable,
    n: int,
    degree: int,
    alphas: Seq<Real>,
    saturate: bool,
)
    requires
        same_verdicts(a, b, n, alphas),
        0 <= degree,
    ensures
        pruned(a, n, degree, alphas, saturate) == pruned(b, n, degree, alphas, saturate),
{
    climb_alike(a, b, n, degree, alphas, alphas.len() as int);
}

/// The ratios between the mates of position `i`, from near to far.
pub open spec fn mate_ratios<A: Arithmetic>(ops: A, dm: Seq<Real>, n: int, i: int) -> PairTable {
    let mates = others(n, i);
    position_ratio(
        listed_distances(dm, n, i, mates),
        mates.len() as int,
        candidate_matrix(dm, n, mates),
        ops,
    )
}

/// The mates of position `i` from near to far.
pub open spec fn mate_order(dm: Seq<Real>, n: int, i: int) -> Seq<int> {
    let mates = others(n, i);
    near_to_far(listed_distances(dm, n, i, mates), mates.len() as int)
}

/// Two distance matrices of a leaf decide alike up to the threshold `alpha`: they order the mates
/// of every position in the same way, and no occlusion ratio crosses a threshold between them.
/// Rounding that stays clear of ties does not matter.
pub open spec fn decide_alike<A: Arithmetic>(
    ops: A,
    a: Seq<Real>,
    b: Seq<Real>,
    n: int,
    alpha: Real,
) -> bool {
    forall|i: int|
        0 <= i < n ==> {
            &&& #[trigger] mate_order(a, n, i) == mate_order(b, n, i)
            &&& same_verdicts(
                mate_ratios(ops, a, n, i),
                mate_ratios(ops, b, n, i),
                n - 1,
                ladder(ops, alpha),
            )
        }
}

/// The pairs of points that edges join.
pub open spec fn joined(edges: Seq<Edge>) -> Seq<(usize, usize)> {
    edges.map_values(|e: Edge| (e.src, e.dst))
}

/// Pruned leaves from matrices that decide alike join the same pairs, if one has all mates as
/// candidates and the other at least as many as there are.
pub proof fn leaves_join_alike<A: Arithmetic>(
    ops: A,
    a: Seq<Real>,
    b: Seq<Real>,
    n: int,
    indices: Seq<usize>,
    m: int,
    k: usize,
    max_degree: int,
    alpha: Real,
)
    requires
        decide_alike(ops, a, b, n, alpha),
        k >= n - 1,
        0 <= m <= n,
        0 <= max_degree,
    ensures
        joined(pruned_leaf_edges(ops, a, n, indices, m, Some(k), max_degree, alpha, true))
            == joined(pruned_leaf_edges(ops, b, n, indices, m, None, max_degree, alpha, true)),
    decreases m,
{
    let one = pruned_leaf_edges(ops, a, n, indices, m, Some(k), max_degree, alpha, true);
    let two = pruned_leaf_edges(ops, b, n, indices, m, None, max_degree, alpha, true);
    if m > 0 {
        let i = m - 1;
        leaves_join_alike(ops, a, b, n, indices, i, k, max_degree, alpha);
        let before_one = pruned_leaf_edges(
            ops,
            a,
            n,
            indices,
            i,
            Some(k),
            max_degree,
            alpha,
            true,
        );
        let before_two = pruned_leaf_edges(ops, b, n, indices, i, None, max_degree, alpha, true);
        let fresh_one = node_edges(ops, a, n, indices, i, Some(k), max_degree, alpha, true);
        let fresh_two = node_edges(ops, b, n, indices, i, None, max_degree, alpha, true);
        let mates = others(n, i);
        assert(leaf_candidates(a, n, i, Some(k)) == mates);
        assert(leaf_candidates(b, n, i, None) == mates);
        assert(mate_order(a, n, i) == mate_order(b, n, i));
        let nc = mates.len() as int;
        assert(nc == n - 1);
        let degree = if max_degree <= nc { max_degree } else { nc };
        pruned_alike(
            mate_ratios(ops, a, n, i),
            mate_ratios(ops, b, n, i),
            nc,
            degree,
            ladder(ops, alpha),
            false,
        );
        let chosen_one = leaf_choice(ops, a, n, i, Some(k), max_degree, alpha, true);
        let chosen_two = leaf_choice(ops, b, n, i, None, max_degree, alpha, true);
        assert(chosen_one =~= chosen_two);
        assert(joined(fresh_one) =~= joined(fresh_two));
        assert(joined(one) =~= joined(before_one) + joined(fresh_one));
        assert(joined(two) =~= joined(before_two) + joined(fresh_two));
    } else {
        assert(joined(one) =~= joined(two));
    }
}

/// With at least as many candidates asked for as a point has mates, a leaf that is built from dot
/// products joins the same pairs as one whose distances are measured pair by pair, if the two
/// distance matrices decide alike.
pub proof fn builders_join_alike<A: Arithmetic, D: Fn(&[Real], &[Real]) -> Real>(
    ops: A,
    dist_fn: D,
    metric: Metric,
    data: Seq<Real>,
    ndims: int,
    indices: Seq<usize>,
    leaf_k: usize,
    max_degree: int,
    alpha: Real,
)
    requires
        leaf_k >= indices.len() - 1,
        0 <= max_degree,
        decide_alike(
            ops,
            leaf_matrix(ops, metric, data, ndims, indices),
            direct_matrix(dist_fn, data, ndims, indices),
            indices.len() as int,
            alpha,
        ),
    ensures
        ({
            let n = indices.len() as int;
            joined(
                pruned_leaf_edges(
                    ops,
                    leaf_matrix(ops, metric, data, ndims, indices),
                    n,
                    indices,
                    n,
                    Some(leaf_k),
                    max_degree,
                    alpha,
                    true,
                ),
            ) == joined(
                pruned_leaf_edges(
                    ops,
                    direct_matrix(dist_fn, data, ndims, indices),
                    n,
                    indices,
                    n,
                    None,
                    max_degree,
                    alpha,
                    true,
                ),
            )
        }),
{
    leaves_join_alike(
        ops,
        leaf_matrix(ops, metric, data, ndims, indices),
        direct_matrix(dist_fn, data, ndims, indices),
        indices.len() as int,
        indices,
        indices.len() as int,
        leaf_k,
        max_degree,
        alpha,
    );
}

/// Where every measured distance is the one from the dot products, the two distance matrices are
/// the same, and so decide alike.
pub proof fn equal_distances_decide_alike<A: Arithmetic, D: Fn(&[Real], &[Real]) -> Real>(
    ops: A,
    dist_fn: D,
    metric: Metric,
    data: Seq<Real>,
    ndims: int,
    indices: Seq<usize>,
    alpha: Real,
)
    requires
        ({
            let n = indices.len() as int;
            forall|i: int, j: int|
                0 <= i < n && 0 <= j < n && i != j ==> #[trigger] direct_entry(
                    dist_fn,
                    data,
                    ndims,
                    indices,
                    i,
                    j,
                ) == leaf_matrix(ops, metric, data, ndims, indices)[i * n + j]
        }),
    ensures
        leaf_matrix(ops, metric, data, ndims, indices) == direct_matrix(
            dist_fn,
            data,
            ndims,
            indices,
        ),
        decide_alike(
            ops,
            leaf_matrix(ops, metric, data, ndims, indices),
            direct_matrix(dist_fn, data, ndims, indices),
            indices.len() as int,
            alpha,
        ),
{
    let n = indices.len() as int;
    let a = leaf_matrix(ops, metric, data, ndims, indices);
    let b = direct_matrix(dist_fn, data, ndims, indices);
    assert(0 <= n * n) by (nonlinear_arith);
    assert forall|x: int| 0 <= x < n * n implies a[x] == b[x] by {
        assert(n > 0) by (nonlinear_arith)
            requires
                0 <= x < n * n,
                n >= 0,
        ;
        cell_of(n, x);
        let i = x / n;
        let j = x % n;
        if i != j {
            assert(direct_entry(dist_fn, data, ndims, indices, i, j) == a[i * n + j]);
        }
    }
    assert(a =~= b);
}

} // verus!
