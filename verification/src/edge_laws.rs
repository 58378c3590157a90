//! Which points of a leaf are joined, in terms of the distances in it.

use crate::arith::Arithmetic;
use crate::exact::total;
use crate::graph_laws::{all_ranked, knn_edge_leaves, largest_diagonal};
use crate::knn::{
    both_ways, both_ways_law, has_pair, knn_edge, knn_edges, knn_width, matrix_row, matrix_table,
    nearest_points, with_edge, Edge, LocalEdge,
};
use crate::ladder::{ladder, rising};
use crate::leaf::{
    closer, leaf_row, leaf_row_nearest, nearest_below, nearest_below_valid, rankable,
    rankable_below, result_row, triangle_distances, LeafNeighbor, LeafTopK, RowDistances,
};
use crate::leaf_build::leaf_edges;
use crate::leaf_robust::{
    candidate_matrix, leaf_candidates, leaf_choice, listed_distances, node_edges, others,
    pruned_leaf_edges,
};
use crate::measure::PairTable;
use crate::metric::Metric;
use crate::number::Real;
use crate::prune::rank_keys;
use crate::prune_laws::{lesser, saturation_adds_nearest, selection_is_diverse};
use crate::quantized::ranked_leaf_has_neighbors;
use crate::sort::{argsort, argsort_ascending, ascending_covers, before};
use vstd::prelude::*;

verus! {

/// Position `b` is among the `w` nearest to position `a` that the edges name.
pub open spec fn named(edges: Seq<LocalEdge>, w: int, a: int, b: int) -> bool {
    exists|t: int| 0 <= t < w && (#[trigger] edges[a * w + t]).1 == b
}

proof fn edge_place(n: int, w: int, i: int, t: int)
    requires
        0 <= i < n,
        0 <= t < w,
    ensures
        0 <= i * w + t < n * w,
        (i * w + t) / w == i,
        (i * w + t) % w == t,
{
    vstd::arithmetic::div_mod::lemma_fundamental_div_mod_converse(i * w + t, w, i, t);
    assert(0 <= i * w + t < n * w) by (nonlinear_arith)
        requires
            0 <= i < n,
            0 <= t < w,
    ;
}

/// Every point of a leaf gets as many neighbours as are asked for and there are others, each a
/// different other point, at the distance that the matrix has for the two, and no point that is
/// left out is nearer than one of them.
pub proof fn points_get_nearest(dm: Seq<Real>, n: int, k: int, i: int)
    requires
        0 <= i < n <= u32::MAX,
        0 <= k,
        n * n <= dm.len(),
        all_ranked(dm, n),
        largest_diagonal(dm, n),
    ensures
        ({
            let w = lesser(k, n - 1);
            let edges = knn_edges(dm, n, k);
            &&& edges.len() == n * w
            &&& forall|t: int|
                0 <= t < w ==> {
                    let e = #[trigger] edges[i * w + t];
                    e.0 == i && e.1 < n && e.1 != i && e.2 == dm[i * n + e.1]
                }
            &&& forall|t: int, u: int|
                0 <= t < u < w ==> (#[trigger] edges[i * w + t]).1 != (#[trigger] edges[i * w + u]).1
            &&& forall|t: int, q: int|
                0 <= t < w && 0 <= q < n && q != i && !#[trigger] named(edges, w, i, q) ==> (
                #[trigger] edges[i * w + t]).2.rank() <= dm[i * n + q].rank()
        }),
{
    let w = lesser(k, n - 1);
    let edges = knn_edges(dm, n, k);
    assert(w == knn_width(n, k));
    ranked_leaf_has_neighbors(dm, n, k);
    let dist = matrix_row(dm, n, i);
    let row = dm.subrange(i * n, i * n + n);
    let keys = rank_keys(row);
    let order = argsort(keys);
    let near = nearest_below(dist, i, n);
    let listed = leaf_row(dist, i, n, w);
    crate::measure::row_bounds(i, n, n);
    argsort_ascending(keys);
    nearest_below_valid(dist, i, n);
    leaf_row_nearest(dist, i, n, w);
    assert forall|t: int| 0 <= t < w implies #[trigger] edges[i * w + t] == knn_edge(
        dm,
        n,
        w,
        i,
        t,
    ) by {
        edge_place(n, w, i, t);
    }
    assert forall|t: int| 0 <= t < w implies {
        let e = #[trigger] edges[i * w + t];
        e.0 == i && e.1 < n && e.1 != i && e.2 == dm[i * n + e.1]
    } by {
        knn_edge_leaves(dm, n, k, i, t);
        if w <= 3 {
            assert(near.len() >= w);
            assert(0 <= near[t] < n && rankable(dist, i, near[t]));
            assert(listed[t] == (LeafNeighbor { position: near[t] as u32, distance: dist(near[t]) }));
        } else {
            assert(0 <= order[t] < keys.len());
        }
    }
    assert forall|t: int, u: int| 0 <= t < u < w implies (#[trigger] edges[i * w + t]).1 != (
    #[trigger] edges[i * w + u]).1 by {
        if w <= 3 {
            assert(closer(listed[t], listed[u]));
            assert(listed[t].position == edges[i * w + t].1);
            assert(listed[u].position == edges[i * w + u].1);
            assert(edges[i * w + t].2 == listed[t].distance);
            assert(edges[i * w + u].2 == listed[u].distance);
        } else {
            assert(before(keys, order[t], order[u]));
            assert(order[t] != order[u]);
            assert(0 <= order[t] < keys.len() && 0 <= order[u] < keys.len());
        }
    }
    assert forall|t: int, q: int|
        0 <= t < w && 0 <= q < n && q != i && !#[trigger] named(edges, w, i, q) implies (
    #[trigger] edges[i * w + t]).2.rank() <= dm[i * n + q].rank() by {
        if w <= 3 {
            assert(rankable(dist, i, q));
            let own = LeafNeighbor { position: q as u32, distance: dist(q) };
            if listed.contains(own) {
                let u = choose|u: int| 0 <= u < listed.len() && listed[u] == own;
                assert(edges[i * w + u].1 == q);
            }
            assert(closer(listed[t], own));
            assert(edges[i * w + t].2 == listed[t].distance);
        } else {
            ascending_covers(keys, order, q);
            let s = choose|s: int| 0 <= s < order.len() && #[trigger] order[s] == q;
            if s < w {
                assert(edges[i * w + s].1 == q);
            }
            assert(before(keys, order[t], order[s]));
            assert(0 <= order[t] < keys.len());
            assert(keys[order[t]] == row[order[t]].rank() as u64);
            assert(keys[q] == row[q].rank() as u64);
            assert(row[q] == dm[i * n + q]);
            assert(row[order[t]] == dm[i * n + order[t]]);
        }
    }
}

proof fn both_ways_distances(local: Seq<LocalEdge>, table: PairTable)
    requires
        forall|x: int|
            0 <= x < local.len() ==> (#[trigger] local[x]).2 == table(
                local[x].0 as int,
                local[x].1 as int,
            ),
    ensures
        forall|x: int|
            0 <= x < both_ways(local, table).len() ==> (#[trigger] both_ways(local, table)[x]).2
                == table(both_ways(local, table)[x].0 as int, both_ways(local, table)[x].1 as int),
    decreases local.len(),
{
    if local.len() > 0 {
        let front = local.drop_last();
        let e = local.last();
        assert forall|x: int| 0 <= x < front.len() implies (#[trigger] front[x]).2 == table(
            front[x].0 as int,
            front[x].1 as int,
        ) by {
            assert(front[x] == local[x]);
        }
        both_ways_distances(front, table);
        assert(e == local[local.len() - 1]);
        let there = with_edge(both_ways(front, table), e.0, e.1, e.2);
        assert forall|x: int| 0 <= x < there.len() implies (#[trigger] there[x]).2 == table(
            there[x].0 as int,
            there[x].1 as int,
        ) by {
            if x < both_ways(front, table).len() {
                assert(there[x] == both_ways(front, table)[x]);
            }
        }
    }
}

/// There is an edge between two points of a leaf, at the distance of their positions `a` and `b`.
pub open spec fn joined(
    edges: Seq<Edge>,
    dm: Seq<Real>,
    n: int,
    indices: Seq<usize>,
    a: int,
    b: int,
) -> bool {
    edges.contains(Edge { src: indices[a], dst: indices[b], distance: dm[a * n + b] })
}

/// One of two positions is among the nearest of the other.
pub open spec fn near_or_back(local: Seq<LocalEdge>, w: int, a: int, b: int) -> bool {
    named(local, w, a, b) || named(local, w, b, a)
}

/// An edge joins two points of a leaf of which one is among the nearest of the other, at their
/// distance in its direction.
pub open spec fn joins_near(
    dm: Seq<Real>,
    n: int,
    k: int,
    indices: Seq<usize>,
    e: Edge,
) -> bool {
    exists|a: int, b: int|
        {
            &&& #[trigger] near_or_back(knn_edges(dm, n, k), lesser(k, n - 1), a, b)
            &&& 0 <= a < n
            &&& 0 <= b < n
            &&& a != b
            &&& e == (Edge { src: indices[a], dst: indices[b], distance: dm[a * n + b] })
        }
}

/// A leaf joins two points, in both directions, if and only if one is among the nearest of the
/// other; and every edge is such a one, at the distance that the matrix has for its direction.
pub proof fn leaf_joins_nearest(dm: Seq<Real>, n: int, k: int, indices: Seq<usize>)
    requires
        0 < n == indices.len() <= u32::MAX,
        0 <= k,
        n * n <= dm.len(),
        all_ranked(dm, n),
        largest_diagonal(dm, n),
    ensures
        ({
            let w = lesser(k, n - 1);
            let local = knn_edges(dm, n, k);
            let edges = leaf_edges(dm, n, k, indices);
            &&& forall|a: int, b: int|
                0 <= a < n && 0 <= b < n && #[trigger] named(local, w, a, b) ==> joined(
                    edges,
                    dm,
                    n,
                    indices,
                    a,
                    b,
                ) && joined(edges, dm, n, indices, b, a)
            &&& forall|x: int|
                0 <= x < edges.len() ==> joins_near(dm, n, k, indices, #[trigger] edges[x])
        }),
{
    let w = lesser(k, n - 1);
    let local = knn_edges(dm, n, k);
    let table = matrix_table(dm, n);
    let list = both_ways(local, table);
    let edges = leaf_edges(dm, n, k, indices);
    assert(w == knn_width(n, k));
    points_get_nearest(dm, n, k, 0);
    assert forall|x: int| 0 <= x < local.len() implies {
        let e = #[trigger] local[x];
        &&& e.0 < n && e.1 < n && e.0 != e.1
        &&& e.2 == table(e.0 as int, e.1 as int)
        &&& named(local, w, e.0 as int, e.1 as int)
    } by {
        let i = x / w;
        let t = x % w;
        assert(w > 0) by (nonlinear_arith)
            requires
                0 <= x < n * w,
                n > 0,
        ;
        vstd::arithmetic::div_mod::lemma_fundamental_div_mod(x, w);
        vstd::arithmetic::div_mod::lemma_mod_bound(x, w);
        assert(0 <= i < n) by (nonlinear_arith)
            requires
                0 <= x < n * w,
                x == w * i + t,
                0 <= t < w,
        ;
        assert(x == i * w + t) by (nonlinear_arith)
            requires
                x == w * i + t,
        ;
        points_get_nearest(dm, n, k, i);
        assert(local[i * w + t].0 == i);
    }
    both_ways_distances(local, table);
    both_ways_law(local, table);
    assert forall|a: int, b: int|
        0 <= a < n && 0 <= b < n && #[trigger] named(local, w, a, b) implies has_pair(local, a, b) by {
        let t = choose|t: int| 0 <= t < w && (#[trigger] local[a * w + t]).1 == b;
        points_get_nearest(dm, n, k, a);
        edge_place(n, w, a, t);
        assert(local[a * w + t].0 == a);
    }
    assert forall|a: int, b: int| 0 <= a < n && 0 <= b < n && has_pair(list, a, b) implies joined(
        edges,
        dm,
        n,
        indices,
        a,
        b,
    ) by {
        let x = choose|x: int| 0 <= x < list.len() && (#[trigger] list[x]).0 == a && list[x].1 == b;
        assert(list[x].2 == table(a, b));
        assert(edges[x] == (Edge { src: indices[a], dst: indices[b], distance: dm[a * n + b] }));
    }
    assert forall|a: int, b: int|
        0 <= a < n && 0 <= b < n && #[trigger] named(local, w, a, b) implies joined(
        edges,
        dm,
        n,
        indices,
        a,
        b,
    ) && joined(edges, dm, n, indices, b, a) by {
        assert(has_pair(local, a, b));
        assert(has_pair(list, a, b));
        assert(has_pair(list, b, a));
    }
    assert forall|x: int| 0 <= x < edges.len() implies joins_near(
        dm,
        n,
        k,
        indices,
        #[trigger] edges[x],
    ) by {
        let a = list[x].0 as int;
        let b = list[x].1 as int;
        assert(has_pair(list, a, b));
        assert(list[x].2 == table(a, b));
        if has_pair(local, a, b) {
            let y = choose|y: int|
                0 <= y < local.len() && (#[trigger] local[y]).0 == a && local[y].1 == b;
            assert(named(local, w, a, b));
        } else {
            let y = choose|y: int|
                0 <= y < local.len() && (#[trigger] local[y]).0 == b && local[y].1 == a;
            assert(named(local, w, b, a));
        }
        assert(edges[x] == (Edge { src: indices[a], dst: indices[b], distance: dm[a * n + b] }));
        assert(near_or_back(local, w, a, b));
    }
}

/// The candidates of a position are different other positions: as many as are asked for and there
/// are, and none that is left out is nearer than one of them.
pub proof fn candidates_are_nearest(dm: Seq<Real>, n: int, i: int, leaf_k: Option<usize>)
    requires
        0 <= i < n,
        n * n <= dm.len(),
    ensures
        ({
            let list = leaf_candidates(dm, n, i, leaf_k);
            &&& list.len() == match leaf_k {
                Some(k) => lesser(k as int, n - 1),
                None => n - 1,
            }
            &&& list.no_duplicates()
            &&& forall|x: int| 0 <= x < list.len() ==> 0 <= #[trigger] list[x] < n && list[x] != i
            &&& forall|x: int, q: int|
                #![trigger list[x], list.contains(q)]
                0 <= x < list.len() && 0 <= q < n && q != i && !list.contains(q) ==> dm[i * n
                    + list[x]].rank() <= dm[i * n + q].rank()
        }),
{
    let all = others(n, i);
    let list = leaf_candidates(dm, n, i, leaf_k);
    let dists = listed_distances(dm, n, i, all);
    let keys = rank_keys(dists);
    let order = argsort(keys);
    argsort_ascending(keys);
    if leaf_k is Some && leaf_k->0 < n - 1 {
        let k = leaf_k->0;
        assert forall|x: int| 0 <= x < k implies 0 <= #[trigger] list[x] < n && list[x] != i by {
            assert(0 <= order[x] < keys.len());
        }
        assert forall|x: int, y: int|
            0 <= x < list.len() && 0 <= y < list.len() && x != y implies list[x] != list[y] by {
            if x < y {
                assert(before(keys, order[x], order[y]));
            } else {
                assert(before(keys, order[y], order[x]));
            }
            assert(0 <= order[x] < keys.len() && 0 <= order[y] < keys.len());
            assert(order[x] != order[y]);
        }
        assert forall|x: int, q: int|
            #![trigger list[x], list.contains(q)]
            0 <= x < list.len() && 0 <= q < n && q != i && !list.contains(q) implies dm[i * n
            + list[x]].rank() <= dm[i * n + q].rank() by {
            let p = if q < i {
                q
            } else {
                q - 1
            };
            assert(all[p] == q);
            ascending_covers(keys, order, p);
            let s = choose|s: int| 0 <= s < order.len() && #[trigger] order[s] == p;
            if s < k {
                assert(list[s] == q);
            }
            assert(before(keys, order[x], order[s]));
            assert(0 <= order[x] < keys.len());
            assert(keys[order[x]] == dists[order[x]].rank() as u64);
            assert(keys[p] == dists[p].rank() as u64);
        }
    } else {
        assert(list == all);
        assert forall|q: int| 0 <= q < n && q != i implies list.contains(q) by {
            let p = if q < i {
                q
            } else {
                q - 1
            };
            assert(list[p] == q);
        }
    }
}

/// The edges that leave a position of a pruned leaf lead to candidates, at the distances in the
/// matrix. Where nothing is pruned there is one for every candidate. Otherwise, where the
/// thresholds rise to one that is at least one, the far end of an edge is no closer to that of an
/// earlier, shorter edge than the threshold allows.
pub proof fn pruned_edges_spread_out<A: Arithmetic>(
    ops: A,
    dm: Seq<Real>,
    n: int,
    indices: Seq<usize>,
    i: int,
    leaf_k: Option<usize>,
    max_degree: int,
    alpha: Real,
    leaf_prune: bool,
) -> (to: Seq<int>)
    requires
        0 <= i < n == indices.len(),
        n * n <= dm.len(),
        0 <= max_degree,
    ensures
        ({
            let list = leaf_candidates(dm, n, i, leaf_k);
            let edges = node_edges(
                ops,
                dm,
                n,
                indices,
                i,
                leaf_k,
                max_degree,
                alpha,
                leaf_prune,
            );
            &&& edges.len() == to.len()
            &&& to.no_duplicates()
            &&& forall|x: int|
                0 <= x < to.len() ==> list.contains(#[trigger] to[x]) && edges[x] == (Edge {
                    src: indices[i],
                    dst: indices[to[x]],
                    distance: dm[i * n + to[x]],
                })
            &&& !leaf_prune ==> to == list
            &&& leaf_prune ==> to.len() <= max_degree
            &&& leaf_prune && Real::spec_one().le(alpha) && alpha.lt(Real::spec_max()) && rising(
                ladder(ops, alpha),
                alpha,
            ) ==> forall|x: int, y: int|
                0 <= x < y < to.len() && dm[i * n + #[trigger] to[x]].rank() < dm[i * n
                    + #[trigger] to[y]].rank() ==> {
                    let d = dm[to[y] * n + to[x]];
                    &&& Real::spec_zero().lt(d)
                    &&& !alpha.lt(ops.quotient(dm[i * n + to[y]], d))
                }
        }),
{
    let list = leaf_candidates(dm, n, i, leaf_k);
    let choice = leaf_choice(ops, dm, n, i, leaf_k, max_degree, alpha, leaf_prune);
    let dists = listed_distances(dm, n, i, list);
    let pair = candidate_matrix(dm, n, list);
    let nc = list.len() as int;
    candidates_are_nearest(dm, n, i, leaf_k);
    let to = choice.map_values(|s: int| list[s]);
    if leaf_prune {
        saturation_adds_nearest(nc, dists, max_degree, alpha, pair, ops);
        let full = crate::prune::selection(nc, dists, max_degree, alpha, true, pair, ops);
        assert forall|x: int| 0 <= x < choice.len() implies 0 <= #[trigger] choice[x] < nc by {
            assert(choice[x] == full[x]);
        }
        assert forall|x: int, y: int|
            0 <= x < choice.len() && 0 <= y < choice.len() && x != y implies choice[x]
            != choice[y] by {
            assert(full[x] != full[y]);
        }
        if Real::spec_one().le(alpha) && alpha.lt(Real::spec_max()) && rising(
            ladder(ops, alpha),
            alpha,
        ) {
            selection_is_diverse(nc, dists, max_degree, alpha, pair, ops);
            assert forall|x: int, y: int|
                0 <= x < y < to.len() && dm[i * n + #[trigger] to[x]].rank() < dm[i * n
                    + #[trigger] to[y]].rank() implies ({
                let d = dm[to[y] * n + to[x]];
                &&& Real::spec_zero().lt(d)
                &&& !alpha.lt(ops.quotient(dm[i * n + to[y]], d))
            }) by {
                assert(0 <= choice[x] < nc && 0 <= choice[y] < nc);
                assert(dists[choice[x]] == dm[i * n + to[x]]);
                assert(dists[choice[y]] == dm[i * n + to[y]]);
                assert(pair(choice[y], choice[x]) == dm[to[y] * n + to[x]]);
            }
        }
    } else {
        assert(to =~= list);
    }
    assert forall|x: int| 0 <= x < to.len() implies list.contains(#[trigger] to[x]) by {
        assert(0 <= choice[x] < nc);
        assert(to[x] == list[choice[x]]);
    }
    assert forall|x: int, y: int|
        0 <= x < to.len() && 0 <= y < to.len() && x != y implies to[x] != to[y] by {
        assert(0 <= choice[x] < nc && 0 <= choice[y] < nc && choice[x] != choice[y]);
        assert(list[choice[x]] != list[choice[y]]);
    }
    to
}

/// The edges of a pruned leaf are those that leave its positions, one position after another.
pub proof fn pruned_leaf_edges_are_flat<A: Arithmetic>(
    ops: A,
    dm: Seq<Real>,
    n: int,
    indices: Seq<usize>,
    m: nat,
    leaf_k: Option<usize>,
    max_degree: int,
    alpha: Real,
    leaf_prune: bool,
)
    ensures
        pruned_leaf_edges(
            ops,
            dm,
            n,
            indices,
            m as int,
            leaf_k,
            max_degree,
            alpha,
            leaf_prune,
        ) == Seq::new(
            m,
            |i: int|
                node_edges(ops, dm, n, indices, i, leaf_k, max_degree, alpha, leaf_prune),
        ).flatten(),
    decreases m,
{
    let parts = Seq::new(
        m,
        |i: int| node_edges(ops, dm, n, indices, i, leaf_k, max_degree, alpha, leaf_prune),
    );
    parts.lemma_flatten_and_flatten_alt_are_equivalent();
    if m > 0 {
        let less = (m - 1) as nat;
        pruned_leaf_edges_are_flat(
            ops,
            dm,
            n,
            indices,
            less,
            leaf_k,
            max_degree,
            alpha,
            leaf_prune,
        );
        let front = Seq::new(
            less,
            |i: int| node_edges(ops, dm, n, indices, i, leaf_k, max_degree, alpha, leaf_prune),
        );
        assert(parts.drop_last() =~= front);
        front.lemma_flatten_and_flatten_alt_are_equivalent();
    }
}

/// Two positions of a leaf are at the same distance seen from either.
pub proof fn triangle_is_symmetric<A: Arithmetic>(
    ops: A,
    metric: Metric,
    dots: Seq<Real>,
    points: int,
    t: int,
    p: int,
)
    ensures
        (triangle_distances(ops, metric, dots, points, t))(p) == (triangle_distances(
            ops,
            metric,
            dots,
            points,
            p,
        ))(t),
{
}

/// The nearest points to a query are as many as asked for and there are, none twice, each with its
/// own distance, from near to far, and no point that is left out is nearer than one of them.
pub proof fn nearest_points_are_nearest(dists: Seq<Real>, k: int)
    requires
        0 <= k,
        dists.len() <= usize::MAX,
    ensures
        ({
            let out = nearest_points(dists, k);
            &&& out.len() == lesser(k, dists.len() as int)
            &&& forall|i: int|
                0 <= i < out.len() ==> (#[trigger] out[i]).0 < dists.len() && out[i].1
                    == dists[out[i].0 as int]
            &&& forall|i: int, j: int|
                0 <= i < j < out.len() ==> (#[trigger] out[i]).0 != (#[trigger] out[j]).0
                    && out[i].1.rank() <= out[j].1.rank()
            &&& forall|p: int, i: int|
                #![trigger dists[p], out[i]]
                0 <= p < dists.len() && 0 <= i < out.len() && !gives(out, p) ==> out[i].1.rank()
                    <= dists[p].rank()
        }),
{
    let out = nearest_points(dists, k);
    let keys = rank_keys(dists);
    let order = argsort(keys);
    argsort_ascending(keys);
    assert forall|i: int| 0 <= i < out.len() implies (#[trigger] out[i]).0 < dists.len()
        && out[i].1 == dists[out[i].0 as int] && out[i].0 == order[i] && keys[order[i]]
        == out[i].1.rank() as u64 by {
        assert(0 <= order[i] < keys.len());
    }
    assert forall|i: int, j: int| 0 <= i < j < out.len() implies (#[trigger] out[i]).0 != (
    #[trigger] out[j]).0 && out[i].1.rank() <= out[j].1.rank() by {
        assert(before(keys, order[i], order[j]));
    }
    assert forall|p: int, i: int|
        #![trigger dists[p], out[i]]
        0 <= p < dists.len() && 0 <= i < out.len() && !gives(out, p) implies out[i].1.rank()
        <= dists[p].rank() by {
        ascending_covers(keys, order, p);
        let s = choose|s: int| 0 <= s < order.len() && #[trigger] order[s] == p;
        if s < out.len() {
            assert(out[s].0 == p);
        }
        assert(before(keys, order[i], order[s]));
        assert(keys[p] == dists[p].rank() as u64);
    }
}

/// A list of points with distances names point `p`.
pub open spec fn gives(out: Seq<(usize, Real)>, p: int) -> bool {
    exists|i: int| 0 <= i < out.len() && (#[trigger] out[i]).0 == p
}

/// One for each of the first `m` positions that can be a neighbour of position `t`: another one, at
/// a distance below the largest number.
pub open spec fn rankable_marks(dist: RowDistances, t: int, m: nat) -> Seq<int> {
    Seq::new(
        m,
        |p: int|
            if p != t && dist(p).lt(Real::spec_max()) {
                1int
            } else {
                0int
            },
    )
}

/// The positions that can be neighbours are counted one by one.
pub proof fn rankable_are_counted(dist: RowDistances, t: int, m: nat)
    ensures
        rankable_below(dist, t, m as int).len() == total(rankable_marks(dist, t, m)),
    decreases m,
{
    let marks = rankable_marks(dist, t, m);
    if m > 0 {
        rankable_are_counted(dist, t, (m - 1) as nat);
        assert(marks.drop_last() =~= rankable_marks(dist, t, (m - 1) as nat));
    } else {
        assert(marks =~= Seq::<int>::empty());
    }
}

/// A row of the result names different other positions, each at its distance from the row's own,
/// from near to far; a position that could be named but is not is no nearer than any that is.
pub proof fn rows_name_nearest<A: Arithmetic>(ops: A, input: LeafTopK<'_>, t: int, k: int)
    requires
        0 <= t < input.points <= u32::MAX,
        0 <= k,
        k <= total(
            rankable_marks(
                triangle_distances(ops, input.metric, input.dots@, input.points as int, t),
                t,
                input.points as nat,
            ),
        ),
    ensures
        ({
            let dist = triangle_distances(ops, input.metric, input.dots@, input.points as int, t);
            let out = result_row(ops, input, t, k);
            &&& out.len() == k
            &&& forall|i: int|
                0 <= i < k ==> (#[trigger] out[i]).position < input.points && out[i].position != t
                    && out[i].distance == dist(out[i].position as int)
            &&& forall|i: int, j: int|
                0 <= i < j < k ==> (#[trigger] out[i]).position != (#[trigger] out[j]).position
                    && out[i].distance.rank() <= out[j].distance.rank()
            &&& forall|p: int, i: int|
                #![trigger dist(p), out[i]]
                0 <= p < input.points && p != t && dist(p).lt(Real::spec_max()) && 0 <= i < k
                    && !row_names(out, p) ==> out[i].distance.rank() <= dist(p).rank()
        }),
{
    let n = input.points as int;
    let dist = triangle_distances(ops, input.metric, input.dots@, n, t);
    let out = result_row(ops, input, t, k);
    let near = nearest_below(dist, t, n);
    rankable_are_counted(dist, t, n as nat);
    nearest_below_valid(dist, t, n);
    leaf_row_nearest(dist, t, n, k);
    assert forall|i: int| 0 <= i < k implies (#[trigger] out[i]).position < n && out[i].position
        != t && out[i].distance == dist(out[i].position as int) by {
        assert(0 <= near[i] < n && rankable(dist, t, near[i]));
        assert(out[i] == (LeafNeighbor { position: near[i] as u32, distance: dist(near[i]) }));
    }
    assert forall|i: int, j: int| 0 <= i < j < k implies (#[trigger] out[i]).position != (
    #[trigger] out[j]).position && out[i].distance.rank() <= out[j].distance.rank() by {
        assert(closer(leaf_row(dist, t, n, k)[i], leaf_row(dist, t, n, k)[j]));
    }
    assert forall|p: int, i: int|
        #![trigger dist(p), out[i]]
        0 <= p < n && p != t && dist(p).lt(Real::spec_max()) && 0 <= i < k && !row_names(
            out,
            p,
        ) implies out[i].distance.rank() <= dist(p).rank() by {
        assert(rankable(dist, t, p));
        let own = LeafNeighbor { position: p as u32, distance: dist(p) };
        if leaf_row(dist, t, n, k).contains(own) {
            let u = choose|u: int| 0 <= u < out.len() && out[u] == own;
            assert(out[u].position == p);
        }
        assert(closer(leaf_row(dist, t, n, k)[i], own));
    }
}

/// A row of the result names position `p`.
pub open spec fn row_names(out: Seq<LeafNeighbor>, p: int) -> bool {
    exists|i: int| 0 <= i < out.len() && (#[trigger] out[i]).position == p
}

} // verus!
