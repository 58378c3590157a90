//! What holds of every graph that is built: bounded degrees, no point as its own neighbour, and
//! no neighbour twice.

use crate::arith::Arithmetic;
use crate::builder::{
    accumulated, accumulates_to, comes_of, edges_between, leaf_indices, merged_neighbors,
    merged_slot, LeafCounts, LeafInput,
};
use crate::candidate_pool::{
    candidates_from, dedupped, empty_pool, offered, offered_all, offered_valid, pool_valid,
    Candidate,
};
use crate::config::LeafPruneMode;
use crate::hash_prune::{kept_of, merged_keeps_closest_buckets, offers};
use crate::knn::{
    both_ways, both_ways_law, has_pair, knn_edge, knn_edges, knn_width, matrix_row, matrix_table,
    Edge,
};
use crate::ladder::ladder;
use crate::leaf::{nearest_below, nearest_below_valid, rankable};
use crate::leaf_build::{enough_neighbors, knn_edges_within, leaf_edges, leaf_matrix};
use crate::leaf_robust::{direct_matrix, node_edges, node_edges_valid, pruned_leaf_edges};
use crate::lsh::LshState;
use crate::measure::{candidate_table, row_table, PairTable};
use crate::number::Real;
use crate::prune::{
    near_to_far, position_ratio, pruned, pruned_neighbors, pruned_valid, rank_keys, selection,
};
use crate::reservoir::{dist_keys, drained};
use crate::sort::{argsort, argsort_ascending};
use vstd::prelude::*;

verus! {

/// No edge runs from a point to itself.
pub open spec fn no_loops(edges: Seq<Edge>) -> bool {
    forall|x: int| 0 <= x < edges.len() ==> (#[trigger] edges[x]).src != edges[x].dst
}

/// All distances between different positions of a leaf are below the largest number.
pub open spec fn all_ranked(dm: Seq<Real>, n: int) -> bool {
    forall|i: int, j: int|
        0 <= i < n && 0 <= j < n && i != j ==> (#[trigger] dm[i * n + j]).lt(Real::spec_max())
}

/// The diagonal of a leaf's distance matrix holds the largest number.
pub open spec fn largest_diagonal(dm: Seq<Real>, n: int) -> bool {
    forall|i: int| 0 <= i < n ==> #[trigger] dm[i * n + i] == Real::spec_max()
}

impl<'a, A: Arithmetic, D: Fn(&[Real], &[Real]) -> Real> LeafInput<'a, A, D> {
    /// A leaf that names no point twice. Where its points take more than three nearest
    /// neighbours each, the distances in it are below the largest number.
    pub open spec fn proper(&self, leaf: Seq<u32>) -> bool {
        let n = leaf.len() as int;
        let s = self.settings;
        &&& self.buildable(leaf)
        &&& leaf.no_duplicates()
        &&& (s.leaf_prune_mode == LeafPruneMode::Baseline || s.leaf_prune_mode
            == LeafPruneMode::KnnBidir) && knn_width(n, s.config.k as int) > 3 ==> all_ranked(
            leaf_matrix(*self.ops, s.metric, self.data@, self.ndims as int, leaf_indices(leaf)),
            n,
        )
    }

    /// Every leaf of every replica is proper.
    pub open spec fn all_proper(&self, replicas: Seq<Vec<Vec<u32>>>) -> bool {
        forall|r: int, i: int|
            0 <= r < replicas.len() && 0 <= i < replicas[r]@.len() ==> self.proper(
                (#[trigger] replicas[r]@[i])@,
            )
    }
}

proof fn no_loops_append(a: Seq<Edge>, b: Seq<Edge>)
    requires
        no_loops(a),
        no_loops(b),
    ensures
        no_loops(a + b),
{
    let all = a + b;
    assert forall|x: int| 0 <= x < all.len() implies (#[trigger] all[x]).src != all[x].dst by {
        if x < a.len() {
            assert(all[x] == a[x]);
        } else {
            assert(all[x] == b[x - a.len()]);
        }
    }
}

/// No point is among its own nearest neighbours.
pub proof fn knn_edges_leave(dm: Seq<Real>, n: int, k: int)
    requires
        0 <= n <= u32::MAX,
        0 <= k,
        n * n <= dm.len(),
        enough_neighbors(dm, n, k),
        knn_width(n, k) > 3 ==> all_ranked(dm, n) && largest_diagonal(dm, n),
    ensures
        forall|x: int|
            0 <= x < knn_edges(dm, n, k).len() ==> (#[trigger] knn_edges(dm, n, k)[x]).0
                != knn_edges(dm, n, k)[x].1,
{
    let w = knn_width(n, k);
    let edges = knn_edges(dm, n, k);
    assert forall|x: int| 0 <= x < edges.len() implies (#[trigger] edges[x]).0 != edges[x].1 by {
        if w == 0 {
            assert(n * w == 0) by (nonlinear_arith)
                requires
                    w == 0,
            ;
        } else {
            let i = x / w;
            let t = x % w;
            assert(0 <= i < n && 0 <= t < w) by {
                vstd::arithmetic::div_mod::lemma_fundamental_div_mod(x, w);
                vstd::arithmetic::div_mod::lemma_mod_bound(x, w);
                assert(0 <= x < n * w);
                assert(0 <= i < n) by (nonlinear_arith)
                    requires
                        0 <= x < n * w,
                        x == w * i + t,
                        0 <= t < w,
                ;
            }
            assert(edges[x] == knn_edge(dm, n, w, i, t));
            knn_edge_leaves(dm, n, k, i, t);
        }
    }
}

pub(crate) proof fn knn_edge_leaves(dm: Seq<Real>, n: int, k: int, i: int, t: int)
    requires
        0 <= n <= u32::MAX,
        0 <= k,
        n * n <= dm.len(),
        enough_neighbors(dm, n, k),
        knn_width(n, k) > 3 ==> all_ranked(dm, n) && largest_diagonal(dm, n),
        0 <= i < n,
        0 <= t < knn_width(n, k),
    ensures
        knn_edge(dm, n, knn_width(n, k), i, t).0 != knn_edge(dm, n, knn_width(n, k), i, t).1,
{
    let w = knn_width(n, k);
    if w <= 3 {
        let dist = matrix_row(dm, n, i);
        nearest_below_valid(dist, i, n);
        let near = nearest_below(dist, i, n);
        assert(near.len() >= w);
        assert(rankable(dist, i, near[t]));
    } else {
        crate::measure::row_bounds(i, n, n);
        let row = dm.subrange(i * n, i * n + n);
        let keys = rank_keys(row);
        argsort_ascending(keys);
        let order = argsort(keys);
        let j = order[t];
        if j == i {
            let last = order[n - 1];
            assert(crate::sort::before(keys, order[t], order[n - 1]));
            assert(row[i] == dm[i * n + i]);
            assert(row[last] == dm[i * n + last]);
            assert(last != i);
            assert(dm[i * n + last].lt(Real::spec_max()));
            assert(keys[i] == row[i].rank());
            assert(keys[last] == row[last].rank());
        }
    }
}

proof fn knn_leaf_loops(dm: Seq<Real>, n: int, k: int, indices: Seq<usize>)
    requires
        n == indices.len(),
        n <= u32::MAX,
        0 <= k,
        n * n <= dm.len(),
        enough_neighbors(dm, n, k),
        knn_width(n, k) > 3 ==> all_ranked(dm, n) && largest_diagonal(dm, n),
        indices.no_duplicates(),
    ensures
        no_loops(leaf_edges(dm, n, k, indices)),
{
    let local = knn_edges(dm, n, k);
    let table = matrix_table(dm, n);
    knn_edges_within(dm, n, k);
    knn_edges_leave(dm, n, k);
    both_ways_law(local, table);
    let list = both_ways(local, table);
    let edges = leaf_edges(dm, n, k, indices);
    assert forall|x: int| 0 <= x < edges.len() implies (#[trigger] edges[x]).src
        != edges[x].dst by {
        let e = list[x];
        assert(has_pair(list, e.0 as int, e.1 as int)) by {
            assert(list[x].0 == e.0 && list[x].1 == e.1);
        }
        if has_pair(local, e.0 as int, e.1 as int) {
            let y = choose|y: int|
                0 <= y < local.len() && (#[trigger] local[y]).0 == e.0 && local[y].1 == e.1;
            assert(local[y].0 < n && local[y].0 != local[y].1);
        } else {
            assert(has_pair(local, e.1 as int, e.0 as int));
            let y = choose|y: int|
                0 <= y < local.len() && (#[trigger] local[y]).0 == e.1 && local[y].1 == e.0;
            assert(local[y].0 < n && local[y].0 != local[y].1);
        }
        assert(indices[e.0 as int] != indices[e.1 as int]);
    }
}

proof fn pruned_leaf_loops<A: Arithmetic>(
    ops: A,
    dm: Seq<Real>,
    n: int,
    indices: Seq<usize>,
    m: int,
    leaf_k: Option<usize>,
    max_degree: int,
    alpha: Real,
    leaf_prune: bool,
)
    requires
        0 <= m <= n,
        n == indices.len(),
        0 <= max_degree,
        indices.no_duplicates(),
    ensures
        no_loops(
            pruned_leaf_edges(ops, dm, n, indices, m, leaf_k, max_degree, alpha, leaf_prune),
        ),
    decreases m,
{
    if m > 0 {
        pruned_leaf_loops(ops, dm, n, indices, m - 1, leaf_k, max_degree, alpha, leaf_prune);
        node_edges_valid(ops, dm, n, indices, m - 1, leaf_k, max_degree, alpha, leaf_prune);
        no_loops_append(
            pruned_leaf_edges(ops, dm, n, indices, m - 1, leaf_k, max_degree, alpha, leaf_prune),
            node_edges(ops, dm, n, indices, m - 1, leaf_k, max_degree, alpha, leaf_prune),
        );
    }
}

impl<'a, A: Arithmetic, D: Fn(&[Real], &[Real]) -> Real> LeafInput<'a, A, D> {
    /// A proper leaf has no edge from a point to itself.
    pub proof fn leaf_has_no_loops(&self, leaf: Seq<u32>, knn: bool)
        requires
            self.proper(leaf),
        ensures
            no_loops(self.edges_of_leaf(leaf, knn)),
    {
        let indices = leaf_indices(leaf);
        let n = indices.len() as int;
        let s = self.settings;
        let matrix = leaf_matrix(*self.ops, s.metric, self.data@, self.ndims as int, indices);
        assert forall|i: int, j: int|
            0 <= i < indices.len() && 0 <= j < indices.len() && i != j implies indices[i]
            != indices[j] by {
            assert(leaf[i] != leaf[j]);
        }
        assert(0 <= n * n) by (nonlinear_arith);
        match s.leaf_prune_mode {
            LeafPruneMode::Baseline | LeafPruneMode::KnnBidir => {
                assert forall|i: int| 0 <= i < n implies #[trigger] matrix[i * n + i]
                    == Real::spec_max() by {
                    crate::knn::place_of(i, n, i);
                    crate::measure::row_bounds(i, n, n);
                    assert(0 <= i * n + i < n * n);
                    assert((i * n + i) / n == i && (i * n + i) % n == i);
                }
                knn_leaf_loops(matrix, n, s.config.k as int, indices);
            },
            LeafPruneMode::RobustNoGemm => {
                pruned_leaf_loops(
                    *self.ops,
                    direct_matrix(*self.dist_fn, self.data@, self.ndims as int, indices),
                    n,
                    indices,
                    n,
                    None,
                    s.leaf_degree() as int,
                    s.alpha,
                    true,
                );
            },
            LeafPruneMode::GemmTopKRobust | LeafPruneMode::GemmTopKNoPrune => {
                pruned_leaf_loops(
                    *self.ops,
                    matrix,
                    n,
                    indices,
                    n,
                    Some(s.config.k),
                    s.leaf_degree() as int,
                    s.alpha,
                    s.leaf_prune_mode == LeafPruneMode::GemmTopKRobust,
                );
            },
        }
    }

    proof fn leaves_have_no_loops(&self, leaves: Seq<Vec<u32>>, m: int, knn: bool)
        requires
            0 <= m <= leaves.len(),
            forall|i: int| 0 <= i < leaves.len() ==> self.proper((#[trigger] leaves[i])@),
        ensures
            no_loops(self.edges_of_leaves(leaves, m, knn)),
        decreases m,
    {
        if m > 0 {
            self.leaves_have_no_loops(leaves, m - 1, knn);
            self.leaf_has_no_loops(leaves[m - 1]@, knn);
            no_loops_append(
                self.edges_of_leaves(leaves, m - 1, knn),
                self.edges_of_leaf(leaves[m - 1]@, knn),
            );
        }
    }

    /// Proper leaves have no edge from a point to itself.
    pub proof fn replicas_have_no_loops(&self, replicas: Seq<Vec<Vec<u32>>>, r: int, knn: bool)
        requires
            0 <= r <= replicas.len(),
            self.all_proper(replicas),
        ensures
            no_loops(self.edges_of_replicas(replicas, r, knn)),
        decreases r,
    {
        if r > 0 {
            self.replicas_have_no_loops(replicas, r - 1, knn);
            let leaves = replicas[r - 1]@;
            assert forall|i: int| 0 <= i < leaves.len() implies self.proper(
                (#[trigger] leaves[i])@,
            ) by {
                assert(self.proper(replicas[r - 1]@[i]@));
            }
            self.leaves_have_no_loops(leaves, leaves.len() as int, knn);
            no_loops_append(
                self.edges_of_replicas(replicas, r - 1, knn),
                self.edges_of_leaves(leaves, leaves.len() as int, knn),
            );
        }
    }

    proof fn proper_is_buildable(&self, replicas: Seq<Vec<Vec<u32>>>)
        requires
            self.all_proper(replicas),
        ensures
            self.all_buildable(replicas),
    {
        assert forall|r: int, i: int|
            0 <= r < replicas.len() && 0 <= i < replicas[r]@.len() implies self.buildable(
            (#[trigger] replicas[r]@[i])@,
        ) by {
            assert(self.proper(replicas[r]@[i]@));
        }
    }
}

/// A neighbour list of point `p`: at most `max_degree` points, none of them `p`, none twice.
pub open spec fn simple_list(list: Seq<u32>, p: int, npoints: int, max_degree: int) -> bool {
    &&& list.len() <= max_degree
    &&& list.no_duplicates()
    &&& forall|i: int| 0 <= i < list.len() ==> #[trigger] list[i] < npoints && list[i] != p
}

/// The candidates of point `p` are other points, none twice.
pub open spec fn simple_candidates(list: Seq<Candidate>, p: int, npoints: int) -> bool {
    &&& forall|i: int| 0 <= i < list.len() ==> (#[trigger] list[i]).0 < npoints && list[i].0 != p
    &&& forall|i: int, j: int|
        0 <= i < j < list.len() ==> (#[trigger] list[i]).0 != (#[trigger] list[j]).0
}

/// Pruning keeps candidate lists simple.
pub proof fn pruned_is_simple<A: Arithmetic>(
    p: int,
    candidates: Seq<Candidate>,
    max_degree: int,
    alpha: Real,
    saturate: bool,
    points: PairTable,
    ops: A,
    npoints: int,
)
    requires
        0 <= max_degree,
        simple_candidates(candidates, p, npoints),
    ensures
        simple_list(
            pruned_neighbors(p, candidates, max_degree, alpha, saturate, points, ops),
            p,
            npoints,
            max_degree,
        ),
{
    let nc = candidates.len() as int;
    let node_dists = candidates.map_values(|c: (u32, Real)| points(p, c.0 as int));
    let pairs = candidate_table(candidates, points);
    let degree = if max_degree <= nc { max_degree } else { nc };
    let rel = position_ratio(node_dists, nc, pairs, ops);
    pruned_valid(rel, nc, degree, ladder(ops, alpha), saturate);
    argsort_ascending(rank_keys(node_dists.take(nc)));
    let taken = pruned(rel, nc, degree, ladder(ops, alpha), saturate);
    let order = near_to_far(node_dists, nc);
    let chosen = selection(nc, node_dists, max_degree, alpha, saturate, pairs, ops);
    let kept = pruned_neighbors(p, candidates, max_degree, alpha, saturate, points, ops);
    assert forall|i: int| 0 <= i < kept.len() implies #[trigger] kept[i] < npoints && kept[i] != p by {
        assert(0 <= taken[i] < nc);
        assert(0 <= order[taken[i]] < nc);
        assert(chosen[i] == order[taken[i]]);
        assert(candidates[order[taken[i]]].0 == kept[i]);
    }
    assert forall|i: int, j: int|
        0 <= i < kept.len() && 0 <= j < kept.len() && i != j implies kept[i] != kept[j] by {
        let a = taken[i];
        let b = taken[j];
        assert(a != b);
        assert(0 <= a < nc && 0 <= b < nc);
        assert(order[a] != order[b]) by {
            if a < b {
                assert(crate::sort::before(rank_keys(node_dists.take(nc)), order[a], order[b]));
            } else {
                assert(crate::sort::before(rank_keys(node_dists.take(nc)), order[b], order[a]));
            }
        }
        assert(0 <= order[a] < nc && 0 <= order[b] < nc);
        assert(candidates[order[a]].0 == kept[i]);
        assert(candidates[order[b]].0 == kept[j]);
        if order[a] < order[b] {
            assert(candidates[order[a]].0 != candidates[order[b]].0);
        } else {
            assert(candidates[order[b]].0 != candidates[order[a]].0);
        }
    }
}

/// What is offered to the slot of a point names other points, each in its own bucket.
proof fn offers_known<A: Arithmetic>(
    ops: A,
    lsh: LshState,
    p: int,
    edges: Seq<Edge>,
    npoints: int,
)
    requires
        edges_between(edges, npoints),
        no_loops(edges),
        npoints <= u32::MAX,
    ensures
        forall|i: int|
            0 <= i < offers(ops, lsh, p, edges).len() ==> {
                let e = #[trigger] offers(ops, lsh, p, edges)[i];
                &&& e.neighbor < npoints
                &&& e.neighbor != p
                &&& e.hash == lsh.bucket(ops, p, e.neighbor as int) as u16
            },
    decreases edges.len(),
{
    if edges.len() > 0 {
        let front = edges.drop_last();
        assert forall|x: int| 0 <= x < front.len() implies (#[trigger] front[x]).src < npoints
            && front[x].dst < npoints && front[x].src != front[x].dst by {
            assert(front[x] == edges[x]);
        }
        offers_known(ops, lsh, p, front, npoints);
        let last = edges[edges.len() - 1];
        assert(last.dst < npoints && last.src != last.dst);
        let before = offers(ops, lsh, p, front);
        let all = offers(ops, lsh, p, edges);
        assert forall|i: int| 0 <= i < all.len() implies ({
            let e = #[trigger] all[i];
            &&& e.neighbor < npoints
            &&& e.neighbor != p
            &&& e.hash == lsh.bucket(ops, p, e.neighbor as int) as u16
        }) by {
            if i < before.len() {
                assert(all[i] == before[i]);
            } else {
                assert(all[i] == kept_of(ops, lsh, last));
            }
        }
    }
}

/// The slot of a point names other points, none twice: the bucket of a candidate depends on the
/// two points alone, and no two entries share one.
pub proof fn merged_slot_is_simple<A: Arithmetic, D: Fn(&[Real], &[Real]) -> Real>(
    input: LeafInput<'_, A, D>,
    replicas: Seq<Vec<Vec<u32>>>,
    lsh: LshState,
    p: int,
    max_degree: nat,
)
    requires
        input.valid(),
        input.all_proper(replicas),
    ensures
        simple_candidates(
            drained(merged_slot(input, replicas, lsh, p).entries, max_degree),
            p,
            input.npoints as int,
        ),
{
    let n = input.npoints as int;
    let l_max = input.settings.l_max as nat;
    let edges = input.edges_of_replicas(replicas, replicas.len() as int, true);
    input.proper_is_buildable(replicas);
    input.replicas_edges_between(replicas, replicas.len() as int, true);
    input.replicas_have_no_loops(replicas, replicas.len() as int, true);
    offers_known(*input.ops, lsh, p, edges, n);
    merged_keeps_closest_buckets(*input.ops, lsh, l_max, p, edges);
    let history = offers(*input.ops, lsh, p, edges);
    let entries = merged_slot(input, replicas, lsh, p).entries;
    assert forall|i: int| 0 <= i < entries.len() implies ({
        let e = #[trigger] entries[i];
        &&& e.neighbor < n
        &&& e.neighbor != p
        &&& e.hash == lsh.bucket(*input.ops, p, e.neighbor as int) as u16
    }) by {
        assert(history.contains(entries[i]));
        let x = choose|x: int| 0 <= x < history.len() && history[x] == entries[i];
        assert(history[x].neighbor < n);
    }
    let keys = dist_keys(entries);
    argsort_ascending(keys);
    let order = argsort(keys);
    let out = drained(entries, max_degree);
    assert forall|i: int| 0 <= i < out.len() implies (#[trigger] out[i]).0 < n && out[i].0
        != p by {
        assert(0 <= order[i] < entries.len());
        assert(entries[order[i]].neighbor == out[i].0);
    }
    assert forall|i: int, j: int| 0 <= i < j < out.len() implies (#[trigger] out[i]).0 != (
    #[trigger] out[j]).0 by {
        let a = order[i];
        let b = order[j];
        assert(crate::sort::before(keys, order[i], order[j]));
        assert(0 <= a < entries.len() && 0 <= b < entries.len());
        assert(entries[a].neighbor == out[i].0 && entries[b].neighbor == out[j].0);
        if a < b {
            assert(entries[a].hash != entries[b].hash);
        } else {
            assert(entries[b].hash != entries[a].hash);
        }
    }
}

/// A graph merged through hash buckets is simple: no point has more neighbours than the settings
/// allow, none is its own neighbour, and none has a neighbour twice.
pub proof fn merged_graph_is_simple<A: Arithmetic, D: Fn(&[Real], &[Real]) -> Real>(
    input: LeafInput<'_, A, D>,
    replicas: Seq<Vec<Vec<u32>>>,
    lsh: LshState,
    p: int,
)
    requires
        input.valid(),
        input.all_proper(replicas),
        0 <= p < input.npoints,
    ensures
        simple_list(
            merged_neighbors(input, merged_slot(input, replicas, lsh, p), p),
            p,
            input.npoints as int,
            input.settings.max_degree as int,
        ),
{
    let s = input.settings;
    let n = input.npoints as int;
    let slot = merged_slot(input, replicas, lsh, p);
    let list = merged_neighbors(input, slot, p);
    if s.final_prune {
        merged_slot_is_simple(input, replicas, lsh, p, s.l_max as nat);
        pruned_is_simple(
            p,
            drained(slot.entries, s.l_max as nat),
            s.max_degree as int,
            s.alpha,
            s.saturate_after_prune,
            row_table(input.data@, input.ndims as int, *input.dist_fn),
            *input.ops,
            n,
        );
    } else {
        merged_slot_is_simple(input, replicas, lsh, p, s.max_degree as nat);
        let out = drained(slot.entries, s.max_degree as nat);
        assert forall|i: int| 0 <= i < list.len() implies #[trigger] list[i] < n && list[i]
            != p by {
            assert(out[i].0 == list[i]);
        }
        assert forall|i: int, j: int|
            0 <= i < list.len() && 0 <= j < list.len() && i != j implies list[i] != list[j] by {
            if i < j {
                assert(out[i].0 != out[j].0);
            } else {
                assert(out[j].0 != out[i].0);
            }
        }
    }
}

/// What edges bring to a point names other points.
proof fn candidates_known(edges: Seq<Edge>, p: int, m: int, npoints: int)
    requires
        0 <= m <= edges.len(),
        edges_between(edges, npoints),
        no_loops(edges),
        npoints <= u32::MAX,
    ensures
        forall|i: int|
            0 <= i < candidates_from(edges, p, m).len() ==> (#[trigger] candidates_from(
                edges,
                p,
                m,
            )[i]).0 < npoints && candidates_from(edges, p, m)[i].0 != p,
    decreases m,
{
    if m > 0 {
        candidates_known(edges, p, m - 1, npoints);
        assert(edges[m - 1].dst < npoints && edges[m - 1].src != edges[m - 1].dst);
        let front = candidates_from(edges, p, m - 1);
        let all = candidates_from(edges, p, m);
        assert forall|i: int| 0 <= i < all.len() implies (#[trigger] all[i]).0 < npoints && all[i].0
            != p by {
            if i < front.len() {
                assert(all[i] == front[i]);
            }
        }
    }
}

/// What a pool keeps was offered to it.
proof fn pool_entries_offered(l_max: nat, history: Seq<Candidate>)
    ensures
        pool_valid(offered_all(empty_pool(), l_max, history), l_max),
        forall|i: int|
            0 <= i < offered_all(empty_pool(), l_max, history).entries.len() ==> history.contains(
                #[trigger] offered_all(empty_pool(), l_max, history).entries[i],
            ),
    decreases history.len(),
{
    if history.len() > 0 {
        let front = history.drop_last();
        pool_entries_offered(l_max, front);
        let pool = offered_all(empty_pool(), l_max, front);
        let e = history[history.len() - 1];
        let next = offered(pool, l_max, e);
        offered_valid(pool, l_max, e);
        assert forall|i: int| 0 <= i < next.entries.len() implies history.contains(
            #[trigger] next.entries[i],
        ) by {
            if next.entries[i] != e {
                assert(next.entries[i] == pool.entries[i]);
                assert(front.contains(pool.entries[i]));
                let x = choose|x: int| 0 <= x < front.len() && front[x] == pool.entries[i];
                assert(history[x] == next.entries[i]);
            }
        }
    }
}

/// A graph that is accumulated and pruned is simple: no point has more neighbours than the
/// settings allow, none is its own neighbour, and none has a neighbour twice.
pub proof fn accumulated_graph_is_simple<A: Arithmetic, D: Fn(&[Real], &[Real]) -> Real>(
    input: LeafInput<'_, A, D>,
    replicas: Seq<Vec<Vec<u32>>>,
    adjacency: Seq<Vec<u32>>,
    counts: LeafCounts,
    p: int,
)
    requires
        input.valid(),
        input.all_proper(replicas),
        accumulates_to(input, replicas, adjacency, counts),
        0 <= p < input.npoints,
    ensures
        simple_list(
            adjacency[p]@,
            p,
            input.npoints as int,
            input.settings.max_degree as int,
        ),
{
    let s = input.settings;
    let n = input.npoints as int;
    let lists = choose|lists: Seq<Vec<Candidate>>| #[trigger]
        comes_of(input, replicas, lists, adjacency, counts);
    let edges = input.edges_of_replicas(replicas, replicas.len() as int, false);
    input.proper_is_buildable(replicas);
    input.replicas_edges_between(replicas, replicas.len() as int, false);
    input.replicas_have_no_loops(replicas, replicas.len() as int, false);
    candidates_known(edges, p, edges.len() as int, n);
    let history = candidates_from(edges, p, edges.len() as int);
    let had = accumulated(input, replicas, p);
    let list = lists[p]@;
    assert(dedupped(had, list));
    pool_entries_offered(s.merge_l_max as nat, history);
    assert forall|i: int| 0 <= i < list.len() implies (#[trigger] list[i]).0 < n && list[i].0
        != p by {
        assert(had.contains(list[i]));
        let x = choose|x: int| 0 <= x < had.len() && had[x] == list[i];
        if s.merge_l_max > 0 {
            assert(history.contains(had[x]));
            let y = choose|y: int| 0 <= y < history.len() && history[y] == had[x];
            assert(history[y].0 < n);
        } else {
            assert(history[x].0 < n);
        }
    }
    pruned_is_simple(
        p,
        list,
        s.max_degree as int,
        s.alpha,
        s.saturate_after_prune,
        row_table(input.data@, input.ndims as int, *input.dist_fn),
        *input.ops,
        n,
    );
}

} // verus!
