//! Building a graph: leaves in, adjacency lists out.
//!
//! A partition of the data set into overlapping leaves is made once per replica, from the seed
//! that [`replica_seed`] gives, and handed in. Every leaf is turned into edges as the settings
//! ask. The edges are merged through hash buckets or accumulated, and what was collected for a
//! point is cut or pruned to its neighbours.

use crate::arith::Arithmetic;
use crate::cache::{rows_exist, POINT_CACHE_EMPTY, POINT_CACHE_LOG2_MAX};
use crate::candidate_pool::{
    candidates_from, dedupped, empty_pool, offered, offered_all, offered_valid, pool_valid,
    AppendOnlyPool, Candidate, CandidatePool,
};
use crate::config::{
    check_build, check_build_from_quantized, check_build_with_sq, data_verdict, quantized_verdict,
    sq_verdict, BuildSettings, Entry, LeafPruneMode, PiPNNError,
};
use crate::graph::PiPNNGraph;
use crate::hash_prune::{absorb_edges, drained_ids, kept_of, HashPrune};
use crate::knn::{both_ways, both_ways_law, has_pair, knn_edges, matrix_table, Edge};
use crate::ladder::{climbable, ladder};
use crate::leaf_build::{
    build_leaf_with_buffers, enough_neighbors, knn_edges_within, leaf_edges, leaf_matrix,
    LeafBuffers,
};
use crate::leaf_robust::{
    build_leaf_gemm_topk_robust, build_leaf_robust_no_gemm, candidate_matrix, candidates_are_others,
    direct_matrix, leaf_candidates, leaf_choice, listed_distances, node_edges, pruned_leaf_edges,
    selection_within,
};
use crate::lsh::LshState;
use crate::medoid::{find_medoid, medoid_of, sampled_points};
use crate::measure::{
    candidate_table, row_answers, row_bounds, row_table, vector_measure, ByRow, PairSource, PairTable,
};
use crate::number::{power_of_two, Real};
use crate::prune::{
    near_to_far, neighbors_answered, position_ratio, prune_lists, pruned, pruned_neighbors,
    pruned_valid, rank_keys, selection,
};
use crate::quantize::{quantize_1bit, quantizes, words_for};
use crate::quantized::{build_leaf_quantized, hamming_leaf_ranked, hamming_matrix, QuantizedData};
use crate::reservoir::{
    absorb, absorb_keeps_valid, dist_keys, drained, empty_slot, rounded_up_to_32, slot_valid,
    SlotView, L_MAX_MAX,
};
use crate::sink::EdgeSink;
use crate::sort::{argsort, argsort_ascending, positions, sort_positions};
use vstd::prelude::*;

verus! {

/// Seed of the first replica.
pub const FIRST_SEED: u64 = 1000;

/// Distance between the seeds of two replicas.
pub const SEED_STEP: u64 = 7919;

/// The seed that replica `replica` is partitioned with.
pub fn replica_seed(replica: u64) -> (seed: u64)
    requires
        FIRST_SEED + replica * SEED_STEP <= u64::MAX,
    ensures
        seed == 1000 + 7919 * replica,
{
    FIRST_SEED + replica * SEED_STEP
}

/// The smallest point of a leaf; zero where it has none.
pub open spec fn smallest_point(leaf: Seq<u32>) -> u32
    decreases leaf.len(),
{
    if leaf.len() == 0 {
        0
    } else if leaf.len() == 1 {
        leaf[0]
    } else {
        let rest = smallest_point(leaf.drop_last());
        if leaf.last() < rest {
            leaf.last()
        } else {
            rest
        }
    }
}

fn smallest_of(leaf: &Vec<u32>) -> (r: u32)
    ensures
        r == smallest_point(leaf@),
{
    if leaf.len() == 0 {
        return 0;
    }
    let mut r: u32 = leaf[0];
    let mut i: usize = 1;
    assert(leaf@.take(1).len() == 1);
    while i < leaf.len()
        invariant
            1 <= i <= leaf@.len(),
            r == smallest_point(leaf@.take(i as int)),
        decreases leaf@.len() - i,
    {
        proof {
            assert(leaf@.take(i + 1).drop_last() =~= leaf@.take(i as int));
            assert(leaf@.take(i + 1).last() == leaf@[i as int]);
        }
        if leaf[i] < r {
            r = leaf[i];
        }
        i += 1;
    }
    assert(leaf@.take(i as int) =~= leaf@);
    r
}

/// The order of leaves by their smallest points, equal ones in their original order.
pub open spec fn leaf_order(leaves: Seq<Vec<u32>>) -> Seq<int> {
    argsort(leaves.map_values(|l: Vec<u32>| smallest_point(l@) as u64))
}

/// Puts leaves into the order of their smallest points, so that leaves that share points come
/// close to each other. Returns the positions of the leaves in that order.
pub fn sort_leaves(leaves: &Vec<Vec<u32>>) -> (order: Vec<usize>)
    ensures
        positions(order@) == leaf_order(leaves@),
{
    let mut keys: Vec<u64> = Vec::with_capacity(leaves.len());
    let mut i: usize = 0;
    while i < leaves.len()
        invariant
            i <= leaves@.len(),
            keys@.len() == i,
            forall|j: int| 0 <= j < i ==> #[trigger] keys@[j] == smallest_point(leaves@[j]@) as u64,
        decreases leaves@.len() - i,
    {
        keys.push(smallest_of(&leaves[i]) as u64);
        i += 1;
    }
    assert(keys@ =~= leaves@.map_values(|l: Vec<u32>| smallest_point(l@) as u64));
    sort_positions(&keys)
}

/// The points of a leaf.
pub open spec fn leaf_indices(leaf: Seq<u32>) -> Seq<usize> {
    leaf.map_values(|i: u32| i as usize)
}

fn widen_indices(leaf: &Vec<u32>) -> (out: Vec<usize>)
    ensures
        out@ == leaf_indices(leaf@),
{
    let mut out: Vec<usize> = Vec::with_capacity(leaf.len());
    let mut i: usize = 0;
    while i < leaf.len()
        invariant
            i <= leaf@.len(),
            out@.len() == i,
            forall|j: int| 0 <= j < i ==> #[trigger] out@[j] == leaf@[j] as usize,
        decreases leaf@.len() - i,
    {
        out.push(leaf[i] as usize);
        i += 1;
    }
    assert(out@ =~= leaf_indices(leaf@));
    out
}

/// What the builders of leaves are told: the data set, the settings and the supplied functions.
pub struct LeafInput<'a, A, D> {
    pub ops: &'a A,
    pub data: &'a [Real],
    pub npoints: usize,
    pub ndims: usize,
    pub settings: &'a BuildSettings,
    pub dist_fn: &'a D,
    /// Logarithm of the number of slots of the point cache, if it is used.
    pub cache_log2: Option<u32>,
}

impl<'a, A: Arithmetic, D: Fn(&[Real], &[Real]) -> Real> LeafInput<'a, A, D> {
    /// The data set has its shape, and the supplied functions answer.
    pub open spec fn valid(&self) -> bool {
        &&& self.ops.ready()
        &&& self.settings.prunes() ==> climbable(*self.ops, self.settings.alpha)
        &&& vector_measure(*self.dist_fn, self.ndims as int, self.ndims as int)
        &&& self.npoints * self.ndims <= self.data@.len()
        &&& self.npoints <= POINT_CACHE_EMPTY
        &&& self.cache_log2 matches Some(l) ==> {
            &&& l <= POINT_CACHE_LOG2_MAX
            &&& power_of_two(l as nat) * self.ndims <= usize::MAX
        }
    }

    /// The edges of a leaf, as the settings ask. `knn` tells whether the baseline mode means
    /// nearest neighbours; otherwise it means no edges.
    pub open spec fn edges_of_leaf(&self, leaf: Seq<u32>, knn: bool) -> Seq<Edge> {
        let indices = leaf_indices(leaf);
        let n = indices.len() as int;
        let s = self.settings;
        let matrix = leaf_matrix(*self.ops, s.metric, self.data@, self.ndims as int, indices);
        match s.leaf_prune_mode {
            LeafPruneMode::Baseline => if knn {
                leaf_edges(matrix, n, s.config.k as int, indices)
            } else {
                Seq::empty()
            },
            LeafPruneMode::KnnBidir => leaf_edges(matrix, n, s.config.k as int, indices),
            LeafPruneMode::RobustNoGemm => pruned_leaf_edges(
                *self.ops,
                direct_matrix(*self.dist_fn, self.data@, self.ndims as int, indices),
                n,
                indices,
                n,
                None,
                s.leaf_degree() as int,
                s.alpha,
                true,
            ),
            LeafPruneMode::GemmTopKRobust | LeafPruneMode::GemmTopKNoPrune => pruned_leaf_edges(
                *self.ops,
                matrix,
                n,
                indices,
                n,
                Some(s.config.k),
                s.leaf_degree() as int,
                s.alpha,
                s.leaf_prune_mode == LeafPruneMode::GemmTopKRobust,
            ),
        }
    }

    /// A leaf that can be built: its points are in the data set, its matrices in memory, and in
    /// the modes that take nearest neighbours every point has enough of them.
    pub open spec fn buildable(&self, leaf: Seq<u32>) -> bool {
        let n = leaf.len() as int;
        let s = self.settings;
        &&& forall|i: int| 0 <= i < n ==> #[trigger] leaf[i] < self.npoints
        &&& n <= u32::MAX
        &&& n * self.ndims <= usize::MAX
        &&& n * n <= usize::MAX
        &&& (s.leaf_prune_mode == LeafPruneMode::Baseline || s.leaf_prune_mode
            == LeafPruneMode::KnnBidir) ==> enough_neighbors(
            leaf_matrix(*self.ops, s.metric, self.data@, self.ndims as int, leaf_indices(leaf)),
            n,
            s.config.k as int,
        )
    }

    /// The edges of the first `m` leaves.
    pub open spec fn edges_of_leaves(&self, leaves: Seq<Vec<u32>>, m: int, knn: bool) -> Seq<Edge>
        decreases m,
    {
        if m <= 0 {
            Seq::empty()
        } else {
            self.edges_of_leaves(leaves, m - 1, knn) + self.edges_of_leaf(leaves[m - 1]@, knn)
        }
    }

    /// The edges of the leaves of the first `r` replicas.
    pub open spec fn edges_of_replicas(
        &self,
        replicas: Seq<Vec<Vec<u32>>>,
        r: int,
        knn: bool,
    ) -> Seq<Edge>
        decreases r,
    {
        if r <= 0 {
            Seq::empty()
        } else {
            self.edges_of_replicas(replicas, r - 1, knn) + self.edges_of_leaves(
                replicas[r - 1]@,
                replicas[r - 1]@.len() as int,
                knn,
            )
        }
    }

    /// Every leaf of every replica can be built.
    pub open spec fn all_buildable(&self, replicas: Seq<Vec<Vec<u32>>>) -> bool {
        forall|r: int, i: int|
            0 <= r < replicas.len() && 0 <= i < replicas[r]@.len() ==> self.buildable(
                (#[trigger] replicas[r]@[i])@,
            )
    }

    /// Builds one leaf.
    fn build_one(&self, leaf: &Vec<u32>, knn: bool, bufs: &mut LeafBuffers) -> (edges: Vec<Edge>)
        requires
            self.valid(),
            self.buildable(leaf@),
            old(bufs).point_cache.wf(),
            old(bufs).point_cache.coherent(self.data@),
        ensures
            edges@ == self.edges_of_leaf(leaf@, knn),
            final(bufs).point_cache.wf(),
            final(bufs).point_cache.coherent(self.data@),
    {
        let indices = widen_indices(leaf);
        proof {
            assert(rows_exist(self.data@, self.ndims as int, indices@)) by {
                assert forall|i: int| 0 <= i < indices@.len() implies (#[trigger] indices@[i] + 1)
                    * self.ndims <= self.data@.len() by {
                    assert(leaf@[i] < self.npoints);
                    row_bounds(indices@[i] as int, self.npoints as int, self.ndims as int);
                }
            }
            assert forall|i: int| 0 <= i < indices@.len() implies #[trigger] indices@[i]
                < POINT_CACHE_EMPTY by {
                assert(leaf@[i] < self.npoints);
            }
        }
        let s = self.settings;
        match s.leaf_prune_mode {
            LeafPruneMode::Baseline => if knn {
                build_leaf_with_buffers(
                    self.ops,
                    self.data,
                    self.ndims,
                    indices.as_slice(),
                    s.config.k,
                    s.metric,
                    bufs,
                    self.cache_log2,
                )
            } else {
                let none: Vec<Edge> = Vec::new();
                assert(none@ =~= Seq::<Edge>::empty());
                none
            },
            LeafPruneMode::KnnBidir => build_leaf_with_buffers(
                self.ops,
                self.data,
                self.ndims,
                indices.as_slice(),
                s.config.k,
                s.metric,
                bufs,
                self.cache_log2,
            ),
            LeafPruneMode::RobustNoGemm => build_leaf_robust_no_gemm(
                self.ops,
                self.data,
                self.ndims,
                indices.as_slice(),
                s.leaf_deg(),
                s.alpha,
                self.dist_fn,
                bufs,
            ),
            LeafPruneMode::GemmTopKRobust => build_leaf_gemm_topk_robust(
                self.ops,
                self.data,
                self.ndims,
                indices.as_slice(),
                s.config.k,
                s.leaf_deg(),
                s.metric,
                s.alpha,
                true,
                bufs,
            ),
            LeafPruneMode::GemmTopKNoPrune => build_leaf_gemm_topk_robust(
                self.ops,
                self.data,
                self.ndims,
                indices.as_slice(),
                s.config.k,
                s.leaf_deg(),
                s.metric,
                s.alpha,
                false,
                bufs,
            ),
        }
    }
}

/// Every edge runs between points below `npoints`.
pub open spec fn edges_between(edges: Seq<Edge>, npoints: int) -> bool {
    forall|x: int|
        0 <= x < edges.len() ==> (#[trigger] edges[x]).src < npoints && edges[x].dst < npoints
}

proof fn edges_between_append(a: Seq<Edge>, b: Seq<Edge>, npoints: int)
    requires
        edges_between(a, npoints),
        edges_between(b, npoints),
    ensures
        edges_between(a + b, npoints),
{
    let all = a + b;
    assert forall|x: int| 0 <= x < all.len() implies (#[trigger] all[x]).src < npoints && all[x].dst
        < npoints by {
        if x < a.len() {
            assert(all[x] == a[x]);
        } else {
            assert(all[x] == b[x - a.len()]);
        }
    }
}

proof fn knn_leaf_between(dm: Seq<Real>, n: int, k: int, indices: Seq<usize>, npoints: int)
    requires
        n == indices.len(),
        n <= u32::MAX,
        0 <= k,
        n * n <= dm.len(),
        enough_neighbors(dm, n, k),
        forall|i: int| 0 <= i < n ==> #[trigger] indices[i] < npoints,
    ensures
        edges_between(leaf_edges(dm, n, k, indices), npoints),
{
    let local = knn_edges(dm, n, k);
    let table = matrix_table(dm, n);
    knn_edges_within(dm, n, k);
    both_ways_law(local, table);
    let list = both_ways(local, table);
    let edges = leaf_edges(dm, n, k, indices);
    assert forall|x: int| 0 <= x < edges.len() implies (#[trigger] edges[x]).src < npoints
        && edges[x].dst < npoints by {
        let e = list[x];
        assert(has_pair(list, e.0 as int, e.1 as int)) by {
            assert(list[x].0 == e.0 && list[x].1 == e.1);
        }
        if has_pair(local, e.0 as int, e.1 as int) {
            let y = choose|y: int|
                0 <= y < local.len() && (#[trigger] local[y]).0 == e.0 && local[y].1 == e.1;
            assert(local[y].0 < n);
        } else {
            assert(has_pair(local, e.1 as int, e.0 as int));
            let y = choose|y: int|
                0 <= y < local.len() && (#[trigger] local[y]).0 == e.1 && local[y].1 == e.0;
            assert(local[y].0 < n);
        }
        assert(indices[e.0 as int] < npoints && indices[e.1 as int] < npoints);
    }
}

proof fn pruned_leaf_between<A: Arithmetic>(
    ops: A,
    dm: Seq<Real>,
    n: int,
    indices: Seq<usize>,
    m: int,
    leaf_k: Option<usize>,
    max_degree: int,
    alpha: Real,
    leaf_prune: bool,
    npoints: int,
)
    requires
        0 <= m <= n,
        n == indices.len(),
        0 <= max_degree,
        forall|i: int| 0 <= i < n ==> #[trigger] indices[i] < npoints,
    ensures
        edges_between(
            pruned_leaf_edges(ops, dm, n, indices, m, leaf_k, max_degree, alpha, leaf_prune),
            npoints,
        ),
    decreases m,
{
    if m > 0 {
        pruned_leaf_between(
            ops,
            dm,
            n,
            indices,
            m - 1,
            leaf_k,
            max_degree,
            alpha,
            leaf_prune,
            npoints,
        );
        let i = m - 1;
        let fresh = node_edges(ops, dm, n, indices, i, leaf_k, max_degree, alpha, leaf_prune);
        let list = leaf_candidates(dm, n, i, leaf_k);
        let choice = leaf_choice(ops, dm, n, i, leaf_k, max_degree, alpha, leaf_prune);
        candidates_are_others(dm, n, i, leaf_k);
        selection_within(
            ops,
            list.len() as int,
            listed_distances(dm, n, i, list),
            max_degree,
            alpha,
            candidate_matrix(dm, n, list),
        );
        assert forall|x: int| 0 <= x < fresh.len() implies (#[trigger] fresh[x]).src < npoints
            && fresh[x].dst < npoints by {
            assert(0 <= choice[x] < list.len());
            assert(0 <= list[choice[x]] < n);
            assert(indices[i] < npoints && indices[list[choice[x]]] < npoints);
        }
        edges_between_append(
            pruned_leaf_edges(ops, dm, n, indices, m - 1, leaf_k, max_degree, alpha, leaf_prune),
            fresh,
            npoints,
        );
    }
}

impl<'a, A: Arithmetic, D: Fn(&[Real], &[Real]) -> Real> LeafInput<'a, A, D> {
    /// The edges of a leaf run between points of the data set.
    pub proof fn leaf_edges_between(&self, leaf: Seq<u32>, knn: bool)
        requires
            self.buildable(leaf),
        ensures
            edges_between(self.edges_of_leaf(leaf, knn), self.npoints as int),
    {
        let indices = leaf_indices(leaf);
        let n = indices.len() as int;
        let s = self.settings;
        let np = self.npoints as int;
        let matrix = leaf_matrix(*self.ops, s.metric, self.data@, self.ndims as int, indices);
        assert forall|i: int| 0 <= i < n implies #[trigger] indices[i] < np by {
            assert(leaf[i] < self.npoints);
        }
        match s.leaf_prune_mode {
            LeafPruneMode::Baseline | LeafPruneMode::KnnBidir => {
                knn_leaf_between(matrix, n, s.config.k as int, indices, np);
            },
            LeafPruneMode::RobustNoGemm => {
                pruned_leaf_between(
                    *self.ops,
                    direct_matrix(*self.dist_fn, self.data@, self.ndims as int, indices),
                    n,
                    indices,
                    n,
                    None,
                    s.leaf_degree() as int,
                    s.alpha,
                    true,
                    np,
                );
            },
            LeafPruneMode::GemmTopKRobust | LeafPruneMode::GemmTopKNoPrune => {
                pruned_leaf_between(
                    *self.ops,
                    matrix,
                    n,
                    indices,
                    n,
                    Some(s.config.k),
                    s.leaf_degree() as int,
                    s.alpha,
                    s.leaf_prune_mode == LeafPruneMode::GemmTopKRobust,
                    np,
                );
            },
        }
    }

    proof fn leaves_edges_between(&self, leaves: Seq<Vec<u32>>, m: int, knn: bool)
        requires
            0 <= m <= leaves.len(),
            forall|i: int| 0 <= i < leaves.len() ==> self.buildable((#[trigger] leaves[i])@),
        ensures
            edges_between(self.edges_of_leaves(leaves, m, knn), self.npoints as int),
        decreases m,
    {
        if m > 0 {
            self.leaves_edges_between(leaves, m - 1, knn);
            self.leaf_edges_between(leaves[m - 1]@, knn);
            edges_between_append(
                self.edges_of_leaves(leaves, m - 1, knn),
                self.edges_of_leaf(leaves[m - 1]@, knn),
                self.npoints as int,
            );
        }
    }

    /// The edges of all leaves run between points of the data set.
    pub proof fn replicas_edges_between(&self, replicas: Seq<Vec<Vec<u32>>>, r: int, knn: bool)
        requires
            0 <= r <= replicas.len(),
            self.all_buildable(replicas),
        ensures
            edges_between(self.edges_of_replicas(replicas, r, knn), self.npoints as int),
        decreases r,
    {
        if r > 0 {
            self.replicas_edges_between(replicas, r - 1, knn);
            let leaves = replicas[r - 1]@;
            assert forall|i: int| 0 <= i < leaves.len() implies self.buildable(
                (#[trigger] leaves[i])@,
            ) by {
                assert(self.buildable(replicas[r - 1]@[i]@));
            }
            self.leaves_edges_between(leaves, leaves.len() as int, knn);
            edges_between_append(
                self.edges_of_replicas(replicas, r - 1, knn),
                self.edges_of_leaves(leaves, leaves.len() as int, knn),
                self.npoints as int,
            );
        }
    }
}

/// How many leaves and edges a build went through; the counts wrap around.
#[derive(Clone, Copy, Debug, PartialEq, Eq, Structural)]
pub struct LeafCounts {
    pub num_leaves: u64,
    pub total_edges: u64,
}

/// The leaves of the first `r` replicas, counted.
pub open spec fn count_leaves(replicas: Seq<Vec<Vec<u32>>>, r: int) -> nat
    decreases r,
{
    if r <= 0 {
        0
    } else {
        count_leaves(replicas, r - 1) + replicas[r - 1]@.len()
    }
}

/// A count in 64 bits.
pub open spec fn wrapped(count: int) -> int {
    count % 0x1_0000_0000_0000_0000
}

/// Builds the leaves of all replicas and hands their edges to the sink.
fn run_leaves<A: Arithmetic, D: Fn(&[Real], &[Real]) -> Real, S: EdgeSink>(
    input: &LeafInput<'_, A, D>,
    replicas: &Vec<Vec<Vec<u32>>>,
    knn: bool,
    sink: &mut S,
    bufs: &mut LeafBuffers,
) -> (counts: LeafCounts)
    requires
        input.valid(),
        input.all_buildable(replicas@),
        old(sink).wf(),
        old(sink).sources() == input.npoints,
        old(bufs).point_cache.wf(),
        old(bufs).point_cache.coherent(input.data@),
    ensures
        final(sink).wf(),
        final(sink).setup() == old(sink).setup(),
        final(sink).sources() == old(sink).sources(),
        forall|p: int|
            0 <= p < input.npoints ==> (#[trigger] final(sink).collected(p)) == old(sink).after(
                p,
                old(sink).collected(p),
                input.edges_of_replicas(replicas@, replicas@.len() as int, knn),
            ),
        forall|p: int, had: S::State, list: Seq<Edge>|
            (#[trigger] final(sink).after(p, had, list)) == old(sink).after(p, had, list),
        counts.num_leaves == wrapped(count_leaves(replicas@, replicas@.len() as int) as int),
        counts.total_edges == wrapped(
            input.edges_of_replicas(replicas@, replicas@.len() as int, knn).len() as int,
        ),
{
    let ghost start = *sink;
    let mut num_leaves: u64 = 0;
    let mut total_edges: u64 = 0;
    let mut r: usize = 0;
    proof {
        assert forall|p: int| 0 <= p < input.npoints implies #[trigger] sink.collected(p)
            == start.after(p, start.collected(p), input.edges_of_replicas(replicas@, 0, knn)) by {
            start.after_appends(p, start.collected(p), Seq::empty(), Seq::empty());
        }
    }
    while r < replicas.len()
        invariant
            r <= replicas@.len(),
            input.valid(),
            input.all_buildable(replicas@),
            sink.wf(),
            sink.setup() == start.setup(),
            sink.sources() == input.npoints,
            start.sources() == input.npoints,
            bufs.point_cache.wf(),
            bufs.point_cache.coherent(input.data@),
            forall|p: int|
                0 <= p < input.npoints ==> #[trigger] sink.collected(p) == start.after(
                    p,
                    start.collected(p),
                    input.edges_of_replicas(replicas@, r as int, knn),
                ),
            forall|p: int, had: S::State, list: Seq<Edge>|
                (#[trigger] sink.after(p, had, list)) == start.after(p, had, list),
            num_leaves == wrapped(count_leaves(replicas@, r as int) as int),
            total_edges == wrapped(
                input.edges_of_replicas(replicas@, r as int, knn).len() as int,
            ),
        decreases replicas@.len() - r,
    {
        let leaves = &replicas[r];
        let ghost done = input.edges_of_replicas(replicas@, r as int, knn);
        let mut i: usize = 0;
        proof {
            assert(done + input.edges_of_leaves(leaves@, 0, knn) =~= done);
        }
        while i < leaves.len()
            invariant
                r < replicas@.len(),
                *leaves == replicas@[r as int],
                i <= leaves@.len(),
                input.valid(),
                input.all_buildable(replicas@),
                sink.wf(),
                sink.setup() == start.setup(),
                sink.sources() == input.npoints,
                start.sources() == input.npoints,
                bufs.point_cache.wf(),
                bufs.point_cache.coherent(input.data@),
                forall|p: int|
                    0 <= p < input.npoints ==> #[trigger] sink.collected(p) == start.after(
                        p,
                        start.collected(p),
                        done + input.edges_of_leaves(leaves@, i as int, knn),
                    ),
                forall|p: int, had: S::State, list: Seq<Edge>|
                    (#[trigger] sink.after(p, had, list)) == start.after(p, had, list),
                total_edges == wrapped(
                    (done + input.edges_of_leaves(leaves@, i as int, knn)).len() as int,
                ),
            decreases leaves@.len() - i,
        {
            let ghost prior = *sink;
            let ghost sofar = done + input.edges_of_leaves(leaves@, i as int, knn);
            let ghost more = done + input.edges_of_leaves(leaves@, i + 1, knn);
            assert(input.buildable(replicas@[r as int]@[i as int]@));
            let edges = input.build_one(&leaves[i], knn, bufs);
            proof {
                input.leaf_edges_between(leaves@[i as int]@, knn);
                assert(more =~= sofar + edges@);
                assert(edges.len() == edges@.len());
            }
            total_edges = total_edges.wrapping_add(edges.len() as u64);
            sink.sink_edges(edges.as_slice());
            proof {
                assert forall|p: int| 0 <= p < input.npoints implies #[trigger] sink.collected(p)
                    == start.after(p, start.collected(p), more) by {
                    assert(prior.collected(p) == start.after(p, start.collected(p), sofar));
                    assert(prior.after(p, prior.collected(p), edges@) == start.after(
                        p,
                        prior.collected(p),
                        edges@,
                    ));
                    start.after_appends(p, start.collected(p), sofar, edges@);
                }
            }
            i += 1;
        }
        num_leaves = num_leaves.wrapping_add(leaves.len() as u64);
        r += 1;
    }
    LeafCounts { num_leaves, total_edges }
}

/// Builds the leaves of all replicas for accumulation: the baseline mode, which has no candidates
/// of its own to accumulate, yields no edges.
pub fn run_leaves_robust<A: Arithmetic, D: Fn(&[Real], &[Real]) -> Real, S: EdgeSink>(
    input: &LeafInput<'_, A, D>,
    replicas: &Vec<Vec<Vec<u32>>>,
    sink: &mut S,
) -> (counts: LeafCounts)
    requires
        input.valid(),
        input.all_buildable(replicas@),
        old(sink).wf(),
        old(sink).sources() == input.npoints,
    ensures
        final(sink).wf(),
        final(sink).setup() == old(sink).setup(),
        final(sink).sources() == old(sink).sources(),
        forall|p: int|
            0 <= p < input.npoints ==> (#[trigger] final(sink).collected(p)) == old(sink).after(
                p,
                old(sink).collected(p),
                input.edges_of_replicas(replicas@, replicas@.len() as int, false),
            ),
        forall|p: int, had: S::State, list: Seq<Edge>|
            (#[trigger] final(sink).after(p, had, list)) == old(sink).after(p, had, list),
        counts.num_leaves == wrapped(count_leaves(replicas@, replicas@.len() as int) as int),
        counts.total_edges == wrapped(
            input.edges_of_replicas(replicas@, replicas@.len() as int, false).len() as int,
        ),
{
    let mut bufs = LeafBuffers::new();
    run_leaves(input, replicas, false, sink, &mut bufs)
}

/// Every entry of a slot names a point below `npoints`.
spec fn slot_between(s: SlotView, npoints: int) -> bool {
    forall|i: int| 0 <= i < s.entries.len() ==> (#[trigger] s.entries[i]).neighbor < npoints
}

proof fn absorbed_between<A: Arithmetic>(
    ops: A,
    lsh: LshState,
    l_max: nat,
    p: int,
    edges: Seq<Edge>,
    npoints: int,
)
    requires
        edges_between(edges, npoints),
        npoints <= u32::MAX,
    ensures
        slot_between(absorb_edges(ops, lsh, l_max, p, empty_slot(), edges), npoints),
        slot_valid(absorb_edges(ops, lsh, l_max, p, empty_slot(), edges), l_max),
    decreases edges.len(),
{
    if edges.len() > 0 {
        let front = edges.drop_last();
        assert forall|x: int| 0 <= x < front.len() implies (#[trigger] front[x]).src < npoints
            && front[x].dst < npoints by {
            assert(front[x] == edges[x]);
        }
        absorbed_between(ops, lsh, l_max, p, front, npoints);
        let s = absorb_edges(ops, lsh, l_max, p, empty_slot(), front);
        let last = edges[edges.len() - 1];
        assert(last.dst < npoints);
        let e = kept_of(ops, lsh, last);
        assert(e.neighbor == last.dst);
        absorb_keeps_valid(s, l_max, e);
        let next = absorb(s, l_max, e);
        assert(slot_between(next, npoints)) by {
            assert forall|i: int| 0 <= i < next.entries.len() implies (
            #[trigger] next.entries[i]).neighbor < npoints by {
                if next.entries[i] != e {
                    assert(next.entries[i] == s.entries[i]);
                }
            }
        }
    }
}

/// What a drained slot lists names points below `npoints`.
proof fn drained_between(s: SlotView, max_degree: nat, npoints: int)
    requires
        slot_between(s, npoints),
    ensures
        drained(s.entries, max_degree).len() <= s.entries.len(),
        forall|i: int|
            0 <= i < drained(s.entries, max_degree).len() ==> (#[trigger] drained(
                s.entries,
                max_degree,
            )[i]).0 < npoints,
{
    let keys = dist_keys(s.entries);
    argsort_ascending(keys);
    let out = drained(s.entries, max_degree);
    assert forall|i: int| 0 <= i < out.len() implies (#[trigger] out[i]).0 < npoints by {
        let at = argsort(keys)[i];
        assert(0 <= at < keys.len());
        assert(s.entries[at].neighbor < npoints);
    }
}

/// The slot that a point has once all leaves have been merged through hash buckets.
pub open spec fn merged_slot<A: Arithmetic, D: Fn(&[Real], &[Real]) -> Real>(
    input: LeafInput<'_, A, D>,
    replicas: Seq<Vec<Vec<u32>>>,
    lsh: LshState,
    p: int,
) -> SlotView {
    absorb_edges(
        *input.ops,
        lsh,
        input.settings.l_max as nat,
        p,
        empty_slot(),
        input.edges_of_replicas(replicas, replicas.len() as int, true),
    )
}

/// The neighbours that a point gets from its slot: all of it, pruned, or its closest entries.
pub open spec fn merged_neighbors<A: Arithmetic, D: Fn(&[Real], &[Real]) -> Real>(
    input: LeafInput<'_, A, D>,
    s: SlotView,
    p: int,
) -> Seq<u32> {
    let settings = input.settings;
    if settings.final_prune {
        pruned_neighbors(
            p,
            drained(s.entries, settings.l_max as nat),
            settings.max_degree as int,
            settings.alpha,
            settings.saturate_after_prune,
            row_table(input.data@, input.ndims as int, *input.dist_fn),
            *input.ops,
        )
    } else {
        drained_ids(s, settings.max_degree as nat)
    }
}

/// What is pruned at the end rests on answers.
pub open spec fn merge_answered<A: Arithmetic, D: Fn(&[Real], &[Real]) -> Real>(
    input: LeafInput<'_, A, D>,
    s: SlotView,
    p: int,
) -> bool {
    let settings = input.settings;
    settings.final_prune ==> neighbors_answered(
        p,
        drained(s.entries, settings.l_max as nat),
        settings.max_degree as int,
        settings.alpha,
        row_table(input.data@, input.ndims as int, *input.dist_fn),
        row_answers(input.data@, input.ndims as int, *input.dist_fn),
        *input.ops,
    )
}

/// There is memory for the reservoirs of all points.
pub open spec fn reservoirs_fit(npoints: int, l_max: int) -> bool {
    &&& l_max <= L_MAX_MAX
    &&& npoints * (if l_max == 0 { 32 } else { rounded_up_to_32(l_max) }) <= usize::MAX
}

/// Merges all leaves through hash buckets and extracts the neighbours of every point.
pub fn build_merged<A: Arithmetic, D: Fn(&[Real], &[Real]) -> Real>(
    input: &LeafInput<'_, A, D>,
    replicas: &Vec<Vec<Vec<u32>>>,
    lsh: LshState,
) -> (r: (Vec<Vec<u32>>, LeafCounts))
    requires
        input.valid(),
        input.all_buildable(replicas@),
        lsh.wf(),
        reservoirs_fit(input.npoints as int, input.settings.l_max as int),
    ensures
        r.0@.len() == input.npoints,
        forall|p: int|
            0 <= p < input.npoints ==> (#[trigger] r.0@[p])@ == merged_neighbors(
                *input,
                merged_slot(*input, replicas@, lsh, p),
                p,
            ) && merge_answered(*input, merged_slot(*input, replicas@, lsh, p), p),
        r.1.num_leaves == wrapped(count_leaves(replicas@, replicas@.len() as int) as int),
        r.1.total_edges == wrapped(
            input.edges_of_replicas(replicas@, replicas@.len() as int, true).len() as int,
        ),
{
    let s = input.settings;
    let mut merge = HashPrune::from_sketches(input.ops, lsh, input.npoints, s.l_max, s.max_degree);
    let mut bufs = LeafBuffers::new();
    let ghost start = merge;
    let counts = run_leaves(input, replicas, true, &mut merge, &mut bufs);
    let ghost all = input.edges_of_replicas(replicas@, replicas@.len() as int, true);
    proof {
        assert forall|p: int| 0 <= p < input.npoints implies #[trigger] merge.slot(p)
            == merged_slot(*input, replicas@, lsh, p) by {
            assert(merge.collected(p) == start.after(p, start.collected(p), all));
            assert(start.slot(p) == empty_slot());
        }
    }
    if s.final_prune {
        let candidates = merge.extract_graph_for_prune();
        proof {
            input.replicas_edges_between(replicas@, replicas@.len() as int, true);
            assert forall|v: int| 0 <= v < candidates@.len() implies {
                &&& (#[trigger] candidates@[v]).len() <= u32::MAX
                &&& forall|i: int|
                    0 <= i < candidates@[v].len() ==> (#[trigger] candidates@[v]@[i]).0
                        < input.npoints
            } by {
                absorbed_between(
                    *input.ops,
                    lsh,
                    s.l_max as nat,
                    v,
                    all,
                    input.npoints as int,
                );
                assert(merge.slot(v) == merged_slot(*input, replicas@, lsh, v));
                drained_between(merge.slot(v), s.l_max as nat, input.npoints as int);
            }
        }
        let points = ByRow { data: input.data, ndims: input.ndims, dist_fn: input.dist_fn };
        assert(points.answered() == row_answers(input.data@, input.ndims as int, *input.dist_fn));
        let adjacency = prune_lists(
            input.npoints,
            &candidates,
            s.max_degree,
            s.alpha,
            s.saturate_after_prune,
            &points,
            input.ops,
        );
        (adjacency, counts)
    } else {
        (merge.extract_graph(), counts)
    }
}

/// The candidates that were accumulated for a point: the closest ones, or all where there is no
/// limit.
pub open spec fn accumulated<A: Arithmetic, D: Fn(&[Real], &[Real]) -> Real>(
    input: LeafInput<'_, A, D>,
    replicas: Seq<Vec<Vec<u32>>>,
    p: int,
) -> Seq<Candidate> {
    let edges = input.edges_of_replicas(replicas, replicas.len() as int, false);
    let history = candidates_from(edges, p, edges.len() as int);
    if input.settings.merge_l_max > 0 {
        offered_all(empty_pool(), input.settings.merge_l_max as nat, history).entries
    } else {
        history
    }
}

/// The lengths of the first `m` candidate lists, summed.
pub open spec fn total_candidates(lists: Seq<Vec<Candidate>>, m: int) -> nat
    decreases m,
{
    if m <= 0 {
        0
    } else {
        total_candidates(lists, m - 1) + lists[m - 1]@.len()
    }
}

/// Whether adjacency lists and counts are what comes of accumulated candidates: every point keeps
/// each of its candidates once, with the smallest distance, and these are pruned.
pub open spec fn comes_of<A: Arithmetic, D: Fn(&[Real], &[Real]) -> Real>(
    input: LeafInput<'_, A, D>,
    replicas: Seq<Vec<Vec<u32>>>,
    lists: Seq<Vec<Candidate>>,
    adjacency: Seq<Vec<u32>>,
    counts: LeafCounts,
) -> bool {
    let s = input.settings;
    &&& lists.len() == input.npoints
    &&& adjacency.len() == input.npoints
    &&& forall|p: int|
        0 <= p < input.npoints ==> {
            &&& dedupped(accumulated(input, replicas, p), (#[trigger] lists[p])@)
            &&& adjacency[p]@ == pruned_neighbors(
                p,
                lists[p]@,
                s.max_degree as int,
                s.alpha,
                s.saturate_after_prune,
                row_table(input.data@, input.ndims as int, *input.dist_fn),
                *input.ops,
            )
            &&& neighbors_answered(
                p,
                lists[p]@,
                s.max_degree as int,
                s.alpha,
                row_table(input.data@, input.ndims as int, *input.dist_fn),
                row_answers(input.data@, input.ndims as int, *input.dist_fn),
                *input.ops,
            )
        }
    &&& counts.num_leaves == wrapped(count_leaves(replicas, replicas.len() as int) as int)
    &&& counts.total_edges == wrapped(total_candidates(lists, lists.len() as int) as int)
}

/// Adjacency lists and counts come of the candidates accumulated from all leaves.
pub open spec fn accumulates_to<A: Arithmetic, D: Fn(&[Real], &[Real]) -> Real>(
    input: LeafInput<'_, A, D>,
    replicas: Seq<Vec<Vec<u32>>>,
    adjacency: Seq<Vec<u32>>,
    counts: LeafCounts,
) -> bool {
    exists|lists: Seq<Vec<Candidate>>| #[trigger]
        comes_of(input, replicas, lists, adjacency, counts)
}

proof fn candidates_between(edges: Seq<Edge>, p: int, m: int, npoints: int)
    requires
        0 <= m <= edges.len(),
        edges_between(edges, npoints),
        npoints <= u32::MAX,
    ensures
        forall|i: int|
            0 <= i < candidates_from(edges, p, m).len() ==> (#[trigger] candidates_from(edges, p, m)[i]).0
                < npoints,
    decreases m,
{
    if m > 0 {
        candidates_between(edges, p, m - 1, npoints);
        assert(edges[m - 1].dst < npoints);
        let front = candidates_from(edges, p, m - 1);
        let all = candidates_from(edges, p, m);
        assert forall|i: int| 0 <= i < all.len() implies (#[trigger] all[i]).0 < npoints by {
            if i < front.len() {
                assert(all[i] == front[i]);
            }
        }
    }
}

proof fn offered_between(l_max: nat, history: Seq<Candidate>, npoints: int)
    requires
        forall|i: int| 0 <= i < history.len() ==> (#[trigger] history[i]).0 < npoints,
    ensures
        ({
            let pool = offered_all(empty_pool(), l_max, history);
            &&& pool_valid(pool, l_max)
            &&& forall|i: int| 0 <= i < pool.entries.len() ==> (#[trigger] pool.entries[i]).0 < npoints
        }),
    decreases history.len(),
{
    if history.len() > 0 {
        let front = history.drop_last();
        assert forall|i: int| 0 <= i < front.len() implies (#[trigger] front[i]).0 < npoints by {
            assert(front[i] == history[i]);
        }
        offered_between(l_max, front, npoints);
        let p = offered_all(empty_pool(), l_max, front);
        let e = history[history.len() - 1];
        let next = offered(p, l_max, e);
        offered_valid(p, l_max, e);
        assert forall|i: int| 0 <= i < next.entries.len() implies (#[trigger] next.entries[i]).0
            < npoints by {
            if next.entries[i] != e {
                assert(next.entries[i] == p.entries[i]);
            }
        }
    }
}

/// A list of distinct points below `npoints` is no longer than `npoints`.
proof fn distinct_candidates_fit(list: Seq<Candidate>, npoints: int)
    requires
        0 <= npoints,
        forall|i: int| 0 <= i < list.len() ==> (#[trigger] list[i]).0 < npoints,
        forall|i: int, j: int|
            0 <= i < j < list.len() ==> (#[trigger] list[i]).0 != (#[trigger] list[j]).0,
    ensures
        list.len() <= npoints,
{
    let ids = list.map_values(|c: Candidate| c.0 as int);
    assert(ids.no_duplicates()) by {
        assert forall|i: int, j: int| 0 <= i < ids.len() && 0 <= j < ids.len() && i != j implies ids[i]
            != ids[j] by {
            if i < j {
                assert(list[i].0 != list[j].0);
            } else {
                assert(list[j].0 != list[i].0);
            }
        }
    }
    let range = vstd::set_lib::set_int_range(0, npoints);
    vstd::set_lib::lemma_int_range(0, npoints);
    ids.unique_seq_to_set();
    assert forall|x: int| ids.to_set().contains(x) implies range.contains(x) by {
        let k = choose|k: int| 0 <= k < ids.len() && ids[k] == x;
        assert(list[k].0 < npoints);
    }
    vstd::set_lib::lemma_len_subset(ids.to_set(), range);
}

/// Accumulates the candidates of all leaves, then prunes those of every point once.
pub fn build_accumulated<A: Arithmetic, D: Fn(&[Real], &[Real]) -> Real>(
    input: &LeafInput<'_, A, D>,
    replicas: &Vec<Vec<Vec<u32>>>,
) -> (r: (Vec<Vec<u32>>, LeafCounts))
    requires
        input.valid(),
        climbable(*input.ops, input.settings.alpha),
        input.all_buildable(replicas@),
    ensures
        accumulates_to(*input, replicas@, r.0@, r.1),
{
    let s = input.settings;
    let ghost edges = input.edges_of_replicas(replicas@, replicas@.len() as int, false);
    let counts;
    let lists;
    if s.merge_l_max > 0 {
        let mut pool = CandidatePool::new(input.npoints, s.merge_l_max);
        let ghost start = pool;
        counts = run_leaves_robust(input, replicas, &mut pool);
        proof {
            assert forall|p: int| 0 <= p < input.npoints implies #[trigger] pool.pool(p).entries
                == accumulated(*input, replicas@, p) by {
                assert(pool.collected(p) == start.after(p, start.collected(p), edges));
                assert(start.pool(p) == empty_pool());
            }
        }
        let ghost filled = pool;
        lists = pool.extract_dedupped_sorted();
        proof {
            assert forall|p: int| 0 <= p < input.npoints implies dedupped(
                accumulated(*input, replicas@, p),
                (#[trigger] lists@[p])@,
            ) by {
                assert(filled.pool(p).entries == accumulated(*input, replicas@, p));
            }
        }
    } else {
        let mut pool = AppendOnlyPool::new(input.npoints);
        let ghost start = pool;
        counts = run_leaves_robust(input, replicas, &mut pool);
        proof {
            assert forall|p: int| 0 <= p < input.npoints implies #[trigger] pool.entries(p)
                == accumulated(*input, replicas@, p) by {
                assert(pool.collected(p) == start.after(p, start.collected(p), edges));
                assert(start.entries(p) == Seq::<Candidate>::empty());
                assert(pool.entries(p) =~= accumulated(*input, replicas@, p));
            }
        }
        let ghost filled = pool;
        lists = pool.extract_dedupped_sorted();
        proof {
            assert forall|p: int| 0 <= p < input.npoints implies dedupped(
                accumulated(*input, replicas@, p),
                (#[trigger] lists@[p])@,
            ) by {
                assert(filled.entries(p) == accumulated(*input, replicas@, p));
            }
        }
    }
    let mut total: u64 = 0;
    let mut i: usize = 0;
    while i < lists.len()
        invariant
            i <= lists@.len(),
            total == wrapped(total_candidates(lists@, i as int) as int),
        decreases lists@.len() - i,
    {
        total = total.wrapping_add(lists[i].len() as u64);
        i += 1;
    }
    proof {
        input.replicas_edges_between(replicas@, replicas@.len() as int, false);
        assert forall|v: int| 0 <= v < lists@.len() implies {
            &&& (#[trigger] lists@[v]).len() <= u32::MAX
            &&& forall|i: int|
                0 <= i < lists@[v].len() ==> (#[trigger] lists@[v]@[i]).0 < input.npoints
        } by {
            let history = candidates_from(edges, v, edges.len() as int);
            candidates_between(edges, v, edges.len() as int, input.npoints as int);
            offered_between(s.merge_l_max as nat, history, input.npoints as int);
            let entries = accumulated(*input, replicas@, v);
            let list = lists@[v]@;
            assert(dedupped(entries, list));
            assert forall|i: int| 0 <= i < list.len() implies (#[trigger] list[i]).0
                < input.npoints by {
                assert(entries.contains(list[i]));
            }
            distinct_candidates_fit(list, input.npoints as int);
        }
    }
    let points = ByRow { data: input.data, ndims: input.ndims, dist_fn: input.dist_fn };
    assert(points.answered() == row_answers(input.data@, input.ndims as int, *input.dist_fn));
    let adjacency = prune_lists(
        input.npoints,
        &lists,
        s.max_degree,
        s.alpha,
        s.saturate_after_prune,
        &points,
        input.ops,
    );
    let out = LeafCounts { num_leaves: counts.num_leaves, total_edges: total };
    proof {
        assert(comes_of(*input, replicas@, lists@, adjacency@, out));
    }
    (adjacency, out)
}

/// Builds a graph that is merged by accumulation and a final prune, with the given start.
pub fn build_internal_robust<A: Arithmetic, D: Fn(&[Real], &[Real]) -> Real>(
    input: &LeafInput<'_, A, D>,
    replicas: &Vec<Vec<Vec<u32>>>,
    medoid: usize,
) -> (r: (PiPNNGraph, LeafCounts))
    requires
        input.valid(),
        climbable(*input.ops, input.settings.alpha),
        input.all_buildable(replicas@),
    ensures
        r.0.npoints == input.npoints,
        r.0.ndims == input.ndims,
        r.0.medoid == medoid,
        r.0.metric == input.settings.metric,
        accumulates_to(*input, replicas@, r.0.adjacency@, r.1),
{
    let built = build_accumulated(input, replicas);
    let graph = PiPNNGraph {
        adjacency: built.0,
        npoints: input.npoints,
        ndims: input.ndims,
        medoid,
        metric: input.settings.metric,
    };
    (graph, built.1)
}

/// Builds a graph: finds the start, then merges the leaves as the settings ask.
pub fn build_internal_impl<A: Arithmetic, D: Fn(&[Real], &[Real]) -> Real>(
    input: &LeafInput<'_, A, D>,
    replicas: &Vec<Vec<Vec<u32>>>,
    lsh: LshState,
) -> (r: (PiPNNGraph, LeafCounts))
    requires
        input.valid(),
        input.npoints > 0,
        input.all_buildable(replicas@),
        lsh.wf(),
        reservoirs_fit(input.npoints as int, input.settings.l_max as int),
    ensures
        r.0.wf(),
        r.0.npoints == input.npoints,
        r.0.ndims == input.ndims,
        r.0.medoid == medoid_of(
            *input.ops,
            input.data@,
            input.ndims as int,
            sampled_points(input.npoints),
        ),
        r.0.metric == input.settings.metric,
        input.settings.accumulates(false) ==> accumulates_to(
            *input,
            replicas@,
            r.0.adjacency@,
            r.1,
        ),
        !input.settings.accumulates(false) ==> {
            &&& forall|p: int|
                0 <= p < input.npoints ==> (#[trigger] r.0.adjacency@[p])@ == merged_neighbors(
                    *input,
                    merged_slot(*input, replicas@, lsh, p),
                    p,
                ) && merge_answered(*input, merged_slot(*input, replicas@, lsh, p), p)
            &&& r.1.num_leaves == wrapped(count_leaves(replicas@, replicas@.len() as int) as int)
            &&& r.1.total_edges == wrapped(
                input.edges_of_replicas(replicas@, replicas@.len() as int, true).len() as int,
            )
        },
{
    let medoid: usize = find_medoid(input.ops, input.data, input.npoints, input.ndims);
    if input.settings.uses_accumulation(false) {
        return build_internal_robust(input, replicas, medoid);
    }
    let built = build_merged(input, replicas, lsh);
    let graph = PiPNNGraph {
        adjacency: built.0,
        npoints: input.npoints,
        ndims: input.ndims,
        medoid,
        metric: input.settings.metric,
    };
    (graph, built.1)
}

/// Pruning keeps at most `max_degree` neighbours, all of them candidates.
pub proof fn pruned_neighbors_bounded<A: Arithmetic>(
    node: int,
    candidates: Seq<Candidate>,
    max_degree: int,
    alpha: Real,
    saturate: bool,
    points: PairTable,
    ops: A,
)
    requires
        0 <= max_degree,
    ensures
        ({
            let kept = pruned_neighbors(node, candidates, max_degree, alpha, saturate, points, ops);
            &&& kept.len() <= max_degree
            &&& forall|i: int|
                0 <= i < kept.len() ==> exists|j: int|
                    0 <= j < candidates.len() && (#[trigger] candidates[j]).0 == #[trigger] kept[i]
        }),
{
    let nc = candidates.len() as int;
    let node_dists = candidates.map_values(|c: (u32, Real)| points(node, c.0 as int));
    let pairs = candidate_table(candidates, points);
    let degree = if max_degree <= nc { max_degree } else { nc };
    let rel = position_ratio(node_dists, nc, pairs, ops);
    pruned_valid(rel, nc, degree, ladder(ops, alpha), saturate);
    argsort_ascending(rank_keys(node_dists.take(nc)));
    let taken = pruned(rel, nc, degree, ladder(ops, alpha), saturate);
    let order = near_to_far(node_dists, nc);
    let chosen = selection(nc, node_dists, max_degree, alpha, saturate, pairs, ops);
    let kept = pruned_neighbors(node, candidates, max_degree, alpha, saturate, points, ops);
    assert forall|i: int| 0 <= i < kept.len() implies exists|j: int|
        0 <= j < candidates.len() && (#[trigger] candidates[j]).0 == #[trigger] kept[i] by {
        assert(0 <= taken[i] < nc);
        assert(0 <= order[taken[i]] < nc);
        assert(chosen[i] == order[taken[i]]);
        assert(candidates[order[taken[i]]].0 == kept[i]);
    }
}

/// No point of a merged graph has more neighbours than the settings allow, and every neighbour is
/// a point.
pub proof fn merged_graph_bounded<A: Arithmetic, D: Fn(&[Real], &[Real]) -> Real>(
    input: LeafInput<'_, A, D>,
    replicas: Seq<Vec<Vec<u32>>>,
    lsh: LshState,
    p: int,
)
    requires
        input.valid(),
        input.all_buildable(replicas),
        0 <= p < input.npoints,
    ensures
        ({
            let list = merged_neighbors(input, merged_slot(input, replicas, lsh, p), p);
            &&& list.len() <= input.settings.max_degree
            &&& forall|i: int| 0 <= i < list.len() ==> #[trigger] list[i] < input.npoints
        }),
{
    let s = input.settings;
    let n = input.npoints as int;
    let edges = input.edges_of_replicas(replicas, replicas.len() as int, true);
    input.replicas_edges_between(replicas, replicas.len() as int, true);
    absorbed_between(*input.ops, lsh, s.l_max as nat, p, edges, n);
    let slot = merged_slot(input, replicas, lsh, p);
    let list = merged_neighbors(input, slot, p);
    if s.final_prune {
        let candidates = drained(slot.entries, s.l_max as nat);
        drained_between(slot, s.l_max as nat, n);
        pruned_neighbors_bounded(
            p,
            candidates,
            s.max_degree as int,
            s.alpha,
            s.saturate_after_prune,
            row_table(input.data@, input.ndims as int, *input.dist_fn),
            *input.ops,
        );
        assert forall|i: int| 0 <= i < list.len() implies #[trigger] list[i] < n by {
            let j = choose|j: int|
                0 <= j < candidates.len() && (#[trigger] candidates[j]).0 == list[i];
            assert(candidates[j].0 < n);
        }
    } else {
        drained_between(slot, s.max_degree as nat, n);
        let out = drained(slot.entries, s.max_degree as nat);
        assert forall|i: int| 0 <= i < list.len() implies #[trigger] list[i] < n by {
            assert(out[i].0 < n);
        }
    }
}

/// What a build that was let through returns.
pub open spec fn built<A: Arithmetic, D: Fn(&[Real], &[Real]) -> Real>(
    input: LeafInput<'_, A, D>,
    replicas: Seq<Vec<Vec<u32>>>,
    lsh: LshState,
    graph: PiPNNGraph,
    counts: LeafCounts,
) -> bool {
    &&& graph.wf()
    &&& graph.npoints == input.npoints
    &&& graph.ndims == input.ndims
    &&& graph.medoid == medoid_of(
        *input.ops,
        input.data@,
        input.ndims as int,
        sampled_points(input.npoints),
    )
    &&& graph.metric == input.settings.metric
    &&& input.settings.accumulates(false) ==> accumulates_to(
        input,
        replicas,
        graph.adjacency@,
        counts,
    )
    &&& !input.settings.accumulates(false) ==> {
        &&& forall|p: int|
            0 <= p < input.npoints ==> (#[trigger] graph.adjacency@[p])@ == merged_neighbors(
                input,
                merged_slot(input, replicas, lsh, p),
                p,
            ) && merge_answered(input, merged_slot(input, replicas, lsh, p), p)
        &&& counts.num_leaves == wrapped(count_leaves(replicas, replicas.len() as int) as int)
        &&& counts.total_edges == wrapped(
            input.edges_of_replicas(replicas, replicas.len() as int, true).len() as int,
        )
    }
}

/// The verdict on settings and data set of a build.
pub open spec fn build_verdict<A, D>(
    input: LeafInput<'_, A, D>,
    max_fanout: usize,
    entry: Entry,
) -> Result<(), PiPNNError> {
    match input.settings.verdict(max_fanout) {
        Err(e) => Err(PiPNNError::Config(e)),
        Ok(_) => data_verdict(
            entry,
            input.data@.len() as int,
            input.npoints as int,
            input.ndims as int,
        ),
    }
}

fn build_checked<A: Arithmetic, D: Fn(&[Real], &[Real]) -> Real>(
    input: &LeafInput<'_, A, D>,
    max_fanout: usize,
    replicas: &Vec<Vec<Vec<u32>>>,
    lsh: LshState,
    entry: Entry,
) -> (r: Result<(PiPNNGraph, LeafCounts), PiPNNError>)
    requires
        input.npoints * input.ndims <= usize::MAX,
        build_verdict(*input, max_fanout, entry) is Ok ==> {
            &&& input.valid()
            &&& input.all_buildable(replicas@)
            &&& lsh.wf()
            &&& reservoirs_fit(input.npoints as int, input.settings.l_max as int)
        },
    ensures
        match build_verdict(*input, max_fanout, entry) {
            Err(e) => r == Err::<(PiPNNGraph, LeafCounts), PiPNNError>(e),
            Ok(_) => r matches Ok(g) && built(*input, replicas@, lsh, g.0, g.1),
        },
{
    match check_build(
        entry,
        input.settings,
        max_fanout,
        input.data.len(),
        input.npoints,
        input.ndims,
    ) {
        Err(e) => Err(e),
        Ok(_) => Ok(build_internal_impl(input, replicas, lsh)),
    }
}

/// Builds a graph over vectors of numbers. `replicas` holds the leaves of every partition pass,
/// `lsh` the sketches of all points.
pub fn build<A: Arithmetic, D: Fn(&[Real], &[Real]) -> Real>(
    input: &LeafInput<'_, A, D>,
    max_fanout: usize,
    replicas: &Vec<Vec<Vec<u32>>>,
    lsh: LshState,
) -> (r: Result<(PiPNNGraph, LeafCounts), PiPNNError>)
    requires
        input.npoints * input.ndims <= usize::MAX,
        build_verdict(*input, max_fanout, Entry::Plain) is Ok ==> {
            &&& input.valid()
            &&& input.all_buildable(replicas@)
            &&& lsh.wf()
            &&& reservoirs_fit(input.npoints as int, input.settings.l_max as int)
        },
    ensures
        match build_verdict(*input, max_fanout, Entry::Plain) {
            Err(e) => r == Err::<(PiPNNGraph, LeafCounts), PiPNNError>(e),
            Ok(_) => r matches Ok(g) && built(*input, replicas@, lsh, g.0, g.1),
        },
{
    build_checked(input, max_fanout, replicas, lsh, Entry::Plain)
}

/// Builds a graph over vectors that were converted from another type.
pub fn build_typed<A: Arithmetic, D: Fn(&[Real], &[Real]) -> Real>(
    input: &LeafInput<'_, A, D>,
    max_fanout: usize,
    replicas: &Vec<Vec<Vec<u32>>>,
    lsh: LshState,
) -> (r: Result<(PiPNNGraph, LeafCounts), PiPNNError>)
    requires
        input.npoints * input.ndims <= usize::MAX,
        build_verdict(*input, max_fanout, Entry::Typed) is Ok ==> {
            &&& input.valid()
            &&& input.all_buildable(replicas@)
            &&& lsh.wf()
            &&& reservoirs_fit(input.npoints as int, input.settings.l_max as int)
        },
    ensures
        match build_verdict(*input, max_fanout, Entry::Typed) {
            Err(e) => r == Err::<(PiPNNGraph, LeafCounts), PiPNNError>(e),
            Ok(_) => r matches Ok(g) && built(*input, replicas@, lsh, g.0, g.1),
        },
{
    build_checked(input, max_fanout, replicas, lsh, Entry::Typed)
}

/// The edges of the first `m` leaves of quantized vectors.
pub open spec fn quantized_edges_of_leaves(
    qdata: QuantizedData,
    k: int,
    leaves: Seq<Vec<u32>>,
    m: int,
) -> Seq<Edge>
    decreases m,
{
    if m <= 0 {
        Seq::empty()
    } else {
        let indices = leaf_indices(leaves[m - 1]@);
        quantized_edges_of_leaves(qdata, k, leaves, m - 1) + leaf_edges(
            hamming_matrix(qdata, indices),
            indices.len() as int,
            k,
            indices,
        )
    }
}

/// The edges of the leaves of the first `r` replicas of quantized vectors.
pub open spec fn quantized_edges(
    qdata: QuantizedData,
    k: int,
    replicas: Seq<Vec<Vec<u32>>>,
    r: int,
) -> Seq<Edge>
    decreases r,
{
    if r <= 0 {
        Seq::empty()
    } else {
        quantized_edges(qdata, k, replicas, r - 1) + quantized_edges_of_leaves(
            qdata,
            k,
            replicas[r - 1]@,
            replicas[r - 1]@.len() as int,
        )
    }
}

/// A leaf of quantized vectors that can be built.
pub open spec fn quantized_buildable(npoints: int, leaf: Seq<u32>) -> bool {
    &&& leaf.len() <= u32::MAX
    &&& leaf.len() * leaf.len() <= usize::MAX
    &&& forall|i: int| 0 <= i < leaf.len() ==> #[trigger] leaf[i] < npoints
}

/// What a build from quantized vectors returns: leaves by bit differences, merged through hash
/// buckets, the closest entries of every slot.
pub open spec fn built_quantized<A: Arithmetic>(
    ops: A,
    settings: BuildSettings,
    qdata: QuantizedData,
    lsh: LshState,
    medoid: usize,
    ndims: usize,
    replicas: Seq<Vec<Vec<u32>>>,
    graph: PiPNNGraph,
    counts: LeafCounts,
) -> bool {
    let edges = quantized_edges(qdata, settings.config.k as int, replicas, replicas.len() as int);
    &&& graph.npoints == qdata.count()
    &&& graph.ndims == ndims
    &&& graph.medoid == medoid
    &&& graph.metric == settings.metric
    &&& graph.adjacency@.len() == qdata.count()
    &&& forall|p: int|
        0 <= p < qdata.count() ==> (#[trigger] graph.adjacency@[p])@ == drained_ids(
            absorb_edges(ops, lsh, settings.l_max as nat, p, empty_slot(), edges),
            settings.max_degree as nat,
        )
    &&& counts.num_leaves == wrapped(count_leaves(replicas, replicas.len() as int) as int)
    &&& counts.total_edges == wrapped(edges.len() as int)
}

/// Builds a graph from quantized vectors, with the given start.
pub fn build_internal_sq_impl<A: Arithmetic>(
    ops: &A,
    ndims: usize,
    settings: &BuildSettings,
    qdata: &QuantizedData,
    lsh: LshState,
    medoid: usize,
    replicas: &Vec<Vec<Vec<u32>>>,
) -> (r: (PiPNNGraph, LeafCounts))
    requires
        ops.ready(),
        qdata.wf(),
        64 * qdata.width() <= u32::MAX,
        lsh.wf(),
        reservoirs_fit(qdata.count() as int, settings.l_max as int),
        forall|r: int, i: int|
            0 <= r < replicas@.len() && 0 <= i < replicas@[r]@.len() ==> quantized_buildable(
                qdata.count() as int,
                (#[trigger] replicas@[r]@[i])@,
            ),
    ensures
        built_quantized(
            *ops,
            *settings,
            *qdata,
            lsh,
            medoid,
            ndims,
            replicas@,
            r.0,
            r.1,
        ),
{
    let n: usize = qdata.npoints();
    let k: usize = settings.config.k;
    let mut merge = HashPrune::from_sketches(ops, lsh, n, settings.l_max, settings.max_degree);
    let ghost start = merge;
    let mut num_leaves: u64 = 0;
    let mut total_edges: u64 = 0;
    let mut r: usize = 0;
    while r < replicas.len()
        invariant
            r <= replicas@.len(),
            n == qdata.count(),
            k == settings.config.k,
            qdata.wf(),
            64 * qdata.width() <= u32::MAX,
            forall|r: int, i: int|
                0 <= r < replicas@.len() && 0 <= i < replicas@[r]@.len() ==> quantized_buildable(
                    qdata.count() as int,
                    (#[trigger] replicas@[r]@[i])@,
                ),
            merge.valid(),
            merge.setup() == start.setup(),
            start.setup() == (*ops, lsh, settings.l_max as nat, settings.max_degree as nat),
            merge.npoints() == n,
            forall|p: int|
                0 <= p < n ==> #[trigger] merge.slot(p) == absorb_edges(
                    *ops,
                    lsh,
                    settings.l_max as nat,
                    p,
                    empty_slot(),
                    quantized_edges(*qdata, k as int, replicas@, r as int),
                ),
            num_leaves == wrapped(count_leaves(replicas@, r as int) as int),
            total_edges == wrapped(
                quantized_edges(*qdata, k as int, replicas@, r as int).len() as int,
            ),
        decreases replicas@.len() - r,
    {
        let leaves = &replicas[r];
        let ghost done = quantized_edges(*qdata, k as int, replicas@, r as int);
        let mut i: usize = 0;
        proof {
            assert(done + quantized_edges_of_leaves(*qdata, k as int, leaves@, 0) =~= done);
        }
        while i < leaves.len()
            invariant
                r < replicas@.len(),
                *leaves == replicas@[r as int],
                i <= leaves@.len(),
                n == qdata.count(),
                k == settings.config.k,
                qdata.wf(),
                64 * qdata.width() <= u32::MAX,
                forall|r: int, i: int|
                    0 <= r < replicas@.len() && 0 <= i < replicas@[r]@.len()
                        ==> quantized_buildable(qdata.count() as int, (#[trigger] replicas@[r]@[i])@),
                merge.valid(),
                merge.setup() == start.setup(),
                start.setup() == (*ops, lsh, settings.l_max as nat, settings.max_degree as nat),
                merge.npoints() == n,
                forall|p: int|
                    0 <= p < n ==> #[trigger] merge.slot(p) == absorb_edges(
                        *ops,
                        lsh,
                        settings.l_max as nat,
                        p,
                        empty_slot(),
                        done + quantized_edges_of_leaves(*qdata, k as int, leaves@, i as int),
                    ),
                total_edges == wrapped(
                    (done + quantized_edges_of_leaves(
                        *qdata,
                        k as int,
                        leaves@,
                        i as int,
                    )).len() as int,
                ),
            decreases leaves@.len() - i,
        {
            let ghost prior = merge;
            let ghost sofar = done + quantized_edges_of_leaves(
                *qdata,
                k as int,
                leaves@,
                i as int,
            );
            let ghost more = done + quantized_edges_of_leaves(*qdata, k as int, leaves@, i + 1);
            assert(quantized_buildable(qdata.count() as int, replicas@[r as int]@[i as int]@));
            let indices = widen_indices(&leaves[i]);
            proof {
                assert forall|x: int| 0 <= x < indices@.len() implies #[trigger] indices@[x]
                    < qdata.count() by {
                    assert(leaves@[i as int]@[x] < qdata.count());
                }
            }
            let edges = build_leaf_quantized(qdata, indices.as_slice(), k);
            proof {
                let dm = hamming_matrix(*qdata, indices@);
                hamming_leaf_ranked(*qdata, indices@, k as int);
                knn_leaf_between(dm, indices@.len() as int, k as int, indices@, n as int);
                assert(more =~= sofar + edges@);
                assert(edges.len() == edges@.len());
            }
            total_edges = total_edges.wrapping_add(edges.len() as u64);
            merge.add_edges_batched(edges.as_slice());
            proof {
                assert forall|p: int| 0 <= p < n implies #[trigger] merge.slot(p) == absorb_edges(
                    *ops,
                    lsh,
                    settings.l_max as nat,
                    p,
                    empty_slot(),
                    more,
                ) by {
                    assert(prior.slot(p) == absorb_edges(
                        *ops,
                        lsh,
                        settings.l_max as nat,
                        p,
                        empty_slot(),
                        sofar,
                    ));
                    start.after_appends(p, empty_slot(), sofar, edges@);
                }
            }
            i += 1;
        }
        num_leaves = num_leaves.wrapping_add(leaves.len() as u64);
        r += 1;
    }
    let graph = PiPNNGraph {
        adjacency: merge.extract_graph(),
        npoints: n,
        ndims,
        medoid,
        metric: settings.metric,
    };
    (graph, LeafCounts { num_leaves, total_edges })
}

/// Builds a graph from quantized vectors and a start that was found before.
pub fn build_from_quantized<A: Arithmetic>(
    ops: &A,
    settings: &BuildSettings,
    max_fanout: usize,
    qdata: &QuantizedData,
    npoints: usize,
    ndims: usize,
    medoid: usize,
    lsh: LshState,
    replicas: &Vec<Vec<Vec<u32>>>,
) -> (r: Result<(PiPNNGraph, LeafCounts), PiPNNError>)
    requires
        npoints * ndims <= usize::MAX,
        qdata.count() * qdata.dims() <= usize::MAX,
        ops.ready(),
        qdata.wf(),
        64 * qdata.width() <= u32::MAX,
        lsh.wf(),
        settings.verdict(max_fanout) is Ok ==> reservoirs_fit(
            qdata.count() as int,
            settings.l_max as int,
        ),
        forall|r: int, i: int|
            0 <= r < replicas@.len() && 0 <= i < replicas@[r]@.len() ==> quantized_buildable(
                qdata.count() as int,
                (#[trigger] replicas@[r]@[i])@,
            ),
    ensures
        match quantized_verdict(
            *settings,
            max_fanout,
            npoints as int,
            ndims as int,
            qdata.count() as int,
            qdata.dims() as int,
        ) {
            Err(e) => r == Err::<(PiPNNGraph, LeafCounts), PiPNNError>(e),
            Ok(_) => r matches Ok(g) && built_quantized(
                *ops,
                *settings,
                *qdata,
                lsh,
                medoid,
                ndims,
                replicas@,
                g.0,
                g.1,
            ),
        },
{
    match check_build_from_quantized(
        settings,
        max_fanout,
        npoints,
        ndims,
        qdata.npoints(),
        qdata.ndims(),
    ) {
        Err(e) => Err(e),
        Ok(_) => Ok(build_internal_sq_impl(ops, ndims, settings, qdata, lsh, medoid, replicas)),
    }
}

/// A scalar quantizer that was trained before.
#[derive(Debug)]
pub struct SQParams {
    /// What is subtracted from every component.
    pub shift: Vec<Real>,
    /// What all components are multiplied by.
    pub inverse_scale: Real,
}

/// What a build that quantizes its data set returns.
pub open spec fn built_with_sq<A: Arithmetic>(
    ops: A,
    data: Seq<Real>,
    npoints: usize,
    ndims: usize,
    settings: BuildSettings,
    sq_params: SQParams,
    lsh: LshState,
    replicas: Seq<Vec<Vec<u32>>>,
    graph: PiPNNGraph,
    counts: LeafCounts,
) -> bool {
    exists|qdata: QuantizedData|
        {
            &&& #[trigger] quantizes(
                ops,
                data,
                npoints as int,
                ndims as int,
                sq_params.shift@,
                sq_params.inverse_scale,
                qdata,
            )
            &&& built_quantized(
                ops,
                settings,
                qdata,
                lsh,
                medoid_of(ops, data, ndims as int, sampled_points(npoints)),
                ndims,
                replicas,
                graph,
                counts,
            )
        }
}

/// Quantizes a data set and builds a graph from the quantized vectors; the start is found in the
/// data set. The quantizer has to have been trained for vectors of the same length.
pub fn build_with_sq<A: Arithmetic>(
    ops: &A,
    data: &[Real],
    npoints: usize,
    ndims: usize,
    settings: &BuildSettings,
    max_fanout: usize,
    sq_params: &SQParams,
    lsh: LshState,
    replicas: &Vec<Vec<Vec<u32>>>,
) -> (r: Result<(PiPNNGraph, LeafCounts), PiPNNError>)
    requires
        npoints * ndims <= usize::MAX,
        ops.ready(),
        64 * words_for(ndims as int) <= u32::MAX,
        lsh.wf(),
        settings.verdict(max_fanout) is Ok ==> reservoirs_fit(
            npoints as int,
            settings.l_max as int,
        ),
        forall|r: int, i: int|
            0 <= r < replicas@.len() && 0 <= i < replicas@[r]@.len() ==> quantized_buildable(
                npoints as int,
                (#[trigger] replicas@[r]@[i])@,
            ),
    ensures
        match sq_verdict(
            *settings,
            max_fanout,
            data@.len() as int,
            npoints as int,
            ndims as int,
            sq_params.shift.len(),
        ) {
            Err(e) => r == Err::<(PiPNNGraph, LeafCounts), PiPNNError>(e),
            Ok(_) => r matches Ok(g) && built_with_sq(
                *ops,
                data@,
                npoints,
                ndims,
                *settings,
                *sq_params,
                lsh,
                replicas@,
                g.0,
                g.1,
            ),
        },
{
    let shift: usize = sq_params.shift.len();
    match check_build_with_sq(settings, max_fanout, data.len(), npoints, ndims, shift) {
        Err(e) => Err(e),
        Ok(_) => {
            let qdata = quantize_1bit(
                ops,
                data,
                npoints,
                ndims,
                sq_params.shift.as_slice(),
                sq_params.inverse_scale,
            );
            let medoid: usize = find_medoid(ops, data, npoints, ndims);
            Ok(build_internal_sq_impl(ops, ndims, settings, &qdata, lsh, medoid, replicas))
        },
    }
}

} // verus!
