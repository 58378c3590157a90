//! What a build makes of the edges of its leaves.

use crate::arith::Arithmetic;
use crate::builder::{
    accumulated, built, built_quantized, comes_of, count_leaves, leaf_order, merged_neighbors,
    merged_slot, quantized_edges, quantized_edges_of_leaves, smallest_point, total_candidates,
    LeafCounts, LeafInput,
};
use crate::candidate_pool::{
    all_numbers, candidates_from, dedupped, dropped, pool_keeps_closest, Candidate,
};
use crate::config::{BuildSettings, LeafPruneMode};
use crate::edge_laws::pruned_leaf_edges_are_flat;
use crate::exact::{total, total_of_more};
use crate::graph::PiPNNGraph;
use crate::hash_prune::{absorb_edges, absorb_edges_history, kept_of, offers};
use crate::knn::Edge;
use crate::ladder::{ladder, rising};
use crate::leaf_build::{leaf_edges, leaf_matrix};
use crate::leaf_robust::{direct_matrix, node_edges};
use crate::lsh::LshState;
use crate::measure::row_table;
use crate::number::Real;
use crate::prune_laws::{candidates_have, lesser, neighbors_by_distance, spread_out};
use crate::quantized::{hamming_matrix, QuantizedData};
use crate::reservoir::{bucket_of, drained, empty_slot, Kept};
use crate::reservoir_laws::{given_out, neighbors_are_closest_buckets, slot_counts_buckets};
use crate::sort::{argsort_ascending, before};
use vstd::prelude::*;

verus! {

/// The edges that leave point `p`.
pub open spec fn leaving(edges: Seq<Edge>, p: int) -> Seq<Edge> {
    edges.filter(|e: Edge| e.src == p)
}

/// The bucket of the far end of an edge, seen from point `p`.
pub open spec fn end_bucket<A: Arithmetic>(ops: A, lsh: LshState, p: int, e: Edge) -> u16 {
    lsh.bucket(ops, p, e.dst as int) as u16
}

/// The buckets to which edges from point `p` lead.
pub open spec fn end_buckets<A: Arithmetic>(
    ops: A,
    lsh: LshState,
    edges: Seq<Edge>,
    p: int,
) -> Set<u16> {
    leaving(edges, p).map_values(|e: Edge| end_bucket(ops, lsh, p, e)).to_set()
}

/// `via` are the edges from point `p` that count: as many as `most` and the number of buckets
/// allow, each the closest of its bucket, from near to far, and none farther than an edge to
/// another bucket. Distances are compared with sixteen bits.
pub open spec fn closest_ends<A: Arithmetic>(
    ops: A,
    lsh: LshState,
    edges: Seq<Edge>,
    p: int,
    most: int,
    via: Seq<Edge>,
) -> bool {
    let from = leaving(edges, p);
    &&& via.len() == lesser(most, end_buckets(ops, lsh, edges, p).len() as int)
    &&& forall|i: int| 0 <= i < via.len() ==> from.contains(#[trigger] via[i])
    &&& forall|i: int, j: int|
        0 <= i < j < via.len() ==> {
            &&& (#[trigger] via[i]).distance.coarse() <= (#[trigger] via[j]).distance.coarse()
            &&& end_bucket(ops, lsh, p, via[i]) != end_bucket(ops, lsh, p, via[j])
        }
    &&& forall|i: int, j: int|
        0 <= i < via.len() && 0 <= j < from.len() && ends_like_or_apart(
            ops,
            lsh,
            p,
            via,
            i,
            #[trigger] from[j],
        ) ==> (#[trigger] via[i]).distance.coarse() <= from[j].distance.coarse()
}

/// An edge leads to the bucket of the `i`-th of the given edges, or to a bucket of none of them.
pub open spec fn ends_like_or_apart<A: Arithmetic>(
    ops: A,
    lsh: LshState,
    p: int,
    via: Seq<Edge>,
    i: int,
    e: Edge,
) -> bool {
    end_bucket(ops, lsh, p, e) == end_bucket(ops, lsh, p, via[i]) || forall|x: int|
        0 <= x < via.len() ==> end_bucket(ops, lsh, p, #[trigger] via[x]) != end_bucket(
            ops,
            lsh,
            p,
            e,
        )
}

proof fn offers_are_leaving<A: Arithmetic>(ops: A, lsh: LshState, p: int, edges: Seq<Edge>)
    ensures
        offers(ops, lsh, p, edges) == leaving(edges, p).map_values(
            |e: Edge| kept_of(ops, lsh, e),
        ),
        forall|j: int|
            0 <= j < leaving(edges, p).len() ==> (#[trigger] leaving(edges, p)[j]).src == p,
    decreases edges.len(),
{
    reveal(Seq::filter);
    if edges.len() > 0 {
        offers_are_leaving(ops, lsh, p, edges.drop_last());
    }
    assert(offers(ops, lsh, p, edges) =~= leaving(edges, p).map_values(
        |e: Edge| kept_of(ops, lsh, e),
    ));
}

/// What a slot gives out once all edges have been merged are the far ends of the edges that count.
pub proof fn slot_gives_closest_ends<A: Arithmetic>(
    ops: A,
    lsh: LshState,
    l_max: nat,
    edges: Seq<Edge>,
    p: int,
    most: nat,
) -> (via: Seq<Edge>)
    ensures
        closest_ends(ops, lsh, edges, p, lesser(most as int, l_max as int), via),
        ({
            let out = drained(absorb_edges(ops, lsh, l_max, p, empty_slot(), edges).entries, most);
            &&& out.len() == via.len()
            &&& forall|i: int|
                0 <= i < out.len() ==> (#[trigger] out[i]).0 == via[i].dst as int % 0x1_0000_0000
        }),
{
    let from = leaving(edges, p);
    let history = offers(ops, lsh, p, edges);
    offers_are_leaving(ops, lsh, p, edges);
    absorb_edges_history(ops, lsh, l_max, p, edges);
    neighbors_are_closest_buckets(l_max, history, most);
    slot_counts_buckets(l_max, history);
    let entries = absorb_edges(ops, lsh, l_max, p, empty_slot(), edges).entries;
    let out = given_out(entries, most);
    let pick = |i: int| choose|j: int| 0 <= j < history.len() && history[j] == out[i];
    let via = Seq::new(out.len(), |i: int| from[pick(i)]);
    assert(history.map_values(|k: Kept| k.hash) =~= from.map_values(
        |e: Edge| end_bucket(ops, lsh, p, e),
    ));
    assert forall|j: int| 0 <= j < from.len() implies {
        &&& (#[trigger] history[j]).hash == end_bucket(ops, lsh, p, from[j])
        &&& history[j].dist == from[j].distance.coarse()
    } by {
        assert(history[j] == kept_of(ops, lsh, from[j]));
    }
    assert forall|i: int| 0 <= i < out.len() implies {
        &&& from.contains(#[trigger] via[i])
        &&& out[i].hash == end_bucket(ops, lsh, p, via[i])
        &&& out[i].dist == via[i].distance.coarse()
        &&& out[i].neighbor == via[i].dst as int % 0x1_0000_0000
    } by {
        assert(history.contains(out[i]));
        let j = pick(i);
        assert(0 <= j < history.len() && history[j] == out[i]);
        assert(history[j] == kept_of(ops, lsh, from[j]));
        assert(via[i] == from[j]);
    }
    assert forall|i: int, j: int| 0 <= i < j < via.len() implies {
        &&& (#[trigger] via[i]).distance.coarse() <= (#[trigger] via[j]).distance.coarse()
        &&& end_bucket(ops, lsh, p, via[i]) != end_bucket(ops, lsh, p, via[j])
    } by {
        assert(out[i].dist <= out[j].dist);
        assert(out[i].hash != out[j].hash);
    }
    assert forall|i: int, j: int|
        0 <= i < via.len() && 0 <= j < from.len() && ends_like_or_apart(
            ops,
            lsh,
            p,
            via,
            i,
            #[trigger] from[j],
        ) implies (#[trigger] via[i]).distance.coarse() <= from[j].distance.coarse() by {
        assert(history[j].hash == end_bucket(ops, lsh, p, from[j]));
        if history[j].hash == out[i].hash {
            assert(out[i].dist <= history[j].dist);
        } else {
            if bucket_of(out, history[j].hash) is Some {
                let x = choose|x: int|
                    0 <= x < out.len() && (#[trigger] out[x]).hash == history[j].hash;
                assert(end_bucket(ops, lsh, p, via[x]) == end_bucket(ops, lsh, p, from[j]));
            }
            assert(out[i].dist <= history[j].dist);
        }
    }
    let given = drained(entries, most);
    assert forall|i: int| 0 <= i < given.len() implies (#[trigger] given[i]).0 == via[i].dst as int
        % 0x1_0000_0000 by {
        assert(given[i].0 == out[i].neighbor);
        assert(from.contains(via[i]));
    }
    via
}

/// All edges of all leaves of a build that merges through hash buckets.
pub open spec fn all_edges<A: Arithmetic, D: Fn(&[Real], &[Real]) -> Real>(
    input: LeafInput<'_, A, D>,
    replicas: Seq<Vec<Vec<u32>>>,
) -> Seq<Edge> {
    input.edges_of_replicas(replicas, replicas.len() as int, true)
}

/// Once edges have been merged through hash buckets and no pruning is asked for, the neighbours of
/// a point are the far ends of the closest edges of the closest buckets: as many as the degree, the
/// size of a slot and the number of buckets allow.
pub proof fn unpruned_build_keeps_closest<A: Arithmetic, D: Fn(&[Real], &[Real]) -> Real>(
    input: LeafInput<'_, A, D>,
    replicas: Seq<Vec<Vec<u32>>>,
    lsh: LshState,
    graph: PiPNNGraph,
    counts: LeafCounts,
    p: int,
) -> (via: Seq<Edge>)
    requires
        built(input, replicas, lsh, graph, counts),
        !input.settings.accumulates(false),
        !input.settings.final_prune,
        0 <= p < input.npoints,
    ensures
        closest_ends(
            *input.ops,
            lsh,
            all_edges(input, replicas),
            p,
            lesser(input.settings.max_degree as int, input.settings.l_max as int),
            via,
        ),
        graph.adjacency@[p]@.len() == via.len(),
        forall|i: int|
            0 <= i < via.len() ==> (#[trigger] graph.adjacency@[p]@[i]) == via[i].dst as int
                % 0x1_0000_0000,
{
    let s = input.settings;
    let via = slot_gives_closest_ends(
        *input.ops,
        lsh,
        s.l_max as nat,
        all_edges(input, replicas),
        p,
        s.max_degree as nat,
    );
    let out = drained(merged_slot(input, replicas, lsh, p).entries, s.max_degree as nat);
    assert forall|i: int| 0 <= i < via.len() implies (#[trigger] graph.adjacency@[p]@[i])
        == via[i].dst as int % 0x1_0000_0000 by {
        assert(graph.adjacency@[p]@[i] == out[i].0);
    }
    via
}

/// Once edges have been merged through hash buckets and are pruned, every neighbour of a point is
/// the far end of an edge that its slot kept, and no point has more neighbours than asked for.
/// Without saturation, its neighbours are spread out, by the distances between the points
/// themselves.
pub proof fn pruned_build_selects<A: Arithmetic, D: Fn(&[Real], &[Real]) -> Real>(
    input: LeafInput<'_, A, D>,
    replicas: Seq<Vec<Vec<u32>>>,
    lsh: LshState,
    graph: PiPNNGraph,
    counts: LeafCounts,
    p: int,
) -> (r: (Seq<Edge>, Seq<(u32, Real)>))
    requires
        built(input, replicas, lsh, graph, counts),
        !input.settings.accumulates(false),
        input.settings.final_prune,
        0 <= p < input.npoints,
    ensures
        closest_ends(
            *input.ops,
            lsh,
            all_edges(input, replicas),
            p,
            input.settings.l_max as int,
            r.0,
        ),
        r.1.len() == r.0.len(),
        forall|i: int|
            0 <= i < r.1.len() ==> (#[trigger] r.1[i]).0 == r.0[i].dst as int % 0x1_0000_0000,
        graph.adjacency@[p]@.len() <= lesser(input.settings.max_degree as int, r.0.len() as int),
        forall|x: int|
            0 <= x < graph.adjacency@[p]@.len() ==> candidates_have(
                r.1,
                #[trigger] graph.adjacency@[p]@[x],
            ),
        input.settings.saturate_after_prune ==> graph.adjacency@[p]@.len() == lesser(
            input.settings.max_degree as int,
            r.0.len() as int,
        ),
        !input.settings.saturate_after_prune && Real::spec_one().le(input.settings.alpha)
            && input.settings.alpha.lt(Real::spec_max()) && rising(
            ladder(*input.ops, input.settings.alpha),
            input.settings.alpha,
        ) ==> spread_out(
            p,
            r.1,
            graph.adjacency@[p]@,
            lesser(input.settings.max_degree as int, r.0.len() as int),
            input.settings.alpha,
            row_table(input.data@, input.ndims as int, *input.dist_fn),
            *input.ops,
        ),
{
    let s = input.settings;
    let via = slot_gives_closest_ends(
        *input.ops,
        lsh,
        s.l_max as nat,
        all_edges(input, replicas),
        p,
        s.l_max as nat,
    );
    let candidates = drained(merged_slot(input, replicas, lsh, p).entries, s.l_max as nat);
    let points = row_table(input.data@, input.ndims as int, *input.dist_fn);
    neighbors_by_distance(
        p,
        candidates,
        s.max_degree as int,
        s.alpha,
        s.saturate_after_prune,
        points,
        *input.ops,
    );
    let kept = graph.adjacency@[p]@;
    assert(kept == merged_neighbors(input, merged_slot(input, replicas, lsh, p), p));
    (via, candidates)
}

/// With pruning at the end and saturation every point has exactly as many neighbours as the degree
/// allows, out of the candidates that its slot gives out: one for each bucket to which edges lead
/// from the point, no more than the size of a slot.
pub proof fn saturated_build_fills<A: Arithmetic, D: Fn(&[Real], &[Real]) -> Real>(
    input: LeafInput<'_, A, D>,
    replicas: Seq<Vec<Vec<u32>>>,
    lsh: LshState,
    graph: PiPNNGraph,
    counts: LeafCounts,
    p: int,
)
    requires
        built(input, replicas, lsh, graph, counts),
        !input.settings.accumulates(false),
        input.settings.final_prune,
        input.settings.saturate_after_prune,
        0 <= p < input.npoints,
    ensures
        graph.adjacency@[p]@.len() == lesser(
            input.settings.max_degree as int,
            drained(
                merged_slot(input, replicas, lsh, p).entries,
                input.settings.l_max as nat,
            ).len() as int,
        ),
        graph.adjacency@[p]@.len() == lesser(
            input.settings.max_degree as int,
            lesser(
                input.settings.l_max as int,
                end_buckets(*input.ops, lsh, all_edges(input, replicas), p).len() as int,
            ),
        ),
{
    let s = input.settings;
    let (via, candidates) = pruned_build_selects(input, replicas, lsh, graph, counts, p);
    let again = slot_gives_closest_ends(
        *input.ops,
        lsh,
        s.l_max as nat,
        all_edges(input, replicas),
        p,
        s.l_max as nat,
    );
    assert(again.len() == via.len());
}

/// The neighbours to which edges lead from a point.
pub open spec fn ends(edges: Seq<Edge>, p: int) -> Set<u32> {
    leaving(edges, p).map_values(|e: Edge| (e.dst as int % 0x1_0000_0000) as u32).to_set()
}

proof fn candidates_are_leaving(edges: Seq<Edge>, p: int, m: int)
    requires
        0 <= m <= edges.len(),
    ensures
        candidates_from(edges, p, m) == leaving(edges.take(m), p).map_values(
            |e: Edge| ((e.dst as int % 0x1_0000_0000) as u32, e.distance),
        ),
    decreases m,
{
    reveal(Seq::filter);
    if m > 0 {
        candidates_are_leaving(edges, p, m - 1);
        assert(edges.take(m).drop_last() =~= edges.take(m - 1));
    }
    assert(candidates_from(edges, p, m) =~= leaving(edges.take(m), p).map_values(
        |e: Edge| ((e.dst as int % 0x1_0000_0000) as u32, e.distance),
    ));
}

proof fn distinct_ids(entries: Seq<Candidate>, list: Seq<Candidate>)
    requires
        dedupped(entries, list),
    ensures
        list.len() == entries.map_values(|c: Candidate| c.0).to_set().len(),
{
    let ids = list.map_values(|c: Candidate| c.0);
    let all = entries.map_values(|c: Candidate| c.0);
    assert(ids.no_duplicates()) by {
        assert forall|i: int, j: int| 0 <= i < j < ids.len() implies ids[i] != ids[j] by {
            assert(list[i].0 != list[j].0);
        }
    }
    ids.unique_seq_to_set();
    assert(ids.to_set() =~= all.to_set()) by {
        assert forall|id: u32| ids.to_set().contains(id) implies all.to_set().contains(id) by {
            let i = choose|i: int| 0 <= i < ids.len() && ids[i] == id;
            assert(entries.contains(list[i]));
            let x = choose|x: int| 0 <= x < entries.len() && entries[x] == list[i];
            assert(all[x] == id);
        }
        assert forall|id: u32| all.to_set().contains(id) implies ids.to_set().contains(id) by {
            let x = choose|x: int| 0 <= x < all.len() && all[x] == id;
            let i = choose|i: int|
                #![trigger list[i]]
                0 <= i < list.len() && list[i].0 == (entries[x]).0 && list[i].1.rank()
                    <= entries[x].1.rank();
            assert(ids[i] == id);
        }
    }
}

/// Where candidates are accumulated without a limit and pruned with saturation, every point has as
/// many neighbours as the degree allows, out of the different points to which edges lead from it.
pub proof fn saturated_accumulation_fills<A: Arithmetic, D: Fn(&[Real], &[Real]) -> Real>(
    input: LeafInput<'_, A, D>,
    replicas: Seq<Vec<Vec<u32>>>,
    lsh: LshState,
    graph: PiPNNGraph,
    counts: LeafCounts,
    p: int,
)
    requires
        built(input, replicas, lsh, graph, counts),
        input.settings.accumulates(false),
        input.settings.saturate_after_prune,
        input.settings.merge_l_max == 0,
        0 <= p < input.npoints,
    ensures
        graph.adjacency@[p]@.len() == lesser(
            input.settings.max_degree as int,
            ends(input.edges_of_replicas(replicas, replicas.len() as int, false), p).len() as int,
        ),
{
    let s = input.settings;
    let edges = input.edges_of_replicas(replicas, replicas.len() as int, false);
    let lists = choose|lists: Seq<Vec<Candidate>>| #[trigger]
        comes_of(input, replicas, lists, graph.adjacency@, counts);
    let had = accumulated(input, replicas, p);
    assert(dedupped(had, lists[p]@));
    distinct_ids(had, lists[p]@);
    candidates_are_leaving(edges, p, edges.len() as int);
    assert(edges.take(edges.len() as int) =~= edges);
    assert(had.map_values(|c: Candidate| c.0) =~= leaving(edges, p).map_values(
        |e: Edge| (e.dst as int % 0x1_0000_0000) as u32,
    ));
    neighbors_by_distance(
        p,
        lists[p]@,
        s.max_degree as int,
        s.alpha,
        s.saturate_after_prune,
        row_table(input.data@, input.ndims as int, *input.dist_fn),
        *input.ops,
    );
}

/// Where candidates are accumulated, the neighbours of a point are pruned from a list of candidates
/// that were accumulated for it: with saturation as many as the degree allows, without it spread
/// out, by the distances between the points themselves.
pub proof fn accumulation_selects<A: Arithmetic, D: Fn(&[Real], &[Real]) -> Real>(
    input: LeafInput<'_, A, D>,
    replicas: Seq<Vec<Vec<u32>>>,
    lsh: LshState,
    graph: PiPNNGraph,
    counts: LeafCounts,
    p: int,
) -> (candidates: Seq<Candidate>)
    requires
        built(input, replicas, lsh, graph, counts),
        input.settings.accumulates(false),
        0 <= p < input.npoints,
    ensures
        dedupped(accumulated(input, replicas, p), candidates),
        graph.adjacency@[p]@.len() <= lesser(
            input.settings.max_degree as int,
            candidates.len() as int,
        ),
        input.settings.saturate_after_prune ==> graph.adjacency@[p]@.len() == lesser(
            input.settings.max_degree as int,
            candidates.len() as int,
        ),
        forall|x: int|
            0 <= x < graph.adjacency@[p]@.len() ==> candidates_have(
                candidates,
                #[trigger] graph.adjacency@[p]@[x],
            ),
        !input.settings.saturate_after_prune && Real::spec_one().le(input.settings.alpha)
            && input.settings.alpha.lt(Real::spec_max()) && rising(
            ladder(*input.ops, input.settings.alpha),
            input.settings.alpha,
        ) ==> spread_out(
            p,
            candidates,
            graph.adjacency@[p]@,
            lesser(input.settings.max_degree as int, candidates.len() as int),
            input.settings.alpha,
            row_table(input.data@, input.ndims as int, *input.dist_fn),
            *input.ops,
        ),
{
    let s = input.settings;
    let lists = choose|lists: Seq<Vec<Candidate>>| #[trigger]
        comes_of(input, replicas, lists, graph.adjacency@, counts);
    assert(dedupped(accumulated(input, replicas, p), lists[p]@));
    neighbors_by_distance(
        p,
        lists[p]@,
        s.max_degree as int,
        s.alpha,
        s.saturate_after_prune,
        row_table(input.data@, input.ndims as int, *input.dist_fn),
        *input.ops,
    );
    lists[p]@
}

/// In a build from quantized vectors the neighbours of a point are the far ends of the closest
/// edges of the closest buckets.
pub proof fn quantized_build_keeps_closest<A: Arithmetic>(
    ops: A,
    settings: BuildSettings,
    qdata: QuantizedData,
    lsh: LshState,
    medoid: usize,
    ndims: usize,
    replicas: Seq<Vec<Vec<u32>>>,
    graph: PiPNNGraph,
    counts: LeafCounts,
    p: int,
) -> (via: Seq<Edge>)
    requires
        built_quantized(ops, settings, qdata, lsh, medoid, ndims, replicas, graph, counts),
        0 <= p < qdata.count(),
    ensures
        closest_ends(
            ops,
            lsh,
            quantized_edges(qdata, settings.config.k as int, replicas, replicas.len() as int),
            p,
            lesser(settings.max_degree as int, settings.l_max as int),
            via,
        ),
        graph.adjacency@[p]@.len() == via.len(),
        forall|i: int|
            0 <= i < via.len() ==> (#[trigger] graph.adjacency@[p]@[i]) == via[i].dst as int
                % 0x1_0000_0000,
{
    let edges = quantized_edges(qdata, settings.config.k as int, replicas, replicas.len() as int);
    let l_max = settings.l_max as nat;
    let most = settings.max_degree as nat;
    let via = slot_gives_closest_ends(ops, lsh, l_max, edges, p, most);
    let out = drained(absorb_edges(ops, lsh, l_max, p, empty_slot(), edges).entries, most);
    assert forall|i: int| 0 <= i < via.len() implies (#[trigger] graph.adjacency@[p]@[i])
        == via[i].dst as int % 0x1_0000_0000 by {
        assert(graph.adjacency@[p]@[i] == out[i].0);
    }
    via
}

/// The edges of a build are the edges of its leaves, one leaf after another, one replica after
/// another.
pub proof fn build_edges_are_leaf_edges<A: Arithmetic, D: Fn(&[Real], &[Real]) -> Real>(
    input: LeafInput<'_, A, D>,
    replicas: Seq<Vec<Vec<u32>>>,
    knn: bool,
)
    ensures
        input.edges_of_replicas(replicas, replicas.len() as int, knn) == replicas.map_values(
            |leaves: Vec<Vec<u32>>|
                leaves@.map_values(|leaf: Vec<u32>| input.edges_of_leaf(leaf@, knn)).flatten(),
        ).flatten(),
{
    let f = |leaves: Vec<Vec<u32>>|
        leaves@.map_values(|leaf: Vec<u32>| input.edges_of_leaf(leaf@, knn)).flatten();
    replica_edges_flat(input, replicas, replicas.len() as int, knn);
    assert(replicas.take(replicas.len() as int) =~= replicas);
    replicas.map_values(f).lemma_flatten_and_flatten_alt_are_equivalent();
}

proof fn leaves_edges_flat<A: Arithmetic, D: Fn(&[Real], &[Real]) -> Real>(
    input: LeafInput<'_, A, D>,
    leaves: Seq<Vec<u32>>,
    m: int,
    knn: bool,
)
    requires
        0 <= m <= leaves.len(),
    ensures
        input.edges_of_leaves(leaves, m, knn) == leaves.take(m).map_values(
            |leaf: Vec<u32>| input.edges_of_leaf(leaf@, knn),
        ).flatten_alt(),
    decreases m,
{
    let f = |leaf: Vec<u32>| input.edges_of_leaf(leaf@, knn);
    if m > 0 {
        leaves_edges_flat(input, leaves, m - 1, knn);
        assert(leaves.take(m).map_values(f).drop_last() =~= leaves.take(m - 1).map_values(f));
    }
}

proof fn replica_edges_flat<A: Arithmetic, D: Fn(&[Real], &[Real]) -> Real>(
    input: LeafInput<'_, A, D>,
    replicas: Seq<Vec<Vec<u32>>>,
    r: int,
    knn: bool,
)
    requires
        0 <= r <= replicas.len(),
    ensures
        input.edges_of_replicas(replicas, r, knn) == replicas.take(r).map_values(
            |leaves: Vec<Vec<u32>>|
                leaves@.map_values(|leaf: Vec<u32>| input.edges_of_leaf(leaf@, knn)).flatten(),
        ).flatten_alt(),
    decreases r,
{
    let g = |leaf: Vec<u32>| input.edges_of_leaf(leaf@, knn);
    let f = |leaves: Vec<Vec<u32>>|
        leaves@.map_values(|leaf: Vec<u32>| input.edges_of_leaf(leaf@, knn)).flatten();
    if r > 0 {
        let leaves = replicas[r - 1]@;
        replica_edges_flat(input, replicas, r - 1, knn);
        assert(replicas.take(r).map_values(f).drop_last() =~= replicas.take(r - 1).map_values(f));
        leaves_edges_flat(input, leaves, leaves.len() as int, knn);
        assert(leaves.take(leaves.len() as int) =~= leaves);
        leaves.map_values(g).lemma_flatten_and_flatten_alt_are_equivalent();
        assert(replicas.take(r).map_values(f).last() == leaves.map_values(g).flatten());
    }
}

/// The leaves of a build are those of its replicas, added up.
pub proof fn leaves_add_up(replicas: Seq<Vec<Vec<u32>>>, r: int)
    requires
        0 <= r <= replicas.len(),
    ensures
        count_leaves(replicas, r) == total(
            replicas.map_values(|leaves: Vec<Vec<u32>>| leaves@.len() as int).take(r),
        ),
    decreases r,
{
    let counts = replicas.map_values(|leaves: Vec<Vec<u32>>| leaves@.len() as int);
    if r > 0 {
        leaves_add_up(replicas, r - 1);
        total_of_more(counts, r);
    } else {
        assert(counts.take(0) =~= Seq::<int>::empty());
    }
}

/// The smallest point of a leaf is one of its points, and no other is smaller.
pub proof fn smallest_point_is_least(leaf: Seq<u32>)
    ensures
        leaf.len() > 0 ==> leaf.contains(smallest_point(leaf)),
        forall|i: int| 0 <= i < leaf.len() ==> smallest_point(leaf) <= #[trigger] leaf[i],
        leaf.len() == 0 ==> smallest_point(leaf) == 0,
    decreases leaf.len(),
{
    if leaf.len() == 1 {
        assert(leaf.contains(leaf[0]));
    } else if leaf.len() > 1 {
        let front = leaf.drop_last();
        smallest_point_is_least(front);
        let k = choose|k: int| 0 <= k < front.len() && front[k] == smallest_point(front);
        assert(leaf[k] == front[k]);
        assert(leaf[leaf.len() - 1] == leaf.last());
        assert forall|i: int| 0 <= i < leaf.len() implies smallest_point(leaf)
            <= #[trigger] leaf[i] by {
            if i < front.len() {
                assert(front[i] == leaf[i]);
            }
        }
    }
}

/// The candidates of all points are those of each, added up.
pub proof fn candidates_add_up(lists: Seq<Vec<Candidate>>, m: int)
    requires
        0 <= m <= lists.len(),
    ensures
        total_candidates(lists, m) == total(
            lists.map_values(|list: Vec<Candidate>| list@.len() as int).take(m),
        ),
    decreases m,
{
    let lengths = lists.map_values(|list: Vec<Candidate>| list@.len() as int);
    if m > 0 {
        candidates_add_up(lists, m - 1);
        total_of_more(lengths, m);
    } else {
        assert(lengths.take(0) =~= Seq::<int>::empty());
    }
}

/// Leaves are taken in the order of their smallest points, every leaf once.
pub proof fn leaves_in_order(leaves: Seq<Vec<u32>>)
    ensures
        leaf_order(leaves).len() == leaves.len(),
        leaf_order(leaves).no_duplicates(),
        forall|i: int| 0 <= i < leaves.len() ==> 0 <= #[trigger] leaf_order(leaves)[i] < leaves.len(),
        forall|i: int, j: int|
            0 <= i < j < leaves.len() ==> smallest_point(leaves[#[trigger] leaf_order(leaves)[i]]@)
                <= smallest_point(leaves[#[trigger] leaf_order(leaves)[j]]@),
{
    let keys = leaves.map_values(|l: Vec<u32>| smallest_point(l@) as u64);
    let order = leaf_order(leaves);
    argsort_ascending(keys);
    assert forall|i: int, j: int| 0 <= i < j < leaves.len() implies smallest_point(
        leaves[#[trigger] order[i]]@,
    ) <= smallest_point(leaves[#[trigger] order[j]]@) && order[i] != order[j] by {
        assert(before(keys, order[i], order[j]));
    }
    assert forall|i: int, j: int|
        0 <= i < order.len() && 0 <= j < order.len() && i != j implies order[i] != order[j] by {
        if i < j {
            assert(before(keys, order[i], order[j]));
        } else {
            assert(before(keys, order[j], order[i]));
        }
    }
}

/// What each mode makes of a leaf. Nearest neighbours are joined both ways, or not at all in the
/// baseline mode where that means no edges. Without a distance matrix from dot products, all other
/// points are candidates, and pruned. With one, the nearest are candidates, as many as asked for,
/// and are all joined or pruned.
pub proof fn modes_make_edges<A: Arithmetic, D: Fn(&[Real], &[Real]) -> Real>(
    input: LeafInput<'_, A, D>,
    leaf: Seq<u32>,
    knn: bool,
)
    ensures
        ({
            let s = input.settings;
            let indices = leaf.map_values(|i: u32| i as usize);
            let n = leaf.len() as int;
            let k = s.config.k;
            let matrix = leaf_matrix(*input.ops, s.metric, input.data@, input.ndims as int, indices);
            let direct = direct_matrix(*input.dist_fn, input.data@, input.ndims as int, indices);
            let edges = input.edges_of_leaf(leaf, knn);
            let degree = s.leaf_degree() as int;
            &&& s.leaf_prune_mode == LeafPruneMode::Baseline && !knn ==> edges.len() == 0
            &&& s.leaf_prune_mode == LeafPruneMode::Baseline && knn ==> edges == leaf_edges(
                matrix,
                n,
                k as int,
                indices,
            )
            &&& s.leaf_prune_mode == LeafPruneMode::KnnBidir ==> edges == leaf_edges(
                matrix,
                n,
                k as int,
                indices,
            )
            &&& s.leaf_prune_mode == LeafPruneMode::RobustNoGemm ==> edges == Seq::new(
                n as nat,
                |i: int|
                    node_edges(*input.ops, direct, n, indices, i, None, degree, s.alpha, true),
            ).flatten()
            &&& s.leaf_prune_mode == LeafPruneMode::GemmTopKRobust ==> edges == Seq::new(
                n as nat,
                |i: int|
                    node_edges(*input.ops, matrix, n, indices, i, Some(k), degree, s.alpha, true),
            ).flatten()
            &&& s.leaf_prune_mode == LeafPruneMode::GemmTopKNoPrune ==> edges == Seq::new(
                n as nat,
                |i: int|
                    node_edges(*input.ops, matrix, n, indices, i, Some(k), degree, s.alpha, false),
            ).flatten()
        }),
{
    let s = input.settings;
    let indices = leaf.map_values(|i: u32| i as usize);
    let n = leaf.len() as int;
    let matrix = leaf_matrix(*input.ops, s.metric, input.data@, input.ndims as int, indices);
    let direct = direct_matrix(*input.dist_fn, input.data@, input.ndims as int, indices);
    let degree = s.leaf_degree() as int;
    let k = Some(s.config.k);
    let ops = *input.ops;
    pruned_leaf_edges_are_flat(ops, direct, n, indices, n as nat, None, degree, s.alpha, true);
    pruned_leaf_edges_are_flat(ops, matrix, n, indices, n as nat, k, degree, s.alpha, true);
    pruned_leaf_edges_are_flat(ops, matrix, n, indices, n as nat, k, degree, s.alpha, false);
}

/// What is accumulated for a point: without a limit, the far ends of all edges that leave it, with
/// their distances, in order. With one, as many of these as the limit allows; where all distances
/// are numbers, what is kept and what is dropped together are all of them, and nothing dropped is
/// closer than anything kept.
pub proof fn closest_are_accumulated<A: Arithmetic, D: Fn(&[Real], &[Real]) -> Real>(
    input: LeafInput<'_, A, D>,
    replicas: Seq<Vec<Vec<u32>>>,
    p: int,
) -> (gone: Seq<Candidate>)
    ensures
        ({
            let edges = input.edges_of_replicas(replicas, replicas.len() as int, false);
            let all = leaving(edges, p).map_values(
                |e: Edge| ((e.dst as int % 0x1_0000_0000) as u32, e.distance),
            );
            let kept = accumulated(input, replicas, p);
            let limit = input.settings.merge_l_max as int;
            &&& limit == 0 ==> kept == all
            &&& limit > 0 && all_numbers(all) ==> {
                &&& kept.len() == lesser(limit, all.len() as int)
                &&& kept.to_multiset().add(gone.to_multiset()) == all.to_multiset()
                &&& forall|i: int, j: int|
                    0 <= i < kept.len() && 0 <= j < gone.len() ==> (#[trigger] kept[i]).1.le(
                        (#[trigger] gone[j]).1,
                    )
            }
        }),
{
    let edges = input.edges_of_replicas(replicas, replicas.len() as int, false);
    let limit = input.settings.merge_l_max as nat;
    let history = candidates_from(edges, p, edges.len() as int);
    candidates_are_leaving(edges, p, edges.len() as int);
    assert(edges.take(edges.len() as int) =~= edges);
    if limit > 0 && all_numbers(history) {
        pool_keeps_closest(limit, history);
    }
    dropped(limit, history)
}

/// The edges of a build from quantized vectors are those of its leaves, by the matrices of bit
/// differences, one leaf after another, one replica after another.
pub proof fn quantized_edges_are_leaf_edges(
    qdata: QuantizedData,
    k: int,
    replicas: Seq<Vec<Vec<u32>>>,
)
    ensures
        quantized_edges(qdata, k, replicas, replicas.len() as int) == replicas.map_values(
            |leaves: Vec<Vec<u32>>|
                leaves@.map_values(|leaf: Vec<u32>| bit_edges(qdata, k, leaf@)).flatten(),
        ).flatten(),
{
    let f = |leaves: Vec<Vec<u32>>|
        leaves@.map_values(|leaf: Vec<u32>| bit_edges(qdata, k, leaf@)).flatten();
    quantized_replicas_flat(qdata, k, replicas, replicas.len() as int);
    assert(replicas.take(replicas.len() as int) =~= replicas);
    replicas.map_values(f).lemma_flatten_and_flatten_alt_are_equivalent();
}

/// The edges of a leaf of quantized vectors.
pub open spec fn bit_edges(qdata: QuantizedData, k: int, leaf: Seq<u32>) -> Seq<Edge> {
    let indices = leaf.map_values(|i: u32| i as usize);
    leaf_edges(hamming_matrix(qdata, indices), leaf.len() as int, k, indices)
}

proof fn quantized_leaves_flat(qdata: QuantizedData, k: int, leaves: Seq<Vec<u32>>, m: int)
    requires
        0 <= m <= leaves.len(),
    ensures
        quantized_edges_of_leaves(qdata, k, leaves, m) == leaves.take(m).map_values(
            |leaf: Vec<u32>| bit_edges(qdata, k, leaf@),
        ).flatten_alt(),
    decreases m,
{
    let f = |leaf: Vec<u32>| bit_edges(qdata, k, leaf@);
    if m > 0 {
        quantized_leaves_flat(qdata, k, leaves, m - 1);
        assert(leaves.take(m).map_values(f).drop_last() =~= leaves.take(m - 1).map_values(f));
    }
}

proof fn quantized_replicas_flat(
    qdata: QuantizedData,
    k: int,
    replicas: Seq<Vec<Vec<u32>>>,
    r: int,
)
    requires
        0 <= r <= replicas.len(),
    ensures
        quantized_edges(qdata, k, replicas, r) == replicas.take(r).map_values(
            |leaves: Vec<Vec<u32>>|
                leaves@.map_values(|leaf: Vec<u32>| bit_edges(qdata, k, leaf@)).flatten(),
        ).flatten_alt(),
    decreases r,
{
    let g = |leaf: Vec<u32>| bit_edges(qdata, k, leaf@);
    let f = |leaves: Vec<Vec<u32>>|
        leaves@.map_values(|leaf: Vec<u32>| bit_edges(qdata, k, leaf@)).flatten();
    if r > 0 {
        let leaves = replicas[r - 1]@;
        quantized_replicas_flat(qdata, k, replicas, r - 1);
        assert(replicas.take(r).map_values(f).drop_last() =~= replicas.take(r - 1).map_values(f));
        quantized_leaves_flat(qdata, k, leaves, leaves.len() as int);
        assert(leaves.take(leaves.len() as int) =~= leaves);
        leaves.map_values(g).lemma_flatten_and_flatten_alt_are_equivalent();
        assert(replicas.take(r).map_values(f).last() == leaves.map_values(g).flatten());
    }
}

} // verus!
