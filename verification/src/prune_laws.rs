//! What pruning keeps, in terms of the distances themselves.

use crate::arith::Arithmetic;
use crate::ladder::{ladder, rising};
use crate::measure::PairTable;
use crate::number::Real;
use crate::prune::{
    climb, climb_diverse, climb_valid, diverse, fill, fill_valid, maximal, near_to_far,
    nearest_first, occluded, position_ratio, pruned, pruned_diverse_at_alpha, pruned_neighbors,
    pruned_valid, rank_keys, saturation_fills, selection, single_pass_selection, single_pass_table,
    walk,
};
use crate::sort::{argsort_ascending, ascending_covers, before};
use vstd::prelude::*;

verus! {

/// The smaller of two whole numbers.
pub open spec fn lesser(a: int, b: int) -> int {
    if a <= b {
        a
    } else {
        b
    }
}

proof fn fill_takes_nearest(taken: Seq<int>, s: int, n: int, degree: int)
    requires
        0 <= s,
    ensures
        ({
            let all = fill(taken, s, n, degree);
            &&& taken.len() <= all.len()
            &&& forall|x: int| 0 <= x < taken.len() ==> #[trigger] all[x] == taken[x]
            &&& forall|x: int, p: int|
                #![trigger all[x], all.contains(p)]
                taken.len() <= x < all.len() && s <= p < n && !all.contains(p) ==> all[x] < p
        }),
    decreases n - s,
{
    let all = fill(taken, s, n, degree);
    if s >= n || taken.len() >= degree {
    } else if taken.contains(s) {
        fill_takes_nearest(taken, s + 1, n, degree);
        let k = choose|k: int| 0 <= k < taken.len() && taken[k] == s;
        assert(all[k] == s);
        assert(all.contains(s));
    } else {
        let more = taken.push(s);
        fill_takes_nearest(more, s + 1, n, degree);
        assert(all[taken.len() as int] == more[taken.len() as int]);
        assert(all.contains(s));
        assert forall|x: int| 0 <= x < taken.len() implies #[trigger] all[x] == taken[x] by {
            assert(all[x] == more[x]);
        }
    }
}

/// Pruning selects distinct candidates, no more than the degree. With saturation it selects as
/// many as the degree and the candidates allow: first those that it selects without, then the
/// nearest of the others.
pub proof fn saturation_adds_nearest<A: Arithmetic>(
    nc: int,
    node_dists: Seq<Real>,
    max_degree: int,
    alpha: Real,
    pair: PairTable,
    ops: A,
)
    requires
        0 <= max_degree,
        0 <= nc <= node_dists.len(),
    ensures
        ({
            let bare = selection(nc, node_dists, max_degree, alpha, false, pair, ops);
            let full = selection(nc, node_dists, max_degree, alpha, true, pair, ops);
            &&& full.len() == lesser(max_degree, nc)
            &&& bare.len() <= full.len()
            &&& full.no_duplicates()
            &&& forall|x: int| 0 <= x < full.len() ==> 0 <= #[trigger] full[x] < nc
            &&& forall|x: int| 0 <= x < bare.len() ==> bare[x] == #[trigger] full[x]
            &&& forall|x: int, c: int|
                #![trigger full[x], full.contains(c)]
                bare.len() <= x < full.len() && 0 <= c < nc && !full.contains(c)
                    ==> node_dists[full[x]].rank() <= node_dists[c].rank()
        }),
{
    let order = near_to_far(node_dists, nc);
    let keys = rank_keys(node_dists.take(nc));
    let degree = lesser(max_degree, nc);
    let rel = position_ratio(node_dists, nc, pair, ops);
    let alphas = ladder(ops, alpha);
    let taken = climb(rel, nc, degree, alphas, alphas.len() as int);
    let all = fill(taken, 0, nc, degree);
    let bare = selection(nc, node_dists, max_degree, alpha, false, pair, ops);
    let full = selection(nc, node_dists, max_degree, alpha, true, pair, ops);
    argsort_ascending(keys);
    climb_valid(rel, nc, degree, alphas, alphas.len() as int);
    fill_valid(taken, 0, nc, degree);
    fill_takes_nearest(taken, 0, nc, degree);
    saturation_fills(rel, nc, degree, alphas);
    assert forall|x: int| 0 <= x < full.len() implies 0 <= #[trigger] full[x] < nc by {
        assert(0 <= all[x] < nc);
        assert(full[x] == order[all[x]]);
    }
    assert forall|x: int, y: int|
        0 <= x < full.len() && 0 <= y < full.len() && x != y implies full[x] != full[y] by {
        let a = all[x];
        let b = all[y];
        assert(a != b && 0 <= a < nc && 0 <= b < nc);
        if a < b {
            assert(before(keys, order[a], order[b]));
        } else {
            assert(before(keys, order[b], order[a]));
        }
    }
    assert forall|x: int| 0 <= x < bare.len() implies bare[x] == #[trigger] full[x] by {
        assert(all[x] == taken[x]);
    }
    assert forall|x: int, c: int|
        #![trigger full[x], full.contains(c)]
        bare.len() <= x < full.len() && 0 <= c < nc && !full.contains(c) implies node_dists[full[x]].rank()
        <= node_dists[c].rank() by {
        ascending_covers(keys, order, c);
        let s = choose|s: int| 0 <= s < order.len() && #[trigger] order[s] == c;
        if all.contains(s) {
            let y = choose|y: int| 0 <= y < all.len() && all[y] == s;
            assert(full[y] == c);
        }
        assert(all[x] < s);
        assert(before(keys, order[all[x]], order[s]));
        assert(keys[order[all[x]]] == node_dists[full[x]].rank() as u64);
        assert(keys[c] == node_dists[c].rank() as u64);
    }
}

/// Without saturation, where the thresholds rise to one that is at least one, of any two selected
/// candidates the one that was selected later and is farther from the node is no closer to the
/// other than the threshold allows: its distance to the node over that to the other does not exceed
/// the threshold. Whatever is left out before the degree is reached, is closer to a selected
/// candidate that is no farther from the node.
pub proof fn selection_is_diverse<A: Arithmetic>(
    nc: int,
    node_dists: Seq<Real>,
    max_degree: int,
    alpha: Real,
    pair: PairTable,
    ops: A,
)
    requires
        0 <= max_degree,
        0 <= nc <= node_dists.len(),
        Real::spec_one().le(alpha),
        alpha.lt(Real::spec_max()),
        rising(ladder(ops, alpha), alpha),
    ensures
        ({
            let kept = selection(nc, node_dists, max_degree, alpha, false, pair, ops);
            &&& forall|x: int, y: int|
                0 <= x < y < kept.len() && node_dists[#[trigger] kept[x]].rank()
                    < node_dists[#[trigger] kept[y]].rank() ==> {
                    let d = pair(kept[y], kept[x]);
                    &&& Real::spec_zero().lt(d)
                    &&& !alpha.lt(ops.quotient(node_dists[kept[y]], d))
                }
            &&& forall|c: int|
                0 <= c < nc && kept.len() < lesser(max_degree, nc) && !#[trigger] kept.contains(c)
                    ==> exists|x: int|
                    #![trigger kept[x]]
                    0 <= x < kept.len() && node_dists[kept[x]].rank() <= node_dists[c].rank() && {
                        let d = pair(c, kept[x]);
                        !Real::spec_zero().lt(d) || alpha.lt(ops.quotient(node_dists[c], d))
                    }
        }),
{
    let order = near_to_far(node_dists, nc);
    let keys = rank_keys(node_dists.take(nc));
    let degree = lesser(max_degree, nc);
    let rel = position_ratio(node_dists, nc, pair, ops);
    let alphas = ladder(ops, alpha);
    let taken = pruned(rel, nc, degree, alphas, false);
    let kept = selection(nc, node_dists, max_degree, alpha, false, pair, ops);
    argsort_ascending(keys);
    pruned_valid(rel, nc, degree, alphas, false);
    pruned_diverse_at_alpha(ops, alpha, rel, nc, degree);
    assert forall|x: int, y: int|
        0 <= x < y < kept.len() && node_dists[#[trigger] kept[x]].rank() < node_dists[
            #[trigger] kept[y]].rank() implies ({
        let d = pair(kept[y], kept[x]);
        &&& Real::spec_zero().lt(d)
        &&& !alpha.lt(ops.quotient(node_dists[kept[y]], d))
    }) by {
        let a = taken[x];
        let b = taken[y];
        assert(0 <= a < nc && 0 <= b < nc && a != b);
        assert(kept[x] == order[a] && kept[y] == order[b]);
        assert(keys[order[a]] == node_dists[order[a]].rank() as u64);
        assert(keys[order[b]] == node_dists[order[b]].rank() as u64);
        if b < a {
            assert(before(keys, order[b], order[a]));
        }
        assert(!alpha.lt(rel(b, a)));
    }
    if kept.len() < degree {
        assert forall|c: int| 0 <= c < nc && !#[trigger] kept.contains(c) implies exists|x: int|
            #![trigger kept[x]]
            0 <= x < kept.len() && node_dists[kept[x]].rank() <= node_dists[c].rank() && {
                let d = pair(c, kept[x]);
                !Real::spec_zero().lt(d) || alpha.lt(ops.quotient(node_dists[c], d))
            } by {
            ascending_covers(keys, order, c);
            let s = choose|s: int| 0 <= s < order.len() && #[trigger] order[s] == c;
            if taken.contains(s) {
                let y = choose|y: int| 0 <= y < taken.len() && taken[y] == s;
                assert(kept[y] == c);
            }
            assert(occluded(rel, taken, s, alpha));
            let k = choose|k: int|
                0 <= k < taken.len() && #[trigger] taken[k] < s && alpha.lt(rel(s, taken[k]));
            assert(0 <= taken[k] < nc);
            assert(before(keys, order[taken[k]], order[s]));
            assert(keys[order[taken[k]]] == node_dists[order[taken[k]]].rank() as u64);
            assert(keys[c] == node_dists[c].rank() as u64);
            assert(kept[k] == order[taken[k]]);
        }
    }
}

/// The first candidate that is selected is one of the nearest to the node.
pub proof fn nearest_is_selected<A: Arithmetic>(
    nc: int,
    node_dists: Seq<Real>,
    max_degree: int,
    alpha: Real,
    saturate: bool,
    pair: PairTable,
    ops: A,
)
    requires
        0 < max_degree,
        0 < nc <= node_dists.len(),
        ladder(ops, alpha).len() > 0,
    ensures
        ({
            let kept = selection(nc, node_dists, max_degree, alpha, saturate, pair, ops);
            &&& kept.len() > 0
            &&& forall|c: int|
                0 <= c < nc ==> node_dists[kept[0]].rank() <= (#[trigger] node_dists[c]).rank()
        }),
{
    let order = near_to_far(node_dists, nc);
    let keys = rank_keys(node_dists.take(nc));
    let degree = lesser(max_degree, nc);
    let rel = position_ratio(node_dists, nc, pair, ops);
    nearest_first(rel, nc, degree, ladder(ops, alpha), saturate);
    argsort_ascending(keys);
    let kept = selection(nc, node_dists, max_degree, alpha, saturate, pair, ops);
    assert(kept[0] == order[0]);
    assert forall|c: int| 0 <= c < nc implies node_dists[kept[0]].rank() <= (
    #[trigger] node_dists[c]).rank() by {
        ascending_covers(keys, order, c);
        let s = choose|s: int| 0 <= s < order.len() && #[trigger] order[s] == c;
        if s > 0 {
            assert(before(keys, order[0], order[s]));
        }
        assert(keys[order[0]] == node_dists[order[0]].rank() as u64);
        assert(keys[c] == node_dists[c].rank() as u64);
    }
}

/// The neighbours that pruning gives to a node are candidates. With saturation they are as many as
/// the degree and the candidates allow. Without, where the thresholds rise to one that is at least
/// one, a neighbour that is farther from the node than an earlier one is no closer to that one than
/// the threshold allows; and a candidate that is left out before the degree is reached is closer to
/// some neighbour that is no farther from the node. Distances are those between the points.
pub proof fn neighbors_by_distance<A: Arithmetic>(
    node: int,
    candidates: Seq<(u32, Real)>,
    max_degree: int,
    alpha: Real,
    saturate: bool,
    points: PairTable,
    ops: A,
)
    requires
        0 <= max_degree,
    ensures
        ({
            let kept = pruned_neighbors(node, candidates, max_degree, alpha, saturate, points, ops);
            let most = lesser(max_degree, candidates.len() as int);
            &&& kept.len() <= most
            &&& forall|x: int| 0 <= x < kept.len() ==> candidates_have(candidates, #[trigger] kept[x])
            &&& saturate ==> kept.len() == most
            &&& !saturate && Real::spec_one().le(alpha) && alpha.lt(Real::spec_max()) && rising(
                ladder(ops, alpha),
                alpha,
            ) ==> spread_out(node, candidates, kept, most, alpha, points, ops)
        }),
{
    let nc = candidates.len() as int;
    let node_dists = candidates.map_values(|c: (u32, Real)| points(node, c.0 as int));
    let pair = crate::measure::candidate_table(candidates, points);
    let chosen = selection(nc, node_dists, max_degree, alpha, saturate, pair, ops);
    let kept = pruned_neighbors(node, candidates, max_degree, alpha, saturate, points, ops);
    saturation_adds_nearest(nc, node_dists, max_degree, alpha, pair, ops);
    let full = selection(nc, node_dists, max_degree, alpha, true, pair, ops);
    assert forall|x: int| 0 <= x < kept.len() implies candidates_have(
        candidates,
        #[trigger] kept[x],
    ) by {
        assert(chosen[x] == full[x]);
        assert(0 <= full[x] < nc);
        assert(candidates[chosen[x]].0 == kept[x]);
    }
    if !saturate && Real::spec_one().le(alpha) && alpha.lt(Real::spec_max()) && rising(
        ladder(ops, alpha),
        alpha,
    ) {
        selection_is_diverse(nc, node_dists, max_degree, alpha, pair, ops);
        assert forall|x: int| 0 <= x < kept.len() implies 0 <= #[trigger] chosen[x] < nc
            && candidates[chosen[x]].0 == kept[x] && node_dists[chosen[x]] == points(
            node,
            kept[x] as int,
        ) by {
            assert(chosen[x] == full[x]);
        }
        assert forall|x: int, y: int|
            0 <= x < y < kept.len() && points(node, #[trigger] kept[x] as int).rank() < points(
                node,
                #[trigger] kept[y] as int,
            ).rank() implies !occludes(node, kept[y], kept[x], alpha, points, ops) by {
            assert(node_dists[chosen[x]].rank() < node_dists[chosen[y]].rank());
        }
        if kept.len() < lesser(max_degree, nc) {
            assert forall|j: int|
                0 <= j < nc && !kept.contains((#[trigger] candidates[j]).0) implies left_out(
                node,
                candidates[j].0,
                kept,
                alpha,
                points,
                ops,
            ) by {
                if chosen.contains(j) {
                    let y = choose|y: int| 0 <= y < chosen.len() && chosen[y] == j;
                    assert(kept[y] == candidates[j].0);
                }
                let x = choose|x: int|
                    #![trigger chosen[x]]
                    0 <= x < chosen.len() && node_dists[chosen[x]].rank() <= node_dists[j].rank()
                        && {
                        let d = pair(j, chosen[x]);
                        !Real::spec_zero().lt(d) || alpha.lt(ops.quotient(node_dists[j], d))
                    };
                assert(candidates[chosen[x]].0 == kept[x]);
                assert(occludes(node, candidates[j].0, kept[x], alpha, points, ops));
            }
        }
    }
}

/// A list of candidates has one with the given id.
pub open spec fn candidates_have(candidates: Seq<(u32, Real)>, id: u32) -> bool {
    exists|j: int| 0 <= j < candidates.len() && (#[trigger] candidates[j]).0 == id
}

/// Point `x` is in the way between a node and point `y`: they are the same place, or the distance
/// from the node to `y` over that from `y` to `x` exceeds the threshold.
pub open spec fn occludes<A: Arithmetic>(
    node: int,
    y: u32,
    x: u32,
    alpha: Real,
    points: PairTable,
    ops: A,
) -> bool {
    let d = points(y as int, x as int);
    !Real::spec_zero().lt(d) || alpha.lt(ops.quotient(points(node, y as int), d))
}

/// A neighbour that is no farther from the node is in the way of point `y`.
pub open spec fn left_out<A: Arithmetic>(
    node: int,
    y: u32,
    kept: Seq<u32>,
    alpha: Real,
    points: PairTable,
    ops: A,
) -> bool {
    exists|x: int|
        0 <= x < kept.len() && points(node, #[trigger] kept[x] as int).rank() <= points(
            node,
            y as int,
        ).rank() && occludes(node, y, kept[x], alpha, points, ops)
}

/// No neighbour is in the way of a later one that is farther from the node; where there are fewer
/// than `most` neighbours, one of them is in the way of every candidate left out.
pub open spec fn spread_out<A: Arithmetic>(
    node: int,
    candidates: Seq<(u32, Real)>,
    kept: Seq<u32>,
    most: int,
    alpha: Real,
    points: PairTable,
    ops: A,
) -> bool {
    &&& forall|x: int, y: int|
        0 <= x < y < kept.len() && points(node, #[trigger] kept[x] as int).rank() < points(
            node,
            #[trigger] kept[y] as int,
        ).rank() ==> !occludes(node, kept[y], kept[x], alpha, points, ops)
    &&& kept.len() < most ==> forall|j: int|
        0 <= j < candidates.len() && !kept.contains((#[trigger] candidates[j]).0) ==> left_out(
            node,
            candidates[j].0,
            kept,
            alpha,
            points,
            ops,
        )
}

proof fn walk_ascends(rel: PairTable, taken: Seq<int>, s: int, n: int, degree: int, alpha: Real)
    requires
        0 <= s,
    ensures
        ({
            let all = walk(rel, taken, s, n, degree, alpha);
            &&& taken.len() <= all.len()
            &&& forall|x: int| 0 <= x < taken.len() ==> #[trigger] all[x] == taken[x]
            &&& forall|x: int| taken.len() <= x < all.len() ==> s <= #[trigger] all[x]
            &&& forall|x: int, y: int|
                taken.len() <= x < y < all.len() ==> #[trigger] all[x] < #[trigger] all[y]
        }),
    decreases n - s,
{
    if s >= n || taken.len() >= degree {
    } else if taken.contains(s) || occluded(rel, taken, s, alpha) {
        walk_ascends(rel, taken, s + 1, n, degree, alpha);
    } else {
        let more = taken.push(s);
        walk_ascends(rel, more, s + 1, n, degree, alpha);
        let all = walk(rel, taken, s, n, degree, alpha);
        assert forall|x: int| 0 <= x < taken.len() implies #[trigger] all[x] == taken[x] by {
            assert(all[x] == more[x]);
        }
        assert(all[taken.len() as int] == more[taken.len() as int]);
    }
}

proof fn rounds_go_on(
    rel: PairTable,
    n: int,
    degree: int,
    alphas: Seq<Real>,
    r: int,
    last: int,
)
    requires
        0 <= r <= last,
    ensures
        climb(rel, n, degree, alphas, r).len() <= climb(rel, n, degree, alphas, last).len(),
        forall|x: int|
            0 <= x < climb(rel, n, degree, alphas, r).len() ==> #[trigger] climb(
                rel,
                n,
                degree,
                alphas,
                last,
            )[x] == climb(rel, n, degree, alphas, r)[x],
    decreases last - r,
{
    if r < last {
        rounds_go_on(rel, n, degree, alphas, r, last - 1);
        let prior = climb(rel, n, degree, alphas, last - 1);
        walk_ascends(rel, prior, 0, n, degree, alphas[last - 1]);
        let all = climb(rel, n, degree, alphas, last);
        assert forall|x: int| 0 <= x < climb(rel, n, degree, alphas, r).len() implies
            #[trigger] all[x] == climb(rel, n, degree, alphas, r)[x] by {
            assert(all[x] == prior[x]);
        }
    }
}

/// Pruning climbs threshold by threshold: what it has taken after a round, the first `upto.1`
/// positions of its list, is diverse at the threshold of that round and, unless the degree is
/// reached, leaves out only what is occluded at that threshold. What it took before the round, the
/// first `upto.0` positions, comes first; what the round adds goes from near to far.
pub proof fn rounds_in_turn(
    rel: PairTable,
    n: int,
    degree: int,
    alphas: Seq<Real>,
    r: int,
) -> (upto: (int, int))
    requires
        0 <= degree,
        0 < r <= alphas.len(),
        forall|i: int, j: int|
            0 <= i < j < alphas.len() ==> (#[trigger] alphas[i]).le(#[trigger] alphas[j]),
    ensures
        ({
            let all = pruned(rel, n, degree, alphas, false);
            let part = all.take(upto.1);
            &&& 0 <= upto.0 <= upto.1 <= all.len()
            &&& diverse(rel, part, alphas[r - 1])
            &&& upto.1 < degree ==> maximal(rel, part, 0, n, alphas[r - 1])
            &&& r == 1 ==> upto.0 == 0
            &&& r > 1 && upto.0 < degree ==> maximal(rel, all.take(upto.0), 0, n, alphas[r - 2])
            &&& forall|x: int, y: int|
                upto.0 <= x < y < upto.1 ==> #[trigger] all[x] < #[trigger] all[y]
            &&& r == alphas.len() ==> upto.1 == all.len()
        }),
{
    let all = pruned(rel, n, degree, alphas, false);
    let prior = climb(rel, n, degree, alphas, r - 1);
    let part = climb(rel, n, degree, alphas, r);
    rounds_go_on(rel, n, degree, alphas, r - 1, alphas.len() as int);
    rounds_go_on(rel, n, degree, alphas, r, alphas.len() as int);
    rounds_go_on(rel, n, degree, alphas, r - 1, r);
    walk_ascends(rel, prior, 0, n, degree, alphas[r - 1]);
    climb_diverse(rel, n, degree, alphas, r);
    assert(all.take(part.len() as int) =~= part);
    assert(all.take(prior.len() as int) =~= prior);
    if r > 1 {
        climb_diverse(rel, n, degree, alphas, r - 1);
    }
    assert forall|x: int, y: int| prior.len() <= x < y < part.len() implies #[trigger] all[x]
        < #[trigger] all[y] by {
        assert(all[x] == part[x]);
        assert(all[y] == part[y]);
    }
    (prior.len() as int, part.len() as int)
}

/// A single pass selects different candidates, no more than the degree. None that it selects is
/// farther from the node than `alpha` times its distance to an earlier, nearer one; and one that is
/// left out before the degree is reached is farther than that from the node for some selected one.
/// With saturation it stops short of the degree only once all candidates are selected.
pub proof fn single_pass_is_diverse<A: Arithmetic>(
    nc: int,
    node_dists: Seq<Real>,
    max_degree: int,
    alpha: Real,
    pair: PairTable,
    ops: A,
)
    requires
        0 <= max_degree,
        0 <= nc <= node_dists.len(),
    ensures
        ({
            let kept = single_pass_selection(nc, node_dists, max_degree, alpha, false, pair, ops);
            let full = single_pass_selection(nc, node_dists, max_degree, alpha, true, pair, ops);
            &&& kept.len() <= max_degree
            &&& full.len() <= max_degree
            &&& full.len() < max_degree ==> forall|c: int|
                0 <= c < nc ==> #[trigger] full.contains(c)
            &&& kept.len() <= full.len()
            &&& forall|x: int| 0 <= x < kept.len() ==> #[trigger] full[x] == kept[x]
            &&& forall|x: int, y: int|
                0 <= x < y < kept.len() && node_dists[#[trigger] kept[x]].rank()
                    < node_dists[#[trigger] kept[y]].rank() ==> !ops.product(
                    alpha,
                    pair(kept[x], kept[y]),
                ).lt(node_dists[kept[y]])
            &&& forall|c: int|
                0 <= c < nc && kept.len() < max_degree && !#[trigger] kept.contains(c) ==> exists|
                    x: int,
                |
                    #![trigger kept[x]]
                    0 <= x < kept.len() && node_dists[kept[x]].rank() <= node_dists[c].rank()
                        && ops.product(alpha, pair(kept[x], c)).lt(node_dists[c])
        }),
{
    let order = near_to_far(node_dists, nc);
    let keys = rank_keys(node_dists.take(nc));
    let rel = single_pass_table(node_dists, nc, alpha, pair, ops);
    let zero = Real::spec_zero();
    let alphas = seq![zero];
    let taken = pruned(rel, nc, max_degree, alphas, false);
    let all = pruned(rel, nc, max_degree, alphas, true);
    let kept = single_pass_selection(nc, node_dists, max_degree, alpha, false, pair, ops);
    let full = single_pass_selection(nc, node_dists, max_degree, alpha, true, pair, ops);
    argsort_ascending(keys);
    pruned_valid(rel, nc, max_degree, alphas, false);
    pruned_valid(rel, nc, max_degree, alphas, true);
    climb_valid(rel, nc, max_degree, alphas, 1);
    fill_valid(taken, 0, nc, max_degree);
    fill_takes_nearest(taken, 0, nc, max_degree);
    climb_diverse(rel, nc, max_degree, alphas, 1);
    assert(taken == climb(rel, nc, max_degree, alphas, 1));
    assert forall|x: int| 0 <= x < kept.len() implies #[trigger] full[x] == kept[x] by {
        assert(all[x] == taken[x]);
    }
    if full.len() < max_degree {
        assert forall|c: int| 0 <= c < nc implies #[trigger] full.contains(c) by {
            ascending_covers(keys, order, c);
            let s = choose|s: int| 0 <= s < order.len() && #[trigger] order[s] == c;
            assert(all.contains(s));
            let y = choose|y: int| 0 <= y < all.len() && all[y] == s;
            assert(full[y] == c);
        }
    }
    assert forall|x: int, y: int|
        0 <= x < y < kept.len() && node_dists[#[trigger] kept[x]].rank() < node_dists[
            #[trigger] kept[y]].rank() implies !ops.product(alpha, pair(kept[x], kept[y])).lt(
        node_dists[kept[y]],
    ) by {
        let a = taken[x];
        let b = taken[y];
        assert(0 <= a < nc && 0 <= b < nc && a != b);
        assert(kept[x] == order[a] && kept[y] == order[b]);
        assert(keys[order[a]] == node_dists[order[a]].rank() as u64);
        assert(keys[order[b]] == node_dists[order[b]].rank() as u64);
        if b < a {
            assert(before(keys, order[b], order[a]));
        }
        assert(!zero.lt(rel(b, a)));
    }
    if kept.len() < max_degree {
        assert forall|c: int| 0 <= c < nc && !#[trigger] kept.contains(c) implies exists|x: int|
            #![trigger kept[x]]
            0 <= x < kept.len() && node_dists[kept[x]].rank() <= node_dists[c].rank()
                && ops.product(alpha, pair(kept[x], c)).lt(node_dists[c]) by {
            ascending_covers(keys, order, c);
            let s = choose|s: int| 0 <= s < order.len() && #[trigger] order[s] == c;
            if taken.contains(s) {
                let y = choose|y: int| 0 <= y < taken.len() && taken[y] == s;
                assert(kept[y] == c);
            }
            assert(occluded(rel, taken, s, zero));
            let k = choose|k: int|
                0 <= k < taken.len() && #[trigger] taken[k] < s && zero.lt(rel(s, taken[k]));
            assert(0 <= taken[k] < nc);
            assert(before(keys, order[taken[k]], order[s]));
            assert(keys[order[taken[k]]] == node_dists[order[taken[k]]].rank() as u64);
            assert(keys[c] == node_dists[c].rank() as u64);
            assert(kept[k] == order[taken[k]]);
        }
    }
}

} // verus!
