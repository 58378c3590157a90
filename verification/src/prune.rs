//! Robust pruning: greedy diversification of a candidate list with a growing threshold.
//!
//! Candidates are visited from near to far. One is taken unless a candidate that was taken before
//! and stands nearer to the node occludes it, that is, unless the ratio of its distance to the
//! node over its distance to that candidate exceeds the threshold. Each round uses the next
//! threshold of an ascending ladder, until the degree is reached. What is then still missing may
//! be filled with the nearest candidates left.

use crate::arith::Arithmetic;
use crate::ladder::{alpha_ladder, climbable, ladder, rising, rising_valid};
use crate::measure::{
    candidate_answers, candidate_table, pair_answers, pair_table, pairwise, row_answers, row_table,
    vector_measure, ByCandidate, ByPosition, ByRow, PairSource, PairTable, PairTest,
};
use crate::number::Real;
use crate::sort::{argsort, argsort_ascending, before, positions, sort_positions};
use vstd::prelude::*;

verus! {

/// Some taken candidate nearer than `s` occludes `s` beyond `alpha`.
pub open spec fn occluded(rel: PairTable, taken: Seq<int>, s: int, alpha: Real) -> bool {
    exists|k: int| 0 <= k < taken.len() && #[trigger] taken[k] < s && alpha.lt(rel(s, taken[k]))
}

/// What is taken once the positions from `s` on have been visited with threshold `alpha`.
pub open spec fn walk(
    rel: PairTable,
    taken: Seq<int>,
    s: int,
    n: int,
    degree: int,
    alpha: Real,
) -> Seq<int>
    decreases n - s,
{
    if s >= n || taken.len() >= degree {
        taken
    } else if taken.contains(s) || occluded(rel, taken, s, alpha) {
        walk(rel, taken, s + 1, n, degree, alpha)
    } else {
        walk(rel, taken.push(s), s + 1, n, degree, alpha)
    }
}

/// What is taken after the first `rounds` thresholds of the ladder.
pub open spec fn climb(
    rel: PairTable,
    n: int,
    degree: int,
    alphas: Seq<Real>,
    rounds: int,
) -> Seq<int>
    decreases rounds,
{
    if rounds <= 0 {
        Seq::empty()
    } else {
        walk(rel, climb(rel, n, degree, alphas, rounds - 1), 0, n, degree, alphas[rounds - 1])
    }
}

/// What is taken once the nearest positions from `s` on have been added up to the degree.
pub open spec fn fill(taken: Seq<int>, s: int, n: int, degree: int) -> Seq<int>
    decreases n - s,
{
    if s >= n || taken.len() >= degree {
        taken
    } else if taken.contains(s) {
        fill(taken, s + 1, n, degree)
    } else {
        fill(taken.push(s), s + 1, n, degree)
    }
}

/// The sorted positions that pruning takes, in the order in which it takes them.
pub open spec fn pruned(
    rel: PairTable,
    n: int,
    degree: int,
    alphas: Seq<Real>,
    saturate: bool,
) -> Seq<int> {
    let taken = climb(rel, n, degree, alphas, alphas.len() as int);
    if saturate {
        fill(taken, 0, n, degree)
    } else {
        taken
    }
}

/// Thresholds are numbers that are not negative.
pub open spec fn valid_ladder(alphas: Seq<Real>) -> bool {
    forall|i: int| 0 <= i < alphas.len() ==> Real::spec_zero().le(#[trigger] alphas[i])
}

/// Ratio of candidate `q`'s distance to the node over its distance to candidate `p`; the largest
/// number where that distance is not positive.
pub open spec fn occlusion_ratio<A: Arithmetic>(
    node_dists: Seq<Real>,
    pair: PairTable,
    ops: A,
    q: int,
    p: int,
) -> Real {
    let d = pair(q, p);
    if Real::spec_zero().lt(d) {
        ops.quotient(node_dists[q], d)
    } else {
        Real::spec_max()
    }
}

/// Sort keys of a list of distances.
pub open spec fn rank_keys(dists: Seq<Real>) -> Seq<u64> {
    dists.map_values(|d: Real| d.rank() as u64)
}

/// The first `nc` candidates from near to far, equal distances in list order. Distances that are
/// not numbers are ordered by their encodings.
pub open spec fn near_to_far(node_dists: Seq<Real>, nc: int) -> Seq<int> {
    argsort(rank_keys(node_dists.take(nc)))
}

/// The occlusion ratio between sorted positions.
pub open spec fn position_ratio<A: Arithmetic>(
    node_dists: Seq<Real>,
    nc: int,
    pair: PairTable,
    ops: A,
) -> PairTable {
    let order = near_to_far(node_dists, nc);
    |s: int, p: int| occlusion_ratio(node_dists, pair, ops, order[s], order[p])
}

/// The candidates that pruning selects, in selection order.
pub open spec fn selection<A: Arithmetic>(
    nc: int,
    node_dists: Seq<Real>,
    max_degree: int,
    alpha: Real,
    saturate: bool,
    pair: PairTable,
    ops: A,
) -> Seq<int> {
    let order = near_to_far(node_dists, nc);
    let degree = if max_degree <= nc { max_degree } else { nc };
    pruned(position_ratio(node_dists, nc, pair, ops), nc, degree, ladder(ops, alpha), saturate)
        .map_values(|s: int| order[s])
}

/// The ratio of candidate `q` to candidate `p` is made of answers.
pub open spec fn ratio_answered<A: Arithmetic>(
    node_dists: Seq<Real>,
    pair: PairTable,
    answered: PairTest,
    ops: A,
    q: int,
    p: int,
) -> bool {
    let d = pair(q, p);
    answered(q, p) && (Real::spec_zero().lt(d) ==> ops.gives_quotient(
        node_dists[q],
        d,
        ops.quotient(node_dists[q], d),
    ))
}

/// The sorted positions whose ratio is made of answers.
pub open spec fn position_answered<A: Arithmetic>(
    node_dists: Seq<Real>,
    nc: int,
    pair: PairTable,
    answered: PairTest,
    ops: A,
) -> PairTest {
    let order = near_to_far(node_dists, nc);
    |s: int, p: int| ratio_answered(node_dists, pair, answered, ops, order[s], order[p])
}

/// A nearer taken position is known by an answer to occlude position `s` beyond `alpha`.
pub open spec fn known_occluded(
    rel: PairTable,
    answered: PairTest,
    taken: Seq<int>,
    s: int,
    alpha: Real,
) -> bool {
    exists|k: int|
        0 <= k < taken.len() && #[trigger] taken[k] < s && alpha.lt(rel(s, taken[k])) && answered(
            s,
            taken[k],
        )
}

/// What pruning found rests on answers: each taken position was compared with all nearer ones that
/// were taken before it, and if the degree was not reached, each position left out with one that
/// occludes it at the last threshold.
pub open spec fn rests_on(
    rel: PairTable,
    answered: PairTest,
    n: int,
    degree: int,
    alphas: Seq<Real>,
) -> bool {
    let taken = pruned(rel, n, degree, alphas, false);
    &&& forall|t: int, k: int|
        0 <= k < t < taken.len() && taken[k] < taken[t] ==> answered(
            #[trigger] taken[t],
            #[trigger] taken[k],
        )
    &&& taken.len() < degree ==> forall|s: int|
        0 <= s < n && !#[trigger] taken.contains(s) ==> known_occluded(
            rel,
            answered,
            taken,
            s,
            alphas.last(),
        )
}

/// A selection rests on answers.
pub open spec fn selection_answered<A: Arithmetic>(
    nc: int,
    node_dists: Seq<Real>,
    max_degree: int,
    alpha: Real,
    pair: PairTable,
    answered: PairTest,
    ops: A,
) -> bool {
    let degree = if max_degree <= nc { max_degree } else { nc };
    rests_on(
        position_ratio(node_dists, nc, pair, ops),
        position_answered(node_dists, nc, pair, answered, ops),
        nc,
        degree,
        ladder(ops, alpha),
    )
}

/// Taken positions are distinct positions below `n`, and no more than the degree allows.
pub open spec fn taken_valid(taken: Seq<int>, n: int, degree: int) -> bool {
    &&& taken.no_duplicates()
    &&& taken.len() <= degree
    &&& forall|k: int| 0 <= k < taken.len() ==> 0 <= #[trigger] taken[k] < n
}

/// Visiting keeps what was taken, in place and valid.
pub(crate) proof fn walk_valid(rel: PairTable, taken: Seq<int>, s: int, n: int, degree: int, alpha: Real)
    requires
        0 <= s,
        taken_valid(taken, n, degree),
    ensures
        taken_valid(walk(rel, taken, s, n, degree, alpha), n, degree),
        taken.is_prefix_of(walk(rel, taken, s, n, degree, alpha)),
    decreases n - s,
{
    if s >= n || taken.len() >= degree {
    } else if taken.contains(s) || occluded(rel, taken, s, alpha) {
        walk_valid(rel, taken, s + 1, n, degree, alpha);
    } else {
        let more = taken.push(s);
        assert(more.no_duplicates()) by {
            assert forall|i: int, j: int| 0 <= i < more.len() && 0 <= j < more.len() && i
                != j implies more[i] != more[j] by {
                if i == taken.len() {
                    assert(taken[j] != s);
                } else if j == taken.len() {
                    assert(taken[i] != s);
                }
            }
        }
        walk_valid(rel, more, s + 1, n, degree, alpha);
        let all = walk(rel, taken, s, n, degree, alpha);
        assert(taken =~= all.take(taken.len() as int)) by {
            assert(more =~= all.take(more.len() as int));
            assert forall|i: int| 0 <= i < taken.len() implies taken[i] == all[i] by {
                assert(more[i] == all.take(more.len() as int)[i]);
            }
        }
    }
}

/// Every round keeps what is taken valid.
pub(crate) proof fn climb_valid(rel: PairTable, n: int, degree: int, alphas: Seq<Real>, rounds: int)
    requires
        0 <= degree,
    ensures
        taken_valid(climb(rel, n, degree, alphas, rounds), n, degree),
    decreases rounds,
{
    if rounds > 0 {
        climb_valid(rel, n, degree, alphas, rounds - 1);
        walk_valid(rel, climb(rel, n, degree, alphas, rounds - 1), 0, n, degree, alphas[rounds - 1]);
    }
}

/// Filling keeps what was taken, in place and valid, and stops short of the degree only once
/// every position from `s` on is taken.
pub(crate) proof fn fill_valid(taken: Seq<int>, s: int, n: int, degree: int)
    requires
        0 <= s,
        taken_valid(taken, n, degree),
    ensures
        taken_valid(fill(taken, s, n, degree), n, degree),
        taken.is_prefix_of(fill(taken, s, n, degree)),
        fill(taken, s, n, degree).len() < degree ==> forall|p: int|
            s <= p < n ==> fill(taken, s, n, degree).contains(p),
    decreases n - s,
{
    let all = fill(taken, s, n, degree);
    if s >= n || taken.len() >= degree {
    } else if taken.contains(s) {
        fill_valid(taken, s + 1, n, degree);
        let k = choose|k: int| 0 <= k < taken.len() && taken[k] == s;
        assert(all.take(taken.len() as int)[k] == taken[k]);
        assert(all[k] == s);
    } else {
        let more = taken.push(s);
        assert(more.no_duplicates()) by {
            assert forall|i: int, j: int| 0 <= i < more.len() && 0 <= j < more.len() && i
                != j implies more[i] != more[j] by {
                if i == taken.len() {
                    assert(taken[j] != s);
                } else if j == taken.len() {
                    assert(taken[i] != s);
                }
            }
        }
        fill_valid(more, s + 1, n, degree);
        assert(more =~= all.take(more.len() as int));
        assert(taken =~= all.take(taken.len() as int)) by {
            assert forall|i: int| 0 <= i < taken.len() implies taken[i] == all[i] by {
                assert(more[i] == all.take(more.len() as int)[i]);
            }
        }
        assert(all[taken.len() as int] == s) by {
            assert(more[taken.len() as int] == all.take(more.len() as int)[taken.len() as int]);
        }
    }
}

/// Pruning takes distinct positions, never more than the degree.
pub proof fn pruned_valid(rel: PairTable, n: int, degree: int, alphas: Seq<Real>, saturate: bool)
    requires
        0 <= degree,
    ensures
        taken_valid(pruned(rel, n, degree, alphas, saturate), n, degree),
{
    climb_valid(rel, n, degree, alphas, alphas.len() as int);
    fill_valid(climb(rel, n, degree, alphas, alphas.len() as int), 0, n, degree);
}

/// With saturation the degree is always reached, as far as there are candidates.
pub proof fn saturation_fills(rel: PairTable, n: int, degree: int, alphas: Seq<Real>)
    requires
        0 <= degree <= n,
    ensures
        pruned(rel, n, degree, alphas, true).len() == degree,
{
    let taken = climb(rel, n, degree, alphas, alphas.len() as int);
    climb_valid(rel, n, degree, alphas, alphas.len() as int);
    fill_valid(taken, 0, n, degree);
    let all = fill(taken, 0, n, degree);
    if all.len() < degree {
        vstd::set_lib::lemma_int_range(0, n);
        all.unique_seq_to_set();
        let range = vstd::set_lib::set_int_range(0, n);
        assert forall|p: int| range.contains(p) implies all.to_set().contains(p) by {
            assert(all.contains(p));
        }
        vstd::set_lib::lemma_len_subset(range, all.to_set());
    }
}

/// The nearest candidate is always taken, and first.
pub proof fn nearest_first(rel: PairTable, n: int, degree: int, alphas: Seq<Real>, saturate: bool)
    requires
        0 < degree,
        0 < n,
        alphas.len() > 0 || saturate,
    ensures
        pruned(rel, n, degree, alphas, saturate).len() > 0,
        pruned(rel, n, degree, alphas, saturate)[0] == 0,
{
    let rounds = alphas.len() as int;
    let taken = climb(rel, n, degree, alphas, rounds);
    climb_valid(rel, n, degree, alphas, rounds);
    if rounds > 0 {
        climb_nearest_first(rel, n, degree, alphas, rounds);
        fill_valid(taken, 0, n, degree);
        let all = fill(taken, 0, n, degree);
        assert(all.take(taken.len() as int)[0] == taken[0]);
    } else {
        let first = Seq::<int>::empty().push(0);
        assert(taken_valid(first, n, degree));
        fill_valid(first, 1, n, degree);
        let all = fill(first, 1, n, degree);
        assert(fill(taken, 0, n, degree) == all) by {
            assert(taken =~= Seq::<int>::empty());
        }
        assert(all.take(1)[0] == first[0]);
    }
}

proof fn climb_nearest_first(rel: PairTable, n: int, degree: int, alphas: Seq<Real>, rounds: int)
    requires
        0 < degree,
        0 < n,
        0 < rounds,
    ensures
        climb(rel, n, degree, alphas, rounds).len() > 0,
        climb(rel, n, degree, alphas, rounds)[0] == 0,
    decreases rounds,
{
    let prev = climb(rel, n, degree, alphas, rounds - 1);
    let alpha = alphas[rounds - 1];
    climb_valid(rel, n, degree, alphas, rounds - 1);
    let all = climb(rel, n, degree, alphas, rounds);
    if rounds > 1 {
        climb_nearest_first(rel, n, degree, alphas, rounds - 1);
        walk_valid(rel, prev, 0, n, degree, alpha);
        assert(all.take(prev.len() as int)[0] == prev[0]);
    } else {
        let first = prev.push(0);
        assert(first =~= seq![0int]);
        walk_valid(rel, first, 1, n, degree, alpha);
        assert(all == walk(rel, first, 1, n, degree, alpha));
        assert(all.take(1)[0] == first[0]);
    }
}

/// No taken position is occluded beyond `alpha` by a nearer one that was taken before it.
pub open spec fn diverse(rel: PairTable, taken: Seq<int>, alpha: Real) -> bool {
    forall|i: int, j: int|
        0 <= i < j < taken.len() && #[trigger] taken[i] < #[trigger] taken[j] ==> !alpha.lt(
            rel(taken[j], taken[i]),
        )
}

/// Every position that is not taken is occluded beyond `alpha` by a nearer taken one.
pub open spec fn maximal(rel: PairTable, taken: Seq<int>, from: int, n: int, alpha: Real) -> bool {
    forall|s: int|
        from <= s < n && !#[trigger] taken.contains(s) ==> occluded(rel, taken, s, alpha)
}

proof fn walk_diverse(rel: PairTable, taken: Seq<int>, s: int, n: int, degree: int, alpha: Real)
    requires
        0 <= s,
        taken_valid(taken, n, degree),
        diverse(rel, taken, alpha),
    ensures
        diverse(rel, walk(rel, taken, s, n, degree, alpha), alpha),
        walk(rel, taken, s, n, degree, alpha).len() < degree ==> maximal(
            rel,
            walk(rel, taken, s, n, degree, alpha),
            s,
            n,
            alpha,
        ),
    decreases n - s,
{
    let all = walk(rel, taken, s, n, degree, alpha);
    walk_valid(rel, taken, s, n, degree, alpha);
    if s >= n || taken.len() >= degree {
    } else if taken.contains(s) || occluded(rel, taken, s, alpha) {
        walk_diverse(rel, taken, s + 1, n, degree, alpha);
        assert(taken =~= all.take(taken.len() as int));
        if taken.contains(s) {
            let k = choose|k: int| 0 <= k < taken.len() && taken[k] == s;
            assert(all.take(taken.len() as int)[k] == all[k]);
            assert(all.contains(s));
        } else {
            let k = choose|k: int|
                0 <= k < taken.len() && #[trigger] taken[k] < s && alpha.lt(rel(s, taken[k]));
            assert(all.take(taken.len() as int)[k] == all[k]);
            assert(all[k] < s);
            assert(occluded(rel, all, s, alpha));
        }
    } else {
        let more = taken.push(s);
        assert(taken_valid(more, n, degree)) by {
            assert forall|i: int, j: int| 0 <= i < more.len() && 0 <= j < more.len() && i
                != j implies more[i] != more[j] by {
                if i == taken.len() {
                    assert(taken[j] != s);
                } else if j == taken.len() {
                    assert(taken[i] != s);
                }
            }
        }
        assert(diverse(rel, more, alpha)) by {
            assert forall|i: int, j: int|
                0 <= i < j < more.len() && #[trigger] more[i] < #[trigger] more[j] implies !alpha.lt(
                rel(more[j], more[i]),
            ) by {
                if j < taken.len() {
                    assert(taken[i] < taken[j]);
                } else {
                    assert(taken[i] < s);
                }
            }
        }
        walk_valid(rel, more, s + 1, n, degree, alpha);
        walk_diverse(rel, more, s + 1, n, degree, alpha);
        assert(more =~= all.take(more.len() as int));
        assert(all.take(more.len() as int)[taken.len() as int] == more[taken.len() as int]);
        assert(all.contains(s));
    }
}

proof fn diverse_weakens(rel: PairTable, taken: Seq<int>, low: Real, high: Real)
    requires
        diverse(rel, taken, low),
        low.le(high),
    ensures
        diverse(rel, taken, high),
{
    assert forall|i: int, j: int|
        0 <= i < j < taken.len() && #[trigger] taken[i] < #[trigger] taken[j] implies !high.lt(
        rel(taken[j], taken[i]),
    ) by {
        assert(!low.lt(rel(taken[j], taken[i])));
    }
}

/// What pruning takes without saturation is diverse at the last threshold of an ascending ladder,
/// and if the degree is not reached, everything left out is occluded at that threshold.
pub proof fn pruned_diverse(rel: PairTable, n: int, degree: int, alphas: Seq<Real>)
    requires
        0 <= degree,
        alphas.len() > 0,
        valid_ladder(alphas),
        forall|i: int, j: int|
            0 <= i < j < alphas.len() ==> (#[trigger] alphas[i]).le(#[trigger] alphas[j]),
    ensures
        diverse(rel, pruned(rel, n, degree, alphas, false), alphas.last()),
        pruned(rel, n, degree, alphas, false).len() < degree ==> maximal(
            rel,
            pruned(rel, n, degree, alphas, false),
            0,
            n,
            alphas.last(),
        ),
{
    climb_diverse(rel, n, degree, alphas, alphas.len() as int);
}

/// Without saturation the selection at a threshold from one on, to which the ladder rises, is
/// diverse at that threshold, and if the degree is not reached, everything left out is occluded at
/// it.
pub proof fn pruned_diverse_at_alpha<A: Arithmetic>(
    ops: A,
    alpha: Real,
    rel: PairTable,
    n: int,
    degree: int,
)
    requires
        0 <= degree,
        Real::spec_one().le(alpha),
        rising(ladder(ops, alpha), alpha),
    ensures
        diverse(rel, pruned(rel, n, degree, ladder(ops, alpha), false), alpha),
        pruned(rel, n, degree, ladder(ops, alpha), false).len() < degree ==> maximal(
            rel,
            pruned(rel, n, degree, ladder(ops, alpha), false),
            0,
            n,
            alpha,
        ),
{
    let alphas = ladder(ops, alpha);
    let taken = pruned(rel, n, degree, alphas, false);
    rising_valid(alphas, alpha);
    pruned_diverse(rel, n, degree, alphas);
    let last = alphas.last();
    assert(!last.nan()) by {
        assert(Real::spec_zero().le(alphas[alphas.len() - 1]));
    }
    diverse_weakens(rel, taken, last, alpha);
    if taken.len() < degree {
        assert forall|s: int| 0 <= s < n && !#[trigger] taken.contains(s) implies occluded(
            rel,
            taken,
            s,
            alpha,
        ) by {
            assert(occluded(rel, taken, s, last));
            let k = choose|k: int|
                0 <= k < taken.len() && #[trigger] taken[k] < s && last.lt(rel(s, taken[k]));
            assert(taken[k] < s && alpha.lt(rel(s, taken[k])));
        }
    }
}

pub(crate) proof fn climb_diverse(rel: PairTable, n: int, degree: int, alphas: Seq<Real>, rounds: int)
    requires
        0 <= degree,
        0 < rounds <= alphas.len(),
        forall|i: int, j: int|
            0 <= i < j < alphas.len() ==> (#[trigger] alphas[i]).le(#[trigger] alphas[j]),
    ensures
        diverse(rel, climb(rel, n, degree, alphas, rounds), alphas[rounds - 1]),
        climb(rel, n, degree, alphas, rounds).len() < degree ==> maximal(
            rel,
            climb(rel, n, degree, alphas, rounds),
            0,
            n,
            alphas[rounds - 1],
        ),
    decreases rounds,
{
    let prev = climb(rel, n, degree, alphas, rounds - 1);
    climb_valid(rel, n, degree, alphas, rounds - 1);
    if rounds > 1 {
        climb_diverse(rel, n, degree, alphas, rounds - 1);
        diverse_weakens(rel, prev, alphas[rounds - 2], alphas[rounds - 1]);
    }
    walk_diverse(rel, prev, 0, n, degree, alphas[rounds - 1]);
}

/// Greatest occlusion ratio of `s` against the taken positions nearer than it, at least zero.
pub open spec fn factor(rel: PairTable, taken: Seq<int>, s: int) -> Real
    decreases taken.len(),
{
    if taken.len() == 0 {
        Real::spec_zero()
    } else {
        let sofar = factor(rel, taken.drop_last(), s);
        if taken.last() < s && sofar.lt(rel(s, taken.last())) {
            rel(s, taken.last())
        } else {
            sofar
        }
    }
}

/// The greatest ratio tells whether a position is occluded.
pub proof fn factor_decides(rel: PairTable, taken: Seq<int>, s: int, alpha: Real)
    requires
        Real::spec_zero().le(alpha),
    ensures
        !factor(rel, taken, s).nan(),
        alpha.lt(factor(rel, taken, s)) == occluded(rel, taken, s, alpha),
    decreases taken.len(),
{
    if taken.len() > 0 {
        let front = taken.drop_last();
        factor_decides(rel, front, s, alpha);
        if occluded(rel, front, s, alpha) {
            let k = choose|k: int|
                0 <= k < front.len() && #[trigger] front[k] < s && alpha.lt(rel(s, front[k]));
            assert(taken[k] < s);
            assert(occluded(rel, taken, s, alpha));
        }
        if occluded(rel, taken, s, alpha) {
            let k = choose|k: int|
                0 <= k < taken.len() && #[trigger] taken[k] < s && alpha.lt(rel(s, taken[k]));
            if k < front.len() {
                assert(front[k] < s);
                assert(occluded(rel, front, s, alpha));
            }
        }
        if taken.last() < s && alpha.lt(rel(s, taken.last())) {
            assert(taken[taken.len() - 1] < s);
        }
    }
}

pub(crate) proof fn occluded_by_prefix(rel: PairTable, taken: Seq<int>, k: int, s: int, alpha: Real)
    requires
        0 <= k <= taken.len(),
        occluded(rel, taken.take(k), s, alpha),
    ensures
        occluded(rel, taken, s, alpha),
{
    let front = taken.take(k);
    let i = choose|i: int|
        0 <= i < front.len() && #[trigger] front[i] < s && alpha.lt(rel(s, front[i]));
    assert(taken[i] < s);
}

/// Each position was compared with the nearer ones among those it was checked against.
spec fn compared(answered: PairTest, taken: Seq<int>, checked: Seq<usize>, n: int) -> bool {
    forall|x: int, k: int|
        0 <= x < n && 0 <= k < checked[x] && taken[k] < x ==> #[trigger] answered(
            x,
            #[trigger] taken[k],
        )
}

/// Each taken position was compared with the nearer ones that were taken before it.
spec fn kept_compared(answered: PairTest, taken: Seq<int>) -> bool {
    forall|t: int, k: int|
        0 <= k < t < taken.len() && taken[k] < taken[t] ==> answered(
            #[trigger] taken[t],
            #[trigger] taken[k],
        )
}

/// Prunes a candidate list whose mutual distances come from `pairs`.
pub(crate) fn occlude_list<S: PairSource, A: Arithmetic>(
    nc: usize,
    node_dists: &[Real],
    max_degree: usize,
    alpha: Real,
    saturate: bool,
    pairs: &S,
    ops: &A,
) -> (out: Vec<u32>)
    requires
        nc <= node_dists.len(),
        nc <= u32::MAX,
        climbable(*ops, alpha),
        pairs.covers(nc as int),
    ensures
        out@.map_values(|i: u32| i as int) == selection(
            nc as int,
            node_dists@,
            max_degree as int,
            alpha,
            saturate,
            pairs.table(),
            *ops,
        ),
        out@.no_duplicates(),
        out.len() <= max_degree,
        forall|i: int| 0 <= i < out.len() ==> #[trigger] out[i] < nc,
        saturate ==> out.len() == if max_degree <= nc { max_degree } else { nc },
        selection_answered(
            nc as int,
            node_dists@,
            max_degree as int,
            alpha,
            pairs.table(),
            pairs.answered(),
            *ops,
        ),
{
    let alphas = alpha_ladder(ops, alpha);
    proof {
        rising_valid(alphas@, alpha);
    }
    let degree: usize = if max_degree <= nc { max_degree } else { nc };
    let mut keys: Vec<u64> = Vec::with_capacity(nc);
    let mut i: usize = 0;
    while i < nc
        invariant
            i <= nc <= node_dists.len(),
            keys.len() == i,
            forall|j: int| 0 <= j < i ==> #[trigger] keys[j] == node_dists[j].rank() as u64,
        decreases nc - i,
    {
        keys.push(node_dists[i].order_rank() as u64);
        i += 1;
    }
    assert(keys@ =~= rank_keys(node_dists@.take(nc as int)));
    let order = sort_positions(&keys);
    let ghost rel = position_ratio(node_dists@, nc as int, pairs.table(), *ops);
    let ghost answered = position_answered(
        node_dists@,
        nc as int,
        pairs.table(),
        pairs.answered(),
        *ops,
    );
    let ghost n = nc as int;
    let ghost d = degree as int;
    proof {
        assert(positions(order@) == near_to_far(node_dists@, n));
    }

    let mut factors: Vec<Real> = vec![Real::zero(); nc];
    let mut last_checked: Vec<usize> = vec![0usize; nc];
    let mut is_selected: Vec<bool> = vec![false; nc];
    let mut selected: Vec<usize> = Vec::with_capacity(degree);
    let mut round: usize = 0;
    proof {
        assert forall|x: int| 0 <= x < n implies #[trigger] factors@[x] == factor(
            rel,
            positions(selected@).take(last_checked@[x] as int),
            x,
        ) by {
            assert(positions(selected@).take(0).len() == 0);
        }
        assert(positions(selected@) =~= Seq::<int>::empty());
    }
    while round < alphas.len()
        invariant
            round <= alphas.len(),
            n == nc,
            d == degree,
            degree <= nc <= node_dists.len(),
            order.len() == nc,
            positions(order@) == near_to_far(node_dists@, n),
            forall|x: int| 0 <= x < nc ==> #[trigger] order[x] < nc,
            rel == position_ratio(node_dists@, n, pairs.table(), *ops),
            valid_ladder(alphas@),
            pairs.covers(n),
            ops.ready(),
            factors.len() == nc,
            last_checked.len() == nc,
            is_selected.len() == nc,
            forall|x: int| 0 <= x < n ==> is_selected@[x] == #[trigger] positions(selected@).contains(x),
            forall|x: int| 0 <= x < n ==> #[trigger] last_checked@[x] <= selected.len(),
            forall|x: int|
                0 <= x < n && !is_selected@[x] ==> #[trigger] factors@[x] == factor(
                    rel,
                    positions(selected@).take(last_checked@[x] as int),
                    x,
                ),
            taken_valid(positions(selected@), n, d),
            positions(selected@) == climb(rel, n, d, alphas@, round as int),
            answered == position_answered(node_dists@, n, pairs.table(), pairs.answered(), *ops),
            compared(answered, positions(selected@), last_checked@, n),
            kept_compared(answered, positions(selected@)),
            round > 0 && selected.len() < degree ==> forall|x: int|
                0 <= x < n ==> is_selected@[x] || alphas@[round - 1].lt(#[trigger] factors@[x]),
        decreases alphas.len() - round,
    {
        let threshold = alphas[round];
        let mut s: usize = 0;
        let ghost goal = climb(rel, n, d, alphas@, round + 1);
        proof {
            assert(alphas@[round as int] == threshold);
        }
        while s < nc && selected.len() < degree
            invariant
                s <= nc,
                n == nc,
                d == degree,
                degree <= nc <= node_dists.len(),
                order.len() == nc,
                positions(order@) == near_to_far(node_dists@, n),
                forall|x: int| 0 <= x < nc ==> #[trigger] order[x] < nc,
                rel == position_ratio(node_dists@, n, pairs.table(), *ops),
                pairs.covers(n),
                ops.ready(),
                Real::spec_zero().le(threshold),
                factors.len() == nc,
                last_checked.len() == nc,
                is_selected.len() == nc,
                forall|x: int|
                    0 <= x < n ==> is_selected@[x] == #[trigger] positions(selected@).contains(x),
                forall|x: int| 0 <= x < n ==> #[trigger] last_checked@[x] <= selected.len(),
                forall|x: int|
                    0 <= x < n && !is_selected@[x] ==> #[trigger] factors@[x] == factor(
                        rel,
                        positions(selected@).take(last_checked@[x] as int),
                        x,
                    ),
                taken_valid(positions(selected@), n, d),
                goal == walk(rel, positions(selected@), s as int, n, d, threshold),
                answered == position_answered(node_dists@, n, pairs.table(), pairs.answered(), *ops),
                compared(answered, positions(selected@), last_checked@, n),
                kept_compared(answered, positions(selected@)),
                forall|x: int|
                    0 <= x < s ==> is_selected@[x] || threshold.lt(#[trigger] factors@[x]),
            decreases nc - s,
        {
            let ghost taken = positions(selected@);
            if is_selected[s] {
                assert(taken.contains(s as int));
                s += 1;
                continue;
            }
            proof {
                factor_decides(rel, taken.take(last_checked@[s as int] as int), s as int, threshold);
                assert(is_selected@[s as int] == taken.contains(s as int));
            }
            if threshold.is_less(factors[s]) {
                proof {
                    occluded_by_prefix(rel, taken, last_checked@[s as int] as int, s as int, threshold);
                }
                s += 1;
                continue;
            }
            let q: usize = order[s];
            let mut f = factors[s];
            let mut c: usize = last_checked[s];
            while c < selected.len() && !threshold.is_less(f)
                invariant
                    s < nc,
                    n == nc,
                    nc <= node_dists.len(),
                    c <= selected.len(),
                    taken == positions(selected@),
                    order.len() == nc,
                    q == order[s as int],
                    positions(order@) == near_to_far(node_dists@, n),
                    forall|x: int| 0 <= x < nc ==> #[trigger] order[x] < nc,
                    rel == position_ratio(node_dists@, n, pairs.table(), *ops),
                    pairs.covers(n),
                    ops.ready(),
                    taken_valid(taken, n, d),
                    f == factor(rel, taken.take(c as int), s as int),
                    !f.nan(),
                    answered == position_answered(
                        node_dists@,
                        n,
                        pairs.table(),
                        pairs.answered(),
                        *ops,
                    ),
                    forall|k: int|
                        0 <= k < c && taken[k] < s ==> answered(s as int, #[trigger] taken[k]),
                decreases selected.len() - c,
            {
                let sel_pos: usize = selected[c];
                proof {
                    assert(taken[c as int] == sel_pos);
                    assert(taken.take(c + 1).drop_last() =~= taken.take(c as int));
                    assert(taken.take(c + 1).last() == sel_pos);
                }
                c += 1;
                if sel_pos < s {
                    let p: usize = order[sel_pos];
                    proof {
                        assert(positions(order@)[s as int] == q);
                        assert(positions(order@)[sel_pos as int] == p);
                    }
                    let d_pq = pairs.between(q, p, Ghost(n));
                    let ratio = if Real::zero().is_less(d_pq) {
                        ops.over(node_dists[q], d_pq)
                    } else {
                        Real::max_finite()
                    };
                    assert(ratio == rel(s as int, sel_pos as int));
                    assert(answered(s as int, sel_pos as int));
                    if f.is_less(ratio) {
                        f = ratio;
                    }
                }
            }
            factors.set(s, f);
            last_checked.set(s, c);
            proof {
                factor_decides(rel, taken.take(c as int), s as int, threshold);
            }
            if threshold.is_less(f) {
                proof {
                    occluded_by_prefix(rel, taken, c as int, s as int, threshold);
                }
                s += 1;
                continue;
            }
            proof {
                assert(taken.take(c as int) =~= taken);
                assert(!occluded(rel, taken, s as int, threshold));
            }
            is_selected.set(s, true);
            selected.push(s);
            proof {
                let more = positions(selected@);
                assert(more =~= taken.push(s as int));
                push_valid(taken, s as int, n, d);
                assert(kept_compared(answered, more));
                assert(compared(answered, more, last_checked@, n));
                assert forall|x: int| 0 <= x < n implies is_selected@[x]
                    == #[trigger] more.contains(x) by {
                    push_contains(taken, s as int, x);
                    assert(taken.contains(x) || !taken.contains(x));
                }
                assert forall|x: int| 0 <= x < n && !is_selected@[x] implies #[trigger] factors@[x]
                    == factor(rel, more.take(last_checked@[x] as int), x) by {
                    assert(!taken.contains(x));
                    assert(more.take(last_checked@[x] as int) =~= taken.take(
                        last_checked@[x] as int,
                    ));
                }
            }
            s += 1;
        }
        proof {
            assert(goal == positions(selected@));
        }
        round += 1;
    }

    let ghost bare = positions(selected@);
    proof {
        if bare.len() < d {
            assert forall|x: int| 0 <= x < n && !#[trigger] bare.contains(x) implies known_occluded(
                rel,
                answered,
                bare,
                x,
                alphas@.last(),
            ) by {
                let prefix = bare.take(last_checked@[x] as int);
                assert(!is_selected@[x]);
                assert(alphas@[alphas@.len() - 1].lt(factors@[x]));
                assert(factors@[x] == factor(rel, prefix, x));
                factor_decides(rel, prefix, x, alphas@.last());
                let k = choose|k: int|
                    0 <= k < prefix.len() && #[trigger] prefix[k] < x && alphas@.last().lt(
                        rel(x, prefix[k]),
                    );
                assert(bare[k] == prefix[k]);
            }
        }
        assert(rests_on(rel, answered, n, d, alphas@));
    }
    if saturate {
        let mut s: usize = 0;
        let ghost goal = fill(positions(selected@), 0, n, d);
        while s < nc && selected.len() < degree
            invariant
                s <= nc,
                n == nc,
                d == degree,
                is_selected.len() == nc,
                forall|x: int|
                    s <= x < n ==> is_selected@[x] == #[trigger] positions(selected@).contains(x),
                taken_valid(positions(selected@), n, d),
                goal == fill(positions(selected@), s as int, n, d),
            decreases nc - s,
        {
            let ghost taken = positions(selected@);
            assert(is_selected@[s as int] == taken.contains(s as int));
            if !is_selected[s] {
                selected.push(s);
                proof {
                    let more = positions(selected@);
                    assert(more =~= taken.push(s as int));
                    push_valid(taken, s as int, n, d);
                    assert forall|x: int| s + 1 <= x < n implies is_selected@[x]
                        == #[trigger] more.contains(x) by {
                        push_contains(taken, s as int, x);
                        assert(taken.contains(x) || !taken.contains(x));
                    }
                }
            }
            s += 1;
        }
        proof {
            saturation_fills(rel, n, d, alphas@);
        }
    }
    let ghost taken = positions(selected@);
    proof {
        assert(taken == pruned(rel, n, d, alphas@, saturate));
    }

    let mut out: Vec<u32> = Vec::with_capacity(selected.len());
    let mut k: usize = 0;
    while k < selected.len()
        invariant
            k <= selected.len(),
            n == nc,
            nc <= u32::MAX,
            order.len() == nc,
            forall|x: int| 0 <= x < nc ==> #[trigger] order[x] < nc,
            taken == positions(selected@),
            taken_valid(taken, n, d),
            out.len() == k,
            forall|j: int| 0 <= j < k ==> #[trigger] out[j] == order[taken[j]],
        decreases selected.len() - k,
    {
        assert(taken[k as int] == selected[k as int]);
        out.push(order[selected[k]] as u32);
        k += 1;
    }
    proof {
        let ord = near_to_far(node_dists@, n);
        let chosen = selection(
            n,
            node_dists@,
            max_degree as int,
            alpha,
            saturate,
            pairs.table(),
            *ops,
        );
        assert forall|j: int| 0 <= j < out.len() implies out[j] as int == #[trigger] chosen[j] by {
            assert(positions(order@)[taken[j]] == order[taken[j]]);
            assert(out[j] == order[taken[j]]);
        }
        assert(out@.map_values(|i: u32| i as int) =~= chosen);
        assert forall|i: int, j: int| 0 <= i < out.len() && 0 <= j < out.len() && i != j implies out[i]
            != out[j] by {
            argsort_ascending(keys@);
            assert(taken[i] != taken[j]);
            assert(out[i] == order[taken[i]] && out[j] == order[taken[j]]);
            assert(positions(order@)[taken[i]] == order[taken[i]]);
            assert(positions(order@)[taken[j]] == order[taken[j]]);
            if taken[i] < taken[j] {
                assert(before(keys@, ord[taken[i]], ord[taken[j]]));
            } else {
                assert(before(keys@, ord[taken[j]], ord[taken[i]]));
            }
        }
    }
    out
}

/// Prunes a candidate list.
///
/// `node_dists[i]` is the distance from the node to candidate `i`, `pair_dist(i, j)` the distance
/// between two candidates and `alpha` the last threshold. Returns the selected candidates in
/// selection order.
pub fn robust_prune_occlude<F: Fn(usize, usize) -> Real, A: Arithmetic>(
    nc: usize,
    node_dists: &[Real],
    max_degree: usize,
    alpha: Real,
    saturate: bool,
    pair_dist: F,
    ops: &A,
) -> (out: Vec<u32>)
    requires
        nc <= node_dists.len(),
        nc <= u32::MAX,
        climbable(*ops, alpha),
        pairwise(pair_dist, nc as int),
    ensures
        out@.map_values(|i: u32| i as int) == selection(
            nc as int,
            node_dists@,
            max_degree as int,
            alpha,
            saturate,
            pair_table(pair_dist),
            *ops,
        ),
        out@.no_duplicates(),
        out.len() <= max_degree,
        forall|i: int| 0 <= i < out.len() ==> #[trigger] out[i] < nc,
        saturate ==> out.len() == if max_degree <= nc { max_degree } else { nc },
        selection_answered(
            nc as int,
            node_dists@,
            max_degree as int,
            alpha,
            pair_table(pair_dist),
            pair_answers(pair_dist),
            *ops,
        ),
{
    occlude_list(nc, node_dists, max_degree, alpha, saturate, &ByPosition { f: pair_dist }, ops)
}

/// Prunes candidates that are given by their vectors, row `i` of `cand_vecs` being candidate `i`.
pub fn robust_prune_candidates<D: Fn(&[Real], &[Real]) -> Real, A: Arithmetic>(
    cand_vecs: &[Real],
    node_dists: &[Real],
    nc: usize,
    ndims: usize,
    dist_fn: &D,
    max_degree: usize,
    alpha: Real,
    saturate: bool,
    ops: &A,
) -> (out: Vec<u32>)
    requires
        nc <= node_dists.len(),
        nc <= u32::MAX,
        nc * ndims <= cand_vecs.len(),
        climbable(*ops, alpha),
        vector_measure(*dist_fn, ndims as int, ndims as int),
    ensures
        out@.map_values(|i: u32| i as int) == selection(
            nc as int,
            node_dists@,
            max_degree as int,
            alpha,
            saturate,
            row_table(cand_vecs@, ndims as int, *dist_fn),
            *ops,
        ),
        out@.no_duplicates(),
        out.len() <= max_degree,
        forall|i: int| 0 <= i < out.len() ==> #[trigger] out[i] < nc,
        saturate ==> out.len() == if max_degree <= nc { max_degree } else { nc },
        selection_answered(
            nc as int,
            node_dists@,
            max_degree as int,
            alpha,
            row_table(cand_vecs@, ndims as int, *dist_fn),
            row_answers(cand_vecs@, ndims as int, *dist_fn),
            *ops,
        ),
{
    occlude_list(
        nc,
        node_dists,
        max_degree,
        alpha,
        saturate,
        &ByRow { data: cand_vecs, ndims, dist_fn },
        ops,
    )
}

/// The neighbours that pruning gives to a node with the given candidates: distances are measured
/// afresh, the stored ones are not used.
pub open spec fn pruned_neighbors<A: Arithmetic>(
    node: int,
    candidates: Seq<(u32, Real)>,
    max_degree: int,
    alpha: Real,
    saturate: bool,
    points: PairTable,
    ops: A,
) -> Seq<u32> {
    selection(
        candidates.len() as int,
        candidates.map_values(|c: (u32, Real)| points(node, c.0 as int)),
        max_degree,
        alpha,
        saturate,
        candidate_table(candidates, points),
        ops,
    ).map_values(|i: int| candidates[i].0)
}

/// The neighbours that pruning gives to a node rest on answers: the distance to each candidate is
/// one, and so is what the selection was decided by.
pub open spec fn neighbors_answered<A: Arithmetic>(
    node: int,
    candidates: Seq<(u32, Real)>,
    max_degree: int,
    alpha: Real,
    points: PairTable,
    answered: PairTest,
    ops: A,
) -> bool {
    &&& forall|i: int|
        0 <= i < candidates.len() ==> answered(node, (#[trigger] candidates[i]).0 as int)
    &&& selection_answered(
        candidates.len() as int,
        candidates.map_values(|c: (u32, Real)| points(node, c.0 as int)),
        max_degree,
        alpha,
        candidate_table(candidates, points),
        candidate_answers(candidates, answered),
        ops,
    )
}

/// Every candidate is a point, and every list is short enough to be numbered.
pub open spec fn candidates_valid(lists: Seq<Vec<(u32, Real)>>, npoints: int) -> bool {
    forall|v: int|
        0 <= v < lists.len() ==> {
            &&& (#[trigger] lists[v]).len() <= u32::MAX
            &&& forall|i: int| 0 <= i < lists[v].len() ==> (#[trigger] lists[v]@[i]).0 < npoints
        }
}

/// Prunes the candidates of one node.
fn prune_node<S: PairSource, A: Arithmetic>(
    node: usize,
    npoints: usize,
    candidates: &Vec<(u32, Real)>,
    max_degree: usize,
    alpha: Real,
    saturate: bool,
    points: &S,
    ops: &A,
) -> (out: Vec<u32>)
    requires
        node < npoints,
        candidates.len() <= u32::MAX,
        forall|i: int|
            0 <= i < candidates.len() ==> (#[trigger] candidates@[i]).0 < npoints,
        climbable(*ops, alpha),
        points.covers(npoints as int),
    ensures
        out@ == pruned_neighbors(
            node as int,
            candidates@,
            max_degree as int,
            alpha,
            saturate,
            points.table(),
            *ops,
        ),
        out.len() <= max_degree,
        neighbors_answered(
            node as int,
            candidates@,
            max_degree as int,
            alpha,
            points.table(),
            points.answered(),
            *ops,
        ),
{
    let nc: usize = candidates.len();
    let mut node_dists: Vec<Real> = Vec::with_capacity(nc);
    let mut i: usize = 0;
    while i < nc
        invariant
            i <= nc == candidates.len(),
            node < npoints,
            points.covers(npoints as int),
            forall|j: int| 0 <= j < candidates.len() ==> (#[trigger] candidates@[j]).0 < npoints,
            node_dists.len() == i,
            forall|j: int|
                0 <= j < i ==> #[trigger] node_dists[j] == (points.table())(
                    node as int,
                    candidates@[j].0 as int,
                ),
            forall|j: int|
                0 <= j < i ==> (points.answered())(
                    node as int,
                    (#[trigger] candidates@[j]).0 as int,
                ),
        decreases nc - i,
    {
        let id: usize = candidates[i].0 as usize;
        node_dists.push(points.between(node, id, Ghost(npoints as int)));
        i += 1;
    }
    proof {
        assert(node_dists@ =~= candidates@.map_values(
            |c: (u32, Real)| (points.table())(node as int, c.0 as int),
        ));
    }
    let chosen = occlude_list(
        nc,
        node_dists.as_slice(),
        max_degree,
        alpha,
        saturate,
        &ByCandidate { candidates, npoints, points },
        ops,
    );
    let mut out: Vec<u32> = Vec::with_capacity(chosen.len());
    let mut k: usize = 0;
    while k < chosen.len()
        invariant
            k <= chosen.len(),
            nc == candidates.len(),
            forall|j: int| 0 <= j < chosen.len() ==> #[trigger] chosen[j] < nc,
            out.len() == k,
            forall|j: int| 0 <= j < k ==> #[trigger] out[j] == candidates@[chosen[j] as int].0,
        decreases chosen.len() - k,
    {
        out.push(candidates[chosen[k] as usize].0);
        k += 1;
    }
    proof {
        let goal = pruned_neighbors(
            node as int,
            candidates@,
            max_degree as int,
            alpha,
            saturate,
            points.table(),
            *ops,
        );
        let picked = chosen@.map_values(|i: u32| i as int);
        assert forall|j: int| 0 <= j < out.len() implies #[trigger] out[j] == goal[j] by {
            assert(picked[j] == chosen[j]);
        }
        assert(out@ =~= goal);
    }
    out
}

/// Prunes the candidate lists of all nodes, distances between points coming from `points`.
pub(crate) fn prune_lists<S: PairSource, A: Arithmetic>(
    npoints: usize,
    candidates_per_node: &Vec<Vec<(u32, Real)>>,
    max_degree: usize,
    alpha: Real,
    saturate: bool,
    points: &S,
    ops: &A,
) -> (out: Vec<Vec<u32>>)
    requires
        candidates_per_node.len() <= npoints,
        candidates_valid(candidates_per_node@, npoints as int),
        climbable(*ops, alpha),
        points.covers(npoints as int),
    ensures
        out.len() == candidates_per_node.len(),
        forall|v: int|
            0 <= v < out.len() ==> (#[trigger] out[v])@ == pruned_neighbors(
                v,
                candidates_per_node[v]@,
                max_degree as int,
                alpha,
                saturate,
                points.table(),
                *ops,
            ),
        forall|v: int|
            0 <= v < out.len() ==> #[trigger] neighbors_answered(
                v,
                candidates_per_node[v]@,
                max_degree as int,
                alpha,
                points.table(),
                points.answered(),
                *ops,
            ),
{
    let mut out: Vec<Vec<u32>> = Vec::with_capacity(candidates_per_node.len());
    let mut v: usize = 0;
    while v < candidates_per_node.len()
        invariant
            v <= candidates_per_node.len() <= npoints,
            candidates_valid(candidates_per_node@, npoints as int),
            climbable(*ops, alpha),
            points.covers(npoints as int),
            out.len() == v,
            forall|u: int|
                0 <= u < v ==> (#[trigger] out[u])@ == pruned_neighbors(
                    u,
                    candidates_per_node[u]@,
                    max_degree as int,
                    alpha,
                    saturate,
                    points.table(),
                    *ops,
                ),
            forall|u: int|
                0 <= u < v ==> #[trigger] neighbors_answered(
                    u,
                    candidates_per_node[u]@,
                    max_degree as int,
                    alpha,
                    points.table(),
                    points.answered(),
                    *ops,
                ),
        decreases candidates_per_node.len() - v,
    {
        assert(candidates_per_node@[v as int].len() <= u32::MAX);
        let kept = prune_node(
            v,
            npoints,
            &candidates_per_node[v],
            max_degree,
            alpha,
            saturate,
            points,
            ops,
        );
        out.push(kept);
        v += 1;
    }
    out
}

/// Prunes the candidate lists of all nodes.
pub fn final_robust_prune<F: Fn(usize, usize) -> Real, A: Arithmetic>(
    npoints: usize,
    candidates_per_node: &Vec<Vec<(u32, Real)>>,
    max_degree: usize,
    alpha: Real,
    saturate: bool,
    distance: F,
    ops: &A,
) -> (out: Vec<Vec<u32>>)
    requires
        candidates_per_node.len() <= npoints,
        candidates_valid(candidates_per_node@, npoints as int),
        climbable(*ops, alpha),
        pairwise(distance, npoints as int),
    ensures
        out.len() == candidates_per_node.len(),
        forall|v: int|
            0 <= v < out.len() ==> (#[trigger] out[v])@ == pruned_neighbors(
                v,
                candidates_per_node[v]@,
                max_degree as int,
                alpha,
                saturate,
                pair_table(distance),
                *ops,
            ),
        forall|v: int|
            0 <= v < out.len() ==> #[trigger] neighbors_answered(
                v,
                candidates_per_node[v]@,
                max_degree as int,
                alpha,
                pair_table(distance),
                pair_answers(distance),
                *ops,
            ),
{
    let source = ByPosition { f: distance };
    assert(source.table() == pair_table(distance));
    assert(source.answered() == pair_answers(distance));
    prune_lists(npoints, candidates_per_node, max_degree, alpha, saturate, &source, ops)
}

/// Prunes the candidate lists of all nodes: thresholds grow from one up to `alpha`, a candidate's
/// occlusion factor is the greatest ratio of its distance to the node over its distance to a
/// selected candidate, and its examination resumes where it stopped.
pub fn final_prune_from_candidates<F: Fn(usize, usize) -> Real, A: Arithmetic>(
    npoints: usize,
    candidates_per_node: &Vec<Vec<(u32, Real)>>,
    max_degree: usize,
    alpha: Real,
    saturate: bool,
    distance: F,
    ops: &A,
) -> (out: Vec<Vec<u32>>)
    requires
        candidates_per_node.len() <= npoints,
        candidates_valid(candidates_per_node@, npoints as int),
        climbable(*ops, alpha),
        pairwise(distance, npoints as int),
    ensures
        out.len() == candidates_per_node.len(),
        forall|v: int|
            0 <= v < out.len() ==> (#[trigger] out[v])@ == pruned_neighbors(
                v,
                candidates_per_node[v]@,
                max_degree as int,
                alpha,
                saturate,
                pair_table(distance),
                *ops,
            ),
        forall|v: int|
            0 <= v < out.len() ==> #[trigger] neighbors_answered(
                v,
                candidates_per_node[v]@,
                max_degree as int,
                alpha,
                pair_table(distance),
                pair_answers(distance),
                *ops,
            ),
{
    final_robust_prune(
        npoints,
        candidates_per_node,
        max_degree,
        alpha,
        saturate,
        distance,
        ops,
    )
}

/// In a single pass at the threshold `alpha`, the candidate at sorted position `p` occludes the
/// one at `s` if `alpha` times their distance is below the distance of the latter to the node.
pub open spec fn single_pass_table<A: Arithmetic>(
    node_dists: Seq<Real>,
    nc: int,
    alpha: Real,
    pair: PairTable,
    ops: A,
) -> PairTable {
    let order = near_to_far(node_dists, nc);
    |s: int, p: int|
        if ops.product(alpha, pair(order[p], order[s])).lt(node_dists[order[s]]) {
            Real::spec_max()
        } else {
            Real::spec_zero()
        }
}

/// The candidates that a single pass selects, in selection order.
pub open spec fn single_pass_selection<A: Arithmetic>(
    nc: int,
    node_dists: Seq<Real>,
    max_degree: int,
    alpha: Real,
    saturate: bool,
    pair: PairTable,
    ops: A,
) -> Seq<int> {
    let order = near_to_far(node_dists, nc);
    pruned(
        single_pass_table(node_dists, nc, alpha, pair, ops),
        nc,
        max_degree,
        seq![Real::spec_zero()],
        saturate,
    ).map_values(|s: int| order[s])
}

/// The sorted positions whose comparison in a single pass is made of answers.
pub open spec fn single_pass_answered<A: Arithmetic>(
    node_dists: Seq<Real>,
    nc: int,
    alpha: Real,
    pair: PairTable,
    answered: PairTest,
    ops: A,
) -> PairTest {
    let order = near_to_far(node_dists, nc);
    |s: int, p: int|
        {
            let d = pair(order[p], order[s]);
            answered(order[p], order[s]) && ops.gives_product(alpha, d, ops.product(alpha, d))
        }
}

proof fn known_occluded_stays(
    rel: PairTable,
    answered: PairTest,
    taken: Seq<int>,
    more: Seq<int>,
    s: int,
    alpha: Real,
)
    requires
        known_occluded(rel, answered, taken, s, alpha),
        taken.is_prefix_of(more),
    ensures
        known_occluded(rel, answered, more, s, alpha),
{
    let k = choose|k: int|
        0 <= k < taken.len() && #[trigger] taken[k] < s && alpha.lt(rel(s, taken[k])) && answered(
            s,
            taken[k],
        );
    assert(more[k] == taken[k]);
}

/// Prunes a candidate list in a single pass at one threshold: from near to far, a candidate is
/// selected unless a selected one occludes it.
pub fn single_pass_prune<F: Fn(usize, usize) -> Real, A: Arithmetic>(
    nc: usize,
    node_dists: &[Real],
    max_degree: usize,
    alpha: Real,
    saturate: bool,
    pair_dist: F,
    ops: &A,
) -> (out: Vec<u32>)
    requires
        nc <= node_dists.len(),
        nc <= u32::MAX,
        ops.ready(),
        pairwise(pair_dist, nc as int),
    ensures
        out@.map_values(|i: u32| i as int) == single_pass_selection(
            nc as int,
            node_dists@,
            max_degree as int,
            alpha,
            saturate,
            pair_table(pair_dist),
            *ops,
        ),
        rests_on(
            single_pass_table(node_dists@, nc as int, alpha, pair_table(pair_dist), *ops),
            single_pass_answered(
                node_dists@,
                nc as int,
                alpha,
                pair_table(pair_dist),
                pair_answers(pair_dist),
                *ops,
            ),
            nc as int,
            max_degree as int,
            seq![Real::spec_zero()],
        ),
{
    let mut keys: Vec<u64> = Vec::with_capacity(nc);
    let mut i: usize = 0;
    while i < nc
        invariant
            i <= nc <= node_dists.len(),
            keys.len() == i,
            forall|j: int| 0 <= j < i ==> #[trigger] keys[j] == node_dists[j].rank() as u64,
        decreases nc - i,
    {
        keys.push(node_dists[i].order_rank() as u64);
        i += 1;
    }
    assert(keys@ =~= rank_keys(node_dists@.take(nc as int)));
    let order = sort_positions(&keys);
    let ghost rel = single_pass_table(
        node_dists@,
        nc as int,
        alpha,
        pair_table(pair_dist),
        *ops,
    );
    let ghost answered = single_pass_answered(
        node_dists@,
        nc as int,
        alpha,
        pair_table(pair_dist),
        pair_answers(pair_dist),
        *ops,
    );
    let ghost n = nc as int;
    let ghost d = max_degree as int;
    let ghost zero = Real::spec_zero();
    let mut selected: Vec<usize> = Vec::new();
    let mut is_selected: Vec<bool> = vec![false; nc];
    let mut s: usize = 0;
    proof {
        assert(positions(selected@) =~= Seq::<int>::empty());
        assert(climb(rel, n, d, seq![zero], 0) =~= Seq::<int>::empty());
        assert(climb(rel, n, d, seq![zero], 1) == walk(rel, Seq::empty(), 0, n, d, zero));
    }
    while s < nc && selected.len() < max_degree
        invariant
            s <= nc <= node_dists.len(),
            n == nc,
            d == max_degree,
            zero == Real::spec_zero(),
            ops.ready(),
            pairwise(pair_dist, n),
            order.len() == nc,
            positions(order@) == near_to_far(node_dists@, n),
            forall|x: int| 0 <= x < nc ==> #[trigger] order[x] < nc,
            rel == single_pass_table(node_dists@, n, alpha, pair_table(pair_dist), *ops),
            is_selected.len() == nc,
            forall|x: int|
                0 <= x < n ==> is_selected@[x] == #[trigger] positions(selected@).contains(x),
            taken_valid(positions(selected@), n, d),
            forall|k: int| 0 <= k < selected.len() ==> #[trigger] selected@[k] < s,
            answered == single_pass_answered(
                node_dists@,
                n,
                alpha,
                pair_table(pair_dist),
                pair_answers(pair_dist),
                *ops,
            ),
            kept_compared(answered, positions(selected@)),
            forall|x: int|
                0 <= x < s && !#[trigger] positions(selected@).contains(x) ==> known_occluded(
                    rel,
                    answered,
                    positions(selected@),
                    x,
                    zero,
                ),
            climb(rel, n, d, seq![zero], 1) == walk(
                rel,
                positions(selected@),
                s as int,
                n,
                d,
                zero,
            ),
        decreases nc - s,
    {
        let ghost taken = positions(selected@);
        let z: usize = order[s];
        let mut hidden = false;
        let mut k: usize = 0;
        while k < selected.len() && !hidden
            invariant
                k <= selected.len(),
                s < nc <= node_dists.len(),
                n == nc,
                zero == Real::spec_zero(),
                ops.ready(),
                pairwise(pair_dist, n),
                order.len() == nc,
                z == order[s as int],
                positions(order@) == near_to_far(node_dists@, n),
                forall|x: int| 0 <= x < nc ==> #[trigger] order[x] < nc,
                rel == single_pass_table(node_dists@, n, alpha, pair_table(pair_dist), *ops),
                taken == positions(selected@),
                forall|k: int| 0 <= k < selected.len() ==> #[trigger] selected@[k] < s,
                answered == single_pass_answered(
                    node_dists@,
                    n,
                    alpha,
                    pair_table(pair_dist),
                    pair_answers(pair_dist),
                    *ops,
                ),
                forall|j: int| 0 <= j < k ==> answered(s as int, #[trigger] taken[j]),
                hidden ==> known_occluded(rel, answered, taken, s as int, zero),
                !hidden ==> forall|j: int| 0 <= j < k ==> !zero.lt(rel(s as int, #[trigger] taken[j])),
            decreases selected.len() - k,
        {
            let pos: usize = selected[k];
            let y: usize = order[pos];
            proof {
                assert(taken[k as int] == pos);
                assert(positions(order@)[s as int] == z);
                assert(positions(order@)[pos as int] == y);
            }
            let d_yz = pair_dist(y, z);
            let scaled = ops.times(alpha, d_yz);
            assert(answered(s as int, pos as int));
            if scaled.is_less(node_dists[z]) {
                hidden = true;
                proof {
                    assert(rel(s as int, pos as int) == Real::spec_max());
                    assert(taken[k as int] < s && zero.lt(rel(s as int, taken[k as int])));
                }
            } else {
                assert(rel(s as int, pos as int) == Real::spec_zero());
            }
            k += 1;
        }
        proof {
            if hidden {
                let j = choose|j: int|
                    0 <= j < taken.len() && #[trigger] taken[j] < s && zero.lt(
                        rel(s as int, taken[j]),
                    ) && answered(s as int, taken[j]);
                assert(taken[j] < s && zero.lt(rel(s as int, taken[j])));
                assert(occluded(rel, taken, s as int, zero));
            }
            assert(!taken.contains(s as int)) by {
                if taken.contains(s as int) {
                    let j = choose|j: int| 0 <= j < taken.len() && taken[j] == s;
                    assert(selected@[j] < s);
                }
            }
        }
        if !hidden {
            is_selected.set(s, true);
            selected.push(s);
            proof {
                let more = positions(selected@);
                assert(!occluded(rel, taken, s as int, zero)) by {
                    assert forall|j: int| 0 <= j < taken.len() implies !zero.lt(
                        rel(s as int, #[trigger] taken[j]),
                    ) by {}
                }
                assert(more =~= taken.push(s as int));
                push_valid(taken, s as int, n, d);
                assert(kept_compared(answered, more));
                assert forall|x: int| 0 <= x < s + 1 && !#[trigger] more.contains(
                    x,
                ) implies known_occluded(rel, answered, more, x, zero) by {
                    push_contains(taken, s as int, x);
                    assert(!taken.contains(x));
                    known_occluded_stays(rel, answered, taken, more, x, zero);
                }
                assert forall|x: int| 0 <= x < n implies is_selected@[x]
                    == #[trigger] more.contains(x) by {
                    push_contains(taken, s as int, x);
                    assert(taken.contains(x) || !taken.contains(x));
                }
            }
        }
        s += 1;
    }
    if saturate {
        let mut s: usize = 0;
        let ghost goal = fill(positions(selected@), 0, n, d);
        while s < nc && selected.len() < max_degree
            invariant
                s <= nc,
                n == nc,
                d == max_degree,
                is_selected.len() == nc,
                forall|x: int|
                    s <= x < n ==> is_selected@[x] == #[trigger] positions(selected@).contains(x),
                taken_valid(positions(selected@), n, d),
                goal == fill(positions(selected@), s as int, n, d),
            decreases nc - s,
        {
            let ghost taken = positions(selected@);
            assert(is_selected@[s as int] == taken.contains(s as int));
            if !is_selected[s] {
                selected.push(s);
                proof {
                    let more = positions(selected@);
                    assert(more =~= taken.push(s as int));
                    push_valid(taken, s as int, n, d);
                    assert forall|x: int| s + 1 <= x < n implies is_selected@[x]
                        == #[trigger] more.contains(x) by {
                        push_contains(taken, s as int, x);
                        assert(taken.contains(x) || !taken.contains(x));
                    }
                }
            }
            s += 1;
        }
    }
    let ghost taken = positions(selected@);
    let mut out: Vec<u32> = Vec::with_capacity(selected.len());
    let mut k: usize = 0;
    while k < selected.len()
        invariant
            k <= selected.len(),
            n == nc,
            nc <= u32::MAX,
            order.len() == nc,
            forall|x: int| 0 <= x < nc ==> #[trigger] order[x] < nc,
            taken == positions(selected@),
            taken_valid(taken, n, d),
            out.len() == k,
            forall|j: int| 0 <= j < k ==> #[trigger] out[j] == order[taken[j]],
        decreases selected.len() - k,
    {
        assert(taken[k as int] == selected[k as int]);
        out.push(order[selected[k]] as u32);
        k += 1;
    }
    proof {
        let chosen = single_pass_selection(
            n,
            node_dists@,
            d,
            alpha,
            saturate,
            pair_table(pair_dist),
            *ops,
        );
        assert forall|j: int| 0 <= j < out.len() implies out[j] as int == #[trigger] chosen[j] by {
            assert(positions(order@)[taken[j]] == order[taken[j]]);
            assert(out[j] == order[taken[j]]);
        }
        assert(out@.map_values(|i: u32| i as int) =~= chosen);
    }
    out
}

pub(crate) proof fn push_valid(taken: Seq<int>, s: int, n: int, degree: int)
    requires
        taken_valid(taken, n, degree),
        taken.len() < degree,
        0 <= s < n,
        !taken.contains(s),
    ensures
        taken_valid(taken.push(s), n, degree),
{
    let more = taken.push(s);
    assert forall|i: int, j: int| 0 <= i < more.len() && 0 <= j < more.len() && i
        != j implies more[i] != more[j] by {
        if i == taken.len() {
            assert(taken[j] != s);
        } else if j == taken.len() {
            assert(taken[i] != s);
        }
    }
}

proof fn push_contains(taken: Seq<int>, s: int, x: int)
    ensures
        taken.push(s).contains(x) == (taken.contains(x) || x == s),
{
    let more = taken.push(s);
    if taken.contains(x) {
        let k = choose|k: int| 0 <= k < taken.len() && taken[k] == x;
        assert(more[k] == x);
    }
    if x == s {
        assert(more[taken.len() as int] == x);
    }
    if more.contains(x) {
        let k = choose|k: int| 0 <= k < more.len() && more[k] == x;
        if k < taken.len() {
            assert(taken[k] == x);
        }
    }
}

} // verus!
