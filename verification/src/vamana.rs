//! The robust-prune state machine of incremental graph construction.
//!
//! Candidates arrive sorted by their distance to the node. They are swept once per threshold of an
//! ascending ladder. A sweep examines each candidate that is available and not yet occluded
//! beyond the threshold against the candidates taken so far, resuming where its last examination
//! stopped, and takes it if its occlusion factor stays within the threshold.

use crate::arith::Arithmetic;
use crate::ladder::{alpha_ladder, climbable, ladder};
use crate::measure::PairTable;
use crate::number::Real;
use crate::prune::{climb, factor, factor_decides, occluded_by_prefix, walk};
use std::collections::TryReserveError;
use vstd::prelude::*;

verus! {

/// Most candidates that the state machine can number.
pub const MAX_CANDIDATES: usize = 65535;

/// A candidate neighbour and its distance to the node.
#[derive(Clone, Copy, Debug, PartialEq, Eq, Structural)]
pub struct Neighbor {
    pub id: u32,
    pub distance: Real,
}

impl Neighbor {
    /// A neighbour.
    pub fn new(id: u32, distance: Real) -> (r: Neighbor)
        ensures
            r == (Neighbor { id, distance }),
    {
        Neighbor { id, distance }
    }
}

/// Settings that do not depend on where vectors come from.
#[derive(Clone, Copy, Debug, PartialEq, Eq, Structural)]
pub struct Policy {
    pub degree: usize,
    pub alpha: Real,
    pub saturate: bool,
}

impl Policy {
    /// Keep at most `degree` neighbours, climb to the threshold `alpha`, fill up if `saturate`.
    pub fn new(degree: usize, alpha: Real, saturate: bool) -> (r: Policy)
        ensures
            r == (Policy { degree, alpha, saturate }),
    {
        Policy { degree, alpha, saturate }
    }
}

/// Bookkeeping of one candidate, and of one place in the result.
#[derive(Clone, Copy, Debug, PartialEq, Eq, Structural)]
pub struct State {
    /// Occlusion factor of the candidate at this position.
    pub occlude_factor: Real,
    /// How many taken candidates it has been examined against.
    pub last_checked: u16,
    /// The candidate taken as the neighbour at this position of the result.
    pub neighbor: u16,
}

/// Why pruning failed.
#[derive(Debug)]
pub enum RobustPruneError<E> {
    /// The threshold is not finite, or below one.
    InvalidAlpha(Real),
    /// There are more candidates than can be numbered.
    TooManyCandidates { actual: usize, max: usize },
    /// There was not enough memory.
    Allocation(TryReserveError),
    /// A distance could not be computed.
    Distance(E),
}

/// Space that is reused between calls: the candidates, bookkeeping, and the latest result.
#[derive(Debug)]
pub struct Scratch {
    pub pool: Vec<Neighbor>,
    pub available: Vec<bool>,
    pub states: Vec<State>,
    pub neighbors: Vec<u32>,
}

impl Default for Scratch {
    fn default() -> (r: Self)
        ensures
            r.pool@.len() == 0,
            r.available@.len() == 0,
            r.states@.len() == 0,
            r.neighbors@.len() == 0,
    {
        Scratch::new()
    }
}

impl Scratch {
    /// Empty space.
    pub fn new() -> (r: Self)
        ensures
            r.pool@.len() == 0,
            r.available@.len() == 0,
            r.states@.len() == 0,
            r.neighbors@.len() == 0,
    {
        Scratch {
            pool: Vec::new(),
            available: Vec::new(),
            states: Vec::new(),
            neighbors: Vec::new(),
        }
    }

    /// The candidates, to be filled before pruning.
    pub fn candidates_mut(&mut self) -> (r: &mut Vec<Neighbor>)
        ensures
            *r == old(self).pool,
            *final(self) == (Scratch { pool: *final(r), ..*old(self) }),
    {
        &mut self.pool
    }

    /// The latest result.
    pub fn neighbors(&self) -> (r: &Vec<u32>)
        ensures
            *r == self.neighbors,
    {
        &self.neighbors
    }
}

/// Whether a threshold is acceptable.
pub open spec fn alpha_valid(alpha: Real) -> bool {
    alpha.finite() && Real::spec_one().le(alpha)
}

/// What the state machine is told from outside, by candidate position.
#[verifier::reject_recursive_types(E)]
pub struct Rules<E> {
    /// The candidates.
    pub candidates: Seq<Neighbor>,
    /// Which candidates may be taken.
    pub available: spec_fn(u32) -> bool,
    /// Distance between two points.
    pub distance: spec_fn(u32, u32) -> Result<Real, E>,
    /// New occlusion factor, from the distance to the node, the distance to a taken candidate,
    /// the factor so far and the threshold.
    pub update: spec_fn(Real, Real, Real, Real) -> Real,
}

/// State of the machine: the positions taken, and per candidate its occlusion factor and how many
/// taken ones it was examined against.
pub struct Progress {
    pub taken: Seq<int>,
    pub factors: Seq<Real>,
    pub checked: Seq<int>,
}

impl<E> Rules<E> {
    /// Whether the candidate at position `i` may be taken.
    pub open spec fn eligible(self, i: int) -> bool {
        (self.available)(self.candidates[i].id)
    }

    /// Examines candidate `i` against the taken ones from the `checked`-th on, until its factor
    /// exceeds the threshold or none is left.
    pub open spec fn examine(
        self,
        taken: Seq<int>,
        i: int,
        factor: Real,
        checked: int,
        alpha: Real,
    ) -> Result<(Real, int), E>
        decreases taken.len() - checked,
    {
        if checked >= taken.len() {
            Ok((factor, checked))
        } else if taken[checked] >= i {
            self.examine(taken, i, factor, checked + 1, alpha)
        } else {
            match (self.distance)(self.candidates[i].id, self.candidates[taken[checked]].id) {
                Err(e) => Err(e),
                Ok(d) => {
                    let f = (self.update)(self.candidates[i].distance, d, factor, alpha);
                    if alpha.lt(f) {
                        Ok((f, checked + 1))
                    } else {
                        self.examine(taken, i, f, checked + 1, alpha)
                    }
                },
            }
        }
    }

    /// The machine after candidate `i` had its turn.
    pub open spec fn visit(self, st: Progress, i: int, alpha: Real) -> Result<Progress, E> {
        if !self.eligible(i) || st.factors[i] == Real::spec_max() || alpha.lt(st.factors[i]) {
            Ok(st)
        } else {
            match self.examine(st.taken, i, st.factors[i], st.checked[i], alpha) {
                Err(e) => Err(e),
                Ok(fc) => if alpha.lt(fc.0) {
                    Ok(
                        Progress {
                            taken: st.taken,
                            factors: st.factors.update(i, fc.0),
                            checked: st.checked.update(i, fc.1),
                        },
                    )
                } else {
                    Ok(
                        Progress {
                            taken: st.taken.push(i),
                            factors: st.factors.update(i, Real::spec_max()),
                            checked: st.checked.update(i, fc.1),
                        },
                    )
                },
            }
        }
    }

    /// The machine after the candidates from `i` on had their turn, as far as the degree allows.
    pub open spec fn sweep(self, st: Progress, i: int, degree: int, alpha: Real) -> Result<
        Progress,
        E,
    >
        decreases self.candidates.len() - i,
    {
        if i >= self.candidates.len() || st.taken.len() >= degree {
            Ok(st)
        } else {
            match self.visit(st, i, alpha) {
                Err(e) => Err(e),
                Ok(next) => self.sweep(next, i + 1, degree, alpha),
            }
        }
    }

    /// The machine before the first sweep.
    pub open spec fn start(self) -> Progress {
        let n = self.candidates.len();
        Progress {
            taken: Seq::empty(),
            factors: Seq::new(
                n,
                |i: int|
                    if self.eligible(i) {
                        Real::spec_zero()
                    } else {
                        Real::spec_max()
                    },
            ),
            checked: Seq::new(n, |i: int| 0),
        }
    }

    /// The machine after the first `rounds` sweeps.
    pub open spec fn climb(self, degree: int, alphas: Seq<Real>, rounds: int) -> Result<Progress, E>
        decreases rounds,
    {
        if rounds <= 0 {
            Ok(self.start())
        } else {
            match self.climb(degree, alphas, rounds - 1) {
                Err(e) => Err(e),
                Ok(st) => self.sweep(st, 0, degree, alphas[rounds - 1]),
            }
        }
    }

    /// The result list once the available candidates from `i` on have been appended, each id
    /// once, up to the degree.
    pub open spec fn fill(self, ids: Seq<u32>, i: int, degree: int) -> Seq<u32>
        decreases self.candidates.len() - i,
    {
        if i >= self.candidates.len() || ids.len() >= degree {
            ids
        } else if self.eligible(i) && !ids.contains(self.candidates[i].id) {
            self.fill(ids.push(self.candidates[i].id), i + 1, degree)
        } else {
            self.fill(ids, i + 1, degree)
        }
    }

    /// Ids of the taken candidates.
    pub open spec fn ids(self, taken: Seq<int>) -> Seq<u32> {
        taken.map_values(|i: int| self.candidates[i].id)
    }

    /// What pruning puts out.
    pub open spec fn outcome(self, degree: int, alphas: Seq<Real>, saturate: bool) -> Result<
        Seq<u32>,
        E,
    > {
        match self.climb(degree, alphas, alphas.len() as int) {
            Err(e) => Err(e),
            Ok(st) => Ok(
                if saturate {
                    self.fill(self.ids(st.taken), 0, degree)
                } else {
                    self.ids(st.taken)
                },
            ),
        }
    }

    /// What every reachable state of the machine satisfies: the taken positions are distinct,
    /// eligible and never examined again, and no more than the degree allows.
    pub open spec fn reachable(self, st: Progress, degree: int) -> bool {
        let n = self.candidates.len();
        &&& st.factors.len() == n
        &&& st.checked.len() == n
        &&& st.taken.no_duplicates()
        &&& st.taken.len() <= degree
        &&& forall|k: int|
            0 <= k < st.taken.len() ==> {
                &&& 0 <= #[trigger] st.taken[k] < n
                &&& self.eligible(st.taken[k])
                &&& st.factors[st.taken[k]] == Real::spec_max()
            }
        &&& forall|i: int| 0 <= i < n ==> 0 <= #[trigger] st.checked[i] <= st.taken.len()
    }
}

proof fn examine_advances<E>(
    rules: Rules<E>,
    taken: Seq<int>,
    i: int,
    factor: Real,
    checked: int,
    alpha: Real,
)
    requires
        0 <= checked <= taken.len(),
    ensures
        match rules.examine(taken, i, factor, checked, alpha) {
            Ok(fc) => checked <= fc.1 <= taken.len(),
            Err(_) => true,
        },
    decreases taken.len() - checked,
{
    if checked >= taken.len() {
    } else if taken[checked] >= i {
        examine_advances(rules, taken, i, factor, checked + 1, alpha);
    } else {
        match (rules.distance)(rules.candidates[i].id, rules.candidates[taken[checked]].id) {
            Err(e) => {},
            Ok(d) => {
                let f = (rules.update)(rules.candidates[i].distance, d, factor, alpha);
                if !alpha.lt(f) {
                    examine_advances(rules, taken, i, f, checked + 1, alpha);
                }
            },
        }
    }
}

/// A turn keeps the machine reachable.
pub proof fn visit_reachable<E>(rules: Rules<E>, st: Progress, i: int, degree: int, alpha: Real)
    requires
        rules.reachable(st, degree),
        st.taken.len() < degree,
        0 <= i < rules.candidates.len(),
    ensures
        match rules.visit(st, i, alpha) {
            Ok(next) => rules.reachable(next, degree),
            Err(_) => true,
        },
{
    examine_advances(rules, st.taken, i, st.factors[i], st.checked[i], alpha);
    match rules.visit(st, i, alpha) {
        Err(_) => {},
        Ok(next) => {
            if next != st {
                assert(!st.taken.contains(i));
                assert forall|a: int, b: int|
                    0 <= a < next.taken.len() && 0 <= b < next.taken.len() && a
                        != b implies next.taken[a] != next.taken[b] by {
                    if a < st.taken.len() {
                        assert(st.taken[a] != i);
                    }
                    if b < st.taken.len() {
                        assert(st.taken[b] != i);
                    }
                }
                assert forall|k: int| 0 <= k < next.taken.len() implies {
                    &&& 0 <= #[trigger] next.taken[k] < rules.candidates.len()
                    &&& rules.eligible(next.taken[k])
                    &&& next.factors[next.taken[k]] == Real::spec_max()
                } by {
                    if k < st.taken.len() {
                        assert(next.taken[k] == st.taken[k]);
                        assert(st.taken[k] != i);
                    }
                }
                assert forall|j: int| 0 <= j < rules.candidates.len() implies 0
                    <= #[trigger] next.checked[j] <= next.taken.len() by {
                    assert(0 <= st.checked[j] <= st.taken.len());
                }
            }
        },
    }
}

/// A sweep keeps the machine reachable.
pub proof fn sweep_reachable<E>(rules: Rules<E>, st: Progress, i: int, degree: int, alpha: Real)
    requires
        0 <= i,
        rules.reachable(st, degree),
    ensures
        match rules.sweep(st, i, degree, alpha) {
            Ok(next) => rules.reachable(next, degree),
            Err(_) => true,
        },
    decreases rules.candidates.len() - i,
{
    if i < rules.candidates.len() && st.taken.len() < degree {
        visit_reachable(rules, st, i, degree, alpha);
        match rules.visit(st, i, alpha) {
            Err(_) => {},
            Ok(next) => {
                sweep_reachable(rules, next, i + 1, degree, alpha);
            },
        }
    }
}

/// The machine is reachable after any number of sweeps.
pub proof fn climb_reachable<E>(rules: Rules<E>, degree: int, alphas: Seq<Real>, rounds: int)
    requires
        0 <= degree,
    ensures
        match rules.climb(degree, alphas, rounds) {
            Ok(st) => rules.reachable(st, degree),
            Err(_) => true,
        },
    decreases rounds,
{
    if rounds > 0 {
        climb_reachable(rules, degree, alphas, rounds - 1);
        match rules.climb(degree, alphas, rounds - 1) {
            Err(_) => {},
            Ok(st) => {
                sweep_reachable(rules, st, 0, degree, alphas[rounds - 1]);
            },
        }
    }
}

/// Every id in a list belongs to an eligible candidate.
pub open spec fn all_eligible<E>(rules: Rules<E>, ids: Seq<u32>) -> bool {
    forall|k: int| 0 <= k < ids.len() ==> (rules.available)(#[trigger] ids[k])
}

proof fn fill_eligible<E>(rules: Rules<E>, ids: Seq<u32>, i: int, degree: int)
    requires
        0 <= i,
        ids.len() <= degree,
        all_eligible(rules, ids),
    ensures
        all_eligible(rules, rules.fill(ids, i, degree)),
        rules.fill(ids, i, degree).len() <= degree,
        ids.is_prefix_of(rules.fill(ids, i, degree)),
        rules.fill(ids, i, degree).len() < degree ==> forall|j: int|
            i <= j < rules.candidates.len() && #[trigger] rules.eligible(j) ==> rules.fill(
                ids,
                i,
                degree,
            ).contains(rules.candidates[j].id),
    decreases rules.candidates.len() - i,
{
    let all = rules.fill(ids, i, degree);
    if i >= rules.candidates.len() || ids.len() >= degree {
    } else {
        let id = rules.candidates[i].id;
        if rules.eligible(i) && !ids.contains(id) {
            let more = ids.push(id);
            assert(all_eligible(rules, more));
            fill_eligible(rules, more, i + 1, degree);
            assert(more =~= all.take(more.len() as int));
            assert(all[ids.len() as int] == id) by {
                assert(all.take(more.len() as int)[ids.len() as int] == more[ids.len() as int]);
            }
            assert(ids =~= all.take(ids.len() as int)) by {
                assert forall|k: int| 0 <= k < ids.len() implies ids[k] == all[k] by {
                    assert(all.take(more.len() as int)[k] == more[k]);
                }
            }
        } else {
            fill_eligible(rules, ids, i + 1, degree);
            if rules.eligible(i) {
                let k = choose|k: int| 0 <= k < ids.len() && ids[k] == id;
                assert(all.take(ids.len() as int)[k] == ids[k]);
                assert(all[k] == id);
            }
        }
    }
}

/// Pruning puts out only available candidates, at most as many as the degree allows; and if it is
/// asked to saturate and still stays below the degree, every available candidate is among them.
pub proof fn outcome_eligible<E>(rules: Rules<E>, degree: int, alphas: Seq<Real>, saturate: bool)
    requires
        0 <= degree,
    ensures
        match rules.outcome(degree, alphas, saturate) {
            Err(_) => true,
            Ok(ids) => {
                &&& ids.len() <= degree
                &&& all_eligible(rules, ids)
                &&& saturate && ids.len() < degree ==> forall|j: int|
                    0 <= j < rules.candidates.len() && #[trigger] rules.eligible(j) ==> ids.contains(
                        rules.candidates[j].id,
                    )
            },
        },
{
    climb_reachable(rules, degree, alphas, alphas.len() as int);
    match rules.climb(degree, alphas, alphas.len() as int) {
        Err(_) => {},
        Ok(st) => {
            let ids = rules.ids(st.taken);
            assert(all_eligible(rules, ids)) by {
                assert forall|k: int| 0 <= k < ids.len() implies (rules.available)(
                    #[trigger] ids[k],
                ) by {
                    assert(rules.eligible(st.taken[k]));
                }
            }
            fill_eligible(rules, ids, 0, degree);
        },
    }
}

/// The rules keep the greatest ratio: every candidate is available, no distance fails, and the
/// factor of position `i` grows to `rel(i, p)` where that is greater.
pub open spec fn keeps_greatest_ratio<E>(rules: Rules<E>, rel: PairTable) -> bool {
    let n = rules.candidates.len() as int;
    &&& forall|i: int| 0 <= i < n ==> #[trigger] rules.eligible(i)
    &&& forall|i: int, p: int, f: Real, alpha: Real|
        #![trigger rel(i, p), (rules.update)(rules.candidates[i].distance, rules.gap(i, p), f, alpha)]
        0 <= p < i < n ==> (rules.update)(rules.candidates[i].distance, rules.gap(i, p), f, alpha)
            == if f.lt(rel(i, p)) {
            rel(i, p)
        } else {
            f
        }
    &&& forall|i: int, p: int| 0 <= p < i < n ==> #[trigger] rules.measured(i, p) is Ok
}

impl<E> Rules<E> {
    /// What is measured between the candidates at two positions.
    pub open spec fn measured(self, i: int, p: int) -> Result<Real, E> {
        (self.distance)(self.candidates[i].id, self.candidates[p].id)
    }

    /// The distance between the candidates at two positions, where it can be measured.
    pub open spec fn gap(self, i: int, p: int) -> Real {
        self.measured(i, p)->Ok_0
    }
}

/// What the factors of a machine stand for: the greatest ratios over the taken positions that
/// were examined.
pub open spec fn factors_are_ratios(rel: PairTable, st: Progress) -> bool {
    forall|i: int|
        0 <= i < st.factors.len() && !st.taken.contains(i) ==> #[trigger] st.factors[i] == factor(
            rel,
            st.taken.take(st.checked[i]),
            i,
        )
}

proof fn examine_is_factor<E>(
    rules: Rules<E>,
    rel: PairTable,
    taken: Seq<int>,
    i: int,
    checked: int,
    alpha: Real,
)
    requires
        keeps_greatest_ratio(rules, rel),
        0 <= i < rules.candidates.len(),
        0 <= checked <= taken.len(),
        forall|k: int| 0 <= k < taken.len() ==> 0 <= #[trigger] taken[k] < rules.candidates.len(),
        !alpha.lt(factor(rel, taken.take(checked), i)),
    ensures
        ({
            let r = rules.examine(
                taken,
                i,
                factor(rel, taken.take(checked), i),
                checked,
                alpha,
            );
            &&& r is Ok
            &&& checked <= r->Ok_0.1 <= taken.len()
            &&& r->Ok_0.0 == factor(rel, taken.take(r->Ok_0.1), i)
            &&& alpha.lt(r->Ok_0.0) || r->Ok_0.1 == taken.len()
        }),
    decreases taken.len() - checked,
{
    if checked < taken.len() {
        let f = factor(rel, taken.take(checked), i);
        let next = taken.take(checked + 1);
        let p = taken[checked];
        assert(next.drop_last() =~= taken.take(checked));
        assert(next.last() == p);
        if p >= i {
            assert(factor(rel, next, i) == f);
            examine_is_factor(rules, rel, taken, i, checked + 1, alpha);
        } else {
            assert(rules.measured(i, p) is Ok);
            let grown = (rules.update)(rules.candidates[i].distance, rules.gap(i, p), f, alpha);
            assert(grown == if f.lt(rel(i, p)) {
                rel(i, p)
            } else {
                f
            });
            assert(factor(rel, next, i) == grown);
            if !alpha.lt(grown) {
                examine_is_factor(rules, rel, taken, i, checked + 1, alpha);
            }
        }
    }
}

proof fn sweep_is_walk<E>(
    rules: Rules<E>,
    rel: PairTable,
    st: Progress,
    i: int,
    degree: int,
    alpha: Real,
)
    requires
        keeps_greatest_ratio(rules, rel),
        rules.reachable(st, degree),
        factors_are_ratios(rel, st),
        0 <= i,
        Real::spec_zero().le(alpha),
        alpha.lt(Real::spec_max()),
    ensures
        ({
            let r = rules.sweep(st, i, degree, alpha);
            &&& r is Ok
            &&& rules.reachable(r->Ok_0, degree)
            &&& factors_are_ratios(rel, r->Ok_0)
            &&& r->Ok_0.taken == walk(
                rel,
                st.taken,
                i,
                rules.candidates.len() as int,
                degree,
                alpha,
            )
        }),
    decreases rules.candidates.len() - i,
{
    let n = rules.candidates.len() as int;
    if i < n && st.taken.len() < degree {
        visit_reachable(rules, st, i, degree, alpha);
        assert(rules.eligible(i));
        let taken = st.taken;
        if taken.contains(i) {
            let k = choose|k: int| 0 <= k < taken.len() && taken[k] == i;
            assert(st.factors[taken[k]] == Real::spec_max());
            sweep_is_walk(rules, rel, st, i + 1, degree, alpha);
        } else {
            let c = st.checked[i];
            assert(0 <= c <= taken.len());
            assert(st.factors[i] == factor(rel, taken.take(c), i));
            factor_decides(rel, taken.take(c), i, alpha);
            if alpha.lt(st.factors[i]) {
                occluded_by_prefix(rel, taken, c, i, alpha);
                sweep_is_walk(rules, rel, st, i + 1, degree, alpha);
            } else {
                examine_is_factor(rules, rel, taken, i, c, alpha);
                let fc = rules.examine(taken, i, st.factors[i], c, alpha)->Ok_0;
                factor_decides(rel, taken.take(fc.1), i, alpha);
                let next = rules.visit(st, i, alpha)->Ok_0;
                if alpha.lt(fc.0) {
                    occluded_by_prefix(rel, taken, fc.1, i, alpha);
                    assert(factors_are_ratios(rel, next)) by {
                        assert forall|j: int|
                            0 <= j < next.factors.len() && !next.taken.contains(
                                j,
                            ) implies #[trigger] next.factors[j] == factor(
                            rel,
                            next.taken.take(next.checked[j]),
                            j,
                        ) by {
                            if j != i {
                                assert(st.factors[j] == factor(rel, taken.take(st.checked[j]), j));
                            }
                        }
                    }
                    sweep_is_walk(rules, rel, next, i + 1, degree, alpha);
                } else {
                    assert(taken.take(fc.1) =~= taken);
                    let more = taken.push(i);
                    assert(next.taken == more);
                    assert(factors_are_ratios(rel, next)) by {
                        assert forall|j: int|
                            0 <= j < next.factors.len() && !next.taken.contains(
                                j,
                            ) implies #[trigger] next.factors[j] == factor(
                            rel,
                            next.taken.take(next.checked[j]),
                            j,
                        ) by {
                            assert(more[taken.len() as int] == i);
                            assert(j != i);
                            assert(!taken.contains(j)) by {
                                if taken.contains(j) {
                                    let k = choose|k: int| 0 <= k < taken.len() && taken[k] == j;
                                    assert(more[k] == j);
                                }
                            }
                            assert(st.factors[j] == factor(rel, taken.take(st.checked[j]), j));
                            assert(0 <= st.checked[j] <= taken.len());
                            assert(more.take(st.checked[j]) =~= taken.take(st.checked[j]));
                        }
                    }
                    sweep_is_walk(rules, rel, next, i + 1, degree, alpha);
                }
            }
        }
    }
}

/// With all candidates available and the greatest ratio as factor, the machine takes what robust
/// pruning of a sorted candidate list takes.
pub proof fn machine_agrees_with_pruning<E>(
    rules: Rules<E>,
    rel: PairTable,
    degree: int,
    alphas: Seq<Real>,
    rounds: int,
)
    requires
        keeps_greatest_ratio(rules, rel),
        0 <= degree,
        0 <= rounds <= alphas.len(),
        forall|i: int|
            0 <= i < alphas.len() ==> Real::spec_zero().le(#[trigger] alphas[i]) && alphas[i].lt(
                Real::spec_max(),
            ),
    ensures
        rules.climb(degree, alphas, rounds) is Ok,
        rules.climb(degree, alphas, rounds)->Ok_0.taken == climb(
            rel,
            rules.candidates.len() as int,
            degree,
            alphas,
            rounds,
        ),
        factors_are_ratios(rel, rules.climb(degree, alphas, rounds)->Ok_0),
    decreases rounds,
{
    climb_reachable(rules, degree, alphas, rounds);
    if rounds > 0 {
        machine_agrees_with_pruning(rules, rel, degree, alphas, rounds - 1);
        let st = rules.climb(degree, alphas, rounds - 1)->Ok_0;
        climb_reachable(rules, degree, alphas, rounds - 1);
        assert(Real::spec_zero().le(alphas[rounds - 1]));
        sweep_is_walk(rules, rel, st, 0, degree, alphas[rounds - 1]);
    } else {
        let st = rules.start();
        assert forall|i: int|
            0 <= i < st.factors.len() && !st.taken.contains(i) implies #[trigger] st.factors[i]
            == factor(rel, st.taken.take(st.checked[i]), i) by {
            assert(rules.eligible(i));
            assert(st.taken.take(0).len() == 0);
        }
    }
}

/// The supplied functions may answer that a point can be taken.
pub open spec fn may_be_taken<A: Fn(u32) -> bool, X: Fn(u32) -> bool>(
    is_available: A,
    exclude: X,
    id: u32,
) -> bool {
    exclude.ensures((id,), false) && is_available.ensures((id,), true)
}

/// The supplied functions answer what they are asked, always in the same way. Whether a point is
/// available is asked only if it is not excluded, and a distance only from a candidate to an
/// earlier one, where both may be taken.
pub open spec fn answering<
    E,
    D: Fn(u32, u32) -> Result<Real, E>,
    A: Fn(u32) -> bool,
    X: Fn(u32) -> bool,
    U: Fn(Real, Real, Real, Real) -> Real,
>(candidates: Seq<Neighbor>, distance: D, is_available: A, exclude: X, update: U) -> bool {
    &&& forall|i: int, j: int|
        0 <= j < i < candidates.len() && may_be_taken(is_available, exclude, candidates[i].id)
            && may_be_taken(is_available, exclude, candidates[j].id)
            ==> #[trigger] distance.requires((candidates[i].id, candidates[j].id))
    &&& forall|a: u32, b: u32, x: Result<Real, E>, y: Result<Real, E>|
        #[trigger] distance.ensures((a, b), x) && #[trigger] distance.ensures((a, b), y) ==> x == y
    &&& forall|i: int|
        0 <= i < candidates.len() && exclude.ensures((candidates[i].id,), false)
            ==> #[trigger] is_available.requires((candidates[i].id,))
    &&& forall|a: u32, x: bool, y: bool|
        #[trigger] is_available.ensures((a,), x) && #[trigger] is_available.ensures((a,), y) ==> x
            == y
    &&& forall|i: int|
        0 <= i < candidates.len() ==> #[trigger] exclude.requires((candidates[i].id,))
    &&& forall|a: u32, x: bool, y: bool|
        #[trigger] exclude.ensures((a,), x) && #[trigger] exclude.ensures((a,), y) ==> x == y
    &&& forall|a: Real, b: Real, c: Real, d: Real| #[trigger] update.requires((a, b, c, d))
    &&& forall|a: Real, b: Real, c: Real, d: Real, x: Real, y: Real|
        #[trigger] update.ensures((a, b, c, d), x) && #[trigger] update.ensures((a, b, c, d), y)
            ==> x == y
}

/// The error is an answer for the distance from candidate `i` to candidate `j`.
pub open spec fn fails_between<E, D: Fn(u32, u32) -> Result<Real, E>>(
    candidates: Seq<Neighbor>,
    distance: D,
    i: int,
    j: int,
    e: E,
) -> bool {
    distance.ensures((candidates[i].id, candidates[j].id), Err(e))
}

/// The error is an answer for the distance from some candidate to an earlier one, where both may
/// be taken.
pub open spec fn distance_fails<
    E,
    D: Fn(u32, u32) -> Result<Real, E>,
    A: Fn(u32) -> bool,
    X: Fn(u32) -> bool,
>(candidates: Seq<Neighbor>, distance: D, is_available: A, exclude: X, e: E) -> bool {
    exists|i: int, j: int|
        0 <= j < i < candidates.len() && may_be_taken(is_available, exclude, candidates[i].id)
            && may_be_taken(is_available, exclude, candidates[j].id) && #[trigger] fails_between(
            candidates,
            distance,
            i,
            j,
            e,
        )
}

/// What a call tells of the answers behind it: an error in a distance was the answer for a
/// candidate and an earlier one, both of which may be taken, and whatever is in the result may be
/// taken.
pub open spec fn from_answers<
    E,
    D: Fn(u32, u32) -> Result<Real, E>,
    A: Fn(u32) -> bool,
    X: Fn(u32) -> bool,
>(
    candidates: Seq<Neighbor>,
    distance: D,
    is_available: A,
    exclude: X,
    r: Result<(), RobustPruneError<E>>,
    neighbors: Seq<u32>,
) -> bool {
    match r {
        Ok(_) => forall|k: int|
            0 <= k < neighbors.len() ==> may_be_taken(
                is_available,
                exclude,
                #[trigger] neighbors[k],
            ),
        Err(RobustPruneError::Distance(e)) => distance_fails(
            candidates,
            distance,
            is_available,
            exclude,
            e,
        ),
        Err(_) => true,
    }
}

/// The rules that the supplied functions make up.
pub open spec fn rules_of<
    E,
    D: Fn(u32, u32) -> Result<Real, E>,
    A: Fn(u32) -> bool,
    X: Fn(u32) -> bool,
    U: Fn(Real, Real, Real, Real) -> Real,
>(candidates: Seq<Neighbor>, distance: D, is_available: A, exclude: X, update: U) -> Rules<E> {
    Rules {
        candidates,
        available: |id: u32|
            !(choose|r: bool| #[trigger] exclude.ensures((id,), r)) && (choose|r: bool|
                #[trigger] is_available.ensures((id,), r)),
        distance: |a: u32, b: u32|
            choose|r: Result<Real, E>| #[trigger] distance.ensures((a, b), r),
        update: |a: Real, b: Real, c: Real, d: Real|
            choose|r: Real| #[trigger] update.ensures((a, b, c, d), r),
    }
}

/// What a call of the state machine returns and leaves as its result, given whether memory could
/// be reserved.
pub open spec fn prune_result<E, O: Arithmetic>(
    rules: Rules<E>,
    policy: Policy,
    ops: O,
    reserved: Result<(), TryReserveError>,
    before: Seq<u32>,
) -> (Result<(), RobustPruneError<E>>, Seq<u32>) {
    let n = rules.candidates.len();
    if !alpha_valid(policy.alpha) {
        (Err(RobustPruneError::InvalidAlpha(policy.alpha)), before)
    } else if n > MAX_CANDIDATES {
        (Err(RobustPruneError::TooManyCandidates { actual: n as usize, max: MAX_CANDIDATES }), before)
    } else if n == 0 {
        (Ok(()), Seq::empty())
    } else if let Err(e) = reserved {
        (Err(RobustPruneError::Allocation(e)), before)
    } else {
        match rules.outcome(policy.degree as int, ladder(ops, policy.alpha), policy.saturate) {
            Err(e) => (Err(RobustPruneError::Distance(e)), before),
            Ok(ids) => (Ok(()), ids),
        }
    }
}

/// The bookkeeping in memory stands for a state of the machine.
pub open spec fn stands_for(states: Seq<State>, found: int, st: Progress) -> bool {
    &&& st.taken.len() == found
    &&& found <= states.len()
    &&& st.factors.len() == states.len()
    &&& st.checked.len() == states.len()
    &&& forall|k: int| 0 <= k < found ==> (#[trigger] states[k]).neighbor == st.taken[k]
    &&& forall|i: int|
        0 <= i < states.len() ==> (#[trigger] states[i]).occlude_factor == st.factors[i]
            && states[i].last_checked == st.checked[i]
}

/// Pruning sets to work: the threshold is valid, there are candidates and not too many, and memory
/// was to be had.
pub open spec fn sets_to_work(
    candidates: Seq<Neighbor>,
    policy: Policy,
    reserved: Result<(), TryReserveError>,
) -> bool {
    alpha_valid(policy.alpha) && 0 < candidates.len() <= MAX_CANDIDATES && reserved is Ok
}

/// What the bookkeeping holds afterwards: which candidates may be taken, and, unless a distance
/// could not be measured, the end of the machine. Where pruning does not set to work, it is left.
pub open spec fn bookkeeping_left<E, O: Arithmetic>(
    rules: Rules<E>,
    policy: Policy,
    ops: O,
    reserved: Result<(), TryReserveError>,
    before: (Seq<bool>, Seq<State>),
    after: (Seq<bool>, Seq<State>),
) -> bool {
    if sets_to_work(rules.candidates, policy, reserved) {
        let alphas = ladder(ops, policy.alpha);
        &&& after.0 == Seq::new(rules.candidates.len(), |i: int| rules.eligible(i))
        &&& match rules.climb(policy.degree as int, alphas, alphas.len() as int) {
            Ok(st) => stands_for(after.1, st.taken.len() as int, st),
            Err(_) => after.1.len() == rules.candidates.len(),
        }
    } else {
        after == before
    }
}

/// Prunes `candidates` into `neighbors`. `reserved` tells whether memory for the result and the
/// bookkeeping was to be had.
pub fn robust_prune_parts<
    E,
    D: Fn(u32, u32) -> Result<Real, E>,
    A: Fn(u32) -> bool,
    X: Fn(u32) -> bool,
    U: Fn(Real, Real, Real, Real) -> Real,
    O: Arithmetic,
>(
    candidates: &Vec<Neighbor>,
    available: &mut Vec<bool>,
    states: &mut Vec<State>,
    neighbors: &mut Vec<u32>,
    policy: Policy,
    ops: &O,
    distance: &D,
    is_available: &A,
    exclude: &X,
    update: &U,
    reserved: Result<(), TryReserveError>,
) -> (r: Result<(), RobustPruneError<E>>)
    requires
        answering(candidates@, *distance, *is_available, *exclude, *update),
        alpha_valid(policy.alpha) ==> climbable(*ops, policy.alpha),
    ensures
        (r, final(neighbors)@) == prune_result(
            rules_of(candidates@, *distance, *is_available, *exclude, *update),
            policy,
            *ops,
            reserved,
            old(neighbors)@,
        ),
        bookkeeping_left(
            rules_of(candidates@, *distance, *is_available, *exclude, *update),
            policy,
            *ops,
            reserved,
            (old(available)@, old(states)@),
            (final(available)@, final(states)@),
        ),
        from_answers(candidates@, *distance, *is_available, *exclude, r, final(neighbors)@),
{
    let n: usize = candidates.len();
    if !policy.alpha.is_finite() || !Real::one().is_at_most(policy.alpha) {
        return Err(RobustPruneError::InvalidAlpha(policy.alpha));
    }
    if n > MAX_CANDIDATES {
        return Err(RobustPruneError::TooManyCandidates { actual: n, max: MAX_CANDIDATES });
    }
    if n == 0 {
        neighbors.clear();
        return Ok(());
    }
    if let Err(e) = reserved {
        return Err(RobustPruneError::Allocation(e));
    }
    let ghost rules = rules_of(candidates@, *distance, *is_available, *exclude, *update);
    let ghost degree = policy.degree as int;
    let alphas = alpha_ladder(ops, policy.alpha);
    available.clear();
    states.clear();
    let mut i: usize = 0;
    while i < n
        invariant
            i <= n == candidates.len(),
            answering(candidates@, *distance, *is_available, *exclude, *update),
            rules == rules_of(candidates@, *distance, *is_available, *exclude, *update),
            available.len() == i,
            states.len() == i,
            forall|j: int| 0 <= j < i ==> #[trigger] available@[j] == rules.eligible(j),
            forall|j: int|
                0 <= j < i && #[trigger] available@[j] ==> may_be_taken(
                    *is_available,
                    *exclude,
                    candidates@[j].id,
                ),
            forall|j: int|
                0 <= j < i ==> #[trigger] states@[j] == (State {
                    occlude_factor: if rules.eligible(j) {
                        Real::spec_zero()
                    } else {
                        Real::spec_max()
                    },
                    last_checked: 0,
                    neighbor: 0,
                }),
        decreases n - i,
    {
        let id: u32 = candidates[i].id;
        assert(exclude.requires((candidates@[i as int].id,)));
        let excluded: bool = exclude(id);
        let ok: bool = if excluded {
            false
        } else {
            assert(is_available.requires((candidates@[i as int].id,)));
            is_available(id)
        };
        assert(ok == rules.eligible(i as int));
        assert(ok ==> may_be_taken(*is_available, *exclude, id));
        available.push(ok);
        states.push(
            State {
                occlude_factor: if ok {
                    Real::zero()
                } else {
                    Real::max_finite()
                },
                last_checked: 0,
                neighbor: 0,
            },
        );
        i += 1;
    }
    let mut found: usize = 0;
    let mut round: usize = 0;
    let ghost mut st = rules.start();
    while round < alphas.len()
        invariant
            round <= alphas.len(),
            n == candidates.len(),
            0 < n <= MAX_CANDIDATES,
            degree == policy.degree,
            answering(candidates@, *distance, *is_available, *exclude, *update),
            rules == rules_of(candidates@, *distance, *is_available, *exclude, *update),
            available.len() == n,
            states.len() == n,
            forall|j: int| 0 <= j < n ==> #[trigger] available@[j] == rules.eligible(j),
            forall|j: int|
                0 <= j < n && #[trigger] available@[j] ==> may_be_taken(
                    *is_available,
                    *exclude,
                    candidates@[j].id,
                ),
            rules.climb(degree, alphas@, round as int) == Ok::<Progress, E>(st),
            rules.reachable(st, degree),
            stands_for(states@, found as int, st),
            *neighbors == *old(neighbors),
            alpha_valid(policy.alpha),
            alphas@ == ladder(*ops, policy.alpha),
            reserved is Ok,
        decreases alphas.len() - round,
    {
        let alpha = alphas[round];
        let ghost goal = rules.climb(degree, alphas@, round + 1);
        let mut i: usize = 0;
        proof {
            assert(alphas@[round as int] == alpha);
            assert(goal == rules.sweep(st, 0, degree, alpha));
        }
        while i < n && found < policy.degree
            invariant
                i <= n == candidates.len(),
                0 < n <= MAX_CANDIDATES,
                round < alphas.len(),
                degree == policy.degree,
                answering(candidates@, *distance, *is_available, *exclude, *update),
                rules == rules_of(candidates@, *distance, *is_available, *exclude, *update),
                available.len() == n,
                states.len() == n,
                forall|j: int| 0 <= j < n ==> #[trigger] available@[j] == rules.eligible(j),
                forall|j: int|
                    0 <= j < n && #[trigger] available@[j] ==> may_be_taken(
                        *is_available,
                        *exclude,
                        candidates@[j].id,
                    ),
                goal == rules.climb(degree, alphas@, round + 1),
                goal == rules.sweep(st, i as int, degree, alpha),
                rules.reachable(st, degree),
                stands_for(states@, found as int, st),
                *neighbors == *old(neighbors),
                alpha_valid(policy.alpha),
            alphas@ == ladder(*ops, policy.alpha),
                reserved is Ok,
            decreases n - i,
        {
            let state = states[i];
            proof {
                assert(available@[i as int] == rules.eligible(i as int));
                visit_reachable(rules, st, i as int, degree, alpha);
                taken_below(st.taken, n as int);
            }
            if !available[i] || state.occlude_factor == Real::max_finite() || alpha.is_less(
                state.occlude_factor,
            ) {
                i += 1;
                continue;
            }
            let mut factor = state.occlude_factor;
            let mut checked: u16 = state.last_checked;
            let ghost examined = rules.examine(
                st.taken,
                i as int,
                factor,
                checked as int,
                alpha,
            );
            let mut occluded: bool = false;
            while checked as usize != found && !occluded
                invariant
                    i < n == candidates.len(),
                    n <= MAX_CANDIDATES,
                    round < alphas.len(),
                    degree == policy.degree,
                    checked <= found <= n,
                    answering(candidates@, *distance, *is_available, *exclude, *update),
                    rules == rules_of(candidates@, *distance, *is_available, *exclude, *update),
                    available@[i as int],
                    available.len() == n,
                    forall|j: int| 0 <= j < n ==> #[trigger] available@[j] == rules.eligible(j),
                    forall|j: int|
                        0 <= j < n && #[trigger] available@[j] ==> may_be_taken(
                            *is_available,
                            *exclude,
                            candidates@[j].id,
                        ),
                    states.len() == n,
                    rules.reachable(st, degree),
                    stands_for(states@, found as int, st),
                    !occluded ==> examined == rules.examine(
                        st.taken,
                        i as int,
                        factor,
                        checked as int,
                        alpha,
                    ),
                    occluded ==> alpha.lt(factor) && examined == Ok::<(Real, int), E>(
                        (factor, checked as int),
                    ),
                    goal == rules.climb(degree, alphas@, round + 1),
                    goal == rules.sweep(st, i as int, degree, alpha),
                    i < rules.candidates.len(),
                    st.taken.len() < degree,
                    rules.visit(st, i as int, alpha) is Err <==> examined is Err,
                    examined is Err ==> rules.visit(st, i as int, alpha) == Err::<Progress, E>(
                        examined->Err_0,
                    ),
                    *neighbors == *old(neighbors),
                    alpha_valid(policy.alpha),
            alphas@ == ladder(*ops, policy.alpha),
                    reserved is Ok,
                decreases found - checked,
            {
                let position: usize = states[checked as usize].neighbor as usize;
                assert(position == st.taken[checked as int]);
                checked = checked + 1;
                if position < i {
                    assert(available@[i as int] && available@[position as int]) by {
                        assert(rules.eligible(st.taken[checked - 1]));
                    }
                    assert(distance.requires(
                        (candidates@[i as int].id, candidates@[position as int].id),
                    ));
                    match distance(candidates[i].id, candidates[position].id) {
                        Err(e) => {
                            proof {
                                let pair = (i as int, position as int);
                                assert(0 <= pair.1 < pair.0 < candidates@.len());
                                assert(may_be_taken(*is_available, *exclude, candidates@[pair.0].id));
                                assert(may_be_taken(*is_available, *exclude, candidates@[pair.1].id));
                                assert(fails_between(candidates@, *distance, pair.0, pair.1, e));
                                assert(distance_fails(
                                    candidates@,
                                    *distance,
                                    *is_available,
                                    *exclude,
                                    e,
                                ));
                                assert(examined == Err::<(Real, int), E>(e));
                                climb_error_stays(rules, degree, alphas@, round + 1, alphas.len() as int);
                            }
                            assert(available@ =~= Seq::new(n as nat, |j: int| rules.eligible(j)));
                            return Err(RobustPruneError::Distance(e));
                        },
                        Ok(d) => {
                            factor = update(candidates[i].distance, d, factor, alpha);
                            occluded = alpha.is_less(factor);
                        },
                    }
                }
            }
            let ghost before = st;
            if alpha.is_less(factor) {
                proof {
                    st = Progress {
                        taken: st.taken,
                        factors: st.factors.update(i as int, factor),
                        checked: st.checked.update(i as int, checked as int),
                    };
                    assert(rules.visit(before, i as int, alpha) == Ok::<Progress, E>(st));
                }
                let old_state = states[i];
                states.set(
                    i,
                    State {
                        occlude_factor: factor,
                        last_checked: checked,
                        neighbor: old_state.neighbor,
                    },
                );
            } else {
                proof {
                    st = Progress {
                        taken: st.taken.push(i as int),
                        factors: st.factors.update(i as int, Real::spec_max()),
                        checked: st.checked.update(i as int, checked as int),
                    };
                    assert(rules.visit(before, i as int, alpha) == Ok::<Progress, E>(st));
                }
                let old_state = states[i];
                states.set(
                    i,
                    State {
                        occlude_factor: Real::max_finite(),
                        last_checked: checked,
                        neighbor: old_state.neighbor,
                    },
                );
                proof {
                    taken_below(st.taken, n as int);
                }
                let place = states[found];
                states.set(
                    found,
                    State {
                        occlude_factor: place.occlude_factor,
                        last_checked: place.last_checked,
                        neighbor: i as u16,
                    },
                );
                found += 1;
            }
            i += 1;
        }
        round += 1;
    }
    assert(available@ =~= Seq::new(n as nat, |j: int| rules.eligible(j)));
    neighbors.clear();
    let mut k: usize = 0;
    while k < found
        invariant
            k <= found <= n,
            n == candidates.len(),
            states.len() == n,
            rules.candidates == candidates@,
            rules.reachable(st, degree),
            stands_for(states@, found as int, st),
            neighbors.len() == k,
            forall|j: int| 0 <= j < k ==> #[trigger] neighbors@[j] == candidates@[st.taken[j]].id,
            available.len() == n,
            forall|j: int| 0 <= j < n ==> #[trigger] available@[j] == rules.eligible(j),
            forall|j: int|
                0 <= j < n && #[trigger] available@[j] ==> may_be_taken(
                    *is_available,
                    *exclude,
                    candidates@[j].id,
                ),
            forall|j: int|
                0 <= j < k ==> may_be_taken(*is_available, *exclude, #[trigger] neighbors@[j]),
        decreases found - k,
    {
        let at: usize = states[k].neighbor as usize;
        assert(at == st.taken[k as int]);
        assert(available@[at as int]) by {
            assert(rules.eligible(st.taken[k as int]));
        }
        neighbors.push(candidates[at].id);
        k += 1;
    }
    assert(neighbors@ =~= rules.ids(st.taken));
    if policy.saturate {
        let ghost goal = rules.fill(neighbors@, 0, degree);
        let mut i: usize = 0;
        while i < n && neighbors.len() < policy.degree
            invariant
                i <= n == candidates.len(),
                degree == policy.degree,
                available.len() == n,
                rules.candidates == candidates@,
                forall|j: int| 0 <= j < n ==> #[trigger] available@[j] == rules.eligible(j),
                forall|j: int|
                    0 <= j < n && #[trigger] available@[j] ==> may_be_taken(
                        *is_available,
                        *exclude,
                        candidates@[j].id,
                    ),
                goal == rules.fill(neighbors@, i as int, degree),
                forall|j: int|
                    0 <= j < neighbors.len() ==> may_be_taken(
                        *is_available,
                        *exclude,
                        #[trigger] neighbors@[j],
                    ),
            decreases n - i,
        {
            let id: u32 = candidates[i].id;
            assert(available@[i as int] == rules.eligible(i as int));
            if available[i] && !contains_id(neighbors, id) {
                neighbors.push(id);
            }
            i += 1;
        }
    }
    Ok(())
}

/// Whether `id` is in the list.
fn contains_id(ids: &Vec<u32>, id: u32) -> (r: bool)
    ensures
        r == ids@.contains(id),
{
    let mut i: usize = 0;
    while i < ids.len()
        invariant
            i <= ids.len(),
            forall|j: int| 0 <= j < i ==> #[trigger] ids@[j] != id,
        decreases ids.len() - i,
    {
        if ids[i] == id {
            return true;
        }
        i += 1;
    }
    false
}

proof fn taken_below(taken: Seq<int>, n: int)
    requires
        taken.no_duplicates(),
        forall|k: int| 0 <= k < taken.len() ==> 0 <= #[trigger] taken[k] < n,
        0 <= n,
    ensures
        taken.len() <= n,
{
    let range = vstd::set_lib::set_int_range(0, n);
    vstd::set_lib::lemma_int_range(0, n);
    taken.unique_seq_to_set();
    assert forall|x: int| taken.to_set().contains(x) implies range.contains(x) by {
        let k = choose|k: int| 0 <= k < taken.len() && taken[k] == x;
        assert(taken[k] == x);
    }
    vstd::set_lib::lemma_len_subset(taken.to_set(), range);
}

/// Once a distance has failed, further thresholds change nothing.
proof fn climb_error_stays<E>(
    rules: Rules<E>,
    degree: int,
    alphas: Seq<Real>,
    rounds: int,
    more: int,
)
    requires
        rounds <= more,
        rules.climb(degree, alphas, rounds) is Err,
    ensures
        rules.climb(degree, alphas, more) == rules.climb(degree, alphas, rounds),
    decreases more - rounds,
{
    if rounds < more {
        climb_error_stays(rules, degree, alphas, rounds, more - 1);
    }
}

/// How much more room is needed for `n` candidates and up to `degree` neighbours, in the list of
/// availabilities, the bookkeeping and the result, which hold as many entries as given.
pub fn reservations(
    n: usize,
    degree: usize,
    available: usize,
    states: usize,
    neighbors: usize,
) -> (r: (usize, usize, usize))
    ensures
        r.0 == if available < n {
            n - available
        } else {
            0
        },
        r.1 == if states < n {
            n - states
        } else {
            0
        },
        ({
            let most = if degree <= n {
                degree
            } else {
                n
            };
            r.2 == if neighbors < most {
                most - neighbors
            } else {
                0
            }
        }),
{
    let most: usize = if degree <= n {
        degree
    } else {
        n
    };
    (n.saturating_sub(available), n.saturating_sub(states), most.saturating_sub(neighbors))
}

/// Prunes the candidates in `scratch` and leaves the result there. Memory for the bookkeeping and
/// the result is reserved first, as far as it is missing; if that fails, nothing changes.
pub fn robust_prune<
    E,
    D: Fn(u32, u32) -> Result<Real, E>,
    A: Fn(u32) -> bool,
    X: Fn(u32) -> bool,
    U: Fn(Real, Real, Real, Real) -> Real,
    O: Arithmetic,
>(
    scratch: &mut Scratch,
    policy: Policy,
    ops: &O,
    distance: D,
    is_available: A,
    exclude: X,
    update: U,
) -> (r: Result<(), RobustPruneError<E>>)
    requires
        answering(old(scratch).pool@, distance, is_available, exclude, update),
        alpha_valid(policy.alpha) ==> climbable(*ops, policy.alpha),
    ensures
        final(scratch).pool == old(scratch).pool,
        ({
            let rules = rules_of(old(scratch).pool@, distance, is_available, exclude, update);
            (r, final(scratch).neighbors@) == prune_result(
                rules,
                policy,
                *ops,
                (match r {
                    Err(RobustPruneError::Allocation(e)) => Err(e),
                    _ => Ok(()),
                }),
                old(scratch).neighbors@,
            ) && bookkeeping_left(
                rules,
                policy,
                *ops,
                (match r {
                    Err(RobustPruneError::Allocation(e)) => Err(e),
                    _ => Ok(()),
                }),
                (old(scratch).available@, old(scratch).states@),
                (final(scratch).available@, final(scratch).states@),
            )
        }),
        from_answers(
            old(scratch).pool@,
            distance,
            is_available,
            exclude,
            r,
            final(scratch).neighbors@,
        ),
        old(scratch).pool@.len() <= old(scratch).available@.len() && old(scratch).pool@.len()
            <= old(scratch).states@.len() && (policy.degree <= old(scratch).neighbors@.len() || old(
            scratch,
        ).pool@.len() <= old(scratch).neighbors@.len()) ==> !(r is Err && r->Err_0 is Allocation),
{
    let n: usize = scratch.pool.len();
    let mut reserved: Result<(), TryReserveError> = Ok(());
    if policy.alpha.is_finite() && Real::one().is_at_most(policy.alpha) && 0 < n && n
        <= MAX_CANDIDATES {
        let more: (usize, usize, usize) = reservations(
            n,
            policy.degree,
            scratch.available.len(),
            scratch.states.len(),
            scratch.neighbors.len(),
        );
        if more.0 > 0 {
            reserved = scratch.available.try_reserve(more.0);
        }
        if reserved.is_ok() && more.1 > 0 {
            reserved = scratch.states.try_reserve(more.1);
        }
        if reserved.is_ok() && more.2 > 0 {
            reserved = scratch.neighbors.try_reserve(more.2);
        }
    }
    robust_prune_parts(
        &scratch.pool,
        &mut scratch.available,
        &mut scratch.states,
        &mut scratch.neighbors,
        policy,
        ops,
        &distance,
        &is_available,
        &exclude,
        &update,
        reserved,
    )
}

/// The vector of a point could not be had.
#[derive(Clone, Copy, Debug, PartialEq, Eq, Structural)]
pub struct FailedVectorRetrieval {
    pub id: u32,
}

/// Why pruning the list of a point failed: the vector of the point itself was missing, which may
/// pass, or something critical happened.
#[derive(Debug)]
pub enum ListError<A> {
    FailedVectorRetrieval(FailedVectorRetrieval),
    Other(A),
}

/// An error together with whether it may pass.
#[derive(Debug)]
pub enum RankedError<A> {
    Transient(FailedVectorRetrieval),
    Error(A),
}

impl<A> ListError<A> {
    /// The vector of `id` was missing.
    pub fn failed_retrieval(id: u32) -> (r: Self)
        ensures
            r == ListError::<A>::FailedVectorRetrieval(FailedVectorRetrieval { id }),
    {
        ListError::FailedVectorRetrieval(FailedVectorRetrieval { id })
    }

    /// Ranks the error.
    pub fn to_ranked(self) -> (r: RankedError<A>)
        ensures
            match self {
                ListError::FailedVectorRetrieval(e) => r == RankedError::<A>::Transient(e),
                ListError::Other(e) => r == RankedError::Error(e),
            },
    {
        match self {
            ListError::FailedVectorRetrieval(e) => RankedError::Transient(e),
            ListError::Other(e) => RankedError::Error(e),
        }
    }

    /// An error that may pass.
    pub fn from_transient(transient: FailedVectorRetrieval) -> (r: Self)
        ensures
            r == ListError::<A>::FailedVectorRetrieval(transient),
    {
        ListError::FailedVectorRetrieval(transient)
    }

    /// A critical error.
    pub fn from_error(error: A) -> (r: Self)
        ensures
            r == ListError::Other(error),
    {
        ListError::Other(error)
    }
}

} // verus!
