//! What saturation adds to a pruned list, which candidate leads it, and which do not matter.

use crate::number::Real;
use crate::vamana::{climb_reachable, Neighbor, Progress, Rules};
use vstd::prelude::*;

verus! {

/// The ids of the eligible candidates from `i` on that `ids` does not hold, each once, in the order
/// of the candidates.
pub open spec fn left_over<E>(rules: Rules<E>, ids: Seq<u32>, i: int) -> Seq<u32>
    decreases rules.candidates.len() - i,
{
    if i >= rules.candidates.len() {
        Seq::empty()
    } else if rules.eligible(i) && !ids.contains(rules.candidates[i].id) {
        let id = rules.candidates[i].id;
        seq![id] + left_over(rules, ids.push(id), i + 1)
    } else {
        left_over(rules, ids, i + 1)
    }
}

/// The ids of all eligible candidates, each once, in the order of the candidates.
pub open spec fn eligible_ids<E>(rules: Rules<E>) -> Seq<u32> {
    left_over(rules, Seq::empty(), 0)
}

/// At most `limit` ids from the front of a list.
pub open spec fn cut(ids: Seq<u32>, limit: int) -> Seq<u32> {
    if ids.len() <= limit {
        ids
    } else {
        ids.take(limit)
    }
}

/// No two candidates share an id.
pub open spec fn ids_differ<E>(rules: Rules<E>) -> bool {
    forall|i: int, j: int|
        0 <= i < j < rules.candidates.len() ==> (#[trigger] rules.candidates[i]).id != (
        #[trigger] rules.candidates[j]).id
}

proof fn fill_is_cut<E>(rules: Rules<E>, ids: Seq<u32>, i: int, degree: int)
    requires
        ids.len() <= degree,
    ensures
        rules.fill(ids, i, degree) == cut(ids + left_over(rules, ids, i), degree),
    decreases rules.candidates.len() - i,
{
    let rest = left_over(rules, ids, i);
    if i >= rules.candidates.len() {
        assert(ids + rest =~= ids);
    } else if ids.len() >= degree {
        assert(cut(ids + rest, degree) =~= ids);
    } else if rules.eligible(i) && !ids.contains(rules.candidates[i].id) {
        let id = rules.candidates[i].id;
        fill_is_cut(rules, ids.push(id), i + 1, degree);
        assert(ids.push(id) + left_over(rules, ids.push(id), i + 1) =~= ids + rest);
    } else {
        fill_is_cut(rules, ids, i + 1, degree);
    }
}

/// Some eligible candidate from `i` on has the id.
pub open spec fn offered<E>(rules: Rules<E>, i: int, id: u32) -> bool {
    exists|j: int|
        i <= j < rules.candidates.len() && #[trigger] rules.eligible(j) && rules.candidates[j].id
            == id
}

proof fn left_over_members<E>(rules: Rules<E>, ids: Seq<u32>, i: int)
    requires
        0 <= i,
    ensures
        left_over(rules, ids, i).no_duplicates(),
        forall|id: u32| #[trigger]
            left_over(rules, ids, i).contains(id) <==> offered(rules, i, id) && !ids.contains(id),
    decreases rules.candidates.len() - i,
{
    let rest = left_over(rules, ids, i);
    if i >= rules.candidates.len() {
    } else if rules.eligible(i) && !ids.contains(rules.candidates[i].id) {
        let first = rules.candidates[i].id;
        let more = ids.push(first);
        let tail = left_over(rules, more, i + 1);
        left_over_members(rules, more, i + 1);
        assert(more[ids.len() as int] == first);
        assert(more.contains(first));
        assert(!tail.contains(first));
        assert(rest.no_duplicates()) by {
            assert forall|a: int, b: int| 0 <= a < b < rest.len() implies rest[a] != rest[b] by {
                assert(rest[b] == tail[b - 1]);
                if a > 0 {
                    assert(rest[a] == tail[a - 1]);
                }
            }
        }
        assert forall|id: u32| #[trigger] rest.contains(id) <==> offered(rules, i, id)
            && !ids.contains(id) by {
            if rest.contains(id) {
                let k = choose|k: int| 0 <= k < rest.len() && rest[k] == id;
                if k > 0 {
                    assert(tail[k - 1] == id);
                    assert(tail.contains(id));
                    assert(!more.contains(id));
                    if ids.contains(id) {
                        let p = choose|p: int| 0 <= p < ids.len() && ids[p] == id;
                        assert(more[p] == id);
                    }
                }
            }
            if offered(rules, i, id) && !ids.contains(id) {
                if id == first {
                    assert(rest[0] == id);
                } else {
                    assert(offered(rules, i + 1, id));
                    assert(!more.contains(id)) by {
                        if more.contains(id) {
                            let p = choose|p: int| 0 <= p < more.len() && more[p] == id;
                            assert(ids[p] == id);
                        }
                    }
                    assert(tail.contains(id));
                    let k = choose|k: int| 0 <= k < tail.len() && tail[k] == id;
                    assert(rest[k + 1] == id);
                }
            }
        }
    } else {
        left_over_members(rules, ids, i + 1);
        assert forall|id: u32| #[trigger] rest.contains(id) <==> offered(rules, i, id)
            && !ids.contains(id) by {
            if offered(rules, i, id) && !ids.contains(id) {
                assert(offered(rules, i + 1, id));
            }
        }
    }
}

/// A saturated list is the unsaturated one followed by the eligible candidates it does not hold, in
/// the order of the candidates, cut at the degree; and saturating changes nothing about failures.
pub proof fn saturation_appends_the_rest<E>(rules: Rules<E>, degree: int, alphas: Seq<Real>)
    requires
        0 <= degree,
    ensures
        match (rules.outcome(degree, alphas, false), rules.outcome(degree, alphas, true)) {
            (Ok(bare), Ok(full)) => full == cut(bare + left_over(rules, bare, 0), degree),
            (Err(e), Err(f)) => e == f,
            _ => false,
        },
{
    climb_reachable(rules, degree, alphas, alphas.len() as int);
    match rules.climb(degree, alphas, alphas.len() as int) {
        Err(_) => {},
        Ok(st) => {
            fill_is_cut(rules, rules.ids(st.taken), 0, degree);
        },
    }
}

/// Where no two candidates share an id, both lists hold ids of eligible candidates, none twice and
/// no more than the degree, and the saturated one has as many as the degree and the number of
/// eligible candidates allow.
pub proof fn saturation_takes_all_it_can<E>(rules: Rules<E>, degree: int, alphas: Seq<Real>)
    requires
        0 <= degree,
        ids_differ(rules),
    ensures
        match (rules.outcome(degree, alphas, false), rules.outcome(degree, alphas, true)) {
            (Ok(bare), Ok(full)) => {
                &&& bare.no_duplicates()
                &&& full.no_duplicates()
                &&& bare.len() <= degree
                &&& forall|k: int|
                    0 <= k < bare.len() ==> eligible_ids(rules).contains(#[trigger] bare[k])
                &&& forall|k: int|
                    0 <= k < full.len() ==> eligible_ids(rules).contains(#[trigger] full[k])
                &&& full.len() == if eligible_ids(rules).len() <= degree {
                    eligible_ids(rules).len() as int
                } else {
                    degree
                }
            },
            (Err(e), Err(f)) => e == f,
            _ => false,
        },
{
    saturation_appends_the_rest(rules, degree, alphas);
    climb_reachable(rules, degree, alphas, alphas.len() as int);
    match rules.climb(degree, alphas, alphas.len() as int) {
        Err(_) => {},
        Ok(st) => {
            let bare = rules.ids(st.taken);
            let rest = left_over(rules, bare, 0);
            let all = bare + rest;
            let listed = eligible_ids(rules);
            left_over_members(rules, bare, 0);
            left_over_members(rules, Seq::empty(), 0);
            assert(bare.no_duplicates()) by {
                assert forall|a: int, b: int| 0 <= a < b < bare.len() implies bare[a] != bare[b] by {
                    let x = st.taken[a];
                    let y = st.taken[b];
                    assert(x != y);
                    assert(rules.candidates[x].id != rules.candidates[y].id);
                }
            }
            assert(all.no_duplicates()) by {
                assert forall|a: int, b: int| 0 <= a < b < all.len() implies all[a] != all[b] by {
                    if b >= bare.len() {
                        assert(all[b] == rest[b - bare.len()]);
                        assert(rest.contains(all[b]));
                        if a < bare.len() {
                            assert(bare[a] == all[a]);
                            assert(bare.contains(all[a]));
                        } else {
                            assert(all[a] == rest[a - bare.len()]);
                        }
                    }
                }
            }
            assert forall|id: u32| #[trigger] all.contains(id) <==> listed.contains(id) by {
                assert(!Seq::<u32>::empty().contains(id));
                if all.contains(id) {
                    let k = choose|k: int| 0 <= k < all.len() && all[k] == id;
                    if k < bare.len() {
                        assert(rules.eligible(st.taken[k]));
                        assert(offered(rules, 0, id));
                    } else {
                        assert(rest[k - bare.len()] == id);
                        assert(rest.contains(id));
                    }
                }
                if listed.contains(id) {
                    if bare.contains(id) {
                        let k = choose|k: int| 0 <= k < bare.len() && bare[k] == id;
                        assert(all[k] == id);
                    } else {
                        assert(rest.contains(id));
                        let k = choose|k: int| 0 <= k < rest.len() && rest[k] == id;
                        assert(all[bare.len() + k] == id);
                    }
                }
            }
            assert(all.to_set() =~= listed.to_set());
            all.unique_seq_to_set();
            listed.unique_seq_to_set();
            assert(all.len() == listed.len());
            assert forall|k: int| 0 <= k < bare.len() implies listed.contains(
                #[trigger] bare[k],
            ) by {
                assert(all[k] == bare[k]);
                assert(all.contains(bare[k]));
            }
            let full = cut(all, degree);
            assert forall|k: int| 0 <= k < full.len() implies listed.contains(
                #[trigger] full[k],
            ) by {
                assert(all[k] == full[k]);
                assert(all.contains(full[k]));
            }
        },
    }
}

proof fn sweep_keeps<E>(rules: Rules<E>, st: Progress, i: int, degree: int, alpha: Real)
    ensures
        match rules.sweep(st, i, degree, alpha) {
            Ok(next) => st.taken.is_prefix_of(next.taken),
            Err(_) => true,
        },
    decreases rules.candidates.len() - i,
{
    if i >= rules.candidates.len() || st.taken.len() >= degree {
    } else {
        match rules.visit(st, i, alpha) {
            Err(_) => {},
            Ok(next) => {
                sweep_keeps(rules, next, i + 1, degree, alpha);
            },
        }
    }
}

/// Where the candidate at the head of `taken`, if there is one, is the first eligible one from `i`
/// on.
spec fn led_by_first<E>(rules: Rules<E>, taken: Seq<int>, i: int) -> bool {
    let listed = left_over(rules, Seq::empty(), i);
    listed.len() > 0 ==> taken.len() > 0 && rules.candidates[taken[0]].id == listed[0]
}

proof fn first_sweep<E>(rules: Rules<E>, i: int, degree: int, alpha: Real)
    requires
        0 <= i,
        0 < degree,
        Real::spec_zero().le(alpha),
    ensures
        match rules.sweep(rules.start(), i, degree, alpha) {
            Ok(next) => led_by_first(rules, next.taken, i),
            Err(_) => true,
        },
    decreases rules.candidates.len() - i,
{
    let st = rules.start();
    if i < rules.candidates.len() {
        assert(!Seq::<u32>::empty().contains(rules.candidates[i].id));
        if rules.eligible(i) {
            assert(rules.examine(st.taken, i, st.factors[i], st.checked[i], alpha) == Ok::<
                (Real, int),
                E,
            >((Real::spec_zero(), 0int)));
            match rules.visit(st, i, alpha) {
                Err(_) => {},
                Ok(next) => {
                    assert(next.taken == seq![i]);
                    sweep_keeps(rules, next, i + 1, degree, alpha);
                },
            }
        } else {
            first_sweep(rules, i + 1, degree, alpha);
        }
    }
}

proof fn climb_led<E>(rules: Rules<E>, degree: int, alphas: Seq<Real>, rounds: int)
    requires
        0 < degree,
        0 < rounds <= alphas.len(),
        Real::spec_zero().le(alphas[0]),
    ensures
        match rules.climb(degree, alphas, rounds) {
            Ok(st) => led_by_first(rules, st.taken, 0),
            Err(_) => true,
        },
    decreases rounds,
{
    if rounds == 1 {
        assert(rules.climb(degree, alphas, 0) == Ok::<Progress, E>(rules.start()));
        first_sweep(rules, 0, degree, alphas[0]);
    } else {
        climb_led(rules, degree, alphas, rounds - 1);
        match rules.climb(degree, alphas, rounds - 1) {
            Err(_) => {},
            Ok(st) => {
                sweep_keeps(rules, st, 0, degree, alphas[rounds - 1]);
            },
        }
    }
}

/// If any candidate is eligible and the degree allows one, the first eligible candidate leads the
/// list, saturated or not. The first threshold must not be negative.
pub proof fn first_eligible_leads<E>(
    rules: Rules<E>,
    degree: int,
    alphas: Seq<Real>,
    saturate: bool,
)
    requires
        0 < degree,
        alphas.len() > 0,
        Real::spec_zero().le(alphas[0]),
        eligible_ids(rules).len() > 0,
    ensures
        match rules.outcome(degree, alphas, saturate) {
            Ok(ids) => ids.len() > 0 && ids[0] == eligible_ids(rules)[0],
            Err(_) => true,
        },
{
    climb_led(rules, degree, alphas, alphas.len() as int);
    climb_reachable(rules, degree, alphas, alphas.len() as int);
    match rules.climb(degree, alphas, alphas.len() as int) {
        Err(_) => {},
        Ok(st) => {
            let bare = rules.ids(st.taken);
            assert(bare[0] == eligible_ids(rules)[0]);
            fill_is_cut(rules, bare, 0, degree);
        },
    }
}

/// The rules without the candidates that cannot be taken.
pub open spec fn only_available<E>(rules: Rules<E>) -> Rules<E> {
    Rules {
        candidates: rules.candidates.filter(|c: Neighbor| (rules.available)(c.id)),
        available: rules.available,
        distance: rules.distance,
        update: rules.update,
    }
}

/// The positions below `i` that can be taken.
spec fn places<E>(rules: Rules<E>, i: int) -> Seq<int>
    decreases i,
{
    if i <= 0 {
        Seq::empty()
    } else if rules.eligible(i - 1) {
        places(rules, i - 1).push(i - 1)
    } else {
        places(rules, i - 1)
    }
}

proof fn places_ascend<E>(rules: Rules<E>, i: int)
    requires
        0 <= i <= rules.candidates.len(),
    ensures
        places(rules, i).len() <= i,
        forall|x: int|
            0 <= x < places(rules, i).len() ==> 0 <= #[trigger] places(rules, i)[x] < i
                && rules.eligible(places(rules, i)[x]),
        forall|x: int, y: int|
            0 <= x < y < places(rules, i).len() ==> #[trigger] places(rules, i)[x]
                < #[trigger] places(rules, i)[y],
        rules.candidates.take(i).filter(|c: Neighbor| (rules.available)(c.id)) == places(
            rules,
            i,
        ).map_values(|x: int| rules.candidates[x]),
    decreases i,
{
    reveal(Seq::filter);
    let pred = |c: Neighbor| (rules.available)(c.id);
    if i > 0 {
        places_ascend(rules, i - 1);
        assert(rules.candidates.take(i).drop_last() =~= rules.candidates.take(i - 1));
    }
    assert(rules.candidates.take(i).filter(pred) =~= places(rules, i).map_values(
        |x: int| rules.candidates[x],
    ));
}

proof fn places_go_on<E>(rules: Rules<E>, i: int, n: int)
    requires
        0 <= i <= n,
    ensures
        places(rules, i).len() <= places(rules, n).len(),
        forall|x: int|
            0 <= x < places(rules, i).len() ==> #[trigger] places(rules, n)[x] == places(
                rules,
                i,
            )[x],
    decreases n - i,
{
    if i < n {
        places_go_on(rules, i, n - 1);
    }
}

/// A state of the machine with all candidates and one without those that cannot be taken say the
/// same.
spec fn alike<E>(rules: Rules<E>, st: Progress, less: Progress) -> bool {
    let at = places(rules, rules.candidates.len() as int);
    &&& st.factors.len() == rules.candidates.len()
    &&& st.checked.len() == rules.candidates.len()
    &&& less.factors.len() == at.len()
    &&& less.checked.len() == at.len()
    &&& taken_alike(rules, st.taken, less.taken)
    &&& forall|x: int|
        #![trigger less.factors[x]]
        #![trigger less.checked[x]]
        0 <= x < at.len() ==> st.factors[at[x]] == less.factors[x] && st.checked[at[x]]
            == less.checked[x] && 0 <= less.checked[x]
}

spec fn taken_alike<E>(rules: Rules<E>, taken: Seq<int>, less: Seq<int>) -> bool {
    let at = places(rules, rules.candidates.len() as int);
    &&& taken.len() == less.len()
    &&& forall|k: int|
        0 <= k < less.len() ==> 0 <= #[trigger] less[k] < at.len() && taken[k] == at[less[k]]
}

proof fn same_candidates<E>(rules: Rules<E>)
    ensures
        ({
            let n = rules.candidates.len() as int;
            let at = places(rules, n);
            let fewer = only_available(rules);
            &&& fewer.candidates.len() == at.len()
            &&& forall|x: int|
                0 <= x < at.len() ==> #[trigger] fewer.candidates[x] == rules.candidates[at[x]]
            &&& forall|x: int| 0 <= x < at.len() ==> #[trigger] fewer.eligible(x)
            &&& forall|x: int|
                0 <= x < at.len() ==> 0 <= #[trigger] at[x] < n && rules.eligible(at[x])
            &&& forall|x: int, y: int|
                0 <= x < y < at.len() ==> #[trigger] at[x] < #[trigger] at[y]
        }),
{
    let n = rules.candidates.len() as int;
    places_ascend(rules, n);
    assert(rules.candidates.take(n) =~= rules.candidates);
    let at = places(rules, n);
    let fewer = only_available(rules);
    assert forall|x: int| 0 <= x < at.len() implies #[trigger] fewer.eligible(x) by {
        assert(fewer.candidates[x] == rules.candidates[at[x]]);
        assert(rules.eligible(at[x]));
    }
}

proof fn examined_alike<E>(
    rules: Rules<E>,
    taken: Seq<int>,
    less: Seq<int>,
    x: int,
    factor: Real,
    checked: int,
    alpha: Real,
)
    requires
        taken_alike(rules, taken, less),
        0 <= checked,
        0 <= x < places(rules, rules.candidates.len() as int).len(),
    ensures
        rules.examine(
            taken,
            places(rules, rules.candidates.len() as int)[x],
            factor,
            checked,
            alpha,
        ) == only_available(rules).examine(less, x, factor, checked, alpha),
        only_available(rules).examine(less, x, factor, checked, alpha) matches Ok(fc) ==> 0
            <= fc.1,
    decreases taken.len() - checked,
{
    let at = places(rules, rules.candidates.len() as int);
    let fewer = only_available(rules);
    same_candidates(rules);
    if checked < taken.len() {
        let k = less[checked];
        assert(taken[checked] == at[k]);
        if k < x {
            assert(at[k] < at[x]);
        } else if x < k {
            assert(at[x] < at[k]);
        }
        assert(fewer.candidates[x] == rules.candidates[at[x]]);
        assert(fewer.candidates[k] == rules.candidates[at[k]]);
        if k >= x {
            examined_alike(rules, taken, less, x, factor, checked + 1, alpha);
        } else {
            match (rules.distance)(rules.candidates[at[x]].id, rules.candidates[at[k]].id) {
                Err(_) => {},
                Ok(d) => {
                    let f = (rules.update)(rules.candidates[at[x]].distance, d, factor, alpha);
                    if !alpha.lt(f) {
                        examined_alike(rules, taken, less, x, f, checked + 1, alpha);
                    }
                },
            }
        }
    }
}

spec fn ends_alike<E>(
    rules: Rules<E>,
    r: Result<Progress, E>,
    less: Result<Progress, E>,
) -> bool {
    match (r, less) {
        (Ok(a), Ok(b)) => alike(rules, a, b),
        (Err(a), Err(b)) => a == b,
        _ => false,
    }
}

proof fn visited_alike<E>(rules: Rules<E>, st: Progress, less: Progress, x: int, alpha: Real)
    requires
        alike(rules, st, less),
        0 <= x < places(rules, rules.candidates.len() as int).len(),
    ensures
        ends_alike(
            rules,
            rules.visit(st, places(rules, rules.candidates.len() as int)[x], alpha),
            only_available(rules).visit(less, x, alpha),
        ),
{
    let at = places(rules, rules.candidates.len() as int);
    let fewer = only_available(rules);
    same_candidates(rules);
    assert(rules.eligible(at[x]) && fewer.eligible(x));
    assert(st.factors[at[x]] == less.factors[x]);
    assert(st.checked[at[x]] == less.checked[x]);
    examined_alike(rules, st.taken, less.taken, x, less.factors[x], less.checked[x], alpha);
    if !(less.factors[x] == Real::spec_max() || alpha.lt(less.factors[x])) {
        match fewer.examine(less.taken, x, less.factors[x], less.checked[x], alpha) {
            Err(_) => {},
            Ok(fc) => {
                let a = rules.visit(st, at[x], alpha)->Ok_0;
                let b = fewer.visit(less, x, alpha)->Ok_0;
                assert forall|y: int| 0 <= y < at.len() implies a.factors[at[y]]
                    == #[trigger] b.factors[y] && a.checked[at[y]] == b.checked[y] && 0
                    <= b.checked[y] by {
                    assert(st.factors[at[y]] == less.factors[y]);
                    if y < x {
                        assert(at[y] < at[x]);
                    } else if x < y {
                        assert(at[x] < at[y]);
                    }
                }
                assert forall|k: int| 0 <= k < b.taken.len() implies 0 <= #[trigger] b.taken[k]
                    < at.len() && a.taken[k] == at[b.taken[k]] by {
                    if k < less.taken.len() {
                        assert(b.taken[k] == less.taken[k]);
                    }
                }
                assert(taken_alike(rules, a.taken, b.taken));
                assert(alike(rules, a, b));
            },
        }
    }
}

proof fn swept_alike<E>(
    rules: Rules<E>,
    st: Progress,
    less: Progress,
    i: int,
    degree: int,
    alpha: Real,
)
    requires
        alike(rules, st, less),
        0 <= i <= rules.candidates.len(),
    ensures
        ends_alike(
            rules,
            rules.sweep(st, i, degree, alpha),
            only_available(rules).sweep(less, places(rules, i).len() as int, degree, alpha),
        ),
    decreases rules.candidates.len() - i,
{
    let n = rules.candidates.len() as int;
    let fewer = only_available(rules);
    let at = places(rules, n);
    same_candidates(rules);
    if i < n && st.taken.len() < degree {
        places_go_on(rules, i + 1, n);
        let x = places(rules, i).len() as int;
        if rules.eligible(i) {
            assert(places(rules, i + 1)[x] == i);
            assert(at[x] == i);
            visited_alike(rules, st, less, x, alpha);
            match (rules.visit(st, i, alpha), fewer.visit(less, x, alpha)) {
                (Ok(a), Ok(b)) => {
                    swept_alike(rules, a, b, i + 1, degree, alpha);
                },
                _ => {},
            }
        } else {
            swept_alike(rules, st, less, i + 1, degree, alpha);
            assert(rules.visit(st, i, alpha) == Ok::<Progress, E>(st));
        }
    }
}

proof fn climbed_alike<E>(rules: Rules<E>, degree: int, alphas: Seq<Real>, rounds: int)
    ensures
        ends_alike(
            rules,
            rules.climb(degree, alphas, rounds),
            only_available(rules).climb(degree, alphas, rounds),
        ),
    decreases rounds,
{
    let fewer = only_available(rules);
    same_candidates(rules);
    if rounds <= 0 {
        let at = places(rules, rules.candidates.len() as int);
        assert forall|x: int| 0 <= x < at.len() implies rules.start().factors[at[x]]
            == #[trigger] fewer.start().factors[x] by {
            assert(rules.eligible(at[x]) && fewer.eligible(x));
        }
        assert(alike(rules, rules.start(), fewer.start()));
    } else {
        climbed_alike(rules, degree, alphas, rounds - 1);
        match (rules.climb(degree, alphas, rounds - 1), fewer.climb(degree, alphas, rounds - 1)) {
            (Ok(a), Ok(b)) => {
                swept_alike(rules, a, b, 0, degree, alphas[rounds - 1]);
            },
            _ => {},
        }
    }
}

proof fn filled_alike<E>(rules: Rules<E>, ids: Seq<u32>, i: int, degree: int)
    requires
        0 <= i <= rules.candidates.len(),
    ensures
        rules.fill(ids, i, degree) == only_available(rules).fill(
            ids,
            places(rules, i).len() as int,
            degree,
        ),
    decreases rules.candidates.len() - i,
{
    let n = rules.candidates.len() as int;
    let fewer = only_available(rules);
    let at = places(rules, n);
    same_candidates(rules);
    if i < n && ids.len() < degree {
        places_go_on(rules, i + 1, n);
        let x = places(rules, i).len() as int;
        if rules.eligible(i) {
            assert(places(rules, i + 1)[x] == i);
            assert(at[x] == i);
            assert(fewer.candidates[x] == rules.candidates[at[x]]);
            assert(fewer.eligible(x));
            let id = rules.candidates[i].id;
            filled_alike(rules, ids.push(id), i + 1, degree);
            filled_alike(rules, ids, i + 1, degree);
        } else {
            filled_alike(rules, ids, i + 1, degree);
        }
    }
}

/// Candidates that cannot be taken do not matter: the list is that of the available candidates
/// alone, and fails where that fails.
pub proof fn unavailable_do_not_matter<E>(
    rules: Rules<E>,
    degree: int,
    alphas: Seq<Real>,
    saturate: bool,
)
    ensures
        rules.outcome(degree, alphas, saturate) == only_available(rules).outcome(
            degree,
            alphas,
            saturate,
        ),
{
    let fewer = only_available(rules);
    let rounds = alphas.len() as int;
    climbed_alike(rules, degree, alphas, rounds);
    same_candidates(rules);
    match (rules.climb(degree, alphas, rounds), fewer.climb(degree, alphas, rounds)) {
        (Ok(a), Ok(b)) => {
            let at = places(rules, rules.candidates.len() as int);
            assert forall|k: int| 0 <= k < a.taken.len() implies #[trigger] rules.ids(a.taken)[k]
                == fewer.ids(b.taken)[k] by {
                assert(a.taken[k] == at[b.taken[k]]);
                assert(fewer.candidates[b.taken[k]] == rules.candidates[at[b.taken[k]]]);
            }
            assert(rules.ids(a.taken) =~= fewer.ids(b.taken));
            filled_alike(rules, rules.ids(a.taken), 0, degree);
        },
        _ => {},
    }
}

} // verus!
