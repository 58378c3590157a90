//! Greedy search in a finished graph.

use crate::gemm::row_slice;
use crate::graph::PiPNNGraph;
use crate::measure::{answers, ask_vectors, row, vector_measure, vector_value};
use crate::number::Real;
use vstd::prelude::*;

verus! {

/// A point and its distance to the query.
pub type Hit = (usize, Real);

/// Distances of all points to a query.
pub type QueryDistances = spec_fn(int) -> Real;

/// The distances of the rows of a data set to a query.
pub open spec fn distances_to<D: Fn(&[Real], &[Real]) -> Real>(
    dist_fn: D,
    data: Seq<Real>,
    ndims: int,
    query: Seq<Real>,
) -> QueryDistances {
    |p: int| vector_value(dist_fn, row(data, ndims, p), query)
}

/// The distances of the points that were seen are answers.
pub open spec fn distances_answered<D: Fn(&[Real], &[Real]) -> Real>(
    dist_fn: D,
    data: Seq<Real>,
    ndims: int,
    query: Seq<Real>,
    seen: Set<int>,
) -> bool {
    forall|p: int| #[trigger]
        seen.contains(p) ==> answers(
            dist_fn,
            row(data, ndims, p),
            query,
            (distances_to(dist_fn, data, ndims, query))(p),
        )
}

/// An edge leads from point `q` to point `p`.
pub open spec fn leads_to(g: PiPNNGraph, q: int, p: int) -> bool {
    &&& 0 <= q < g.npoints
    &&& 0 <= p < g.npoints
    &&& exists|t: int|
        0 <= t < g.adjacency@[q]@.len() && #[trigger] g.adjacency@[q]@[t] as int == p
}

/// A path along edges from the start to point `p`.
pub open spec fn is_path(g: PiPNNGraph, path: Seq<int>, p: int) -> bool {
    &&& path.len() > 0
    &&& path[0] == g.medoid
    &&& path.last() == p
    &&& forall|i: int| 0 <= i < path.len() - 1 ==> leads_to(g, #[trigger] path[i], path[i + 1])
}

/// Point `p` is reached from the start.
pub open spec fn reachable(g: PiPNNGraph, p: int) -> bool {
    exists|path: Seq<int>| #[trigger] is_path(g, path, p)
}

/// All neighbours of point `p` that are points have been seen.
pub open spec fn explored(g: PiPNNGraph, seen: Set<int>, p: int) -> bool {
    forall|t: int|
        0 <= t < g.adjacency@[p]@.len() && (#[trigger] g.adjacency@[p]@[t]) < g.npoints
            ==> seen.contains(g.adjacency@[p]@[t] as int)
}

/// No two hits name the same point.
pub open spec fn distinct_hits(beam: Seq<Hit>) -> bool {
    forall|i: int, j: int|
        0 <= i < j < beam.len() ==> (#[trigger] beam[i]).0 != (#[trigger] beam[j]).0
}

/// The hits stand in ascending distance.
pub open spec fn sorted_hits(beam: Seq<Hit>) -> bool {
    forall|i: int, j: int|
        0 <= i < j < beam.len() ==> (#[trigger] beam[i]).1.rank() <= (#[trigger] beam[j]).1.rank()
}

/// Whether a point is among the hits.
pub open spec fn is_hit(beam: Seq<Hit>, p: int) -> bool {
    exists|i: int| 0 <= i < beam.len() && (#[trigger] beam[i]).0 == p
}

/// What holds of the points seen and the hits kept at any time: hits have been seen, and carry
/// their distances in ascending order; whatever was seen is reached from the start; and what was
/// seen but not kept is no closer than any of the `l` hits that were.
pub open spec fn beam_holds(
    g: PiPNNGraph,
    dist: QueryDistances,
    l: int,
    seen: Set<int>,
    beam: Seq<Hit>,
) -> bool {
    &&& seen.contains(g.medoid as int)
    &&& forall|p: int| #[trigger] seen.contains(p) ==> 0 <= p < g.npoints && reachable(g, p)
    &&& forall|i: int|
        0 <= i < beam.len() ==> seen.contains((#[trigger] beam[i]).0 as int) && beam[i].1 == dist(
            beam[i].0 as int,
        )
    &&& distinct_hits(beam)
    &&& sorted_hits(beam)
    &&& 1 <= beam.len() <= l
    &&& (forall|p: int| 0 <= p < g.npoints ==> !(#[trigger] dist(p)).nan()) ==> forall|p: int| #[trigger]
        seen.contains(p) && !is_hit(beam, p) ==> beam.len() == l && forall|i: int|
            0 <= i < beam.len() ==> (#[trigger] beam[i]).1.rank() <= dist(p).rank()
}

/// The outcome of a search: moreover the neighbours of all hits have been seen.
pub open spec fn search_done(
    g: PiPNNGraph,
    dist: QueryDistances,
    l: int,
    seen: Set<int>,
    beam: Seq<Hit>,
) -> bool {
    &&& beam_holds(g, dist, l, seen, beam)
    &&& forall|i: int| 0 <= i < beam.len() ==> explored(g, seen, (#[trigger] beam[i]).0 as int)
}

/// Where the list is long enough not to be full in the end, every point that is reached from the
/// start is a hit: the search is then exhaustive.
pub proof fn short_beam_is_exhaustive(
    g: PiPNNGraph,
    dist: QueryDistances,
    l: int,
    seen: Set<int>,
    beam: Seq<Hit>,
    p: int,
)
    requires
        g.wf(),
        search_done(g, dist, l, seen, beam),
        forall|p: int| 0 <= p < g.npoints ==> !(#[trigger] dist(p)).nan(),
        beam.len() < l,
        reachable(g, p),
    ensures
        is_hit(beam, p),
{
    let path = choose|path: Seq<int>| #[trigger] is_path(g, path, p);
    path_is_hit(g, dist, l, seen, beam, p, path);
}

proof fn path_is_hit(
    g: PiPNNGraph,
    dist: QueryDistances,
    l: int,
    seen: Set<int>,
    beam: Seq<Hit>,
    p: int,
    path: Seq<int>,
)
    requires
        g.wf(),
        search_done(g, dist, l, seen, beam),
        forall|p: int| 0 <= p < g.npoints ==> !(#[trigger] dist(p)).nan(),
        beam.len() < l,
        is_path(g, path, p),
    ensures
        is_hit(beam, p),
    decreases path.len(),
{
    if path.len() == 1 {
        assert(seen.contains(p));
    } else {
        let front = path.drop_last();
        let q = path[path.len() - 2];
        assert(leads_to(g, path[path.len() - 2], path[path.len() - 2 + 1]));
        assert(is_path(g, front, q)) by {
            assert forall|i: int| 0 <= i < front.len() - 1 implies leads_to(
                g,
                #[trigger] front[i],
                front[i + 1],
            ) by {
                assert(leads_to(g, path[i], path[i + 1]));
            }
        }
        path_is_hit(g, dist, l, seen, beam, q, front);
        let i = choose|i: int| 0 <= i < beam.len() && (#[trigger] beam[i]).0 == q;
        assert(explored(g, seen, beam[i].0 as int));
        let t = choose|t: int|
            0 <= t < g.adjacency@[q]@.len() && #[trigger] g.adjacency@[q]@[t] as int == p;
        assert(g.adjacency@[q]@[t] < g.npoints);
        assert(seen.contains(p));
    }
}

/// How many hits are kept during a search.
pub open spec fn list_size(search_list_size: int, k: int) -> int {
    if search_list_size >= k {
        search_list_size
    } else {
        k
    }
}

/// Where a search stands: the points seen, the hits kept, and the first hit whose edges have not
/// been followed since it came in.
pub struct SearchState {
    pub seen: Set<int>,
    pub beam: Seq<Hit>,
    pub pointer: int,
}

/// The place of distance `d` among the hits from `i` on: before the first that is no closer.
pub open spec fn place_for(beam: Seq<Hit>, d: Real, i: int) -> int
    decreases beam.len() - i,
{
    if i < beam.len() && beam[i].1.rank() < d.rank() {
        place_for(beam, d, i + 1)
    } else {
        i
    }
}

/// The hits once a new one has taken place `pos`, at most `l` of them.
pub open spec fn with_hit(beam: Seq<Hit>, hit: Hit, pos: int, l: int) -> Seq<Hit> {
    if beam.len() < l {
        beam.insert(pos, hit)
    } else {
        beam.insert(pos, hit).take(l)
    }
}

/// A point comes up. Unless it was seen before, it is kept if there is room or it is closer than
/// the last hit; the search then goes back to it if it was beyond its place.
pub open spec fn meet(
    g: PiPNNGraph,
    dist: QueryDistances,
    l: int,
    st: SearchState,
    p: int,
) -> SearchState {
    if p >= g.npoints || st.seen.contains(p) {
        st
    } else {
        let d = dist(p);
        let seen = st.seen.insert(p);
        if st.beam.len() < l || d.lt(st.beam.last().1) {
            let pos = place_for(st.beam, d, 0);
            SearchState {
                seen,
                beam: with_hit(st.beam, (p as usize, d), pos, l),
                pointer: if pos < st.pointer {
                    pos
                } else {
                    st.pointer
                },
            }
        } else {
            SearchState { seen, beam: st.beam, pointer: st.pointer }
        }
    }
}

/// The first `m` points of a list come up.
pub open spec fn meet_all(
    g: PiPNNGraph,
    dist: QueryDistances,
    l: int,
    st: SearchState,
    list: Seq<u32>,
    m: int,
) -> SearchState
    decreases m,
{
    if m <= 0 {
        st
    } else {
        meet(g, dist, l, meet_all(g, dist, l, st, list, m - 1), list[m - 1] as int)
    }
}

/// The edges of all hits have been followed.
pub open spec fn settled(st: SearchState) -> bool {
    st.pointer >= st.beam.len()
}

/// One step of a search: the edges of the hit at the pointer are followed.
pub open spec fn follow(
    g: PiPNNGraph,
    dist: QueryDistances,
    l: int,
    st: SearchState,
) -> SearchState {
    if settled(st) {
        st
    } else {
        let list = g.adjacency@[st.beam[st.pointer].0 as int]@;
        let from = SearchState { seen: st.seen, beam: st.beam, pointer: st.pointer + 1 };
        meet_all(g, dist, l, from, list, list.len() as int)
    }
}

/// A search after `m` steps. It begins with the start as its only hit.
pub open spec fn after_steps(
    g: PiPNNGraph,
    dist: QueryDistances,
    l: int,
    m: nat,
) -> SearchState
    decreases m,
{
    if m == 0 {
        SearchState {
            seen: Set::<int>::empty().insert(g.medoid as int),
            beam: seq![(g.medoid, dist(g.medoid as int))],
            pointer: 0,
        }
    } else {
        follow(g, dist, l, after_steps(g, dist, l, (m - 1) as nat))
    }
}

/// Where a search ends that keeps `l` hits.
pub open spec fn searched(g: PiPNNGraph, dist: QueryDistances, l: int) -> SearchState {
    after_steps(
        g,
        dist,
        l,
        choose|m: nat| settled(#[trigger] after_steps(g, dist, l, m)),
    )
}

/// However many steps are taken once the edges of all hits have been followed, a search ends in
/// the same state.
pub proof fn search_settles(g: PiPNNGraph, dist: QueryDistances, l: int, m: nat)
    requires
        settled(after_steps(g, dist, l, m)),
    ensures
        searched(g, dist, l) == after_steps(g, dist, l, m),
        settled(searched(g, dist, l)),
{
    let c = choose|m: nat| settled(#[trigger] after_steps(g, dist, l, m));
    if c <= m {
        stays_settled(g, dist, l, c, m);
    } else {
        stays_settled(g, dist, l, m, c);
    }
}

proof fn stays_settled(g: PiPNNGraph, dist: QueryDistances, l: int, a: nat, b: nat)
    requires
        settled(after_steps(g, dist, l, a)),
        a <= b,
    ensures
        after_steps(g, dist, l, b) == after_steps(g, dist, l, a),
    decreases b,
{
    if a < b {
        stays_settled(g, dist, l, a, (b - 1) as nat);
    }
}

proof fn place_found(beam: Seq<Hit>, d: Real, i: int, pos: int)
    requires
        0 <= i <= pos <= beam.len(),
        forall|x: int| i <= x < pos ==> (#[trigger] beam[x]).1.rank() < d.rank(),
        pos < beam.len() ==> d.rank() <= beam[pos].1.rank(),
    ensures
        place_for(beam, d, i) == pos,
    decreases pos - i,
{
    if i < pos {
        assert(beam[i].1.rank() < d.rank());
        place_found(beam, d, i + 1, pos);
    }
}

/// Puts a hit into a sorted list of at most `l`; returns where.
fn insert_hit(beam: &mut Vec<Hit>, hit: Hit, l: usize) -> (pos: usize)
    requires
        sorted_hits(old(beam)@),
        old(beam)@.len() <= l,
        old(beam)@.len() < usize::MAX,
    ensures
        pos <= old(beam)@.len(),
        pos == place_for(old(beam)@, hit.1, 0),
        forall|i: int| 0 <= i < pos ==> (#[trigger] old(beam)@[i]).1.rank() < hit.1.rank(),
        forall|i: int|
            pos <= i < old(beam)@.len() ==> hit.1.rank() <= (#[trigger] old(beam)@[i]).1.rank(),
        final(beam)@ == with_hit(old(beam)@, hit, pos as int, l as int),
{
    let mut pos: usize = 0;
    while pos < beam.len() && beam[pos].1.order_rank() < hit.1.order_rank()
        invariant
            pos <= beam@.len(),
            *beam == *old(beam),
            forall|i: int| 0 <= i < pos ==> (#[trigger] beam@[i]).1.rank() < hit.1.rank(),
        decreases beam@.len() - pos,
    {
        pos += 1;
    }
    proof {
        assert forall|i: int| pos <= i < beam@.len() implies hit.1.rank() <= (
        #[trigger] beam@[i]).1.rank() by {
            if i > pos {
                assert(beam@[pos as int].1.rank() <= beam@[i].1.rank());
            }
        }
        place_found(beam@, hit.1, 0, pos as int);
    }
    beam.insert(pos, hit);
    if beam.len() > l {
        beam.truncate(l);
        assert(beam@ =~= old(beam)@.insert(pos as int, hit).take(l as int));
    }
    pos
}

/// A new hit keeps the list sorted and free of repetitions, and what falls off its end is no
/// closer than what stays.
proof fn insert_keeps_beam(
    g: PiPNNGraph,
    dist: QueryDistances,
    l: int,
    seen: Set<int>,
    beam: Seq<Hit>,
    hit: Hit,
    pos: int,
    after: Seq<Hit>,
)
    requires
        beam_holds(g, dist, l, seen, beam),
        0 <= hit.0 < g.npoints,
        reachable(g, hit.0 as int),
        !seen.contains(hit.0 as int),
        hit.1 == dist(hit.0 as int),
        0 <= pos <= beam.len(),
        forall|i: int| 0 <= i < pos ==> (#[trigger] beam[i]).1.rank() < hit.1.rank(),
        forall|i: int| pos <= i < beam.len() ==> hit.1.rank() <= (#[trigger] beam[i]).1.rank(),
        beam.len() < l || hit.1.rank() <= beam.last().1.rank(),
        after == with_hit(beam, hit, pos, l),
        1 <= l,
    ensures
        beam_holds(g, dist, l, seen.insert(hit.0 as int), after),
{
    let more = seen.insert(hit.0 as int);
    let all = beam.insert(pos, hit);
    assert forall|i: int| 0 <= i < all.len() implies #[trigger] all[i] == if i < pos {
        beam[i]
    } else if i == pos {
        hit
    } else {
        beam[i - 1]
    } by {}
    assert forall|i: int| 0 <= i < after.len() implies #[trigger] after[i] == all[i] by {}
    assert forall|i: int| 0 <= i < after.len() implies more.contains((#[trigger] after[i]).0 as int)
        && after[i].1 == dist(after[i].0 as int) by {
        assert(after[i] == all[i]);
    }
    assert(distinct_hits(after)) by {
        assert forall|i: int, j: int| 0 <= i < j < after.len() implies (#[trigger] after[i]).0 != (
        #[trigger] after[j]).0 by {
            assert(after[i] == all[i] && after[j] == all[j]);
            if i == pos {
                assert(seen.contains(beam[j - 1].0 as int));
            } else if j == pos {
                assert(seen.contains(beam[i].0 as int));
            }
        }
    }
    assert(sorted_hits(after)) by {
        assert forall|i: int, j: int| 0 <= i < j < after.len() implies (
        #[trigger] after[i]).1.rank() <= (#[trigger] after[j]).1.rank() by {
            assert(after[i] == all[i] && after[j] == all[j]);
        }
    }
    if forall|p: int| 0 <= p < g.npoints ==> !(#[trigger] dist(p)).nan() {
        assert forall|p: int| #[trigger] more.contains(p) && !is_hit(after, p) implies after.len()
            == l && forall|i: int|
            0 <= i < after.len() ==> (#[trigger] after[i]).1.rank() <= dist(p).rank() by {
            if beam.len() < l {
                if p == hit.0 {
                    assert(after[pos].0 == p);
                } else if is_hit(beam, p) {
                    let i = choose|i: int| 0 <= i < beam.len() && (#[trigger] beam[i]).0 == p;
                    let j = if i < pos { i } else { i + 1 };
                    assert(after[j].0 == p);
                }
            } else {
                let last = beam.last();
                assert forall|i: int| 0 <= i < after.len() implies (#[trigger] after[i]).1.rank()
                    <= last.1.rank() by {
                    assert(after[i] == all[i]);
                }
                if p == hit.0 {
                    if pos < l {
                        assert(after[pos].0 == p);
                    } else {
                        assert(hit.1.rank() <= last.1.rank());
                        assert forall|i: int| 0 <= i < after.len() implies (
                        #[trigger] after[i]).1.rank() <= dist(p).rank() by {
                            assert(after[i] == all[i]);
                        }
                    }
                } else if is_hit(beam, p) {
                    let i = choose|i: int| 0 <= i < beam.len() && (#[trigger] beam[i]).0 == p;
                    let j = if i < pos { i } else { i + 1 };
                    if j < l {
                        assert(after[j] == all[j]);
                        assert(after[j].0 == p);
                    } else {
                        assert(i == l - 1);
                        assert(beam[i] == last);
                    }
                } else {
                    assert(seen.contains(p));
                    assert(beam[beam.len() - 1].1.rank() <= dist(p).rank());
                }
            }
        }
    }
}

/// A neighbour of something reached is reached.
proof fn neighbor_reachable(g: PiPNNGraph, q: int, p: int)
    requires
        reachable(g, q),
        leads_to(g, q, p),
    ensures
        reachable(g, p),
{
    let path = choose|path: Seq<int>| #[trigger] is_path(g, path, q);
    let longer = path.push(p);
    assert forall|i: int| 0 <= i < longer.len() - 1 implies leads_to(
        g,
        #[trigger] longer[i],
        longer[i + 1],
    ) by {
        if i < path.len() - 1 {
            assert(leads_to(g, path[i], path[i + 1]));
        }
    }
    assert(is_path(g, longer, p));
}

/// What a search gives back that asks for `k` points: the first of the hits that it ends with.
pub open spec fn found(
    g: PiPNNGraph,
    dist: QueryDistances,
    k: int,
    search_list_size: int,
) -> Seq<Hit> {
    let beam = searched(g, dist, list_size(search_list_size, k)).beam;
    if k < beam.len() {
        beam.take(k)
    } else {
        beam
    }
}

impl PiPNNGraph {
    /// Searches from the start for the `k` points closest to the query, keeping a list of the
    /// closest `search_list_size` points seen (at least `k`) and following the edges of all of
    /// them.
    pub fn search<D: Fn(&[Real], &[Real]) -> Real>(
        &self,
        data: &[Real],
        query: &[Real],
        k: usize,
        search_list_size: usize,
        dist_fn: &D,
    ) -> (out: Vec<Hit>)
        requires
            self.npoints > 0 ==> self.wf(),
            self.npoints * self.ndims <= data@.len(),
            vector_measure(*dist_fn, self.ndims as int, query@.len() as int),
        ensures
            self.npoints == 0 ==> out@.len() == 0,
            self.npoints > 0 ==> ({
                let dist = distances_to(*dist_fn, data@, self.ndims as int, query@);
                let l = list_size(search_list_size as int, k as int);
                let end = searched(*self, dist, l);
                &&& out@ == if k < end.beam.len() {
                    end.beam.take(k as int)
                } else {
                    end.beam
                }
                &&& out@ == found(*self, dist, k as int, search_list_size as int)
                &&& l > 0 ==> settled(end) && search_done(*self, dist, l, end.seen, end.beam)
                    && distances_answered(
                    *dist_fn,
                    data@,
                    self.ndims as int,
                    query@,
                    end.seen,
                )
            }),
    {
        let l: usize = if search_list_size >= k { search_list_size } else { k };
        if self.npoints == 0 {
            return Vec::new();
        }
        if l == 0 {
            let none: Vec<Hit> = Vec::new();
            proof {
                let end = searched(
                    *self,
                    distances_to(*dist_fn, data@, self.ndims as int, query@),
                    0,
                );
                assert(none@ =~= end.beam.take(0));
                if end.beam.len() == 0 {
                    assert(none@ =~= end.beam);
                }
            }
            return none;
        }
        let ghost g = *self;
        let ghost dist = distances_to(*dist_fn, data@, self.ndims as int, query@);
        let ghost n = self.npoints as int;
        let start: usize = self.medoid;
        let mut visited: Vec<bool> = vec![false; self.npoints];
        let mut beam: Vec<Hit> = Vec::new();
        let start_row = row_slice(data, self.ndims, start, Ghost(n));
        let start_dist = ask_vectors(dist_fn, start_row, query);
        beam.push((start, start_dist));
        visited.set(start, true);
        let ghost mut seen = Set::<int>::empty().insert(start as int);
        let mut pointer: usize = 0;
        let ghost mut steps: nat = 0;
        proof {
            assert(beam@ =~= after_steps(g, dist, l as int, 0).beam);
            assert(is_path(g, seq![start as int], start as int));
            assert(beam@[0].0 == start);
            assert(beam_holds(g, dist, l as int, seen, beam@)) by {
                assert forall|p: int| #[trigger] seen.contains(p) implies is_hit(beam@, p) by {
                    assert(beam@[0].0 == p);
                }
            }
            assert forall|v: int| 0 <= v < n implies #[trigger] visited@[v] == seen.contains(v) by {}
            assert(seen.len() == 1);
        }
        while pointer < beam.len()
            invariant
                pointer <= beam@.len(),
                g == *self,
                g.wf(),
                n == self.npoints,
                n * self.ndims <= data@.len(),
                1 <= l,
                vector_measure(*dist_fn, self.ndims as int, query@.len() as int),
                dist == distances_to(*dist_fn, data@, self.ndims as int, query@),
                visited@.len() == n,
                forall|v: int| 0 <= v < n ==> #[trigger] visited@[v] == seen.contains(v),
                seen.finite(),
                beam_holds(g, dist, l as int, seen, beam@),
                distances_answered(*dist_fn, data@, self.ndims as int, query@, seen),
                forall|i: int|
                    0 <= i < pointer ==> explored(g, seen, (#[trigger] beam@[i]).0 as int),
                (SearchState { seen, beam: beam@, pointer: pointer as int }) == after_steps(
                    g,
                    dist,
                    l as int,
                    steps,
                ),
            decreases n - seen.len(), beam@.len() - pointer,
        {
            let current: usize = beam[pointer].0;
            let ghost seen0 = seen;
            let ghost beam0 = beam@;
            let ghost pointer0 = pointer;
            proof {
                assert(seen.contains(beam@[pointer as int].0 as int));
            }
            let ghost state = SearchState { seen, beam: beam@, pointer: pointer as int };
            let ghost list = self.adjacency@[current as int]@;
            pointer += 1;
            let ghost from = SearchState { seen, beam: beam@, pointer: pointer as int };
            let mut t: usize = 0;
            while t < self.adjacency[current].len()
                invariant
                    pointer <= beam@.len(),
                    g == *self,
                    g.wf(),
                    n == self.npoints,
                    n * self.ndims <= data@.len(),
                    1 <= l,
                    vector_measure(*dist_fn, self.ndims as int, query@.len() as int),
                    dist == distances_to(*dist_fn, data@, self.ndims as int, query@),
                    current < n,
                    reachable(g, current as int),
                    t <= self.adjacency@[current as int]@.len(),
                    visited@.len() == n,
                    forall|v: int| 0 <= v < n ==> #[trigger] visited@[v] == seen.contains(v),
                    seen.finite(),
                    seen0.finite(),
                    seen0.subset_of(seen),
                    seen.len() == seen0.len() ==> beam@ == beam0 && pointer == pointer0 + 1,
                    seen.len() >= seen0.len(),
                    beam_holds(g, dist, l as int, seen, beam@),
                    distances_answered(*dist_fn, data@, self.ndims as int, query@, seen),
                    forall|i: int|
                        0 <= i < pointer ==> explored(g, seen, (#[trigger] beam@[i]).0 as int)
                            || beam@[i].0 == current,
                    forall|s: int|
                        0 <= s < t && (#[trigger] self.adjacency@[current as int]@[s]) < n
                            ==> seen.contains(self.adjacency@[current as int]@[s] as int),
                    list == self.adjacency@[current as int]@,
                    (SearchState { seen, beam: beam@, pointer: pointer as int }) == meet_all(
                        g,
                        dist,
                        l as int,
                        from,
                        list,
                        t as int,
                    ),
                decreases self.adjacency@[current as int]@.len() - t,
            {
                let neighbor: usize = self.adjacency[current][t] as usize;
                let ghost met = SearchState { seen, beam: beam@, pointer: pointer as int };
                t += 1;
                assert(meet_all(g, dist, l as int, from, list, t as int) == meet(
                    g,
                    dist,
                    l as int,
                    met,
                    neighbor as int,
                ));
                if neighbor >= self.npoints || visited[neighbor] {
                    continue;
                }
                let ghost prior_seen = seen;
                let ghost prior = beam@;
                proof {
                    assert(self.adjacency@[current as int]@[t - 1] as int == neighbor);
                    assert(leads_to(g, current as int, neighbor as int));
                    neighbor_reachable(g, current as int, neighbor as int);
                    assert(!seen.contains(neighbor as int));
                    seen = seen.insert(neighbor as int);
                    assert forall|p: int| explored(g, prior_seen, p) implies #[trigger] explored(
                        g,
                        seen,
                        p,
                    ) by {}
                }
                visited.set(neighbor, true);
                let point = row_slice(data, self.ndims, neighbor, Ghost(n));
                let d = ask_vectors(dist_fn, point, query);
                if beam.len() < l || d.is_less(beam[beam.len() - 1].1) {
                    proof {
                        assert(prior.len() < usize::MAX) by {
                            assert(self.adjacency@.len() == n);
                            assert(seen.len() <= n) by {
                                seen_bounded(seen, n);
                            }
                            assert(prior.len() < seen.len()) by {
                                hits_within(prior, prior_seen);
                            }
                        }
                    }
                    let pos: usize = insert_hit(&mut beam, (neighbor, d), l);
                    proof {
                        insert_keeps_beam(
                            g,
                            dist,
                            l as int,
                            prior_seen,
                            prior,
                            (neighbor, d),
                            pos as int,
                            beam@,
                        );
                        assert forall|i: int| 0 <= i < pos && i < beam@.len() implies (
                        #[trigger] beam@[i]) == prior[i] by {}
                    }
                    if pos < pointer {
                        pointer = pos;
                    }
                    proof {
                        assert forall|i: int| 0 <= i < pointer implies explored(
                            g,
                            seen,
                            (#[trigger] beam@[i]).0 as int,
                        ) || beam@[i].0 == current by {
                            assert(beam@[i] == prior[i]);
                            assert(explored(g, prior_seen, prior[i].0 as int) || prior[i].0
                                == current);
                        }
                    }
                } else {
                    proof {
                        rejected_keeps_beam(
                            g,
                            dist,
                            l as int,
                            prior_seen,
                            beam@,
                            neighbor as int,
                        );
                        assert forall|i: int| 0 <= i < pointer implies explored(
                            g,
                            seen,
                            (#[trigger] beam@[i]).0 as int,
                        ) || beam@[i].0 == current by {
                            assert(explored(g, prior_seen, prior[i].0 as int) || prior[i].0
                                == current);
                        }
                    }
                }
            }
            proof {
                seen_bounded(seen, n);
                assert(explored(g, seen, current as int));
                assert(follow(g, dist, l as int, state) == meet_all(
                    g,
                    dist,
                    l as int,
                    from,
                    list,
                    list.len() as int,
                ));
                steps = steps + 1;
            }
        }
        let ghost full = beam@;
        proof {
            search_settles(g, dist, l as int, steps);
            assert(search_done(g, dist, l as int, seen, full));
        }
        if beam.len() > k {
            beam.truncate(k);
        }
        assert(beam@ =~= if k < full.len() { full.take(k as int) } else { full });
        beam
    }
}

/// A point that is turned away is no closer than the hits.
proof fn rejected_keeps_beam(
    g: PiPNNGraph,
    dist: QueryDistances,
    l: int,
    seen: Set<int>,
    beam: Seq<Hit>,
    p: int,
)
    requires
        beam_holds(g, dist, l, seen, beam),
        0 <= p < g.npoints,
        reachable(g, p),
        !seen.contains(p),
        beam.len() >= l,
        !dist(p).lt(beam.last().1),
    ensures
        beam_holds(g, dist, l, seen.insert(p), beam),
{
    let more = seen.insert(p);
    if forall|p: int| 0 <= p < g.npoints ==> !(#[trigger] dist(p)).nan() {
        assert forall|q: int| #[trigger] more.contains(q) && !is_hit(beam, q) implies beam.len() == l
            && forall|i: int|
            0 <= i < beam.len() ==> (#[trigger] beam[i]).1.rank() <= dist(q).rank() by {
            if q == p {
                let last = beam[beam.len() - 1];
                assert(seen.contains(last.0 as int));
                assert(!dist(last.0 as int).nan());
                assert(!dist(p).nan());
                assert forall|i: int| 0 <= i < beam.len() implies (#[trigger] beam[i]).1.rank()
                    <= dist(q).rank() by {
                    if i < beam.len() - 1 {
                        assert(beam[i].1.rank() <= last.1.rank());
                    }
                }
            } else {
                assert(seen.contains(q));
            }
        }
    }
}

proof fn seen_bounded(seen: Set<int>, n: int)
    requires
        seen.finite(),
        0 <= n,
        forall|p: int| #[trigger] seen.contains(p) ==> 0 <= p < n,
    ensures
        seen.len() <= n,
{
    let range = vstd::set_lib::set_int_range(0, n);
    vstd::set_lib::lemma_int_range(0, n);
    vstd::set_lib::lemma_len_subset(seen, range);
}

/// There are no more hits than points seen.
proof fn hits_within(beam: Seq<Hit>, seen: Set<int>)
    requires
        seen.finite(),
        distinct_hits(beam),
        forall|i: int| 0 <= i < beam.len() ==> seen.contains((#[trigger] beam[i]).0 as int),
    ensures
        beam.len() <= seen.len(),
{
    let points = beam.map_values(|h: Hit| h.0 as int);
    assert(points.no_duplicates()) by {
        assert forall|i: int, j: int|
            0 <= i < points.len() && 0 <= j < points.len() && i != j implies points[i]
            != points[j] by {
            if i < j {
                assert(beam[i].0 != beam[j].0);
            } else {
                assert(beam[j].0 != beam[i].0);
            }
        }
    }
    points.unique_seq_to_set();
    assert forall|p: int| points.to_set().contains(p) implies seen.contains(p) by {
        let i = choose|i: int| 0 <= i < points.len() && points[i] == p;
        assert(beam[i].0 == p);
    }
    vstd::set_lib::lemma_len_subset(points.to_set(), seen);
}

} // verus!
