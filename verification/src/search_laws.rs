//! How a search goes on from step to step.

use crate::graph::PiPNNGraph;
use crate::number::Real;
use crate::search::{
    after_steps, follow, found, is_hit, list_size, meet, meet_all, place_for, reachable,
    search_done, searched, settled, sorted_hits, Hit, QueryDistances, SearchState,
};
use vstd::prelude::*;

verus! {

/// The list is as long as the longer of the two lengths asked for.
pub proof fn list_is_longest(search_list_size: int, k: int)
    ensures
        search_list_size <= list_size(search_list_size, k),
        k <= list_size(search_list_size, k),
        list_size(search_list_size, k) == search_list_size || list_size(search_list_size, k) == k,
{
}

/// A hit is put behind all closer ones and before all that are as far or farther.
pub proof fn place_is_before_equals(beam: Seq<Hit>, d: Real, i: int)
    requires
        0 <= i <= beam.len(),
        sorted_hits(beam),
    ensures
        i <= place_for(beam, d, i) <= beam.len(),
        forall|x: int| i <= x < place_for(beam, d, i) ==> (#[trigger] beam[x]).1.rank() < d.rank(),
        forall|x: int|
            place_for(beam, d, i) <= x < beam.len() ==> d.rank() <= (#[trigger] beam[x]).1.rank(),
    decreases beam.len() - i,
{
    if i < beam.len() && beam[i].1.rank() < d.rank() {
        place_is_before_equals(beam, d, i + 1);
    }
}

/// A point that was seen, or that is none, changes nothing. Another is seen from then on. It
/// becomes a hit if there is room or it is closer than the last hit, and then only the last hit of
/// a full list is given up for it; otherwise the hits stay as they are.
pub proof fn closer_points_become_hits(
    g: PiPNNGraph,
    dist: QueryDistances,
    l: int,
    st: SearchState,
    p: int,
)
    requires
        0 <= p,
        0 < st.beam.len() <= l,
        sorted_hits(st.beam),
        !dist(p).nan(),
        !st.beam.last().1.nan(),
        !st.seen.contains(p) ==> !is_hit(st.beam, p),
    ensures
        ({
            let next = meet(g, dist, l, st, p);
            let fresh = p < g.npoints && !st.seen.contains(p);
            let enters = fresh && (st.beam.len() < l || dist(p).rank()
                < st.beam.last().1.rank());
            &&& !fresh ==> next == st
            &&& fresh ==> next.seen == st.seen.insert(p)
            &&& fresh && !enters ==> next.beam == st.beam && next.pointer == st.pointer
            &&& enters ==> {
                &&& is_hit(next.beam, p)
                &&& next.beam.len() == if st.beam.len() < l {
                    st.beam.len() + 1
                } else {
                    st.beam.len()
                }
                &&& forall|x: int|
                    0 <= x < st.beam.len() && (st.beam.len() < l || x < st.beam.len() - 1)
                        ==> next.beam.contains(#[trigger] st.beam[x])
                &&& next.pointer <= st.pointer
                &&& next.pointer < st.pointer ==> 0 <= next.pointer < next.beam.len()
                    && next.beam[next.pointer].0 == p
            }
        }),
{
    let d = dist(p);
    let next = meet(g, dist, l, st, p);
    if p < g.npoints && !st.seen.contains(p) && (st.beam.len() < l || d.lt(st.beam.last().1)) {
        place_is_before_equals(st.beam, d, 0);
        let pos = place_for(st.beam, d, 0);
        let hit = (p as usize, d);
        let more = st.beam.insert(pos, hit);
        if st.beam.len() >= l {
            assert(st.beam.last() == st.beam[st.beam.len() - 1]);
            assert(pos < l);
        }
        assert(more[pos] == hit);
        assert(next.beam[pos] == hit);
        assert(p as usize == p);
        assert forall|x: int|
            0 <= x < st.beam.len() && (st.beam.len() < l || x < st.beam.len()
                - 1) implies next.beam.contains(#[trigger] st.beam[x]) by {
            let y = if x < pos {
                x
            } else {
                x + 1
            };
            assert(more[y] == st.beam[x]);
            assert(next.beam[y] == st.beam[x]);
        }
    }
}

/// The points among the first `m` entries of a list.
pub open spec fn points_in(g: PiPNNGraph, list: Seq<u32>, m: int) -> Set<int> {
    Set::new(
        |p: int| 0 <= p < g.npoints && exists|t: int| 0 <= t < m && #[trigger] list[t] as int == p,
    )
}

/// Once the entries of a list have come up, exactly the points among them have been seen besides
/// those seen before.
pub proof fn all_come_up(
    g: PiPNNGraph,
    dist: QueryDistances,
    l: int,
    st: SearchState,
    list: Seq<u32>,
    m: int,
)
    requires
        0 <= m <= list.len(),
    ensures
        meet_all(g, dist, l, st, list, m).seen == st.seen.union(points_in(g, list, m)),
    decreases m,
{
    if m > 0 {
        all_come_up(g, dist, l, st, list, m - 1);
        let before = meet_all(g, dist, l, st, list, m - 1).seen;
        let after = meet_all(g, dist, l, st, list, m).seen;
        let p = list[m - 1] as int;
        assert forall|q: int| #[trigger] after.contains(q) <==> st.seen.union(
            points_in(g, list, m),
        ).contains(q) by {
            assert(before.contains(q) <==> st.seen.union(points_in(g, list, m - 1)).contains(q));
            if points_in(g, list, m).contains(q) && !points_in(g, list, m - 1).contains(q) {
                let t = choose|t: int| 0 <= t < m && #[trigger] list[t] as int == q;
                assert(t == m - 1);
            }
            if points_in(g, list, m - 1).contains(q) {
                let t = choose|t: int| 0 <= t < m - 1 && #[trigger] list[t] as int == q;
                assert(0 <= t < m && list[t] as int == q);
            }
            if q == p && p < g.npoints {
                assert(list[m - 1] as int == q);
            }
        }
        assert(after =~= st.seen.union(points_in(g, list, m)));
    } else {
        assert(st.seen.union(points_in(g, list, m)) =~= st.seen);
    }
}

/// A step follows the edges of the hit at the pointer: afterwards exactly the points to which they
/// lead have been seen besides those seen before.
pub proof fn step_sees_neighbors(g: PiPNNGraph, dist: QueryDistances, l: int, st: SearchState)
    requires
        !settled(st),
        0 <= st.pointer,
    ensures
        ({
            let list = g.adjacency@[st.beam[st.pointer].0 as int]@;
            follow(g, dist, l, st).seen == st.seen.union(points_in(g, list, list.len() as int))
        }),
{
    let list = g.adjacency@[st.beam[st.pointer].0 as int]@;
    let from = SearchState { seen: st.seen, beam: st.beam, pointer: st.pointer + 1 };
    all_come_up(g, dist, l, from, list, list.len() as int);
}

/// A search begins with the start alone, and goes on step by step until the edges of all hits have
/// been followed.
pub proof fn search_goes_on(g: PiPNNGraph, dist: QueryDistances, l: int, m: nat)
    ensures
        ({
            let first = after_steps(g, dist, l, 0);
            &&& first.beam == seq![(g.medoid, dist(g.medoid as int))]
            &&& first.pointer == 0
            &&& forall|p: int| first.seen.contains(p) <==> p == g.medoid
        }),
        after_steps(g, dist, l, m + 1) == follow(g, dist, l, after_steps(g, dist, l, m)),
        settled(after_steps(g, dist, l, m)) ==> after_steps(g, dist, l, m + 1) == after_steps(
            g,
            dist,
            l,
            m,
        ),
{
}

/// What a search gives back are the closest of the points that it has seen: no more than asked for,
/// each reached from the start, none twice, with their distances, from near to far. A point that it
/// has seen but does not give back is no closer than any that it does, of which there are then as
/// many as asked for.
pub proof fn closest_seen_are_found(
    g: PiPNNGraph,
    dist: QueryDistances,
    k: int,
    search_list_size: int,
)
    requires
        0 <= k,
        forall|p: int| 0 <= p < g.npoints ==> !(#[trigger] dist(p)).nan(),
        ({
            let l = list_size(search_list_size, k);
            let end = searched(g, dist, l);
            search_done(g, dist, l, end.seen, end.beam)
        }),
    ensures
        ({
            let out = found(g, dist, k, search_list_size);
            let seen = searched(g, dist, list_size(search_list_size, k)).seen;
            &&& out.len() <= k
            &&& k > 0 ==> out.len() > 0
            &&& forall|i: int|
                0 <= i < out.len() ==> seen.contains((#[trigger] out[i]).0 as int) && reachable(
                    g,
                    out[i].0 as int,
                ) && out[i].1 == dist(out[i].0 as int)
            &&& forall|i: int, j: int|
                0 <= i < j < out.len() ==> (#[trigger] out[i]).0 != (#[trigger] out[j]).0
                    && out[i].1.rank() <= out[j].1.rank()
            &&& forall|p: int, i: int|
                #![trigger seen.contains(p), out[i]]
                seen.contains(p) && !is_hit(out, p) && 0 <= i < out.len() ==> out[i].1.rank()
                    <= dist(p).rank()
            &&& forall|p: int| #[trigger]
                seen.contains(p) && !is_hit(out, p) ==> out.len() == k
        }),
{
    let l = list_size(search_list_size, k);
    let end = searched(g, dist, l);
    let beam = end.beam;
    let out = found(g, dist, k, search_list_size);
    assert forall|i: int| 0 <= i < out.len() implies #[trigger] out[i] == beam[i] by {}
    assert forall|p: int| #[trigger] end.seen.contains(p) && !is_hit(out, p) implies out.len() == k
        && forall|i: int| 0 <= i < out.len() ==> (#[trigger] out[i]).1.rank() <= dist(p).rank() by {
        if is_hit(beam, p) {
            let x = choose|x: int| 0 <= x < beam.len() && (#[trigger] beam[x]).0 == p;
            if x < out.len() {
                assert(out[x].0 == p);
            }
            assert forall|i: int| 0 <= i < out.len() implies (#[trigger] out[i]).1.rank() <= dist(
                p,
            ).rank() by {
                assert(beam[i].1.rank() <= beam[x].1.rank());
            }
        } else {
            assert forall|i: int| 0 <= i < out.len() implies (#[trigger] out[i]).1.rank() <= dist(
                p,
            ).rank() by {
                assert(beam[i].1.rank() <= dist(p).rank());
            }
        }
    }
}

} // verus!
