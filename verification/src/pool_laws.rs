//! What a pool that keeps every candidate gives out, however its edges were batched.

use crate::candidate_pool::{candidate_of, candidates_from, dedupped, Candidate};
use crate::knn::Edge;
use vstd::prelude::*;

verus! {

/// The candidates that source `p` has once the batches were added one after another.
pub open spec fn batched_candidates(batches: Seq<Seq<Edge>>, p: int) -> Seq<Candidate>
    decreases batches.len(),
{
    if batches.len() == 0 {
        Seq::empty()
    } else {
        let last = batches.last();
        batched_candidates(batches.drop_last(), p) + candidates_from(last, p, last.len() as int)
    }
}

/// Adding one more batch appends what it brings.
pub proof fn one_more_batch(batches: Seq<Seq<Edge>>, more: Seq<Edge>, p: int)
    ensures
        batched_candidates(batches.push(more), p) == batched_candidates(batches, p)
            + candidates_from(more, p, more.len() as int),
{
    assert(batches.push(more).drop_last() =~= batches);
}

/// An edge of some batch leads from `p` to the candidate.
pub open spec fn was_added(batches: Seq<Seq<Edge>>, p: int, c: Candidate) -> bool {
    exists|b: int, i: int|
        0 <= b < batches.len() && 0 <= i < batches[b].len() && (
        #[trigger] batches[b][i]).src == p && candidate_of(batches[b][i]) == c
}

proof fn candidates_are_edges(edges: Seq<Edge>, p: int, m: int, c: Candidate)
    requires
        0 <= m <= edges.len(),
    ensures
        candidates_from(edges, p, m).contains(c) <==> exists|i: int|
            0 <= i < m && (#[trigger] edges[i]).src == p && candidate_of(edges[i]) == c,
    decreases m,
{
    let list = candidates_from(edges, p, m);
    if m > 0 {
        let front = candidates_from(edges, p, m - 1);
        candidates_are_edges(edges, p, m - 1, c);
        if list.contains(c) {
            let x = choose|x: int| 0 <= x < list.len() && list[x] == c;
            if x < front.len() {
                assert(front[x] == c);
                let i = choose|i: int|
                    0 <= i < m - 1 && (#[trigger] edges[i]).src == p && candidate_of(edges[i]) == c;
                assert(edges[i].src == p);
            } else {
                assert(edges[m - 1].src == p);
            }
        }
        if exists|i: int|
            0 <= i < m && (#[trigger] edges[i]).src == p && candidate_of(edges[i]) == c {
            let i = choose|i: int|
                0 <= i < m && (#[trigger] edges[i]).src == p && candidate_of(edges[i]) == c;
            if i < m - 1 {
                assert(front.contains(c));
                let x = choose|x: int| 0 <= x < front.len() && front[x] == c;
                assert(list[x] == c);
            } else {
                assert(list[front.len() as int] == c);
            }
        }
    }
}

/// A source has exactly the candidates that edges lead to, however they were batched.
pub proof fn batches_bring_their_edges(batches: Seq<Seq<Edge>>, p: int, c: Candidate)
    ensures
        batched_candidates(batches, p).contains(c) <==> was_added(batches, p, c),
    decreases batches.len(),
{
    let list = batched_candidates(batches, p);
    if batches.len() > 0 {
        let front = batches.drop_last();
        let last = batches.last();
        let n = batches.len() - 1;
        let before = batched_candidates(front, p);
        let fresh = candidates_from(last, p, last.len() as int);
        batches_bring_their_edges(front, p, c);
        candidates_are_edges(last, p, last.len() as int, c);
        if list.contains(c) {
            let x = choose|x: int| 0 <= x < list.len() && list[x] == c;
            if x < before.len() {
                assert(before[x] == c);
                let (b, i) = choose|b: int, i: int|
                    0 <= b < front.len() && 0 <= i < front[b].len() && (
                    #[trigger] front[b][i]).src == p && candidate_of(front[b][i]) == c;
                assert(batches[b][i].src == p);
            } else {
                assert(fresh[x - before.len()] == c);
                let i = choose|i: int|
                    0 <= i < last.len() && (#[trigger] last[i]).src == p && candidate_of(last[i])
                        == c;
                assert(batches[n][i].src == p);
            }
        }
        if was_added(batches, p, c) {
            let (b, i) = choose|b: int, i: int|
                0 <= b < batches.len() && 0 <= i < batches[b].len() && (
                #[trigger] batches[b][i]).src == p && candidate_of(batches[b][i]) == c;
            if b < n {
                assert(front[b][i].src == p);
                assert(before.contains(c));
                let x = choose|x: int| 0 <= x < before.len() && before[x] == c;
                assert(list[x] == c);
            } else {
                assert(last[i].src == p);
                assert(fresh.contains(c));
                let x = choose|x: int| 0 <= x < fresh.len() && fresh[x] == c;
                assert(list[before.len() + x] == c);
            }
        }
    }
}

/// Every added distance of a source is a number.
pub open spec fn distances_are_numbers(batches: Seq<Seq<Edge>>, p: int) -> bool {
    forall|c: Candidate| #[trigger] was_added(batches, p, c) ==> !c.1.nan()
}

proof fn given_was_added(batches: Seq<Seq<Edge>>, p: int, list: Seq<Candidate>, i: int)
    requires
        dedupped(batched_candidates(batches, p), list),
        0 <= i < list.len(),
    ensures
        was_added(batches, p, list[i]),
{
    assert(batched_candidates(batches, p).contains(list[i]));
    batches_bring_their_edges(batches, p, list[i]);
}

/// The list has the neighbour of a candidate, no farther than the candidate.
pub open spec fn has_closest(list: Seq<Candidate>, c: Candidate) -> bool {
    exists|i: int|
        0 <= i < list.len() && (#[trigger] list[i]).0 == c.0 && list[i].1.le(c.1)
}

proof fn added_is_given(batches: Seq<Seq<Edge>>, p: int, list: Seq<Candidate>, c: Candidate)
    requires
        distances_are_numbers(batches, p),
        dedupped(batched_candidates(batches, p), list),
        was_added(batches, p, c),
    ensures
        has_closest(list, c),
{
    let entries = batched_candidates(batches, p);
    batches_bring_their_edges(batches, p, c);
    let x = choose|x: int| 0 <= x < entries.len() && entries[x] == c;
    assert(entries[x].0 == c.0);
    let i = choose|i: int|
        #![trigger list[i]]
        0 <= i < list.len() && list[i].0 == entries[x].0 && list[i].1.rank() <= entries[x].1.rank();
    given_was_added(batches, p, list, i);
    assert(list[i].1.le(c.1));
}

/// What is given out for a source holds each neighbour that an edge leads to exactly once, with
/// the smallest distance added for it, and nothing else, in ascending distance.
pub proof fn pool_gives_each_neighbor_once(
    batches: Seq<Seq<Edge>>,
    p: int,
    list: Seq<Candidate>,
)
    requires
        distances_are_numbers(batches, p),
        dedupped(batched_candidates(batches, p), list),
    ensures
        forall|i: int| 0 <= i < list.len() ==> #[trigger] was_added(batches, p, list[i]),
        forall|i: int, j: int|
            0 <= i < j < list.len() ==> (#[trigger] list[i]).0 != (#[trigger] list[j]).0
                && list[i].1.le(list[j].1),
        forall|c: Candidate| was_added(batches, p, c) ==> #[trigger] has_closest(list, c),
{
    assert forall|i: int| 0 <= i < list.len() implies #[trigger] was_added(batches, p, list[i]) by {
        given_was_added(batches, p, list, i);
    }
    assert forall|i: int, j: int| 0 <= i < j < list.len() implies (#[trigger] list[i]).0 != (
    #[trigger] list[j]).0 && list[i].1.le(list[j].1) by {
        assert(was_added(batches, p, list[i]));
        assert(was_added(batches, p, list[j]));
    }
    assert forall|c: Candidate| was_added(batches, p, c) implies #[trigger] has_closest(list, c) by {
        added_is_given(batches, p, list, c);
    }
}

/// Place of a candidate in a list that is given out.
spec fn place(c: Candidate) -> int {
    c.1.rank() * 0x1_0000_0000 + c.0
}

proof fn place_found(
    one: Seq<Seq<Edge>>,
    two: Seq<Seq<Edge>>,
    p: int,
    first: Seq<Candidate>,
    second: Seq<Candidate>,
    i: int,
) -> (j: int)
    requires
        forall|c: Candidate| #[trigger] was_added(one, p, c) <==> was_added(two, p, c),
        dedupped(batched_candidates(one, p), first),
        dedupped(batched_candidates(two, p), second),
        0 <= i < first.len(),
    ensures
        0 <= j < second.len(),
        second[j].0 == first[i].0,
        second[j].1.rank() <= first[i].1.rank(),
{
    let entries = batched_candidates(two, p);
    assert(batched_candidates(one, p).contains(first[i]));
    batches_bring_their_edges(one, p, first[i]);
    batches_bring_their_edges(two, p, first[i]);
    let x = choose|x: int| 0 <= x < entries.len() && entries[x] == first[i];
    assert(entries[x].0 == first[i].0);
    choose|j: int|
        #![trigger second[j]]
        0 <= j < second.len() && second[j].0 == entries[x].0 && second[j].1.rank()
            <= entries[x].1.rank()
}

proof fn place_shared(
    one: Seq<Seq<Edge>>,
    two: Seq<Seq<Edge>>,
    p: int,
    first: Seq<Candidate>,
    second: Seq<Candidate>,
    i: int,
) -> (j: int)
    requires
        forall|c: Candidate| #[trigger] was_added(one, p, c) <==> was_added(two, p, c),
        dedupped(batched_candidates(one, p), first),
        dedupped(batched_candidates(two, p), second),
        0 <= i < first.len(),
    ensures
        0 <= j < second.len(),
        place(second[j]) == place(first[i]),
{
    let j = place_found(one, two, p, first, second, i);
    let k = place_found(two, one, p, second, first, j);
    if k < i {
        assert(first[k].0 != first[i].0);
    } else if i < k {
        assert(first[i].0 != first[k].0);
    }
    j
}

/// Two ascending lists with the same members are the same.
proof fn ascending_lists_agree(a: Seq<int>, b: Seq<int>)
    requires
        forall|i: int, j: int| 0 <= i < j < a.len() ==> #[trigger] a[i] < #[trigger] a[j],
        forall|i: int, j: int| 0 <= i < j < b.len() ==> #[trigger] b[i] < #[trigger] b[j],
        forall|x: int| #[trigger] a.contains(x) <==> b.contains(x),
    ensures
        a == b,
    decreases a.len(),
{
    if a.len() == 0 {
        if b.len() > 0 {
            assert(b.contains(b[0]));
            assert(a.contains(b[0]));
        }
        assert(a =~= b);
    } else {
        let m = a.len() - 1;
        assert(a.contains(a[m]));
        assert(b.contains(a[m]));
        let n = b.len() - 1;
        assert(b.contains(b[n]));
        assert(a.contains(b[n]));
        let x = choose|x: int| 0 <= x < a.len() && a[x] == b[n];
        let y = choose|y: int| 0 <= y < b.len() && b[y] == a[m];
        assert(a[m] == b[n]) by {
            if x < m {
                assert(a[x] < a[m]);
            }
            if y < n {
                assert(b[y] < b[n]);
            }
        }
        let fa = a.drop_last();
        let fb = b.drop_last();
        assert forall|v: int| #[trigger] fa.contains(v) <==> fb.contains(v) by {
            if fa.contains(v) {
                let i = choose|i: int| 0 <= i < fa.len() && fa[i] == v;
                assert(a[i] == v && a[i] < a[m]);
                assert(a.contains(v));
                let j = choose|j: int| 0 <= j < b.len() && b[j] == v;
                assert(fb[j] == v);
            }
            if fb.contains(v) {
                let j = choose|j: int| 0 <= j < fb.len() && fb[j] == v;
                assert(b[j] == v && b[j] < b[n]);
                assert(b.contains(v));
                assert(a.contains(v));
                let i = choose|i: int| 0 <= i < a.len() && a[i] == v;
                assert(fa[i] == v);
            }
        }
        ascending_lists_agree(fa, fb);
        assert(a =~= fa.push(a[m]));
        assert(b =~= fb.push(b[n]));
    }
}

/// Neither the order of the edges nor their batching matters: where the same candidates were
/// added, the same neighbours are given out in the same order, at the same numeric distances.
pub proof fn batching_does_not_matter(
    one: Seq<Seq<Edge>>,
    two: Seq<Seq<Edge>>,
    p: int,
    first: Seq<Candidate>,
    second: Seq<Candidate>,
)
    requires
        forall|c: Candidate| #[trigger] was_added(one, p, c) <==> was_added(two, p, c),
        dedupped(batched_candidates(one, p), first),
        dedupped(batched_candidates(two, p), second),
    ensures
        first.len() == second.len(),
        forall|i: int|
            0 <= i < first.len() ==> (#[trigger] first[i]).0 == second[i].0 && first[i].1.rank()
                == second[i].1.rank(),
{
    let a = first.map_values(|c: Candidate| place(c));
    let b = second.map_values(|c: Candidate| place(c));
    assert forall|i: int, j: int| 0 <= i < j < a.len() implies #[trigger] a[i] < #[trigger] a[j] by {
        assert(first[i].0 != first[j].0);
    }
    assert forall|i: int, j: int| 0 <= i < j < b.len() implies #[trigger] b[i] < #[trigger] b[j] by {
        assert(second[i].0 != second[j].0);
    }
    assert forall|x: int| #[trigger] a.contains(x) <==> b.contains(x) by {
        if a.contains(x) {
            let i = choose|i: int| 0 <= i < a.len() && a[i] == x;
            let j = place_shared(one, two, p, first, second, i);
            assert(b[j] == x);
        }
        if b.contains(x) {
            let i = choose|i: int| 0 <= i < b.len() && b[i] == x;
            let j = place_shared(two, one, p, second, first, i);
            assert(a[j] == x);
        }
    }
    ascending_lists_agree(a, b);
    assert forall|i: int| 0 <= i < first.len() implies (#[trigger] first[i]).0 == second[i].0
        && first[i].1.rank() == second[i].1.rank() by {
        assert(a[i] == b[i]);
    }
}

} // verus!
