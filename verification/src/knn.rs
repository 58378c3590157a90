//! Nearest-neighbour lists from distance matrices, and their edges in both directions.

use crate::arith::Arithmetic;
use crate::gemm::{row_slice, squared_l2, squared_l2_of};
use crate::leaf::{
    insert_at, leaf_row, leaf_row_keeps, nearest_below_valid, LeafNeighbor, RowDistances,
};
use crate::measure::{row, row_bounds, rows_apart, PairSource, PairTable, PairTest};
use crate::number::Real;
use crate::prune::rank_keys;
use crate::sort::{argsort, positions, sort_positions};
use vstd::prelude::*;

verus! {

/// An edge inside a leaf: source position, destination position, distance.
pub type LocalEdge = (usize, usize, Real);

/// The distances in row `i` of an `n` by `n` matrix.
pub open spec fn matrix_row(dm: Seq<Real>, n: int, i: int) -> RowDistances {
    |j: int| dm[i * n + j]
}

/// The entries of an `n` by `n` matrix.
pub open spec fn matrix_table(dm: Seq<Real>, n: int) -> PairTable {
    |i: int, j: int| dm[i * n + j]
}

/// The neighbour at place `t` of row `i`. Up to three neighbours are taken among the other
/// positions whose distance is below the largest number, places that cannot be filled being
/// vacant; more than three are the smallest entries of the row.
pub open spec fn knn_entry(dm: Seq<Real>, n: int, k: int, i: int, t: int) -> LeafNeighbor {
    if k <= 3 {
        leaf_row(matrix_row(dm, n, i), i, n, k)[t]
    } else {
        let j = argsort(rank_keys(dm.subrange(i * n, i * n + n)))[t];
        LeafNeighbor { position: j as u32, distance: dm[i * n + j] }
    }
}

/// The edge at place `t` of row `i`.
pub open spec fn knn_edge(dm: Seq<Real>, n: int, k: int, i: int, t: int) -> LocalEdge {
    let e = knn_entry(dm, n, k, i, t);
    (i as usize, e.position as usize, e.distance)
}

/// How many neighbours each of `n` points gets if `k` are asked for.
pub open spec fn knn_width(n: int, k: int) -> int {
    if n <= 1 || k <= 0 {
        0
    } else if k < n - 1 {
        k
    } else {
        n - 1
    }
}

/// The nearest-neighbour edges of a leaf, row by row.
pub open spec fn knn_edges(dm: Seq<Real>, n: int, k: int) -> Seq<LocalEdge> {
    let w = knn_width(n, k);
    Seq::new((n * w) as nat, |x: int| knn_edge(dm, n, w, x / w, x % w))
}

/// Nearest neighbours of row `i`, at most three.
fn small_row(dist_matrix: &[Real], n: usize, k: usize, i: usize) -> (top: Vec<LeafNeighbor>)
    requires
        1 <= k < n,
        n <= u32::MAX,
        n * n <= dist_matrix@.len(),
        i < n,
    ensures
        top@ == leaf_row(matrix_row(dist_matrix@, n as int, i as int), i as int, n as int, k as int),
{
    let ghost dist = matrix_row(dist_matrix@, n as int, i as int);
    proof {
        row_bounds(i as int, n as int, n as int);
        assert(dist_matrix.len() == dist_matrix@.len());
    }
    let start: usize = i * n;
    let mut top: Vec<LeafNeighbor> = vec![LeafNeighbor::default(); k];
    proof {
        nearest_below_valid(dist, i as int, 0);
        assert(top@ =~= leaf_row(dist, i as int, 0, k as int));
    }
    let mut j: usize = 0;
    while j < n
        invariant
            j <= n,
            i < n,
            1 <= k < n,
            n <= u32::MAX,
            start == i * n,
            start + n <= dist_matrix@.len(),
            dist_matrix@.len() <= usize::MAX,
            dist == matrix_row(dist_matrix@, n as int, i as int),
            top@ == leaf_row(dist, i as int, j as int, k as int),
        decreases n - j,
    {
        let d = dist_matrix[start + j];
        if j != i && d.is_less(top[k - 1].distance) {
            proof {
                assert(top@.subrange(0, 0 + k) =~= top@);
            }
            insert_at(top.as_mut_slice(), k, 0, j as u32, d, Ghost(dist), Ghost(i as int));
            proof {
                assert(top@.subrange(0, 0 + k) =~= top@);
            }
        } else {
            proof {
                if j != i {
                    leaf_row_keeps(dist, i as int, j as int, k as int);
                } else {
                    crate::leaf::leaf_row_self(dist, i as int, k as int);
                }
            }
        }
        j += 1;
    }
    top
}

/// The smallest `k` entries of row `i`.
fn general_row(dist_matrix: &[Real], n: usize, k: usize, i: usize) -> (top: Vec<LeafNeighbor>)
    requires
        3 < k < n,
        n <= u32::MAX,
        n * n <= dist_matrix@.len(),
        i < n,
    ensures
        top@.len() == k,
        forall|t: int|
            0 <= t < k ==> #[trigger] top@[t] == knn_entry(
                dist_matrix@,
                n as int,
                k as int,
                i as int,
                t,
            ),
{
    proof {
        row_bounds(i as int, n as int, n as int);
        assert(dist_matrix.len() == dist_matrix@.len());
    }
    let start: usize = i * n;
    let mut keys: Vec<u64> = Vec::with_capacity(n);
    let mut j: usize = 0;
    while j < n
        invariant
            j <= n,
            start == i * n,
            start + n <= dist_matrix@.len(),
            dist_matrix@.len() <= usize::MAX,
            keys.len() == j,
            forall|x: int| 0 <= x < j ==> #[trigger] keys[x] == dist_matrix@[start + x].rank() as u64,
        decreases n - j,
    {
        keys.push(dist_matrix[start + j].order_rank() as u64);
        j += 1;
    }
    assert(keys@ =~= rank_keys(dist_matrix@.subrange(start as int, start + n)));
    let order = sort_positions(&keys);
    let mut top: Vec<LeafNeighbor> = Vec::with_capacity(k);
    let mut t: usize = 0;
    while t < k
        invariant
            t <= k < n,
            3 < k,
            n <= u32::MAX,
            start == i * n,
            start + n <= dist_matrix@.len(),
            dist_matrix@.len() <= usize::MAX,
            order.len() == n,
            positions(order@) == argsort(rank_keys(dist_matrix@.subrange(start as int, start + n))),
            forall|x: int| 0 <= x < n ==> #[trigger] order[x] < n,
            top.len() == t,
            forall|x: int|
                0 <= x < t ==> #[trigger] top@[x] == knn_entry(
                    dist_matrix@,
                    n as int,
                    k as int,
                    i as int,
                    x,
                ),
        decreases k - t,
    {
        let j: usize = order[t];
        assert(positions(order@)[t as int] == j);
        top.push(LeafNeighbor::new(j as u32, dist_matrix[start + j]));
        t += 1;
    }
    top
}

/// The nearest neighbours of every point of a leaf with the given distance matrix. Where more than
/// three are asked for, entries that are not numbers are ordered by their encodings.
pub fn extract_knn(dist_matrix: &[Real], n: usize, k: usize) -> (edges: Vec<LocalEdge>)
    requires
        n <= u32::MAX,
        n * n <= dist_matrix@.len(),
    ensures
        edges@ == knn_edges(dist_matrix@, n as int, k as int),
{
    if n <= 1 || k == 0 {
        let edges: Vec<LocalEdge> = Vec::new();
        proof {
            assert(n * 0 == 0);
            assert(edges@ =~= knn_edges(dist_matrix@, n as int, k as int));
        }
        return edges;
    }
    let w: usize = if k < n - 1 { k } else { n - 1 };
    let mut edges: Vec<LocalEdge> = Vec::new();
    let mut i: usize = 0;
    proof {
        assert(0 * w == 0);
    }
    while i < n
        invariant
            i <= n,
            1 <= w < n,
            n <= u32::MAX,
            n * n <= dist_matrix@.len(),
            edges.len() == i * w,
            forall|x: int|
                0 <= x < edges.len() ==> #[trigger] edges@[x] == knn_edge(
                    dist_matrix@,
                    n as int,
                    w as int,
                    x / w as int,
                    x % w as int,
                ),
        decreases n - i,
    {
        let top = if w <= 3 {
            small_row(dist_matrix, n, w, i)
        } else {
            general_row(dist_matrix, n, w, i)
        };
        let mut t: usize = 0;
        while t < w
            invariant
                i < n,
                t <= w,
                1 <= w < n,
                top.len() == w,
                forall|x: int|
                    0 <= x < w ==> #[trigger] top@[x] == knn_entry(
                        dist_matrix@,
                        n as int,
                        w as int,
                        i as int,
                        x,
                    ),
                edges.len() == i * w + t,
                forall|x: int|
                    0 <= x < edges.len() ==> #[trigger] edges@[x] == knn_edge(
                        dist_matrix@,
                        n as int,
                        w as int,
                        x / w as int,
                        x % w as int,
                    ),
            decreases w - t,
        {
            proof {
                place_of(i as int, w as int, t as int);
            }
            edges.push((i, top[t].position as usize, top[t].distance));
            t += 1;
        }
        proof {
            row_bounds(i as int, n as int, w as int);
        }
        i += 1;
    }
    proof {
        assert(edges@ =~= knn_edges(dist_matrix@, n as int, k as int));
    }
    edges
}

/// Place `t` of row `i` in rows of width `w`.
pub(crate) proof fn place_of(i: int, w: int, t: int)
    requires
        0 <= i,
        0 <= t < w,
    ensures
        (i * w + t) / w == i,
        (i * w + t) % w == t,
{
    vstd::arithmetic::div_mod::lemma_fundamental_div_mod_converse(i * w + t, w, i, t);
}

/// An edge between two points.
#[derive(Clone, Copy, Debug, PartialEq, Eq, Structural)]
pub struct Edge {
    pub src: usize,
    pub dst: usize,
    pub distance: Real,
}

/// Whether a list has an edge from `s` to `d`.
pub open spec fn has_pair(list: Seq<LocalEdge>, s: int, d: int) -> bool {
    exists|x: int| 0 <= x < list.len() && (#[trigger] list[x]).0 == s && list[x].1 == d
}

/// The list with one more edge, unless it already has one between the same positions.
pub open spec fn with_edge(list: Seq<LocalEdge>, s: usize, d: usize, w: Real) -> Seq<LocalEdge> {
    if has_pair(list, s as int, d as int) {
        list
    } else {
        list.push((s, d, w))
    }
}

/// The edges of a list in both directions, each once, in order of first mention. The distance of
/// a reverse edge comes from the table.
pub open spec fn both_ways(local: Seq<LocalEdge>, table: PairTable) -> Seq<LocalEdge>
    decreases local.len(),
{
    if local.len() == 0 {
        Seq::empty()
    } else {
        let e = local.last();
        let there = with_edge(both_ways(local.drop_last(), table), e.0, e.1, e.2);
        with_edge(there, e.1, e.0, table(e.1 as int, e.0 as int))
    }
}

/// Edges between positions of a leaf as edges between points.
pub open spec fn between_points(local: Seq<LocalEdge>, indices: Seq<usize>) -> Seq<Edge> {
    local.map_values(
        |e: LocalEdge| Edge { src: indices[e.0 as int], dst: indices[e.1 as int], distance: e.2 },
    )
}

/// Every edge of the list runs between positions below `n`.
pub open spec fn edges_within(local: Seq<LocalEdge>, n: int) -> bool {
    forall|x: int| 0 <= x < local.len() ==> (#[trigger] local[x]).0 < n && local[x].1 < n
}

/// No two edges of the list run between the same positions in the same direction.
pub open spec fn no_repeats(list: Seq<LocalEdge>) -> bool {
    forall|x: int, y: int|
        0 <= x < y < list.len() ==> (#[trigger] list[x]).0 != (#[trigger] list[y]).0 || list[x].1
            != list[y].1
}

proof fn with_edge_pairs(list: Seq<LocalEdge>, s: usize, d: usize, w: Real)
    ensures
        forall|a: int, b: int| #[trigger]
            has_pair(with_edge(list, s, d, w), a, b) == (has_pair(list, a, b) || (a == s && b == d)),
        no_repeats(list) ==> no_repeats(with_edge(list, s, d, w)),
{
    let more = with_edge(list, s, d, w);
    assert forall|a: int, b: int| #[trigger] has_pair(more, a, b) == (has_pair(list, a, b) || (a
        == s && b == d)) by {
        if has_pair(list, a, b) {
            let x = choose|x: int|
                0 <= x < list.len() && (#[trigger] list[x]).0 == a && list[x].1 == b;
            assert(more[x] == list[x]);
        }
        if a == s && b == d && !has_pair(list, s as int, d as int) {
            assert(more[list.len() as int].0 == a);
        }
        if has_pair(more, a, b) {
            let x = choose|x: int|
                0 <= x < more.len() && (#[trigger] more[x]).0 == a && more[x].1 == b;
            if x < list.len() {
                assert(list[x].0 == a);
            }
        }
    }
    if no_repeats(list) {
        assert forall|x: int, y: int| 0 <= x < y < more.len() implies (#[trigger] more[x]).0 != (
        #[trigger] more[y]).0 || more[x].1 != more[y].1 by {
            if y < list.len() {
                assert(list[x].0 != list[y].0 || list[x].1 != list[y].1);
            } else {
                assert(list[x] == more[x]);
            }
        }
    }
}

/// In both directions: no edge occurs twice, with every edge its reverse occurs, and the edges
/// are those of the list and their reverses.
pub proof fn both_ways_law(local: Seq<LocalEdge>, table: PairTable)
    ensures
        no_repeats(both_ways(local, table)),
        forall|a: int, b: int| #[trigger]
            has_pair(both_ways(local, table), a, b) == (has_pair(local, a, b) || has_pair(
                local,
                b,
                a,
            )),
    decreases local.len(),
{
    if local.len() > 0 {
        let front = local.drop_last();
        let e = local.last();
        both_ways_law(front, table);
        let base = both_ways(front, table);
        let there = with_edge(base, e.0, e.1, e.2);
        let w = table(e.1 as int, e.0 as int);
        with_edge_pairs(base, e.0, e.1, e.2);
        with_edge_pairs(there, e.1, e.0, w);
        assert forall|a: int, b: int| #[trigger] has_pair(both_ways(local, table), a, b) == (
        has_pair(local, a, b) || has_pair(local, b, a)) by {
            last_pair(local, a, b);
            last_pair(local, b, a);
            assert(has_pair(base, a, b) == (has_pair(front, a, b) || has_pair(front, b, a)));
            assert(has_pair(there, a, b) == (has_pair(base, a, b) || (a == e.0 && b == e.1)));
        }
    } else {
        assert forall|a: int, b: int| !#[trigger] has_pair(both_ways(local, table), a, b) by {}
    }
}

/// In both directions the edges run between the same positions.
pub proof fn both_ways_within(local: Seq<LocalEdge>, table: PairTable, n: int)
    requires
        edges_within(local, n),
    ensures
        edges_within(both_ways(local, table), n),
{
    let list = both_ways(local, table);
    both_ways_law(local, table);
    assert forall|x: int| 0 <= x < list.len() implies (#[trigger] list[x]).0 < n && list[x].1
        < n by {
        let a = list[x].0 as int;
        let b = list[x].1 as int;
        assert(has_pair(list, a, b));
        if has_pair(local, a, b) {
            let y = choose|y: int|
                0 <= y < local.len() && (#[trigger] local[y]).0 == a && local[y].1 == b;
            assert(local[y].0 < n);
        } else {
            let y = choose|y: int|
                0 <= y < local.len() && (#[trigger] local[y]).0 == b && local[y].1 == a;
            assert(local[y].0 < n);
        }
    }
}

proof fn last_pair(local: Seq<LocalEdge>, a: int, b: int)
    requires
        local.len() > 0,
    ensures
        has_pair(local, a, b) == (has_pair(local.drop_last(), a, b) || (local.last().0 == a
            && local.last().1 == b)),
{
    let front = local.drop_last();
    if has_pair(front, a, b) {
        let x = choose|x: int|
            0 <= x < front.len() && (#[trigger] front[x]).0 == a && front[x].1 == b;
        assert(local[x].0 == a);
    }
    if has_pair(local, a, b) {
        let x = choose|x: int|
            0 <= x < local.len() && (#[trigger] local[x]).0 == a && local[x].1 == b;
        if x < front.len() {
            assert(front[x].0 == a);
        }
    }
    if local.last().0 == a && local.last().1 == b {
        assert(local[local.len() - 1].0 == a);
    }
}

/// Distances between positions, looked up in an `n` by `n` matrix.
pub(crate) struct ByMatrix<'a> {
    pub dm: &'a [Real],
    pub n: usize,
}

impl<'a> PairSource for ByMatrix<'a> {
    open spec fn covers(&self, n: int) -> bool {
        n == self.n && n * n <= self.dm@.len()
    }

    open spec fn table(&self) -> PairTable {
        matrix_table(self.dm@, self.n as int)
    }

    open spec fn answered(&self) -> PairTest {
        |i: int, j: int| true
    }

    fn between(&self, i: usize, j: usize, Ghost(n): Ghost<int>) -> (r: Real) {
        proof {
            row_bounds(i as int, n, n);
            assert(self.dm.len() == self.dm@.len());
        }
        self.dm[i * self.n + j]
    }
}

/// The edges of a list between positions whose mark is not set, in their order.
pub open spec fn unmarked(list: Seq<LocalEdge>, n: int, marks: Seq<bool>) -> Seq<LocalEdge>
    decreases list.len(),
{
    if list.len() == 0 {
        list
    } else {
        let e = list.last();
        let front = unmarked(list.drop_last(), n, marks);
        if marks[e.0 * n + e.1] {
            front
        } else {
            front.push(e)
        }
    }
}

/// Where no mark is set, no edge is left out.
pub proof fn unmarked_is_all(list: Seq<LocalEdge>, n: int, marks: Seq<bool>)
    requires
        edges_within(list, n),
        forall|x: int| 0 <= x < n * n ==> !(#[trigger] marks[x]),
    ensures
        unmarked(list, n, marks) == list,
    decreases list.len(),
{
    if list.len() > 0 {
        let e = list.last();
        let front = list.drop_last();
        assert(list[list.len() - 1].0 < n);
        assert(edges_within(front, n)) by {
            assert forall|x: int| 0 <= x < front.len() implies (#[trigger] front[x]).0 < n
                && front[x].1 < n by {
                assert(list[x].0 < n);
            }
        }
        unmarked_is_all(front, n, marks);
        cell_apart(n, e.0 as int, e.1 as int, e.0 as int, e.1 as int);
        assert(front.push(e) =~= list);
    }
}

proof fn with_edge_unmarked(
    list: Seq<LocalEdge>,
    s: usize,
    d: usize,
    w: Real,
    n: int,
    marks: Seq<bool>,
)
    ensures
        unmarked(with_edge(list, s, d, w), n, marks) == if has_pair(list, s as int, d as int)
            || marks[s * n + d] {
            unmarked(list, n, marks)
        } else {
            unmarked(list, n, marks).push((s, d, w))
        },
{
    if !has_pair(list, s as int, d as int) {
        assert(with_edge(list, s, d, w).drop_last() =~= list);
    }
}

/// A pair was marked before, or is in the list.
spec fn noted(marks: Seq<bool>, list: Seq<LocalEdge>, n: int, a: int, b: int) -> bool {
    marks[a * n + b] || has_pair(list, a, b)
}

/// The marks after the edges of a list were taken in both directions: those that were set before,
/// and those of the pairs that the list has in either direction. Marks behind those of the `n` by
/// `n` pairs stay as they were.
pub open spec fn marked(local: Seq<LocalEdge>, n: int, before: Seq<bool>, after: Seq<bool>) -> bool {
    &&& after.len() == before.len()
    &&& forall|a: int, b: int|
        0 <= a < n && 0 <= b < n ==> #[trigger] after[a * n + b] == (before[a * n + b] || has_pair(
            local,
            a,
            b,
        ) || has_pair(local, b, a))
    &&& after.skip(n * n) == before.skip(n * n)
}

/// Turns the edges of a leaf into edges between points in both directions. `seen` has one mark
/// per pair of positions; pairs that are marked are left out, and those that are put out get their
/// mark.
pub(crate) fn both_directions<S: PairSource>(
    local_edges: &Vec<LocalEdge>,
    pairs: &S,
    n: usize,
    indices: &[usize],
    seen: &mut [bool],
) -> (edges: Vec<Edge>)
    requires
        pairs.covers(n as int),
        n <= indices@.len(),
        n * n <= old(seen)@.len(),
        edges_within(local_edges@, n as int),
    ensures
        edges@ == between_points(
            unmarked(both_ways(local_edges@, pairs.table()), n as int, old(seen)@),
            indices@,
        ),
        marked(local_edges@, n as int, old(seen)@, final(seen)@),
{
    let mut edges: Vec<Edge> = Vec::new();
    let ghost mut list = Seq::<LocalEdge>::empty();
    let ghost table = pairs.table();
    let ghost size = seen@.len();
    let ghost marks = seen@;
    let mut x: usize = 0;
    proof {
        assert(seen.len() == seen@.len());
        assert forall|a: int, b: int| 0 <= a < n && 0 <= b < n implies seen@[a * n + b]
            == #[trigger] noted(marks, list, n as int, a, b) by {}
        assert(edges@ =~= between_points(unmarked(list, n as int, marks), indices@));
        assert(local_edges@.take(0) =~= Seq::<LocalEdge>::empty());
    }
    while x < local_edges.len()
        invariant
            x <= local_edges.len(),
            pairs.covers(n as int),
            table == pairs.table(),
            n <= indices@.len(),
            n * n <= size <= usize::MAX,
            seen@.len() == size == marks.len(),
            forall|y: int| n * n <= y < size ==> #[trigger] seen@[y] == marks[y],
            edges_within(local_edges@, n as int),
            list == both_ways(local_edges@.take(x as int), table),
            edges@ == between_points(unmarked(list, n as int, marks), indices@),
            forall|a: int, b: int|
                0 <= a < n && 0 <= b < n ==> seen@[a * n + b] == #[trigger] noted(
                    marks,
                    list,
                    n as int,
                    a,
                    b,
                ),
        decreases local_edges.len() - x,
    {
        let e = local_edges[x];
        let src: usize = e.0;
        let dst: usize = e.1;
        proof {
            assert(local_edges@[x as int].0 < n);
            assert(local_edges@.take(x + 1).drop_last() =~= local_edges@.take(x as int));
            assert(local_edges@.take(x + 1).last() == e);
            row_bounds(src as int, n as int, n as int);
            row_bounds(dst as int, n as int, n as int);
            cell_apart(n as int, src as int, dst as int, dst as int, src as int);
            cell_apart(n as int, dst as int, src as int, src as int, dst as int);
            with_edge_pairs(list, src, dst, e.2);
            with_edge_unmarked(list, src, dst, e.2, n as int, marks);
        }
        let ghost there = with_edge(list, src, dst, e.2);
        let forth: usize = src * n + dst;
        let back: usize = dst * n + src;
        let ghost before_seen = seen@;
        assert(seen@[src * n + dst] == noted(marks, list, n as int, src as int, dst as int));
        if !seen[forth] {
            seen[forth] = true;
            edges.push(Edge { src: indices[src], dst: indices[dst], distance: e.2 });
        }
        proof {
            assert(edges@ =~= between_points(unmarked(there, n as int, marks), indices@));
            assert forall|a: int, b: int| 0 <= a < n && 0 <= b < n implies seen@[a * n + b]
                == #[trigger] noted(marks, there, n as int, a, b) by {
                cell_apart(n as int, a, b, src as int, dst as int);
                assert(before_seen[a * n + b] == noted(marks, list, n as int, a, b));
            }
        }
        let ghost mid_seen = seen@;
        assert(seen@[dst * n + src] == noted(marks, there, n as int, dst as int, src as int));
        let ghost w = table(dst as int, src as int);
        proof {
            with_edge_pairs(there, dst, src, w);
            with_edge_unmarked(there, dst, src, w, n as int, marks);
        }
        if !seen[back] {
            seen[back] = true;
            let reverse = pairs.between(dst, src, Ghost(n as int));
            edges.push(Edge { src: indices[dst], dst: indices[src], distance: reverse });
        }
        proof {
            list = with_edge(there, dst, src, w);
            assert(edges@ =~= between_points(unmarked(list, n as int, marks), indices@));
            assert forall|a: int, b: int| 0 <= a < n && 0 <= b < n implies seen@[a * n + b]
                == #[trigger] noted(marks, list, n as int, a, b) by {
                cell_apart(n as int, a, b, dst as int, src as int);
                assert(mid_seen[a * n + b] == noted(marks, there, n as int, a, b));
            }
        }
        x += 1;
    }
    proof {
        assert(local_edges@.take(x as int) =~= local_edges@);
        both_ways_law(local_edges@, table);
        assert forall|a: int, b: int| 0 <= a < n && 0 <= b < n implies #[trigger] seen@[a * n + b]
            == (marks[a * n + b] || has_pair(local_edges@, a, b) || has_pair(local_edges@, b, a)) by {
            assert(seen@[a * n + b] == noted(marks, list, n as int, a, b));
        }
        assert(seen@.skip(n * n) =~= marks.skip(n * n));
    }
    edges
}

/// Different cells of an `n` by `n` matrix have different places.
pub(crate) proof fn cell_apart(n: int, a: int, b: int, c: int, d: int)
    requires
        0 <= a < n,
        0 <= b < n,
        0 <= c < n,
        0 <= d < n,
    ensures
        (a * n + b == c * n + d) == (a == c && b == d),
        0 <= a * n + b < n * n,
{
    row_bounds(a, n, n);
    if a < c {
        rows_apart(a, c, n);
    } else if c < a {
        rows_apart(c, a, n);
    }
}

/// Turns nearest-neighbour edges of a leaf into edges between points in both directions. `seen`
/// has one mark per pair of positions; pairs that are marked are left out, and those that are put
/// out get their mark.
pub fn make_bidirected_edges(
    local_edges: &Vec<LocalEdge>,
    dist_matrix: &[Real],
    n: usize,
    indices: &[usize],
    seen: &mut [bool],
) -> (edges: Vec<Edge>)
    requires
        n * n <= dist_matrix@.len(),
        n <= indices@.len(),
        n * n <= old(seen)@.len(),
        edges_within(local_edges@, n as int),
    ensures
        edges@ == between_points(
            unmarked(
                both_ways(local_edges@, matrix_table(dist_matrix@, n as int)),
                n as int,
                old(seen)@,
            ),
            indices@,
        ),
        marked(local_edges@, n as int, old(seen)@, final(seen)@),
{
    both_directions(local_edges, &ByMatrix { dm: dist_matrix, n }, n, indices, seen)
}

/// The squared distances of all rows of a data set to a query.
pub open spec fn query_distances<A: Arithmetic>(
    ops: A,
    data: Seq<Real>,
    ndims: int,
    npoints: int,
    query: Seq<Real>,
) -> Seq<Real> {
    Seq::new(npoints as nat, |i: int| squared_l2_of(ops, row(data, ndims, i), query))
}

/// The `k` points at the smallest distances, from near to far, with their distances.
pub open spec fn nearest_points(dists: Seq<Real>, k: int) -> Seq<(usize, Real)> {
    let order = argsort(rank_keys(dists));
    Seq::new(
        if k < dists.len() {
            k as nat
        } else {
            dists.len()
        },
        |i: int| (order[i] as usize, dists[order[i]]),
    )
}

/// The `k` points nearest to the query, from near to far, with their squared distances.
pub fn brute_force_knn<A: Arithmetic>(
    ops: &A,
    data: &[Real],
    ndims: usize,
    npoints: usize,
    query: &[Real],
    k: usize,
) -> (out: Vec<(usize, Real)>)
    requires
        ops.ready(),
        npoints * ndims <= data@.len(),
        query@.len() == ndims,
    ensures
        out.len() == if k < npoints { k } else { npoints },
        out@ == nearest_points(
            query_distances(*ops, data@, ndims as int, npoints as int, query@),
            k as int,
        ),
        ({
            let dists = query_distances(*ops, data@, ndims as int, npoints as int, query@);
            let order = argsort(rank_keys(dists));
            forall|i: int|
                0 <= i < out.len() ==> (#[trigger] out@[i]).0 == order[i] && out@[i].1
                    == dists[order[i]]
        }),
{
    let ghost dists = query_distances(*ops, data@, ndims as int, npoints as int, query@);
    let mut values: Vec<Real> = Vec::with_capacity(npoints);
    let mut keys: Vec<u64> = Vec::with_capacity(npoints);
    let mut i: usize = 0;
    while i < npoints
        invariant
            i <= npoints,
            ops.ready(),
            npoints * ndims <= data@.len(),
            query@.len() == ndims,
            dists == query_distances(*ops, data@, ndims as int, npoints as int, query@),
            values.len() == i,
            keys.len() == i,
            forall|x: int| 0 <= x < i ==> #[trigger] values@[x] == dists[x],
            forall|x: int| 0 <= x < i ==> #[trigger] keys@[x] == dists[x].rank() as u64,
        decreases npoints - i,
    {
        let point = row_slice(data, ndims, i, Ghost(npoints as int));
        let d = squared_l2(ops, point, query);
        values.push(d);
        keys.push(d.order_rank() as u64);
        i += 1;
    }
    assert(keys@ =~= rank_keys(dists));
    let order = sort_positions(&keys);
    let take: usize = if k < npoints { k } else { npoints };
    let mut out: Vec<(usize, Real)> = Vec::with_capacity(take);
    let mut t: usize = 0;
    while t < take
        invariant
            t <= take <= npoints,
            values.len() == npoints,
            order.len() == npoints,
            forall|x: int| 0 <= x < npoints ==> #[trigger] values@[x] == dists[x],
            forall|x: int| 0 <= x < npoints ==> #[trigger] order[x] < npoints,
            positions(order@) == argsort(rank_keys(dists)),
            out.len() == t,
            forall|x: int|
                0 <= x < t ==> (#[trigger] out@[x]).0 == argsort(rank_keys(dists))[x] && out@[x].1
                    == dists[argsort(rank_keys(dists))[x]],
        decreases take - t,
    {
        let at: usize = order[t];
        assert(positions(order@)[t as int] == at);
        out.push((at, values[at]));
        t += 1;
    }
    assert(out@ =~= nearest_points(dists, k as int));
    out
}

} // verus!
