//! Leaf builders that prune the neighbours of each point inside the leaf.

use crate::arith::Arithmetic;
use crate::cache::{gather_rows, gathered, rows_exist};
use crate::gemm::row_slice;
use crate::knn::{cell_apart, Edge};
use crate::ladder::{climbable, ladder};
use crate::leaf_build::{
    cell_of, fill_dist_matrix, gathered_matrix, leaf_matrix, matrix_scratch, LeafBuffers,
};
use crate::measure::{
    answers, ask_vectors, row, row_bounds, vector_measure, vector_value, PairSource, PairTable,
    PairTest,
};
use crate::metric::Metric;
use crate::number::Real;
use crate::prune::{
    near_to_far, occlude_list, position_ratio, pruned, pruned_valid, rank_keys, selection,
};
use crate::sort::{argsort, argsort_ascending, positions, sort_positions};
use vstd::prelude::*;
use vstd::slice::slice_subrange;

verus! {

/// The positions of a leaf of `n` points other than `i`, ascending.
pub open spec fn others(n: int, i: int) -> Seq<int> {
    Seq::new((n - 1) as nat, |x: int| if x < i { x } else { x + 1 })
}

/// The distances from position `i` to listed positions.
pub open spec fn listed_distances(dm: Seq<Real>, n: int, i: int, list: Seq<int>) -> Seq<Real> {
    list.map_values(|j: int| dm[i * n + j])
}

/// The candidates of position `i`: its `leaf_k` nearest others, from near to far, or all others
/// where no number is asked for or there are no more than that.
pub open spec fn leaf_candidates(dm: Seq<Real>, n: int, i: int, leaf_k: Option<usize>) -> Seq<int> {
    let all = others(n, i);
    match leaf_k {
        Some(k) if k < n - 1 => {
            let order = argsort(rank_keys(listed_distances(dm, n, i, all)));
            Seq::new(k as nat, |x: int| all[order[x]])
        },
        _ => all,
    }
}

/// The distances between candidates.
pub open spec fn candidate_matrix(dm: Seq<Real>, n: int, list: Seq<int>) -> PairTable {
    |a: int, b: int| dm[list[a] * n + list[b]]
}

/// Which candidates of position `i` are kept, in order: those that pruning selects, or all.
pub open spec fn leaf_choice<A: Arithmetic>(
    ops: A,
    dm: Seq<Real>,
    n: int,
    i: int,
    leaf_k: Option<usize>,
    max_degree: int,
    alpha: Real,
    leaf_prune: bool,
) -> Seq<int> {
    let list = leaf_candidates(dm, n, i, leaf_k);
    if leaf_prune {
        selection(
            list.len() as int,
            listed_distances(dm, n, i, list),
            max_degree,
            alpha,
            false,
            candidate_matrix(dm, n, list),
            ops,
        )
    } else {
        Seq::new(list.len(), |x: int| x)
    }
}

/// The edges that leave position `i`.
pub open spec fn node_edges<A: Arithmetic>(
    ops: A,
    dm: Seq<Real>,
    n: int,
    indices: Seq<usize>,
    i: int,
    leaf_k: Option<usize>,
    max_degree: int,
    alpha: Real,
    leaf_prune: bool,
) -> Seq<Edge> {
    let list = leaf_candidates(dm, n, i, leaf_k);
    leaf_choice(ops, dm, n, i, leaf_k, max_degree, alpha, leaf_prune).map_values(
        |s: int|
            Edge { src: indices[i], dst: indices[list[s]], distance: dm[i * n + list[s]] },
    )
}

/// The edges that leave the first `m` positions, position by position.
pub open spec fn pruned_leaf_edges<A: Arithmetic>(
    ops: A,
    dm: Seq<Real>,
    n: int,
    indices: Seq<usize>,
    m: int,
    leaf_k: Option<usize>,
    max_degree: int,
    alpha: Real,
    leaf_prune: bool,
) -> Seq<Edge>
    decreases m,
{
    if m <= 0 {
        Seq::empty()
    } else {
        pruned_leaf_edges(ops, dm, n, indices, m - 1, leaf_k, max_degree, alpha, leaf_prune)
            + node_edges(ops, dm, n, indices, m - 1, leaf_k, max_degree, alpha, leaf_prune)
    }
}

/// Candidates are other positions of the leaf.
pub proof fn candidates_are_others(dm: Seq<Real>, n: int, i: int, leaf_k: Option<usize>)
    requires
        0 <= i < n,
    ensures
        leaf_candidates(dm, n, i, leaf_k).len() <= n - 1,
        forall|x: int|
            0 <= x < leaf_candidates(dm, n, i, leaf_k).len() ==> {
                &&& 0 <= #[trigger] leaf_candidates(dm, n, i, leaf_k)[x] < n
                &&& leaf_candidates(dm, n, i, leaf_k)[x] != i
            },
{
    let all = others(n, i);
    let keys = rank_keys(listed_distances(dm, n, i, all));
    argsort_ascending(keys);
    let list = leaf_candidates(dm, n, i, leaf_k);
    assert forall|x: int| 0 <= x < list.len() implies 0 <= #[trigger] list[x] < n && list[x] != i by {
        match leaf_k {
            Some(k) if k < n - 1 => {
                assert(0 <= argsort(keys)[x] < keys.len());
            },
            _ => {},
        }
    }
}

/// Edges of a leaf stay in the leaf, no point is its own neighbour, and where pruning is asked
/// for, no point has more than `max_degree` edges.
pub proof fn node_edges_valid<A: Arithmetic>(
    ops: A,
    dm: Seq<Real>,
    n: int,
    indices: Seq<usize>,
    i: int,
    leaf_k: Option<usize>,
    max_degree: int,
    alpha: Real,
    leaf_prune: bool,
)
    requires
        0 <= i < n,
        indices.len() == n,
        indices.no_duplicates(),
        0 <= max_degree,
    ensures
        ({
            let edges = node_edges(
                ops,
                dm,
                n,
                indices,
                i,
                leaf_k,
                max_degree,
                alpha,
                leaf_prune,
            );
            &&& leaf_prune ==> edges.len() <= max_degree
            &&& forall|x: int|
                0 <= x < edges.len() ==> {
                    &&& (#[trigger] edges[x]).src == indices[i]
                    &&& indices.contains(edges[x].dst)
                    &&& edges[x].dst != edges[x].src
                }
        }),
{
    let edges = node_edges(ops, dm, n, indices, i, leaf_k, max_degree, alpha, leaf_prune);
    let list = leaf_candidates(dm, n, i, leaf_k);
    let nc = list.len() as int;
    let choice = leaf_choice(ops, dm, n, i, leaf_k, max_degree, alpha, leaf_prune);
    candidates_are_others(dm, n, i, leaf_k);
    selection_within(
        ops,
        nc,
        listed_distances(dm, n, i, list),
        max_degree,
        alpha,
        candidate_matrix(dm, n, list),
    );
    assert forall|x: int| 0 <= x < edges.len() implies {
        &&& (#[trigger] edges[x]).src == indices[i]
        &&& indices.contains(edges[x].dst)
        &&& edges[x].dst != edges[x].src
    } by {
        assert(0 <= choice[x] < nc);
        assert(0 <= list[choice[x]] < n && list[choice[x]] != i);
    }
}

pub(crate) proof fn selection_within<A: Arithmetic>(
    ops: A,
    nc: int,
    node_dists: Seq<Real>,
    max_degree: int,
    alpha: Real,
    pairs: PairTable,
)
    requires
        0 <= nc,
        node_dists.len() == nc,
        0 <= max_degree,
    ensures
        selection(nc, node_dists, max_degree, alpha, false, pairs, ops).len() <= max_degree,
        forall|x: int|
            0 <= x < selection(nc, node_dists, max_degree, alpha, false, pairs, ops).len() ==> 0
                <= #[trigger] selection(nc, node_dists, max_degree, alpha, false, pairs, ops)[x] < nc,
{
    let degree = if max_degree <= nc { max_degree } else { nc };
    let rel = position_ratio(node_dists, nc, pairs, ops);
    pruned_valid(rel, nc, degree, ladder(ops, alpha), false);
    argsort_ascending(rank_keys(node_dists.take(nc)));
    let taken = pruned(rel, nc, degree, ladder(ops, alpha), false);
    let order = near_to_far(node_dists, nc);
    let chosen = selection(nc, node_dists, max_degree, alpha, false, pairs, ops);
    assert forall|x: int| 0 <= x < chosen.len() implies 0 <= #[trigger] chosen[x] < nc by {
        assert(0 <= taken[x] < nc);
        assert(0 <= order[taken[x]] < nc);
    }
}

/// Asking for at least as many candidates as there are others is asking for all of them.
pub proof fn full_k_is_all_pairs<A: Arithmetic>(
    ops: A,
    dm: Seq<Real>,
    n: int,
    indices: Seq<usize>,
    m: int,
    k: usize,
    max_degree: int,
    alpha: Real,
    leaf_prune: bool,
)
    requires
        k >= n - 1,
    ensures
        pruned_leaf_edges(ops, dm, n, indices, m, Some(k), max_degree, alpha, leaf_prune)
            == pruned_leaf_edges(ops, dm, n, indices, m, None, max_degree, alpha, leaf_prune),
    decreases m,
{
    if m > 0 {
        full_k_is_all_pairs(ops, dm, n, indices, m - 1, k, max_degree, alpha, leaf_prune);
        assert(leaf_candidates(dm, n, m - 1, Some(k)) == leaf_candidates(dm, n, m - 1, None));
    }
}

/// Distances between listed positions, looked up in an `n` by `n` matrix.
struct ByListed<'a> {
    dm: &'a [Real],
    n: usize,
    list: &'a Vec<usize>,
}

impl<'a> PairSource for ByListed<'a> {
    closed spec fn covers(&self, m: int) -> bool {
        &&& m <= self.list@.len()
        &&& self.n * self.n <= self.dm@.len()
        &&& forall|x: int| 0 <= x < m ==> #[trigger] self.list@[x] < self.n
    }

    closed spec fn table(&self) -> PairTable {
        candidate_matrix(self.dm@, self.n as int, positions(self.list@))
    }

    closed spec fn answered(&self) -> PairTest {
        |i: int, j: int| true
    }

    fn between(&self, i: usize, j: usize, Ghost(m): Ghost<int>) -> (r: Real) {
        let a: usize = self.list[i];
        let b: usize = self.list[j];
        proof {
            assert(positions(self.list@)[i as int] == a);
            assert(positions(self.list@)[j as int] == b);
            row_bounds(a as int, self.n as int, self.n as int);
            assert(self.dm.len() == self.dm@.len());
        }
        self.dm[a * self.n + b]
    }
}

/// Lists the candidates of position `i`.
fn list_candidates(dm: &[Real], n: usize, i: usize, leaf_k: Option<usize>) -> (list: Vec<usize>)
    requires
        i < n,
        n * n <= dm@.len(),
    ensures
        positions(list@) == leaf_candidates(dm@, n as int, i as int, leaf_k),
        list.len() < n,
        forall|x: int| 0 <= x < list.len() ==> #[trigger] list@[x] < n && list@[x] != i,
{
    proof {
        row_bounds(i as int, n as int, n as int);
        assert(dm.len() == dm@.len());
    }
    let start: usize = i * n;
    let mut all: Vec<usize> = Vec::with_capacity(n);
    let mut j: usize = 0;
    while j < n
        invariant
            i < n,
            j <= n,
            all.len() == if j <= i { j as int } else { j - 1 },
            forall|x: int| 0 <= x < all.len() ==> #[trigger] all@[x] == if x < i { x } else { x + 1 },
        decreases n - j,
    {
        if j != i {
            all.push(j);
        }
        j += 1;
    }
    let ghost spec_all = others(n as int, i as int);
    proof {
        assert(positions(all@) =~= spec_all);
        candidates_are_others(dm@, n as int, i as int, leaf_k);
    }
    match leaf_k {
        Some(k) => if k < n - 1 {
            let mut keys: Vec<u64> = Vec::with_capacity(n - 1);
            let mut x: usize = 0;
            while x < n - 1
                invariant
                    i < n,
                    x <= n - 1,
                    start == i * n,
                    start + n <= dm@.len() <= usize::MAX,
                    all.len() == n - 1,
                    forall|y: int|
                        0 <= y < all.len() ==> #[trigger] all@[y] == if y < i { y } else { y + 1 },
                    keys.len() == x,
                    forall|y: int|
                        0 <= y < x ==> #[trigger] keys@[y] == dm@[i * n + all@[y]].rank() as u64,
                decreases n - 1 - x,
            {
                let at: usize = all[x];
                keys.push(dm[start + at].order_rank() as u64);
                x += 1;
            }
            assert(keys@ =~= rank_keys(listed_distances(dm@, n as int, i as int, spec_all)));
            let order = sort_positions(&keys);
            let mut list: Vec<usize> = Vec::with_capacity(k);
            let mut x: usize = 0;
            while x < k
                invariant
                    x <= k < n - 1,
                    all.len() == n - 1,
                    order.len() == n - 1,
                    positions(all@) == spec_all,
                    forall|y: int| 0 <= y < order.len() ==> #[trigger] order@[y] < n - 1,
                    list.len() == x,
                    forall|y: int| 0 <= y < x ==> #[trigger] list@[y] == spec_all[order@[y] as int],
                decreases k - x,
            {
                let at: usize = order[x];
                assert(positions(all@)[at as int] == all@[at as int]);
                list.push(all[at]);
                x += 1;
            }
            proof {
                let goal = leaf_candidates(dm@, n as int, i as int, leaf_k);
                assert forall|y: int| 0 <= y < k implies positions(list@)[y] == goal[y] by {
                    assert(positions(order@)[y] == order@[y]);
                    assert(list@[y] == spec_all[order@[y] as int]);
                }
                assert(positions(list@) =~= goal);
                assert forall|x: int| 0 <= x < list.len() implies #[trigger] list@[x] < n && list@[x]
                    != i by {
                    assert(positions(list@)[x] == goal[x]);
                }
            }
            return list;
        },
        None => {},
    }
    proof {
        assert forall|x: int| 0 <= x < all.len() implies #[trigger] all@[x] < n && all@[x] != i by {}
    }
    all
}

/// Chooses the neighbours of every point of a leaf from its distance matrix and puts out the
/// edges to them.
pub fn prune_leaf_from_matrix<A: Arithmetic>(
    ops: &A,
    dm: &[Real],
    n: usize,
    indices: &[usize],
    leaf_k: Option<usize>,
    max_degree: usize,
    alpha: Real,
    leaf_prune: bool,
) -> (edges: Vec<Edge>)
    requires
        n <= u32::MAX,
        n * n <= dm@.len(),
        n <= indices@.len(),
        leaf_prune ==> climbable(*ops, alpha),
    ensures
        edges@ == pruned_leaf_edges(
            *ops,
            dm@,
            n as int,
            indices@,
            n as int,
            leaf_k,
            max_degree as int,
            alpha,
            leaf_prune,
        ),
{
    let mut edges: Vec<Edge> = Vec::new();
    let mut i: usize = 0;
    while i < n
        invariant
            i <= n,
            n <= u32::MAX,
            n * n <= dm@.len(),
            n <= indices@.len(),
            leaf_prune ==> climbable(*ops, alpha),
            edges@ == pruned_leaf_edges(
                *ops,
                dm@,
                n as int,
                indices@,
                i as int,
                leaf_k,
                max_degree as int,
                alpha,
                leaf_prune,
            ),
        decreases n - i,
    {
        proof {
            row_bounds(i as int, n as int, n as int);
            assert(dm.len() == dm@.len());
        }
        let start: usize = i * n;
        let list = list_candidates(dm, n, i, leaf_k);
        let nc: usize = list.len();
        let ghost spec_list = positions(list@);
        let mut node_dists: Vec<Real> = Vec::with_capacity(nc);
        let mut x: usize = 0;
        while x < nc
            invariant
                x <= nc == list.len(),
                i < n,
                start == i * n,
                start + n <= dm@.len() <= usize::MAX,
                spec_list == positions(list@),
                forall|y: int| 0 <= y < nc ==> #[trigger] list@[y] < n,
                node_dists.len() == x,
                forall|y: int| 0 <= y < x ==> #[trigger] node_dists@[y] == dm@[i * n + spec_list[y]],
            decreases nc - x,
        {
            let at: usize = list[x];
            assert(spec_list[x as int] == at);
            node_dists.push(dm[start + at]);
            x += 1;
        }
        assert(node_dists@ =~= listed_distances(dm@, n as int, i as int, spec_list));
        let ghost choice = leaf_choice(
            *ops,
            dm@,
            n as int,
            i as int,
            leaf_k,
            max_degree as int,
            alpha,
            leaf_prune,
        );
        let selected: Vec<u32> = if leaf_prune {
            occlude_list(
                nc,
                node_dists.as_slice(),
                max_degree,
                alpha,
                false,
                &ByListed { dm, n, list: &list },
                ops,
            )
        } else {
            let mut all: Vec<u32> = Vec::with_capacity(nc);
            let mut x: usize = 0;
            while x < nc
                invariant
                    x <= nc <= u32::MAX,
                    all.len() == x,
                    forall|y: int| 0 <= y < x ==> #[trigger] all@[y] == y,
                decreases nc - x,
            {
                all.push(x as u32);
                x += 1;
            }
            all
        };
        let ghost before = edges@;
        let ghost fresh = node_edges(
            *ops,
            dm@,
            n as int,
            indices@,
            i as int,
            leaf_k,
            max_degree as int,
            alpha,
            leaf_prune,
        );
        proof {
            assert(selected@.map_values(|s: u32| s as int) =~= choice);
            assert forall|y: int| 0 <= y < selected.len() implies #[trigger] selected@[y] as int
                == choice[y] by {
                assert(selected@.map_values(|s: u32| s as int)[y] == choice[y]);
            }
            assert(fresh.len() == selected.len());
        }
        let mut x: usize = 0;
        while x < selected.len()
            invariant
                x <= selected.len(),
                i < n,
                nc == list.len(),
                nc == node_dists.len(),
                n <= indices@.len(),
                spec_list == positions(list@),
                spec_list == leaf_candidates(dm@, n as int, i as int, leaf_k),
                forall|y: int| 0 <= y < selected.len() ==> #[trigger] selected@[y] < nc,
                forall|y: int| 0 <= y < selected.len() ==> #[trigger] selected@[y] as int == choice[y],
                forall|y: int| 0 <= y < nc ==> #[trigger] list@[y] < n,
                node_dists@ == listed_distances(dm@, n as int, i as int, spec_list),
                choice == leaf_choice(
                    *ops,
                    dm@,
                    n as int,
                    i as int,
                    leaf_k,
                    max_degree as int,
                    alpha,
                    leaf_prune,
                ),
                fresh == node_edges(
                    *ops,
                    dm@,
                    n as int,
                    indices@,
                    i as int,
                    leaf_k,
                    max_degree as int,
                    alpha,
                    leaf_prune,
                ),
                fresh.len() == selected.len(),
                edges@ == before + fresh.take(x as int),
            decreases selected.len() - x,
        {
            let s: usize = selected[x] as usize;
            let lj: usize = list[s];
            assert(spec_list[s as int] == lj);
            assert(choice[x as int] == s);
            edges.push(Edge { src: indices[i], dst: indices[lj], distance: node_dists[s] });
            proof {
                assert(edges@.last() == fresh[x as int]);
                assert(edges@ =~= before + fresh.take(x + 1));
            }
            x += 1;
        }
        proof {
            assert(fresh.take(x as int) =~= fresh);
        }
        i += 1;
    }
    edges
}

/// The distance matrix of a leaf under a supplied distance, measured once per pair from the
/// earlier position.
pub open spec fn direct_matrix<D: Fn(&[Real], &[Real]) -> Real>(
    dist_fn: D,
    data: Seq<Real>,
    ndims: int,
    indices: Seq<usize>,
) -> Seq<Real> {
    let n = indices.len() as int;
    Seq::new((n * n) as nat, |x: int| direct_entry(dist_fn, data, ndims, indices, x / n, x % n))
}

/// Entry `(i, j)` of that matrix.
pub open spec fn direct_entry<D: Fn(&[Real], &[Real]) -> Real>(
    dist_fn: D,
    data: Seq<Real>,
    ndims: int,
    indices: Seq<usize>,
    i: int,
    j: int,
) -> Real {
    if i == j {
        Real::spec_max()
    } else {
        let first = if i < j { i } else { j };
        let second = if i < j { j } else { i };
        vector_value(
            dist_fn,
            row(data, ndims, indices[first] as int),
            row(data, ndims, indices[second] as int),
        )
    }
}

/// The distances between the points of a leaf with positions `i < j` and `i` below `m` are answers.
pub open spec fn direct_answered<D: Fn(&[Real], &[Real]) -> Real>(
    dist_fn: D,
    data: Seq<Real>,
    ndims: int,
    indices: Seq<usize>,
    m: int,
) -> bool {
    forall|i: int, j: int|
        0 <= i < j < indices.len() && i < m ==> answers(
            dist_fn,
            row(data, ndims, indices[i] as int),
            row(data, ndims, indices[j] as int),
            #[trigger] direct_entry(dist_fn, data, ndims, indices, i, j),
        )
}

/// Builds a leaf by pruning, for every point, all other points of the leaf. Distances are
/// measured pair by pair.
pub fn build_leaf_robust_no_gemm<D: Fn(&[Real], &[Real]) -> Real, A: Arithmetic>(
    ops: &A,
    data: &[Real],
    ndims: usize,
    indices: &[usize],
    max_degree: usize,
    alpha: Real,
    dist_fn: &D,
    bufs: &mut LeafBuffers,
) -> (edges: Vec<Edge>)
    requires
        vector_measure(*dist_fn, ndims as int, ndims as int),
        rows_exist(data@, ndims as int, indices@),
        indices@.len() <= u32::MAX,
        indices@.len() * ndims <= usize::MAX,
        indices@.len() * indices@.len() <= usize::MAX,
        climbable(*ops, alpha),
    ensures
        edges@ == pruned_leaf_edges(
            *ops,
            direct_matrix(*dist_fn, data@, ndims as int, indices@),
            indices@.len() as int,
            indices@,
            indices@.len() as int,
            None,
            max_degree as int,
            alpha,
            true,
        ),
        direct_answered(*dist_fn, data@, ndims as int, indices@, indices@.len() as int),
        final(bufs).point_cache == old(bufs).point_cache,
        final(bufs).fits(indices@.len() as int, ndims as int),
        gathered(data@, ndims as int, indices@, final(bufs).local_data@),
        final(bufs).dist_matrix@.take((indices@.len() * indices@.len()) as int) == direct_matrix(
            *dist_fn,
            data@,
            ndims as int,
            indices@,
        ),
{
    let n: usize = indices.len();
    bufs.ensure_capacity(n, ndims);
    gather_rows(data, ndims, indices, &mut bufs.local_data);
    let ghost local = bufs.local_data@;
    let ghost kept = *bufs;
    let mut i: usize = 0;
    while i < n
        invariant
            i <= n == indices@.len(),
            vector_measure(*dist_fn, ndims as int, ndims as int),
            bufs.fits(n as int, ndims as int),
            bufs.local_data@ == local,
            bufs.point_cache == kept.point_cache,
            gathered(data@, ndims as int, indices@, local),
            direct_answered(*dist_fn, data@, ndims as int, indices@, i as int),
            forall|x: int, y: int|
                0 <= x < n && 0 <= y < n && (x < i || y < i) ==> #[trigger] bufs.dist_matrix@[x * n
                    + y] == direct_entry(*dist_fn, data@, ndims as int, indices@, x, y),
        decreases n - i,
    {
        proof {
            cell_apart(n as int, i as int, i as int, i as int, i as int);
            row_bounds(i as int, n as int, n as int);
            assert(bufs.dist_matrix.len() == bufs.dist_matrix@.len());
        }
        let ghost prior = bufs.dist_matrix@;
        bufs.dist_matrix.set(i * n + i, Real::max_finite());
        proof {
            assert forall|x: int, y: int|
                0 <= x < n && 0 <= y < n && (x < i || y < i || (x == i && y
                    == i)) implies #[trigger] bufs.dist_matrix@[x * n + y] == direct_entry(
                *dist_fn,
                data@,
                ndims as int,
                indices@,
                x,
                y,
            ) by {
                cell_apart(n as int, x, y, i as int, i as int);
                if !(x == i && y == i) {
                    assert(prior[x * n + y] == direct_entry(
                        *dist_fn,
                        data@,
                        ndims as int,
                        indices@,
                        x,
                        y,
                    ));
                }
            }
        }
        let mut j: usize = i + 1;
        while j < n
            invariant
                i < j <= n,
                n == indices@.len(),
                vector_measure(*dist_fn, ndims as int, ndims as int),
                bufs.fits(n as int, ndims as int),
                bufs.local_data@ == local,
                bufs.point_cache == kept.point_cache,
                gathered(data@, ndims as int, indices@, local),
                direct_answered(*dist_fn, data@, ndims as int, indices@, i as int),
                forall|y: int|
                    i < y < j ==> answers(
                        *dist_fn,
                        row(data@, ndims as int, indices@[i as int] as int),
                        row(data@, ndims as int, indices@[y] as int),
                        #[trigger] direct_entry(
                            *dist_fn,
                            data@,
                            ndims as int,
                            indices@,
                            i as int,
                            y,
                        ),
                    ),
                forall|x: int, y: int|
                    0 <= x < n && 0 <= y < n && (x < i || y < i || (x == i && y < j) || (y == i && x
                        < j)) ==> #[trigger] bufs.dist_matrix@[x * n + y] == direct_entry(
                        *dist_fn,
                        data@,
                        ndims as int,
                        indices@,
                        x,
                        y,
                    ),
            decreases n - j,
        {
            let a = row_slice(bufs.local_data.as_slice(), ndims, i, Ghost(n as int));
            let b = row_slice(bufs.local_data.as_slice(), ndims, j, Ghost(n as int));
            let d = ask_vectors(dist_fn, a, b);
            proof {
                assert(row(local, ndims as int, i as int) == row(
                    data@,
                    ndims as int,
                    indices@[i as int] as int,
                ));
                assert(row(local, ndims as int, j as int) == row(
                    data@,
                    ndims as int,
                    indices@[j as int] as int,
                ));
                cell_apart(n as int, i as int, j as int, j as int, i as int);
                cell_apart(n as int, j as int, i as int, j as int, i as int);
                row_bounds(i as int, n as int, n as int);
                row_bounds(j as int, n as int, n as int);
                assert(bufs.dist_matrix.len() == bufs.dist_matrix@.len());
            }
            let ghost prior = bufs.dist_matrix@;
            bufs.dist_matrix.set(i * n + j, d);
            bufs.dist_matrix.set(j * n + i, d);
            proof {
                assert forall|x: int, y: int|
                    0 <= x < n && 0 <= y < n && (x < i || y < i || (x == i && y < j + 1) || (y == i
                        && x < j + 1)) implies #[trigger] bufs.dist_matrix@[x * n + y]
                    == direct_entry(*dist_fn, data@, ndims as int, indices@, x, y) by {
                    cell_apart(n as int, x, y, i as int, j as int);
                    cell_apart(n as int, x, y, j as int, i as int);
                    if !(x == i && y == j) && !(x == j && y == i) {
                        assert(prior[x * n + y] == direct_entry(
                            *dist_fn,
                            data@,
                            ndims as int,
                            indices@,
                            x,
                            y,
                        ));
                    }
                }
            }
            j += 1;
        }
        i += 1;
    }
    proof {
        assert(bufs.dist_matrix.len() == bufs.dist_matrix@.len());
    }
    let matrix = slice_subrange(bufs.dist_matrix.as_slice(), 0, n * n);
    proof {
        let goal = direct_matrix(*dist_fn, data@, ndims as int, indices@);
        assert forall|x: int| 0 <= x < n * n implies matrix@[x] == goal[x] by {
            cell_of(n as int, x);
            assert(matrix@[x] == bufs.dist_matrix@[(x / n as int) * n + x % n as int]);
        }
        assert(matrix@ =~= goal);
        assert(bufs.dist_matrix@.take(n * n) =~= goal);
    }
    prune_leaf_from_matrix(ops, matrix, n, indices, None, max_degree, alpha, true)
}

/// Builds a leaf from its distance matrix: the `leaf_k` nearest others of every point, pruned to
/// `max_degree` or, without `leaf_prune`, all of them.
pub fn build_leaf_gemm_topk_robust<A: Arithmetic>(
    ops: &A,
    data: &[Real],
    ndims: usize,
    indices: &[usize],
    leaf_k: usize,
    max_degree: usize,
    metric: Metric,
    alpha: Real,
    leaf_prune: bool,
    bufs: &mut LeafBuffers,
) -> (edges: Vec<Edge>)
    requires
        rows_exist(data@, ndims as int, indices@),
        indices@.len() <= u32::MAX,
        indices@.len() * ndims <= usize::MAX,
        indices@.len() * indices@.len() <= usize::MAX,
        ops.ready(),
        leaf_prune ==> climbable(*ops, alpha),
    ensures
        edges@ == pruned_leaf_edges(
            *ops,
            leaf_matrix(*ops, metric, data@, ndims as int, indices@),
            indices@.len() as int,
            indices@,
            indices@.len() as int,
            Some(leaf_k),
            max_degree as int,
            alpha,
            leaf_prune,
        ),
        final(bufs).point_cache == old(bufs).point_cache,
        final(bufs).fits(indices@.len() as int, ndims as int),
        gathered(data@, ndims as int, indices@, final(bufs).local_data@),
        final(bufs).dist_matrix@.take((indices@.len() * indices@.len()) as int) == leaf_matrix(
            *ops,
            metric,
            data@,
            ndims as int,
            indices@,
        ),
{
    let n: usize = indices.len();
    bufs.ensure_capacity(n, ndims);
    gemm_fill_dist_matrix(ops, data, ndims, indices, metric, bufs);
    let matrix = slice_subrange(bufs.dist_matrix.as_slice(), 0, n * n);
    prune_leaf_from_matrix(ops, matrix, n, indices, Some(leaf_k), max_degree, alpha, leaf_prune)
}

/// Fills the front of the distance matrix buffer with the distances of a leaf. The other buffers
/// keep what led to them, and nothing behind the leaf's own entries changes.
pub fn gemm_fill_dist_matrix<A: Arithmetic>(
    ops: &A,
    data: &[Real],
    ndims: usize,
    indices: &[usize],
    metric: Metric,
    bufs: &mut LeafBuffers,
)
    requires
        ops.ready(),
        rows_exist(data@, ndims as int, indices@),
        old(bufs).fits(indices@.len() as int, ndims as int),
    ensures
        final(bufs).fits(indices@.len() as int, ndims as int),
        final(bufs).dist_matrix@.take((indices@.len() * indices@.len()) as int) == leaf_matrix(
            *ops,
            metric,
            data@,
            ndims as int,
            indices@,
        ),
        final(bufs).point_cache == old(bufs).point_cache,
        final(bufs).local_data@.len() == old(bufs).local_data@.len(),
        gathered(data@, ndims as int, indices@, final(bufs).local_data@),
        final(bufs).local_data@.skip((indices@.len() * ndims) as int) == old(
            bufs,
        ).local_data@.skip((indices@.len() * ndims) as int),
        final(bufs).dist_matrix@.len() == old(bufs).dist_matrix@.len(),
        final(bufs).dist_matrix@.skip((indices@.len() * indices@.len()) as int) == old(
            bufs,
        ).dist_matrix@.skip((indices@.len() * indices@.len()) as int),
        matrix_scratch(
            *ops,
            metric,
            ndims as int,
            indices@.len() as int,
            *old(bufs),
            *final(bufs),
        ),
{
    let n: usize = indices.len();
    gather_rows(data, ndims, indices, &mut bufs.local_data);
    let ghost local = bufs.local_data@;
    fill_dist_matrix(ops, n, ndims, metric, bufs);
    proof {
        gathered_matrix(*ops, metric, data@, ndims as int, indices@, local);
        assert(bufs.dist_matrix.len() == bufs.dist_matrix@.len());
    }
}

} // verus!
