//! Building the edges of a leaf: all-pairs distances, nearest neighbours, edges in both
//! directions.

use crate::arith::Arithmetic;
use crate::cache::{
    gather_rows, gather_rows_cached, gathered, rows_exist, PointCache, POINT_CACHE_EMPTY,
    POINT_CACHE_LOG2_MAX,
};
use crate::gemm::{dot, dot_of, gram, row_slice, sgemm_aat};
use crate::knn::{
    between_points, both_ways, both_ways_within, cell_apart, edges_within, extract_knn, knn_edges,
    knn_width, make_bidirected_edges, matrix_row, matrix_table, unmarked_is_all, Edge,
};
use crate::leaf::{nearest_below_valid, rankable_below};
use crate::measure::{row, row_bounds};
use crate::metric::Metric;
use crate::number::{power_of_two, Real, TWO_BITS};
use crate::prune::rank_keys;
use crate::sort::{argsort, argsort_ascending};
use vstd::prelude::*;
use vstd::slice::slice_subrange;

verus! {

/// A number, but zero where it is negative or undefined.
pub open spec fn floored(d: Real) -> Real {
    if d.nan() || d.lt(Real::spec_zero()) {
        Real::spec_zero()
    } else {
        d
    }
}

pub(crate) fn floor_at_zero(d: Real) -> (r: Real)
    ensures
        r == floored(d),
{
    if d.is_nan() || d.is_less(Real::zero()) {
        Real::zero()
    } else {
        d
    }
}

/// The distance of two points of a leaf, from their squared lengths and their dot product.
pub open spec fn leaf_distance<A: Arithmetic>(
    ops: A,
    metric: Metric,
    ni: Real,
    nj: Real,
    dot: Real,
) -> Real {
    match metric {
        Metric::CosineNormalized => floored(ops.difference(Real::spec_one(), dot)),
        Metric::Cosine => {
            let den = ops.product(ops.root(ni), ops.root(nj));
            let cosine = if Real::spec_zero().lt(den) {
                ops.quotient(dot, den)
            } else {
                Real::spec_zero()
            };
            floored(ops.difference(Real::spec_one(), cosine))
        },
        Metric::L2 => floored(
            ops.difference(ops.sum(ni, nj), ops.product(Real { bits: TWO_BITS }, dot)),
        ),
        Metric::InnerProduct => dot.negation(),
    }
}

/// Except for the inner product, every distance in a leaf is a number that is not negative.
pub proof fn leaf_distances_not_negative<A: Arithmetic>(
    ops: A,
    metric: Metric,
    ni: Real,
    nj: Real,
    dot: Real,
)
    requires
        metric != Metric::InnerProduct,
    ensures
        Real::spec_zero().le(leaf_distance(ops, metric, ni, nj, dot)),
{
}

/// Computes the distance of two points of a leaf.
fn distance_in_leaf<A: Arithmetic>(
    ops: &A,
    metric: Metric,
    ni: Real,
    nj: Real,
    dot: Real,
) -> (r: Real)
    requires
        ops.ready(),
    ensures
        r == leaf_distance(*ops, metric, ni, nj, dot),
{
    match metric {
        Metric::CosineNormalized => floor_at_zero(ops.minus(Real::one(), dot)),
        Metric::Cosine => {
            let ri = ops.sqrt(ni);
            let rj = ops.sqrt(nj);
            let den = ops.times(ri, rj);
            let cosine = if Real::zero().is_less(den) {
                ops.over(dot, den)
            } else {
                Real::zero()
            };
            floor_at_zero(ops.minus(Real::one(), cosine))
        },
        Metric::L2 => {
            let lengths = ops.plus(ni, nj);
            let twice = ops.times(Real::from_bits(TWO_BITS), dot);
            floor_at_zero(ops.minus(lengths, twice))
        },
        Metric::InnerProduct => dot.negated(),
    }
}

/// Whether the squared lengths enter the distance.
pub open spec fn needs_norms(metric: Metric) -> bool {
    metric == Metric::L2 || metric == Metric::Cosine
}

/// Distance between rows `i` and `j` of gathered vectors; the largest number on the diagonal.
pub open spec fn local_entry<A: Arithmetic>(
    ops: A,
    metric: Metric,
    local: Seq<Real>,
    ndims: int,
    i: int,
    j: int,
) -> Real {
    if i == j {
        Real::spec_max()
    } else {
        leaf_distance(
            ops,
            metric,
            gram(ops, local, ndims, i, i),
            gram(ops, local, ndims, j, j),
            gram(ops, local, ndims, i, j),
        )
    }
}

/// The distance matrix of gathered vectors.
pub open spec fn local_matrix<A: Arithmetic>(
    ops: A,
    metric: Metric,
    local: Seq<Real>,
    ndims: int,
    n: int,
) -> Seq<Real> {
    Seq::new((n * n) as nat, |x: int| local_entry(ops, metric, local, ndims, x / n, x % n))
}

/// The distance matrix of the points of a leaf.
pub open spec fn leaf_matrix<A: Arithmetic>(
    ops: A,
    metric: Metric,
    data: Seq<Real>,
    ndims: int,
    indices: Seq<usize>,
) -> Seq<Real> {
    let n = indices.len() as int;
    Seq::new(
        (n * n) as nat,
        |x: int|
            {
                let a = row(data, ndims, indices[x / n] as int);
                let b = row(data, ndims, indices[x % n] as int);
                if x / n == x % n {
                    Real::spec_max()
                } else {
                    leaf_distance(ops, metric, dot_of(ops, a, a), dot_of(ops, b, b), dot_of(ops, a, b))
                }
            },
    )
}

/// Buffers that are reused from leaf to leaf.
#[derive(Debug)]
pub struct LeafBuffers {
    pub local_data: Vec<Real>,
    pub norms_sq: Vec<Real>,
    pub dot_matrix: Vec<Real>,
    pub dist_matrix: Vec<Real>,
    pub seen: Vec<bool>,
    pub point_cache: PointCache,
}

impl Default for LeafBuffers {
    fn default() -> (r: Self)
        ensures
            r.released(),
    {
        LeafBuffers::new()
    }
}

/// A buffer that is at least `len` long: what it held, and behind that copies of `value`.
pub open spec fn grown<T>(values: Seq<T>, len: nat, value: T) -> Seq<T> {
    if values.len() < len {
        values + Seq::new((len - values.len()) as nat, |i: int| value)
    } else {
        values
    }
}

/// Makes a buffer at least `len` long.
fn grow<T: Copy>(values: &mut Vec<T>, len: usize, value: T)
    ensures
        final(values)@ == grown(old(values)@, len as nat, value),
{
    let ghost before = values@;
    while values.len() < len
        invariant
            before.len() <= values@.len(),
            before.len() <= len ==> values@.len() <= len,
            before.len() >= len ==> values@ == before,
            values@ =~= before + Seq::new((values@.len() - before.len()) as nat, |i: int| value),
        decreases len - values@.len(),
    {
        values.push(value);
    }
    assert(values@ =~= grown(before, len as nat, value));
}

impl LeafBuffers {
    /// No memory is held.
    pub open spec fn released(&self) -> bool {
        &&& self.local_data@.len() == 0
        &&& self.norms_sq@.len() == 0
        &&& self.dot_matrix@.len() == 0
        &&& self.dist_matrix@.len() == 0
        &&& self.seen@.len() == 0
        &&& self.point_cache.vacated()
    }

    /// There is room for a leaf of `n` vectors of length `ndims`.
    pub open spec fn fits(&self, n: int, ndims: int) -> bool {
        &&& n * ndims <= self.local_data@.len()
        &&& n <= self.norms_sq@.len()
        &&& n * n <= self.dot_matrix@.len()
        &&& n * n <= self.dist_matrix@.len()
        &&& n * n <= self.seen@.len()
    }

    /// Empty buffers.
    pub fn new() -> (r: Self)
        ensures
            r.released(),
            r.point_cache.wf(),
    {
        LeafBuffers {
            local_data: Vec::new(),
            norms_sq: Vec::new(),
            dot_matrix: Vec::new(),
            dist_matrix: Vec::new(),
            seen: Vec::new(),
            point_cache: PointCache::new(),
        }
    }

    /// Makes room for a leaf of `n` vectors of length `ndims`.
    pub fn ensure_capacity(&mut self, n: usize, ndims: usize)
        requires
            n * ndims <= usize::MAX,
            n * n <= usize::MAX,
        ensures
            final(self).fits(n as int, ndims as int),
            final(self).local_data@ == grown(
                old(self).local_data@,
                (n * ndims) as nat,
                Real::spec_zero(),
            ),
            final(self).norms_sq@ == grown(old(self).norms_sq@, n as nat, Real::spec_zero()),
            final(self).dot_matrix@ == grown(
                old(self).dot_matrix@,
                (n * n) as nat,
                Real::spec_zero(),
            ),
            final(self).dist_matrix@ == grown(
                old(self).dist_matrix@,
                (n * n) as nat,
                Real::spec_zero(),
            ),
            final(self).seen@ == grown(old(self).seen@, (n * n) as nat, false),
            final(self).point_cache == old(self).point_cache,
    {
        let nd: usize = n * ndims;
        let nn: usize = n * n;
        grow(&mut self.local_data, nd, Real::zero());
        grow(&mut self.norms_sq, n, Real::zero());
        grow(&mut self.dot_matrix, nn, Real::zero());
        grow(&mut self.dist_matrix, nn, Real::zero());
        grow(&mut self.seen, nn, false);
    }
}

/// Buffers for leaves of quantized vectors.
#[derive(Debug)]
pub struct QuantLeafBuffers {
    pub local_u64: Vec<u64>,
    pub dist_matrix: Vec<Real>,
    pub seen: Vec<bool>,
}

impl QuantLeafBuffers {
    /// Empty buffers.
    pub fn new() -> (r: Self)
        ensures
            r.local_u64@.len() == 0,
            r.dist_matrix@.len() == 0,
            r.seen@.len() == 0,
    {
        QuantLeafBuffers { local_u64: Vec::new(), dist_matrix: Vec::new(), seen: Vec::new() }
    }
}

/// How often lookups in point caches succeeded, over all threads.
#[derive(Clone, Copy, Debug, PartialEq, Eq, Structural)]
pub struct CacheTotals {
    pub hits: u64,
    pub misses: u64,
}

/// Gives the memory of a thread's buffers back. The counters of its point cache are added to the
/// totals, which wrap around.
pub fn release_thread_buffers(
    bufs: &mut LeafBuffers,
    quant: &mut QuantLeafBuffers,
    totals: &mut CacheTotals,
)
    ensures
        final(bufs).released(),
        final(bufs).point_cache.wf(),
        final(quant).local_u64@.len() == 0,
        final(quant).dist_matrix@.len() == 0,
        final(quant).seen@.len() == 0,
        final(totals).hits == (old(totals).hits + old(bufs).point_cache.hits)
            % 0x1_0000_0000_0000_0000,
        final(totals).misses == (old(totals).misses + old(bufs).point_cache.misses)
            % 0x1_0000_0000_0000_0000,
{
    bufs.local_data = Vec::new();
    bufs.norms_sq = Vec::new();
    bufs.dot_matrix = Vec::new();
    bufs.dist_matrix = Vec::new();
    bufs.seen = Vec::new();
    totals.hits = totals.hits.wrapping_add(bufs.point_cache.hits);
    totals.misses = totals.misses.wrapping_add(bufs.point_cache.misses);
    bufs.point_cache.release();
    quant.local_u64 = Vec::new();
    quant.dist_matrix = Vec::new();
    quant.seen = Vec::new();
}

/// What is left in the other buffers once the distance matrix of `n` gathered vectors is filled:
/// the squared lengths, where the metric needs them, and the dot products. What lies behind the
/// leaf's own entries stays as it was.
pub open spec fn matrix_scratch<A: Arithmetic>(
    ops: A,
    metric: Metric,
    ndims: int,
    n: int,
    before: LeafBuffers,
    after: LeafBuffers,
) -> bool {
    let local = after.local_data@;
    &&& after.seen == before.seen
    &&& after.norms_sq@.len() == before.norms_sq@.len()
    &&& after.norms_sq@.skip(n) == before.norms_sq@.skip(n)
    &&& if needs_norms(metric) {
        forall|i: int|
            0 <= i < n ==> #[trigger] after.norms_sq@[i] == gram(ops, local, ndims, i, i)
    } else {
        after.norms_sq == before.norms_sq
    }
    &&& after.dot_matrix@.len() == before.dot_matrix@.len()
    &&& after.dot_matrix@.skip(n * n) == before.dot_matrix@.skip(n * n)
    &&& forall|i: int, j: int|
        0 <= i < n && 0 <= j < n ==> #[trigger] after.dot_matrix@[i * n + j] == gram(
            ops,
            local,
            ndims,
            i,
            j,
        )
    &&& after.dist_matrix@.len() == before.dist_matrix@.len()
    &&& after.dist_matrix@.skip(n * n) == before.dist_matrix@.skip(n * n)
}

/// Fills the distance matrix of the gathered vectors.
pub(crate) fn fill_dist_matrix<A: Arithmetic>(
    ops: &A,
    n: usize,
    ndims: usize,
    metric: Metric,
    bufs: &mut LeafBuffers,
)
    requires
        ops.ready(),
        old(bufs).fits(n as int, ndims as int),
    ensures
        final(bufs).fits(n as int, ndims as int),
        final(bufs).local_data == old(bufs).local_data,
        final(bufs).point_cache == old(bufs).point_cache,
        final(bufs).dist_matrix@.take(n * n) == local_matrix(
            *ops,
            metric,
            old(bufs).local_data@,
            ndims as int,
            n as int,
        ),
        matrix_scratch(*ops, metric, ndims as int, n as int, *old(bufs), *final(bufs)),
{
    let ghost local = bufs.local_data@;
    let ghost before = *bufs;
    let wants_norms = match metric {
        Metric::CosineNormalized | Metric::InnerProduct => false,
        Metric::Cosine | Metric::L2 => true,
    };
    if wants_norms {
        let mut i: usize = 0;
        while i < n
            invariant
                i <= n,
                ops.ready(),
                bufs.fits(n as int, ndims as int),
                bufs.local_data@ == local,
                bufs.local_data == before.local_data,
                bufs.point_cache == before.point_cache,
                bufs.seen == before.seen,
                bufs.dot_matrix == before.dot_matrix,
                bufs.dist_matrix == before.dist_matrix,
                bufs.norms_sq@.len() == before.norms_sq@.len(),
                forall|x: int|
                    n <= x < bufs.norms_sq@.len() ==> #[trigger] bufs.norms_sq@[x]
                        == before.norms_sq@[x],
                forall|x: int|
                    0 <= x < i ==> #[trigger] bufs.norms_sq@[x] == gram(
                        *ops,
                        local,
                        ndims as int,
                        x,
                        x,
                    ),
            decreases n - i,
        {
            let v = row_slice(bufs.local_data.as_slice(), ndims, i, Ghost(n as int));
            let s = dot(ops, v, v);
            bufs.norms_sq.set(i, s);
            i += 1;
        }
    }
    sgemm_aat(ops, bufs.local_data.as_slice(), n, ndims, bufs.dot_matrix.as_mut_slice());
    let ghost grams = bufs.dot_matrix@;
    let ghost norms = bufs.norms_sq;
    let mut i: usize = 0;
    while i < n
        invariant
            i <= n,
            ops.ready(),
            bufs.fits(n as int, ndims as int),
            bufs.local_data == before.local_data,
            bufs.point_cache == before.point_cache,
            bufs.dot_matrix@ == grams,
            bufs.norms_sq == norms,
            bufs.seen == before.seen,
            bufs.dist_matrix@.len() == before.dist_matrix@.len(),
            forall|x: int|
                n * n <= x < bufs.dist_matrix@.len() ==> #[trigger] bufs.dist_matrix@[x]
                    == before.dist_matrix@[x],
            needs_norms(metric) ==> forall|x: int|
                0 <= x < n ==> #[trigger] bufs.norms_sq@[x] == gram(*ops, local, ndims as int, x, x),
            forall|x: int, y: int|
                0 <= x < n && 0 <= y < n ==> #[trigger] grams[x * n + y] == gram(
                    *ops,
                    local,
                    ndims as int,
                    x,
                    y,
                ),
            forall|x: int, y: int|
                0 <= x < i && 0 <= y < n ==> #[trigger] bufs.dist_matrix@[x * n + y] == local_entry(
                    *ops,
                    metric,
                    local,
                    ndims as int,
                    x,
                    y,
                ),
        decreases n - i,
    {
        let mut j: usize = 0;
        while j < n
            invariant
                i < n,
                j <= n,
                ops.ready(),
                bufs.fits(n as int, ndims as int),
                bufs.local_data == before.local_data,
                bufs.point_cache == before.point_cache,
                bufs.dot_matrix@ == grams,
                bufs.norms_sq == norms,
                bufs.seen == before.seen,
                bufs.dist_matrix@.len() == before.dist_matrix@.len(),
                forall|x: int|
                    n * n <= x < bufs.dist_matrix@.len() ==> #[trigger] bufs.dist_matrix@[x]
                        == before.dist_matrix@[x],
                needs_norms(metric) ==> forall|x: int|
                    0 <= x < n ==> #[trigger] bufs.norms_sq@[x] == gram(
                        *ops,
                        local,
                        ndims as int,
                        x,
                        x,
                    ),
                forall|x: int, y: int|
                    0 <= x < n && 0 <= y < n ==> #[trigger] grams[x * n + y] == gram(
                        *ops,
                        local,
                        ndims as int,
                        x,
                        y,
                    ),
                forall|x: int, y: int|
                    ((0 <= x < i && 0 <= y < n) || (x == i && 0 <= y < j))
                        ==> #[trigger] bufs.dist_matrix@[x * n + y] == local_entry(
                        *ops,
                        metric,
                        local,
                        ndims as int,
                        x,
                        y,
                    ),
            decreases n - j,
        {
            proof {
                cell_apart(n as int, i as int, j as int, i as int, j as int);
                row_bounds(i as int, n as int, n as int);
                assert(bufs.dot_matrix.len() == bufs.dot_matrix@.len());
                assert(grams[i * n + j] == gram(*ops, local, ndims as int, i as int, j as int));
            }
            let at: usize = i * n + j;
            assert(at < n * n);
            let ghost prior = bufs.dist_matrix@;
            let d = if i == j {
                Real::max_finite()
            } else {
                distance_in_leaf(
                    ops,
                    metric,
                    bufs.norms_sq[i],
                    bufs.norms_sq[j],
                    bufs.dot_matrix[at],
                )
            };
            assert(d == local_entry(*ops, metric, local, ndims as int, i as int, j as int));
            bufs.dist_matrix.set(at, d);
            proof {
                assert forall|x: int, y: int|
                    ((0 <= x < i && 0 <= y < n) || (x == i && 0 <= y < j
                        + 1)) implies #[trigger] bufs.dist_matrix@[x * n + y] == local_entry(
                    *ops,
                    metric,
                    local,
                    ndims as int,
                    x,
                    y,
                ) by {
                    cell_apart(n as int, x, y, i as int, j as int);
                    if !(x == i && y == j) {
                        assert(prior[x * n + y] == local_entry(
                            *ops,
                            metric,
                            local,
                            ndims as int,
                            x,
                            y,
                        ));
                    }
                }
            }
            j += 1;
        }
        i += 1;
    }
    proof {
        let goal = local_matrix(*ops, metric, local, ndims as int, n as int);
        let got = bufs.dist_matrix@.take(n * n);
        assert forall|x: int| 0 <= x < n * n implies got[x] == goal[x] by {
            cell_of(n as int, x);
            assert(got[x] == bufs.dist_matrix@[(x / n as int) * n + x % n as int]);
        }
        assert(got =~= goal);
        assert(bufs.dist_matrix@.skip(n * n) =~= before.dist_matrix@.skip(n * n));
        assert(bufs.norms_sq@.skip(n as int) =~= before.norms_sq@.skip(n as int));
        assert(wants_norms == needs_norms(metric));
    }
}

/// Row and column of place `x` of an `n` by `n` matrix.
pub(crate) proof fn cell_of(n: int, x: int)
    requires
        0 <= x < n * n,
        0 < n,
    ensures
        0 <= x / n < n,
        0 <= x % n < n,
        (x / n) * n + x % n == x,
{
    vstd::arithmetic::div_mod::lemma_fundamental_div_mod(x, n);
    assert(x / n < n) by (nonlinear_arith)
        requires
            0 <= x < n * n,
            0 < n,
    ;
    assert(0 <= x / n) by (nonlinear_arith)
        requires
            0 <= x,
            0 < n,
    ;
    assert(n * (x / n) == (x / n) * n) by (nonlinear_arith);
}

/// The matrix of gathered vectors is that of the leaf.
pub(crate) proof fn gathered_matrix<A: Arithmetic>(
    ops: A,
    metric: Metric,
    data: Seq<Real>,
    ndims: int,
    indices: Seq<usize>,
    local: Seq<Real>,
)
    requires
        gathered(data, ndims, indices, local),
    ensures
        local_matrix(ops, metric, local, ndims, indices.len() as int) == leaf_matrix(
            ops,
            metric,
            data,
            ndims,
            indices,
        ),
{
    let n = indices.len() as int;
    let a = local_matrix(ops, metric, local, ndims, n);
    let b = leaf_matrix(ops, metric, data, ndims, indices);
    assert forall|x: int| 0 <= x < n * n implies a[x] == b[x] by {
        if n > 0 {
            cell_of(n, x);
            assert(row(local, ndims, x / n) == row(data, ndims, indices[x / n] as int));
            assert(row(local, ndims, x % n) == row(data, ndims, indices[x % n] as int));
        } else {
            assert(n * n == 0) by (nonlinear_arith)
                requires
                    n == 0,
            ;
        }
    }
    assert(a =~= b);
}

/// Whether every point of a leaf has enough neighbours at a distance below the largest number to
/// fill its places. Asked only of leaves whose points get up to three neighbours.
pub open spec fn enough_neighbors(dm: Seq<Real>, n: int, k: int) -> bool {
    knn_width(n, k) <= 3 ==> forall|i: int|
        0 <= i < n ==> rankable_below(#[trigger] matrix_row(dm, n, i), i, n).len() >= knn_width(n, k)
}

/// The neighbours of a leaf are positions of the leaf.
pub(crate) proof fn knn_edges_within(dm: Seq<Real>, n: int, k: int)
    requires
        0 <= n <= u32::MAX,
        0 <= k,
        n * n <= dm.len(),
        enough_neighbors(dm, n, k),
    ensures
        edges_within(knn_edges(dm, n, k), n),
{
    let w = knn_width(n, k);
    let edges = knn_edges(dm, n, k);
    assert forall|x: int| 0 <= x < edges.len() implies (#[trigger] edges[x]).0 < n && edges[x].1
        < n by {
        if w == 0 {
            assert(n * w == 0) by (nonlinear_arith)
                requires
                    w == 0,
            ;
        } else {
            let i = x / w;
            let t = x % w;
            assert(0 <= i < n && 0 <= t < w) by (nonlinear_arith)
                requires
                    0 <= x < n * w,
                    0 < w,
                    i == x / w,
                    t == x % w,
            ;
            if w <= 3 {
                let dist = matrix_row(dm, n, i);
                nearest_below_valid(dist, i, n);
                assert(rankable_below(matrix_row(dm, n, i), i, n).len() >= w);
                assert(0 <= crate::leaf::nearest_below(dist, i, n)[t] < n);
            } else {
                row_bounds(i, n, n);
                let keys = rank_keys(dm.subrange(i * n, i * n + n));
                argsort_ascending(keys);
                assert(0 <= argsort(keys)[t] < keys.len());
            }
        }
    }
}

/// The edges of a leaf: nearest neighbours in both directions.
pub open spec fn leaf_edges(dm: Seq<Real>, n: int, k: int, indices: Seq<usize>) -> Seq<Edge> {
    between_points(both_ways(knn_edges(dm, n, k), matrix_table(dm, n)), indices)
}

/// Extracts the edges of a leaf from the front of a distance matrix buffer.
pub(crate) fn edges_from_matrix(
    matrix: &[Real],
    k: usize,
    indices: &[usize],
    seen: &mut Vec<bool>,
) -> (edges: Vec<Edge>)
    requires
        indices@.len() <= u32::MAX,
        matrix@.len() == indices@.len() * indices@.len(),
        indices@.len() * indices@.len() <= old(seen)@.len(),
        enough_neighbors(matrix@, indices@.len() as int, k as int),
    ensures
        final(seen)@.len() == old(seen)@.len(),
        edges@ == leaf_edges(matrix@, indices@.len() as int, k as int, indices@),
{
    let n: usize = indices.len();
    let local_edges = extract_knn(matrix, n, k);
    proof {
        knn_edges_within(matrix@, n as int, k as int);
        assert(seen.len() == seen@.len());
    }
    let nn: usize = n * n;
    let mut x: usize = 0;
    while x < nn
        invariant
            x <= nn,
            nn == n * n,
            nn <= seen@.len(),
            seen@.len() == old(seen)@.len(),
            forall|y: int| 0 <= y < x ==> !(#[trigger] seen@[y]),
        decreases nn - x,
    {
        seen.set(x, false);
        x += 1;
    }
    proof {
        let list = both_ways(local_edges@, matrix_table(matrix@, n as int));
        both_ways_within(local_edges@, matrix_table(matrix@, n as int), n as int);
        unmarked_is_all(list, n as int, seen@);
    }
    make_bidirected_edges(&local_edges, matrix, n, indices, seen.as_mut_slice())
}

/// Tells whether every point of a leaf with the given distance matrix has enough neighbours.
pub fn has_enough_neighbors(matrix: &[Real], n: usize, k: usize) -> (r: bool)
    requires
        n <= u32::MAX,
        n * n <= matrix@.len(),
    ensures
        r == enough_neighbors(matrix@, n as int, k as int),
{
    let w: usize = if n <= 1 || k == 0 {
        0
    } else if k < n - 1 {
        k
    } else {
        n - 1
    };
    if w > 3 {
        return true;
    }
    assert(matrix.len() == matrix@.len());
    let mut i: usize = 0;
    while i < n
        invariant
            i <= n,
            n <= u32::MAX,
            n * n <= matrix@.len() <= usize::MAX,
            w == knn_width(n as int, k as int),
            w <= 3,
            forall|x: int|
                0 <= x < i ==> rankable_below(
                    #[trigger] matrix_row(matrix@, n as int, x),
                    x,
                    n as int,
                ).len() >= w,
        decreases n - i,
    {
        let ghost dist = matrix_row(matrix@, n as int, i as int);
        proof {
            row_bounds(i as int, n as int, n as int);
        }
        let start: usize = i * n;
        let mut count: usize = 0;
        let mut j: usize = 0;
        while j < n
            invariant
                i < n,
                j <= n,
                start == i * n,
                start + n <= matrix@.len() <= usize::MAX,
                dist == matrix_row(matrix@, n as int, i as int),
                count == rankable_below(dist, i as int, j as int).len(),
                count <= j,
            decreases n - j,
        {
            if j != i && matrix[start + j].is_less(Real::max_finite()) {
                count += 1;
            }
            j += 1;
        }
        if count < w {
            assert(rankable_below(matrix_row(matrix@, n as int, i as int), i as int, n as int).len()
                < w);
            return false;
        }
        i += 1;
    }
    true
}

/// Builds a leaf in the given buffers. With `log2` the vectors go through the point cache, which
/// then has two to that power slots.
pub fn build_leaf_with_buffers<A: Arithmetic>(
    ops: &A,
    data: &[Real],
    ndims: usize,
    indices: &[usize],
    k: usize,
    metric: Metric,
    bufs: &mut LeafBuffers,
    log2: Option<u32>,
) -> (edges: Vec<Edge>)
    requires
        ops.ready(),
        rows_exist(data@, ndims as int, indices@),
        indices@.len() <= u32::MAX,
        indices@.len() * ndims <= usize::MAX,
        indices@.len() * indices@.len() <= usize::MAX,
        log2 matches Some(l) ==> {
            &&& l <= POINT_CACHE_LOG2_MAX
            &&& power_of_two(l as nat) * ndims <= usize::MAX
            &&& forall|i: int| 0 <= i < indices@.len() ==> #[trigger] indices@[i] < POINT_CACHE_EMPTY
            &&& old(bufs).point_cache.wf()
            &&& old(bufs).point_cache.coherent(data@)
        },
        enough_neighbors(
            leaf_matrix(*ops, metric, data@, ndims as int, indices@),
            indices@.len() as int,
            k as int,
        ),
    ensures
        edges@ == leaf_edges(
            leaf_matrix(*ops, metric, data@, ndims as int, indices@),
            indices@.len() as int,
            k as int,
            indices@,
        ),
        log2 is Some ==> final(bufs).point_cache.wf() && final(bufs).point_cache.coherent(data@),
        log2 is None ==> final(bufs).point_cache == old(bufs).point_cache,
        final(bufs).fits(indices@.len() as int, ndims as int),
        gathered(data@, ndims as int, indices@, final(bufs).local_data@),
        final(bufs).dist_matrix@.take((indices@.len() * indices@.len()) as int) == leaf_matrix(
            *ops,
            metric,
            data@,
            ndims as int,
            indices@,
        ),
{
    let n: usize = indices.len();
    bufs.ensure_capacity(n, ndims);
    match log2 {
        Some(l) => {
            bufs.point_cache.ensure_capacity(ndims, l);
            gather_rows_cached(
                data,
                ndims,
                indices,
                &mut bufs.local_data,
                &mut bufs.point_cache,
                l,
            );
        },
        None => {
            gather_rows(data, ndims, indices, &mut bufs.local_data);
        },
    }
    let ghost local = bufs.local_data@;
    fill_dist_matrix(ops, n, ndims, metric, bufs);
    proof {
        gathered_matrix(*ops, metric, data@, ndims as int, indices@, local);
        assert(bufs.dist_matrix.len() == bufs.dist_matrix@.len());
    }
    let matrix = slice_subrange(bufs.dist_matrix.as_slice(), 0, n * n);
    edges_from_matrix(matrix, k, indices, &mut bufs.seen)
}

/// Tells whether every point of a leaf has enough neighbours for the leaf to be built.
pub fn leaf_has_neighbors<A: Arithmetic>(
    ops: &A,
    data: &[Real],
    ndims: usize,
    indices: &[usize],
    k: usize,
    metric: Metric,
) -> (r: bool)
    requires
        ops.ready(),
        rows_exist(data@, ndims as int, indices@),
        indices@.len() <= u32::MAX,
        indices@.len() * ndims <= usize::MAX,
        indices@.len() * indices@.len() <= usize::MAX,
    ensures
        r == enough_neighbors(
            leaf_matrix(*ops, metric, data@, ndims as int, indices@),
            indices@.len() as int,
            k as int,
        ),
{
    let n: usize = indices.len();
    let mut bufs = LeafBuffers::new();
    bufs.ensure_capacity(n, ndims);
    gather_rows(data, ndims, indices, &mut bufs.local_data);
    let ghost local = bufs.local_data@;
    fill_dist_matrix(ops, n, ndims, metric, &mut bufs);
    proof {
        gathered_matrix(*ops, metric, data@, ndims as int, indices@, local);
        assert(bufs.dist_matrix.len() == bufs.dist_matrix@.len());
    }
    let matrix = slice_subrange(bufs.dist_matrix.as_slice(), 0, n * n);
    has_enough_neighbors(matrix, n, k)
}

/// Builds a leaf: all-pairs distances, nearest neighbours, edges in both directions. A leaf of
/// fewer than two points has no edges.
pub fn build_leaf<A: Arithmetic>(
    ops: &A,
    data: &[Real],
    ndims: usize,
    indices: &[usize],
    k: usize,
    metric: Metric,
) -> (edges: Vec<Edge>)
    requires
        ops.ready(),
        rows_exist(data@, ndims as int, indices@),
        indices@.len() <= u32::MAX,
        indices@.len() * ndims <= usize::MAX,
        indices@.len() * indices@.len() <= usize::MAX,
        enough_neighbors(
            leaf_matrix(*ops, metric, data@, ndims as int, indices@),
            indices@.len() as int,
            k as int,
        ),
    ensures
        edges@ == leaf_edges(
            leaf_matrix(*ops, metric, data@, ndims as int, indices@),
            indices@.len() as int,
            k as int,
            indices@,
        ),
        indices@.len() <= 1 ==> edges@.len() == 0,
{
    let mut bufs = LeafBuffers::new();
    let edges = build_leaf_with_buffers(ops, data, ndims, indices, k, metric, &mut bufs, None);
    proof {
        if indices@.len() <= 1 {
            let n = indices@.len() as int;
            assert(n * 0 == 0);
            let dm = leaf_matrix(*ops, metric, data@, ndims as int, indices@);
            assert(knn_edges(dm, n, k as int) =~= Seq::empty());
            assert(both_ways(knn_edges(dm, n, k as int), matrix_table(dm, n)).len() == 0);
        }
    }
    edges
}

} // verus!
