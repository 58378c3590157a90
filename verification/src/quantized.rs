//! Leaves of vectors that are quantized to one bit per component.

use crate::knn::{cell_apart, knn_width, matrix_row, Edge};
use crate::leaf::{rankable, rankable_below};
use crate::leaf_build::{
    cell_of, edges_from_matrix, enough_neighbors, has_enough_neighbors, leaf_edges,
};
use crate::measure::{
    pair_answers, pair_value, pairwise, row_bounds, PairSource, PairTable, PairTest,
};
use crate::number::{
    bit_at, count_bits, count_bits_bound, from_count, power_grows, power_of_two, Real,
};
use vstd::prelude::*;
use vstd::slice::slice_subrange;

verus! {

/// How many of the lowest `n` bits of two words differ.
pub open spec fn differing_bits(a: nat, b: nat, n: nat) -> nat
    decreases n,
{
    if n == 0 {
        0
    } else {
        (if a % 2 == b % 2 { 0nat } else { 1nat }) + differing_bits(a / 2, b / 2, (n - 1) as nat)
    }
}

/// How many bits of the first `m` words differ.
pub open spec fn hamming_upto(a: Seq<u64>, b: Seq<u64>, m: int) -> nat
    decreases m,
{
    if m <= 0 {
        0
    } else {
        hamming_upto(a, b, m - 1) + differing_bits(a[m - 1] as nat, b[m - 1] as nat, 64)
    }
}

/// How many bits of two quantized vectors differ.
pub open spec fn hamming(a: Seq<u64>, b: Seq<u64>) -> nat {
    hamming_upto(a, b, a.len() as int)
}

proof fn differing_bits_law(a: nat, b: nat, n: nat)
    ensures
        differing_bits(a, b, n) <= n,
        differing_bits(a, b, n) == differing_bits(b, a, n),
        differing_bits(a, a, n) == 0,
    decreases n,
{
    if n > 0 {
        differing_bits_law(a / 2, b / 2, (n - 1) as nat);
    }
}

/// The number of differing bits is symmetric, zero from a vector to itself, and at most the
/// number of bits.
pub proof fn hamming_law(a: Seq<u64>, b: Seq<u64>, m: int)
    ensures
        hamming_upto(a, b, m) <= if m > 0 { 64 * m } else { 0 },
        hamming_upto(a, b, m) == hamming_upto(b, a, m),
        hamming_upto(a, a, m) == 0,
    decreases m,
{
    if m > 0 {
        hamming_law(a, b, m - 1);
        differing_bits_law(a[m - 1] as nat, b[m - 1] as nat, 64);
    }
}

/// Counts the differing bits of two words.
pub fn count_differing(a: u64, b: u64) -> (r: u32)
    ensures
        r == differing_bits(a as nat, b as nat, 64),
        r <= 64,
{
    let mut x: u64 = a;
    let mut y: u64 = b;
    let mut left: u32 = 64;
    let mut r: u32 = 0;
    while left > 0
        invariant
            left <= 64,
            r + differing_bits(x as nat, y as nat, left as nat) == differing_bits(
                a as nat,
                b as nat,
                64,
            ),
            r + left <= 64,
        decreases left,
    {
        if x % 2 != y % 2 {
            r += 1;
        }
        x = x / 2;
        y = y / 2;
        left -= 1;
    }
    r
}

/// Vectors quantized to one bit per component, each filling the same number of words.
#[derive(Debug)]
pub struct QuantizedData {
    words: Vec<u64>,
    u64s_per_vec: usize,
    npoints: usize,
    ndims: usize,
}

impl QuantizedData {
    /// Components per vector.
    pub closed spec fn dims(&self) -> nat {
        self.ndims as nat
    }

    /// Number of vectors.
    pub closed spec fn count(&self) -> nat {
        self.npoints as nat
    }

    /// Words per vector.
    pub closed spec fn width(&self) -> nat {
        self.u64s_per_vec as nat
    }

    /// The words of vector `i`.
    pub closed spec fn vector(&self, i: int) -> Seq<u64> {
        self.words@.subrange(i * self.u64s_per_vec, i * self.u64s_per_vec + self.u64s_per_vec)
    }

    /// The words are those of all vectors.
    pub closed spec fn wf(&self) -> bool {
        self.words@.len() == self.npoints * self.u64s_per_vec
    }

    /// A vector has as many words as every other.
    pub proof fn vector_len(&self, i: int)
        requires
            self.wf(),
            0 <= i < self.count(),
        ensures
            self.vector(i).len() == self.width(),
    {
        row_bounds(i, self.npoints as int, self.u64s_per_vec as int);
    }

    /// Takes the words of `npoints` vectors of `ndims` components, if their number fits.
    pub fn new(words: Vec<u64>, npoints: usize, ndims: usize, u64s_per_vec: usize) -> (r: Option<
        Self,
    >)
        ensures
            r is Some <==> words@.len() == npoints * u64s_per_vec,
            r matches Some(q) ==> {
                &&& q.wf()
                &&& q.count() == npoints
                &&& q.dims() == ndims
                &&& q.width() == u64s_per_vec
                &&& forall|i: int|
                    0 <= i < npoints ==> #[trigger] q.vector(i) == words@.subrange(
                        i * u64s_per_vec,
                        i * u64s_per_vec + u64s_per_vec,
                    )
            },
    {
        assert(words.len() == words@.len());
        match npoints.checked_mul(u64s_per_vec) {
            Some(total) => if total == words.len() {
                Some(QuantizedData { words, u64s_per_vec, npoints, ndims })
            } else {
                None
            },
            None => None,
        }
    }

    /// Takes the words of `npoints` vectors of `ndims` components.
    pub(crate) fn from_words(
        words: Vec<u64>,
        npoints: usize,
        ndims: usize,
        u64s_per_vec: usize,
    ) -> (r: Self)
        requires
            words@.len() == npoints * u64s_per_vec,
        ensures
            r.wf(),
            r.count() == npoints,
            r.dims() == ndims,
            r.width() == u64s_per_vec,
            forall|i: int|
                0 <= i < npoints ==> #[trigger] r.vector(i) == words@.subrange(
                    i * u64s_per_vec,
                    i * u64s_per_vec + u64s_per_vec,
                ),
    {
        QuantizedData { words, u64s_per_vec, npoints, ndims }
    }

    /// Number of vectors.
    pub fn npoints(&self) -> (r: usize)
        ensures
            r == self.count(),
    {
        self.npoints
    }

    /// Components per vector.
    pub fn ndims(&self) -> (r: usize)
        ensures
            r == self.dims(),
    {
        self.ndims
    }

    /// Words per vector.
    pub fn u64s_per_vec(&self) -> (r: usize)
        ensures
            r == self.width(),
    {
        self.u64s_per_vec
    }

    /// The words of vector `i`.
    pub fn get_u64(&self, i: usize) -> (r: &[u64])
        requires
            self.wf(),
            i < self.count(),
        ensures
            r@ == self.vector(i as int),
            r@.len() == self.width(),
    {
        proof {
            row_bounds(i as int, self.npoints as int, self.u64s_per_vec as int);
            assert(self.words.len() == self.words@.len());
        }
        let start: usize = i * self.u64s_per_vec;
        slice_subrange(self.words.as_slice(), start, start + self.u64s_per_vec)
    }
}

/// Counts the differing bits of two quantized vectors.
pub fn hamming_distance(a: &[u64], b: &[u64]) -> (r: u32)
    requires
        a@.len() == b@.len(),
        64 * a@.len() <= u32::MAX,
    ensures
        r == hamming(a@, b@),
{
    let mut r: u32 = 0;
    let mut i: usize = 0;
    while i < a.len()
        invariant
            i <= a@.len(),
            a@.len() == b@.len(),
            64 * a@.len() <= u32::MAX,
            r == hamming_upto(a@, b@, i as int),
            r <= 64 * i,
        decreases a@.len() - i,
    {
        r += count_differing(a[i], b[i]);
        i += 1;
    }
    r
}

/// The matrix of bit differences of a leaf; the largest number on the diagonal.
pub open spec fn hamming_matrix(qdata: QuantizedData, indices: Seq<usize>) -> Seq<Real> {
    let n = indices.len() as int;
    Seq::new(
        (n * n) as nat,
        |x: int| hamming_entry(qdata, indices, x / n, x % n),
    )
}

/// Entry `(i, j)` of that matrix.
pub open spec fn hamming_entry(qdata: QuantizedData, indices: Seq<usize>, i: int, j: int) -> Real {
    if i == j {
        Real::spec_max()
    } else {
        Real {
            bits: count_bits(
                hamming(qdata.vector(indices[i] as int), qdata.vector(indices[j] as int)),
            ) as u32,
        }
    }
}

/// A leaf in which every distance between different positions is below the largest number has
/// enough neighbours for every point.
pub proof fn ranked_leaf_has_neighbors(dm: Seq<Real>, n: int, k: int)
    requires
        0 <= k,
        forall|i: int, j: int|
            0 <= i < n && 0 <= j < n && i != j ==> (#[trigger] dm[i * n + j]).lt(Real::spec_max()),
    ensures
        enough_neighbors(dm, n, k),
{
    assert forall|i: int| 0 <= i < n implies rankable_below(
        #[trigger] matrix_row(dm, n, i),
        i,
        n,
    ).len() >= knn_width(n, k) by {
        ranked_row(dm, n, i, n);
    }
}

proof fn ranked_row(dm: Seq<Real>, n: int, i: int, m: int)
    requires
        0 <= i < n,
        0 <= m <= n,
        forall|i: int, j: int|
            0 <= i < n && 0 <= j < n && i != j ==> (#[trigger] dm[i * n + j]).lt(Real::spec_max()),
    ensures
        rankable_below(matrix_row(dm, n, i), i, m).len() == if i < m { m - 1 } else { m },
    decreases m,
{
    if m > 0 {
        ranked_row(dm, n, i, m - 1);
        if i != m - 1 {
            assert(dm[i * n + (m - 1)].lt(Real::spec_max()));
            assert(rankable(matrix_row(dm, n, i), i, m - 1));
        }
    }
}

/// Fills an `n` by `n` matrix entry by entry: measured off the diagonal, the largest number on it.
fn fill_matrix<S: PairSource>(n: usize, source: &S) -> (out: Vec<Real>)
    requires
        n * n <= usize::MAX,
        source.covers(n as int),
    ensures
        out@.len() == n * n,
        forall|i: int, j: int|
            0 <= i < n && 0 <= j < n ==> #[trigger] out@[i * n + j] == if i == j {
                Real::spec_max()
            } else {
                (source.table())(i, j)
            },
        forall|i: int, j: int|
            0 <= i < n && 0 <= j < n && i != j ==> #[trigger] (source.answered())(i, j),
{
    let mut out: Vec<Real> = Vec::with_capacity(n * n);
    let mut i: usize = 0;
    assert(0 * n == 0);
    while i < n
        invariant
            i <= n,
            n * n <= usize::MAX,
            source.covers(n as int),
            out@.len() == i * n,
            forall|x: int, y: int|
                0 <= x < i && 0 <= y < n ==> #[trigger] out@[x * n + y] == if x == y {
                    Real::spec_max()
                } else {
                    (source.table())(x, y)
                },
            forall|x: int, y: int|
                0 <= x < i && 0 <= y < n && x != y ==> #[trigger] (source.answered())(x, y),
        decreases n - i,
    {
        let mut j: usize = 0;
        while j < n
            invariant
                i < n,
                j <= n,
                n * n <= usize::MAX,
                source.covers(n as int),
                out@.len() == i * n + j,
                forall|x: int, y: int|
                    ((0 <= x < i && 0 <= y < n) || (x == i && 0 <= y < j)) ==> #[trigger] out@[x * n
                        + y] == if x == y {
                        Real::spec_max()
                    } else {
                        (source.table())(x, y)
                    },
                forall|x: int, y: int|
                    ((0 <= x < i && 0 <= y < n) || (x == i && 0 <= y < j)) && x != y
                        ==> #[trigger] (source.answered())(x, y),
            decreases n - j,
        {
            let ghost prior = out@;
            let d = if i == j {
                Real::max_finite()
            } else {
                source.between(i, j, Ghost(n as int))
            };
            out.push(d);
            proof {
                assert forall|x: int, y: int|
                    ((0 <= x < i && 0 <= y < n) || (x == i && 0 <= y < j
                        + 1)) implies #[trigger] out@[x * n + y] == if x == y {
                    Real::spec_max()
                } else {
                    (source.table())(x, y)
                } by {
                    cell_apart(n as int, x, y, i as int, j as int);
                    if x < i {
                        crate::measure::rows_apart(x, i as int, n as int);
                    }
                    if !(x == i && y == j) {
                        assert(out@[x * n + y] == prior[x * n + y]);
                    }
                }
            }
            j += 1;
        }
        proof {
            row_bounds(i as int, n as int, n as int);
        }
        i += 1;
    }
    out
}

/// The distance matrix of a leaf under a distance between points.
pub open spec fn measured_matrix<F: Fn(usize, usize) -> Real>(
    distance: F,
    indices: Seq<usize>,
) -> Seq<Real> {
    let n = indices.len() as int;
    Seq::new((n * n) as nat, |x: int| measured_entry(distance, indices, x / n, x % n))
}

/// Entry `(i, j)` of that matrix.
pub open spec fn measured_entry<F: Fn(usize, usize) -> Real>(
    distance: F,
    indices: Seq<usize>,
    i: int,
    j: int,
) -> Real {
    if i == j {
        Real::spec_max()
    } else {
        pair_value(distance, indices[i] as int, indices[j] as int)
    }
}

/// Bit differences between the vectors of a leaf.
struct ByBits<'a> {
    qdata: &'a QuantizedData,
    indices: &'a [usize],
}

impl<'a> PairSource for ByBits<'a> {
    closed spec fn covers(&self, n: int) -> bool {
        &&& n == self.indices@.len()
        &&& self.qdata.wf()
        &&& 64 * self.qdata.width() <= u32::MAX
        &&& forall|i: int| 0 <= i < n ==> #[trigger] self.indices@[i] < self.qdata.count()
    }

    closed spec fn table(&self) -> PairTable {
        |i: int, j: int|
            Real {
                bits: count_bits(
                    hamming(
                        self.qdata.vector(self.indices@[i] as int),
                        self.qdata.vector(self.indices@[j] as int),
                    ),
                ) as u32,
            }
    }

    closed spec fn answered(&self) -> PairTest {
        |i: int, j: int| true
    }

    fn between(&self, i: usize, j: usize, Ghost(n): Ghost<int>) -> (r: Real) {
        let a = self.qdata.get_u64(self.indices[i]);
        let b = self.qdata.get_u64(self.indices[j]);
        from_count(hamming_distance(a, b))
    }
}

/// Distances between the points of a leaf, given by a function of the points.
struct ByPoint<'a, F> {
    indices: &'a [usize],
    npoints: usize,
    distance: &'a F,
}

impl<'a, F: Fn(usize, usize) -> Real> PairSource for ByPoint<'a, F> {
    closed spec fn covers(&self, n: int) -> bool {
        &&& n == self.indices@.len()
        &&& pairwise(*self.distance, self.npoints as int)
        &&& forall|i: int| 0 <= i < n ==> #[trigger] self.indices@[i] < self.npoints
    }

    closed spec fn table(&self) -> PairTable {
        |i: int, j: int|
            pair_value(*self.distance, self.indices@[i] as int, self.indices@[j] as int)
    }

    closed spec fn answered(&self) -> PairTest {
        |i: int, j: int|
            (pair_answers(*self.distance))(self.indices@[i] as int, self.indices@[j] as int)
    }

    fn between(&self, i: usize, j: usize, Ghost(n): Ghost<int>) -> (r: Real) {
        (self.distance)(self.indices[i], self.indices[j])
    }
}

/// In a leaf of quantized vectors every point has enough neighbours.
pub proof fn hamming_leaf_ranked(qdata: QuantizedData, indices: Seq<usize>, k: int)
    requires
        qdata.wf(),
        64 * qdata.width() <= u32::MAX,
        0 <= k,
        forall|i: int| 0 <= i < indices.len() ==> #[trigger] indices[i] < qdata.count(),
    ensures
        enough_neighbors(hamming_matrix(qdata, indices), indices.len() as int, k),
        hamming_matrix(qdata, indices).len() == indices.len() * indices.len(),
{
    let n = indices.len() as int;
    let dm = hamming_matrix(qdata, indices);
    assert(0 <= n * n) by (nonlinear_arith);
    assert forall|i: int, j: int| 0 <= i < n && 0 <= j < n && i != j implies (#[trigger] dm[i * n
        + j]).lt(Real::spec_max()) by {
        let a = qdata.vector(indices[i] as int);
        let b = qdata.vector(indices[j] as int);
        cell_apart(n, i, j, i, j);
        crate::knn::place_of(i, n, j);
        qdata.vector_len(indices[i] as int);
        hamming_law(a, b, a.len() as int);
        count_bits_bound(hamming(a, b));
    }
    ranked_leaf_has_neighbors(dm, n, k);
}

/// Builds a leaf of quantized vectors: bit differences, nearest neighbours, edges in both
/// directions.
pub fn build_leaf_quantized(qdata: &QuantizedData, indices: &[usize], k: usize) -> (edges: Vec<
    Edge,
>)
    requires
        qdata.wf(),
        64 * qdata.width() <= u32::MAX,
        indices@.len() <= u32::MAX,
        indices@.len() * indices@.len() <= usize::MAX,
        forall|i: int| 0 <= i < indices@.len() ==> #[trigger] indices@[i] < qdata.count(),
    ensures
        edges@ == leaf_edges(
            hamming_matrix(*qdata, indices@),
            indices@.len() as int,
            k as int,
            indices@,
        ),
{
    let n: usize = indices.len();
    let source = ByBits { qdata, indices };
    let matrix = fill_matrix(n, &source);
    proof {
        let goal = hamming_matrix(*qdata, indices@);
        assert forall|x: int| 0 <= x < n * n implies matrix@[x] == goal[x] by {
            cell_of(n as int, x);
            assert(matrix@[(x / n as int) * n + x % n as int] == matrix@[x]);
        }
        assert(matrix@ =~= goal);
        hamming_leaf_ranked(*qdata, indices@, k as int);
    }
    let mut seen: Vec<bool> = vec![false; n * n];
    edges_from_matrix(matrix.as_slice(), k, indices, &mut seen)
}

/// Every distance between two points of a leaf is an answer.
pub open spec fn leaf_answered<F: Fn(usize, usize) -> Real>(
    distance: F,
    indices: Seq<usize>,
) -> bool {
    forall|i: int, j: int|
        0 <= i < indices.len() && 0 <= j < indices.len() && i != j ==> (pair_answers(distance))(
            (#[trigger] indices[i]) as int,
            (#[trigger] indices[j]) as int,
        )
}

/// Builds a leaf by measuring the points themselves, with one to three neighbours per point.
pub fn build_leaf_direct<F: Fn(usize, usize) -> Real>(
    npoints: usize,
    indices: &[usize],
    k: usize,
    distance: &F,
) -> (edges: Vec<Edge>)
    requires
        pairwise(*distance, npoints as int),
        indices@.len() <= u32::MAX,
        indices@.len() * indices@.len() <= usize::MAX,
        forall|i: int| 0 <= i < indices@.len() ==> #[trigger] indices@[i] < npoints,
        indices@.len() > 1 ==> 1 <= knn_width(indices@.len() as int, k as int) <= 3,
        enough_neighbors(
            measured_matrix(*distance, indices@),
            indices@.len() as int,
            k as int,
        ),
    ensures
        edges@ == leaf_edges(
            measured_matrix(*distance, indices@),
            indices@.len() as int,
            k as int,
            indices@,
        ),
        leaf_answered(*distance, indices@),
{
    let n: usize = indices.len();
    let source = ByPoint { indices, npoints, distance };
    let matrix = fill_matrix(n, &source);
    proof {
        let goal = measured_matrix(*distance, indices@);
        assert forall|i: int, j: int| 0 <= i < n && 0 <= j < n && i != j implies (pair_answers(
            *distance,
        ))((#[trigger] indices@[i]) as int, (#[trigger] indices@[j]) as int) by {
            assert((source.answered())(i, j));
        }
        assert forall|x: int| 0 <= x < n * n implies matrix@[x] == goal[x] by {
            cell_of(n as int, x);
            assert(matrix@[(x / n as int) * n + x % n as int] == matrix@[x]);
        }
        assert(matrix@ =~= goal);
    }
    let mut seen: Vec<bool> = vec![false; n * n];
    edges_from_matrix(matrix.as_slice(), k, indices, &mut seen)
}

/// Tells whether every point of a leaf has enough neighbours to be built by measuring the points.
pub fn direct_leaf_has_neighbors<F: Fn(usize, usize) -> Real>(
    npoints: usize,
    indices: &[usize],
    k: usize,
    distance: &F,
) -> (r: bool)
    requires
        pairwise(*distance, npoints as int),
        indices@.len() <= u32::MAX,
        indices@.len() * indices@.len() <= usize::MAX,
        forall|i: int| 0 <= i < indices@.len() ==> #[trigger] indices@[i] < npoints,
    ensures
        r == enough_neighbors(
            measured_matrix(*distance, indices@),
            indices@.len() as int,
            k as int,
        ),
        leaf_answered(*distance, indices@),
{
    let n: usize = indices.len();
    let source = ByPoint { indices, npoints, distance };
    let matrix = fill_matrix(n, &source);
    proof {
        let goal = measured_matrix(*distance, indices@);
        assert forall|i: int, j: int| 0 <= i < n && 0 <= j < n && i != j implies (pair_answers(
            *distance,
        ))((#[trigger] indices@[i]) as int, (#[trigger] indices@[j]) as int) by {
            assert((source.answered())(i, j));
        }
        assert forall|x: int| 0 <= x < n * n implies matrix@[x] == goal[x] by {
            cell_of(n as int, x);
            assert(matrix@[(x / n as int) * n + x % n as int] == matrix@[x]);
        }
        assert(matrix@ =~= goal);
    }
    has_enough_neighbors(matrix.as_slice(), n, k)
}

/// A bit as a number: one if it is set, else zero.
pub open spec fn bit_number(set: bool) -> Real {
    if set {
        Real::spec_one()
    } else {
        Real::spec_zero()
    }
}

/// Component `j` of quantized vector `i` as a number.
pub open spec fn component_number(q: QuantizedData, i: int, j: int) -> Real {
    bit_number(bit_at(q.vector(i)[j / 64] as nat, (j % 64) as nat))
}

/// The components of all quantized vectors as numbers, row after row.
pub fn bits_as_numbers(q: &QuantizedData) -> (out: Vec<Real>)
    requires
        q.wf(),
        q.dims() <= 64 * q.width(),
        q.count() * q.dims() <= usize::MAX,
    ensures
        out@.len() == q.count() * q.dims(),
        forall|i: int, j: int|
            0 <= i < q.count() && 0 <= j < q.dims() ==> #[trigger] out@[i * q.dims() + j]
                == component_number(*q, i, j),
{
    let n: usize = q.npoints();
    let ndims: usize = q.ndims();
    let mut out: Vec<Real> = Vec::with_capacity(n * ndims);
    let mut i: usize = 0;
    assert(0 * ndims == 0);
    while i < n
        invariant
            i <= n,
            n == q.count(),
            ndims == q.dims(),
            q.wf(),
            ndims <= 64 * q.width(),
            n * ndims <= usize::MAX,
            out@.len() == i * ndims,
            forall|x: int, y: int|
                0 <= x < i && 0 <= y < ndims ==> #[trigger] out@[x * ndims + y]
                    == component_number(*q, x, y),
        decreases n - i,
    {
        let words = q.get_u64(i);
        let mut rest: u64 = 0;
        let mut j: usize = 0;
        let ghost front = out@;
        while j < ndims
            invariant
                i < n,
                j <= ndims,
                n == q.count(),
                ndims == q.dims(),
                ndims <= 64 * q.width(),
                words@ == q.vector(i as int),
                words@.len() == q.width(),
                front.len() == i * ndims,
                out@.len() == front.len() + j,
                j % 64 != 0 ==> rest == words@[(j / 64) as int] as nat / power_of_two((j % 64) as nat),
                forall|x: int| 0 <= x < front.len() ==> #[trigger] out@[x] == front[x],
                forall|y: int|
                    0 <= y < j ==> #[trigger] out@[front.len() + y] == component_number(
                        *q,
                        i as int,
                        y,
                    ),
            decreases ndims - j,
        {
            if j % 64 == 0 {
                rest = words[j / 64];
            }
            let ghost word = words@[(j / 64) as int] as nat;
            let ghost t = (j % 64) as nat;
            proof {
                let p = power_of_two(t);
                if t == 0 {
                    assert(p == 1);
                    assert(word / p == word) by (nonlinear_arith)
                        requires
                            p == 1,
                    ;
                }
            }
            if rest % 2 == 1 {
                out.push(Real::one());
            } else {
                out.push(Real::zero());
            }
            proof {
                power_grows(0, t);
                vstd::arithmetic::div_mod::lemma_div_denominator(
                    word as int,
                    power_of_two(t) as int,
                    2,
                );
                assert(power_of_two(t + 1) == power_of_two(t) * 2);
                assert((word / power_of_two(t)) / 2 == word / power_of_two(t + 1));
                assert(bit_at(word, t) == (rest % 2 == 1));
            }
            rest = rest / 2;
            j += 1;
        }
        proof {
            assert((i + 1) * ndims == i * ndims + ndims) by (nonlinear_arith);
            assert forall|x: int, y: int|
                0 <= x < i + 1 && 0 <= y < ndims implies #[trigger] out@[x * ndims + y]
                == component_number(*q, x, y) by {
                if x < i {
                    row_bounds(x, i as int, ndims as int);
                    assert(out@[x * ndims + y] == front[x * ndims + y]);
                } else {
                    assert(out@[front.len() + y] == component_number(*q, i as int, y));
                }
            }
        }
        i += 1;
    }
    out
}

} // verus!
