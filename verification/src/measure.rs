//! What the library asks of the functions that callers supply.
//!
//! Distances and quotients are computed outside the library. A supplied function has to be
//! callable on everything it is asked about, and to give one answer per question.

use crate::number::Real;
use vstd::prelude::*;
use vstd::slice::slice_subrange;

verus! {

/// The function answers for all pairs of positions below `n`, always in the same way.
pub open spec fn pairwise<F: Fn(usize, usize) -> Real>(f: F, n: int) -> bool {
    &&& forall|i: usize, j: usize| i < n && j < n ==> #[trigger] f.requires((i, j))
    &&& forall|i: usize, j: usize, a: Real, b: Real|
        #[trigger] f.ensures((i, j), a) && #[trigger] f.ensures((i, j), b) ==> a == b
}

/// The answer for positions `i` and `j`.
pub open spec fn pair_value<F: Fn(usize, usize) -> Real>(f: F, i: int, j: int) -> Real {
    choose|r: Real| #[trigger] f.ensures((i as usize, j as usize), r)
}

/// The function answers for all pairs of vectors with `n` and `m` components, always in the same
/// way for the same numbers.
pub open spec fn vector_measure<F: Fn(&[Real], &[Real]) -> Real>(f: F, n: int, m: int) -> bool {
    &&& forall|a: &[Real], b: &[Real]|
        a@.len() == n && b@.len() == m ==> #[trigger] f.requires((a, b))
    &&& forall|a: &[Real], b: &[Real], c: &[Real], d: &[Real], x: Real, y: Real|
        #[trigger] f.ensures((a, b), x) && #[trigger] f.ensures((c, d), y) && a@ == c@ && b@ == d@
            ==> x == y
}

/// `r` is an answer for two vectors with the given numbers.
pub open spec fn answers<F: Fn(&[Real], &[Real]) -> Real>(
    f: F,
    a: Seq<Real>,
    b: Seq<Real>,
    r: Real,
) -> bool {
    exists|x: &[Real], y: &[Real]| #[trigger] f.ensures((x, y), r) && x@ == a && y@ == b
}

/// The answer for two vectors with the given numbers.
pub open spec fn vector_value<F: Fn(&[Real], &[Real]) -> Real>(
    f: F,
    a: Seq<Real>,
    b: Seq<Real>,
) -> Real {
    choose|r: Real| #[trigger] answers(f, a, b, r)
}

/// Asks for the answer at two vectors.
pub(crate) fn ask_vectors<F: Fn(&[Real], &[Real]) -> Real>(f: &F, a: &[Real], b: &[Real]) -> (r:
    Real)
    requires
        vector_measure(*f, a@.len() as int, b@.len() as int),
    ensures
        r == vector_value(*f, a@, b@),
        answers(*f, a@, b@, r),
{
    let r = f(a, b);
    proof {
        assert(f.ensures((a, b), r));
        assert(answers(*f, a@, b@, r));
    }
    r
}

/// A number for every pair of positions.
pub type PairTable = spec_fn(int, int) -> Real;

/// A property of pairs of positions.
pub type PairTest = spec_fn(int, int) -> bool;

/// Something that knows the distance between any two positions below a bound.
pub(crate) trait PairSource {
    /// The positions that can be asked about are those below `n`.
    spec fn covers(&self, n: int) -> bool;

    /// The distances.
    spec fn table(&self) -> PairTable;

    /// The pairs whose distance is known to be an answer of whatever measures it.
    spec fn answered(&self) -> PairTest;

    /// The distance between positions `i` and `j`.
    fn between(&self, i: usize, j: usize, Ghost(n): Ghost<int>) -> (r: Real)
        requires
            self.covers(n),
            i < n,
            j < n,
        ensures
            r == (self.table())(i as int, j as int),
            (self.answered())(i as int, j as int),
    ;
}

/// The answers of a supplied function as a table.
pub open spec fn pair_table<F: Fn(usize, usize) -> Real>(f: F) -> PairTable {
    |i: int, j: int| pair_value(f, i, j)
}

/// The pairs whose value is an answer of a supplied function.
pub open spec fn pair_answers<F: Fn(usize, usize) -> Real>(f: F) -> PairTest {
    |i: int, j: int| f.ensures((i as usize, j as usize), pair_value(f, i, j))
}

/// Distances given by a function of the positions.
pub(crate) struct ByPosition<F> {
    pub f: F,
}

impl<F: Fn(usize, usize) -> Real> PairSource for ByPosition<F> {
    open spec fn covers(&self, n: int) -> bool {
        pairwise(self.f, n)
    }

    open spec fn table(&self) -> PairTable {
        pair_table(self.f)
    }

    open spec fn answered(&self) -> PairTest {
        pair_answers(self.f)
    }

    fn between(&self, i: usize, j: usize, Ghost(n): Ghost<int>) -> (r: Real) {
        (self.f)(i, j)
    }
}

/// Row `i` of a row-major matrix.
pub open spec fn row(data: Seq<Real>, ndims: int, i: int) -> Seq<Real> {
    data.subrange(i * ndims, (i + 1) * ndims)
}

/// The distances between the rows of a matrix.
pub open spec fn row_table<D: Fn(&[Real], &[Real]) -> Real>(
    data: Seq<Real>,
    ndims: int,
    dist_fn: D,
) -> PairTable {
    |i: int, j: int| vector_value(dist_fn, row(data, ndims, i), row(data, ndims, j))
}

/// The pairs of rows whose distance is an answer.
pub open spec fn row_answers<D: Fn(&[Real], &[Real]) -> Real>(
    data: Seq<Real>,
    ndims: int,
    dist_fn: D,
) -> PairTest {
    |i: int, j: int|
        answers(
            dist_fn,
            row(data, ndims, i),
            row(data, ndims, j),
            vector_value(dist_fn, row(data, ndims, i), row(data, ndims, j)),
        )
}

/// Row `i` of `n` rows lies inside the matrix.
pub proof fn row_bounds(i: int, n: int, width: int)
    requires
        0 <= i < n,
        0 <= width,
    ensures
        0 <= i * width <= (i + 1) * width <= n * width,
        (i + 1) * width == i * width + width,
{
    assert(0 <= i * width) by (nonlinear_arith)
        requires
            0 <= i,
            0 <= width,
    ;
    assert((i + 1) * width == i * width + width) by (nonlinear_arith);
    assert((i + 1) * width <= n * width) by (nonlinear_arith)
        requires
            i + 1 <= n,
            0 <= width,
    ;
}

/// Distinct rows do not overlap.
pub proof fn rows_apart(i: int, j: int, width: int)
    requires
        i < j,
        0 <= width,
    ensures
        i * width + width <= j * width,
{
    assert((i + 1) * width == i * width + width) by (nonlinear_arith);
    assert((i + 1) * width <= j * width) by (nonlinear_arith)
        requires
            i + 1 <= j,
            0 <= width,
    ;
}

/// Distances between the rows of a matrix, computed on demand.
pub(crate) struct ByRow<'a, D> {
    pub data: &'a [Real],
    pub ndims: usize,
    pub dist_fn: &'a D,
}

impl<'a, D: Fn(&[Real], &[Real]) -> Real> PairSource for ByRow<'a, D> {
    open spec fn covers(&self, n: int) -> bool {
        n * self.ndims <= self.data.len() && vector_measure(
            *self.dist_fn,
            self.ndims as int,
            self.ndims as int,
        )
    }

    open spec fn table(&self) -> PairTable {
        row_table(self.data@, self.ndims as int, *self.dist_fn)
    }

    open spec fn answered(&self) -> PairTest {
        row_answers(self.data@, self.ndims as int, *self.dist_fn)
    }

    fn between(&self, i: usize, j: usize, Ghost(n): Ghost<int>) -> (r: Real) {
        proof {
            row_bounds(i as int, n, self.ndims as int);
            row_bounds(j as int, n, self.ndims as int);
        }
        let start_i: usize = i * self.ndims;
        let start_j: usize = j * self.ndims;
        let a = slice_subrange(self.data, start_i, start_i + self.ndims);
        let b = slice_subrange(self.data, start_j, start_j + self.ndims);
        ask_vectors(self.dist_fn, a, b)
    }
}

/// The distances between the candidates in a list, from those between points.
pub open spec fn candidate_table(candidates: Seq<(u32, Real)>, points: PairTable) -> PairTable {
    |i: int, j: int| points(candidates[i].0 as int, candidates[j].0 as int)
}

/// The pairs of candidates in a list whose distance is an answer.
pub open spec fn candidate_answers(candidates: Seq<(u32, Real)>, points: PairTest) -> PairTest {
    |i: int, j: int| points(candidates[i].0 as int, candidates[j].0 as int)
}

/// Distances between the candidates in a list, from a source for points.
pub(crate) struct ByCandidate<'a, S> {
    pub candidates: &'a Vec<(u32, Real)>,
    pub npoints: usize,
    pub points: &'a S,
}

impl<'a, S: PairSource> PairSource for ByCandidate<'a, S> {
    open spec fn covers(&self, n: int) -> bool {
        &&& n <= self.candidates.len()
        &&& self.points.covers(self.npoints as int)
        &&& forall|i: int| 0 <= i < n ==> (#[trigger] self.candidates[i]).0 < self.npoints
    }

    open spec fn table(&self) -> PairTable {
        candidate_table(self.candidates@, self.points.table())
    }

    open spec fn answered(&self) -> PairTest {
        candidate_answers(self.candidates@, self.points.answered())
    }

    fn between(&self, i: usize, j: usize, Ghost(n): Ghost<int>) -> (r: Real) {
        self.points.between(
            self.candidates[i].0 as usize,
            self.candidates[j].0 as usize,
            Ghost(self.npoints as int),
        )
    }
}

} // verus!
