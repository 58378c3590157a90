//! Dot products and matrices of dot products.

use crate::arith::Arithmetic;
use crate::measure::{row, row_bounds, rows_apart};
use crate::number::Real;
use vstd::prelude::*;

verus! {

/// The dot product of the first `m` components, summed from the left.
pub open spec fn dot_upto<A: Arithmetic>(ops: A, a: Seq<Real>, b: Seq<Real>, m: int) -> Real
    decreases m,
{
    if m <= 0 {
        Real::spec_zero()
    } else {
        ops.sum(dot_upto(ops, a, b, m - 1), ops.product(a[m - 1], b[m - 1]))
    }
}

/// The dot product of two vectors.
pub open spec fn dot_of<A: Arithmetic>(ops: A, a: Seq<Real>, b: Seq<Real>) -> Real {
    dot_upto(ops, a, b, a.len() as int)
}

/// The squared distance over the first `m` components, summed from the left.
pub open spec fn squared_l2_upto<A: Arithmetic>(ops: A, a: Seq<Real>, b: Seq<Real>, m: int) -> Real
    decreases m,
{
    if m <= 0 {
        Real::spec_zero()
    } else {
        let d = ops.difference(a[m - 1], b[m - 1]);
        ops.sum(squared_l2_upto(ops, a, b, m - 1), ops.product(d, d))
    }
}

/// The squared Euclidean distance of two vectors.
pub open spec fn squared_l2_of<A: Arithmetic>(ops: A, a: Seq<Real>, b: Seq<Real>) -> Real {
    squared_l2_upto(ops, a, b, a.len() as int)
}

/// Computes the dot product of two vectors.
pub fn dot<A: Arithmetic>(ops: &A, a: &[Real], b: &[Real]) -> (r: Real)
    requires
        ops.ready(),
        a@.len() == b@.len(),
    ensures
        r == dot_of(*ops, a@, b@),
{
    let mut acc = Real::zero();
    let mut i: usize = 0;
    while i < a.len()
        invariant
            i <= a@.len(),
            a@.len() == b@.len(),
            ops.ready(),
            acc == dot_upto(*ops, a@, b@, i as int),
        decreases a@.len() - i,
    {
        let p = ops.times(a[i], b[i]);
        acc = ops.plus(acc, p);
        i += 1;
    }
    acc
}

/// Computes the squared Euclidean distance of two vectors.
pub fn squared_l2<A: Arithmetic>(ops: &A, a: &[Real], b: &[Real]) -> (r: Real)
    requires
        ops.ready(),
        a@.len() == b@.len(),
    ensures
        r == squared_l2_of(*ops, a@, b@),
{
    let mut acc = Real::zero();
    let mut i: usize = 0;
    while i < a.len()
        invariant
            i <= a@.len(),
            a@.len() == b@.len(),
            ops.ready(),
            acc == squared_l2_upto(*ops, a@, b@, i as int),
        decreases a@.len() - i,
    {
        let d = ops.minus(a[i], b[i]);
        let p = ops.times(d, d);
        acc = ops.plus(acc, p);
        i += 1;
    }
    acc
}

/// Row `i` of `n` rows of width `width`.
pub(crate) fn row_slice<'a>(data: &'a [Real], width: usize, i: usize, Ghost(n): Ghost<int>) -> (r: &'a [Real])
    requires
        i < n,
        n * width <= data@.len(),
    ensures
        r@ == row(data@, width as int, i as int),
        r@.len() == width,
{
    proof {
        row_bounds(i as int, n, width as int);
        assert(data.len() == data@.len());
    }
    let start: usize = i * width;
    vstd::slice::slice_subrange(data, start, start + width)
}

/// Entry `(i, j)` of the matrix of dot products between the rows of `a`.
pub open spec fn gram<A: Arithmetic>(ops: A, a: Seq<Real>, k: int, i: int, j: int) -> Real {
    dot_of(ops, row(a, k, i), row(a, k, j))
}

/// Fills `result` with the dot products between all rows of the `n` by `k` matrix `a`.
pub fn sgemm_aat<A: Arithmetic>(ops: &A, a: &[Real], n: usize, k: usize, result: &mut [Real])
    requires
        ops.ready(),
        n * k <= a@.len(),
        n * n <= old(result)@.len(),
    ensures
        final(result)@.len() == old(result)@.len(),
        final(result)@.skip(n * n) == old(result)@.skip(n * n),
        forall|i: int, j: int|
            0 <= i < n && 0 <= j < n ==> #[trigger] final(result)@[i * n + j] == gram(
                *ops,
                a@,
                k as int,
                i,
                j,
            ),
{
    let ghost size = result@.len();
    let ghost before = result@;
    assert(result.len() == result@.len());
    let mut i: usize = 0;
    while i < n
        invariant
            i <= n,
            ops.ready(),
            n * k <= a@.len(),
            n * n <= size <= usize::MAX,
            result@.len() == size == before.len(),
            forall|x: int| n * n <= x < size ==> #[trigger] result@[x] == before[x],
            forall|x: int, j: int|
                0 <= x < i && 0 <= j < n ==> #[trigger] result@[x * n + j] == gram(
                    *ops,
                    a@,
                    k as int,
                    x,
                    j,
                ),
        decreases n - i,
    {
        let left = row_slice(a, k, i, Ghost(n as int));
        let mut j: usize = 0;
        while j < n
            invariant
                i < n,
                j <= n,
                ops.ready(),
                n * k <= a@.len(),
                n * n <= size <= usize::MAX,
                result@.len() == size == before.len(),
                forall|x: int| n * n <= x < size ==> #[trigger] result@[x] == before[x],
                left@ == row(a@, k as int, i as int),
                left@.len() == k,
                forall|x: int, y: int|
                    0 <= x < i && 0 <= y < n ==> #[trigger] result@[x * n + y] == gram(
                        *ops,
                        a@,
                        k as int,
                        x,
                        y,
                    ),
                forall|y: int|
                    0 <= y < j ==> #[trigger] result@[i * n + y] == gram(
                        *ops,
                        a@,
                        k as int,
                        i as int,
                        y,
                    ),
            decreases n - j,
        {
            let right = row_slice(a, k, j, Ghost(n as int));
            proof {
                row_bounds(i as int, n as int, n as int);
            }
            let ghost prior = result@;
            let at: usize = i * n + j;
            assert(at < n * n);
            let value = dot(ops, left, right);
            result[at] = value;
            proof {
                assert forall|x: int, y: int| 0 <= x < i && 0 <= y < n implies #[trigger] result@[x
                    * n + y] == gram(*ops, a@, k as int, x, y) by {
                    rows_apart(x, i as int, n as int);
                    row_bounds(x, n as int, n as int);
                    assert(prior[x * n + y] == gram(*ops, a@, k as int, x, y));
                }
            }
            j += 1;
        }
        i += 1;
    }
    assert(result@.skip(n * n) =~= before.skip(n * n));
}

/// Fills `c` with the dot products between the rows of the `m` by `k` matrix `a` and those of the
/// `n` by `k` matrix `b`.
pub fn sgemm_abt<A: Arithmetic>(
    ops: &A,
    a: &[Real],
    m: usize,
    k: usize,
    b: &[Real],
    n: usize,
    c: &mut [Real],
)
    requires
        ops.ready(),
        m * k <= a@.len(),
        n * k <= b@.len(),
        m * n <= old(c)@.len(),
    ensures
        final(c)@.len() == old(c)@.len(),
        final(c)@.skip(m * n) == old(c)@.skip(m * n),
        forall|i: int, j: int|
            0 <= i < m && 0 <= j < n ==> #[trigger] final(c)@[i * n + j] == dot_of(
                *ops,
                row(a@, k as int, i),
                row(b@, k as int, j),
            ),
{
    let ghost size = c@.len();
    let ghost before = c@;
    assert(c.len() == c@.len());
    let mut i: usize = 0;
    while i < m
        invariant
            i <= m,
            ops.ready(),
            m * k <= a@.len(),
            n * k <= b@.len(),
            m * n <= size <= usize::MAX,
            c@.len() == size == before.len(),
            forall|x: int| m * n <= x < size ==> #[trigger] c@[x] == before[x],
            forall|x: int, y: int|
                0 <= x < i && 0 <= y < n ==> #[trigger] c@[x * n + y] == dot_of(
                    *ops,
                    row(a@, k as int, x),
                    row(b@, k as int, y),
                ),
        decreases m - i,
    {
        let left = row_slice(a, k, i, Ghost(m as int));
        let mut j: usize = 0;
        while j < n
            invariant
                i < m,
                j <= n,
                ops.ready(),
                n * k <= b@.len(),
                m * n <= size <= usize::MAX,
                c@.len() == size == before.len(),
                forall|x: int| m * n <= x < size ==> #[trigger] c@[x] == before[x],
                left@ == row(a@, k as int, i as int),
                left@.len() == k,
                forall|x: int, y: int|
                    ((0 <= x < i && 0 <= y < n) || (x == i && 0 <= y < j)) ==> #[trigger] c@[x * n
                        + y] == dot_of(*ops, row(a@, k as int, x), row(b@, k as int, y)),
            decreases n - j,
        {
            let right = row_slice(b, k, j, Ghost(n as int));
            proof {
                row_bounds(i as int, m as int, n as int);
            }
            let ghost prior = c@;
            let at: usize = i * n + j;
            assert(at < m * n);
            let value = dot(ops, left, right);
            c[at] = value;
            proof {
                assert forall|x: int, y: int|
                    ((0 <= x < i && 0 <= y < n) || (x == i && 0 <= y < j
                        + 1)) implies #[trigger] c@[x * n + y] == dot_of(
                    *ops,
                    row(a@, k as int, x),
                    row(b@, k as int, y),
                ) by {
                    if x < i {
                        rows_apart(x, i as int, n as int);
                        row_bounds(x, m as int, n as int);
                    }
                    if !(x == i && y == j) {
                        assert(c@[x * n + y] == prior[x * n + y]);
                    }
                }
            }
            j += 1;
        }
        i += 1;
    }
    assert(c@.skip(m * n) =~= before.skip(m * n));
}

/// Fills the lower triangle of `c` with the dot products between the rows of the `m` by `k` matrix
/// `a`; the rest stays as it is.
pub fn ssyrk_aat_lower<A: Arithmetic>(ops: &A, a: &[Real], m: usize, k: usize, c: &mut [Real])
    requires
        ops.ready(),
        m * k <= a@.len(),
        old(c)@.len() == m * m,
    ensures
        final(c)@.len() == m * m,
        forall|i: int, j: int|
            0 <= i < m && 0 <= j < m ==> #[trigger] final(c)@[i * m + j] == if j <= i {
                gram(*ops, a@, k as int, i, j)
            } else {
                old(c)@[i * m + j]
            },
{
    let ghost before = c@;
    assert(c.len() == c@.len());
    let mut i: usize = 0;
    while i < m
        invariant
            i <= m,
            ops.ready(),
            m * k <= a@.len(),
            c@.len() == m * m,
            c@.len() <= usize::MAX,
            before.len() == m * m,
            forall|x: int, y: int|
                0 <= x < m && 0 <= y < m ==> #[trigger] c@[x * m + y] == if x < i && y <= x {
                    gram(*ops, a@, k as int, x, y)
                } else {
                    before[x * m + y]
                },
        decreases m - i,
    {
        let left = row_slice(a, k, i, Ghost(m as int));
        let mut j: usize = 0;
        while j <= i
            invariant
                i < m,
                j <= i + 1,
                ops.ready(),
                m * k <= a@.len(),
                c@.len() == m * m,
                c@.len() <= usize::MAX,
                before.len() == m * m,
                left@ == row(a@, k as int, i as int),
                left@.len() == k,
                forall|x: int, y: int|
                    0 <= x < m && 0 <= y < m ==> #[trigger] c@[x * m + y] == if (x < i && y <= x)
                        || (x == i && y < j) {
                        gram(*ops, a@, k as int, x, y)
                    } else {
                        before[x * m + y]
                    },
            decreases i + 1 - j,
        {
            let right = row_slice(a, k, j, Ghost(m as int));
            proof {
                row_bounds(i as int, m as int, m as int);
            }
            let ghost prior = c@;
            let at: usize = i * m + j;
            let value = dot(ops, left, right);
            c[at] = value;
            proof {
                assert forall|x: int, y: int| 0 <= x < m && 0 <= y < m implies #[trigger] c@[x * m
                    + y] == if (x < i && y <= x) || (x == i && y < j + 1) {
                    gram(*ops, a@, k as int, x, y)
                } else {
                    before[x * m + y]
                } by {
                    crate::knn::cell_apart(m as int, x, y, i as int, j as int);
                    if !(x == i && y == j) {
                        assert(c@[x * m + y] == prior[x * m + y]);
                    }
                }
            }
            j += 1;
        }
        i += 1;
    }
}

/// Brain-float numbers, widened.
pub open spec fn widened_all(a: Seq<u16>) -> Seq<Real> {
    a.map_values(|x: u16| Real::widened(x))
}

fn widen_all(a: &[u16]) -> (out: Vec<Real>)
    ensures
        out@ == widened_all(a@),
{
    let mut out: Vec<Real> = Vec::with_capacity(a.len());
    let mut i: usize = 0;
    while i < a.len()
        invariant
            i <= a@.len(),
            out@.len() == i,
            forall|x: int| 0 <= x < i ==> #[trigger] out@[x] == Real::widened(a@[x]),
        decreases a@.len() - i,
    {
        out.push(Real::from_coarse(a[i]));
        i += 1;
    }
    assert(out@ =~= widened_all(a@));
    out
}

/// Fills `c` with the dot products between the rows of two matrices of brain-float numbers.
pub fn bf16_abt<A: Arithmetic>(
    ops: &A,
    a: &[u16],
    m: usize,
    k: usize,
    b: &[u16],
    n: usize,
    c: &mut [Real],
)
    requires
        ops.ready(),
        m * k <= a@.len(),
        n * k <= b@.len(),
        m * n <= old(c)@.len(),
    ensures
        final(c)@.len() == old(c)@.len(),
        final(c)@.skip(m * n) == old(c)@.skip(m * n),
        forall|i: int, j: int|
            0 <= i < m && 0 <= j < n ==> #[trigger] final(c)@[i * n + j] == dot_of(
                *ops,
                row(widened_all(a@), k as int, i),
                row(widened_all(b@), k as int, j),
            ),
{
    let wide_a = widen_all(a);
    let wide_b = widen_all(b);
    sgemm_abt(ops, wide_a.as_slice(), m, k, wide_b.as_slice(), n, c);
}

/// Fills `c` with the dot products between all rows of a matrix of brain-float numbers.
pub fn bf16_aat_full<A: Arithmetic>(ops: &A, a: &[u16], m: usize, k: usize, c: &mut [Real])
    requires
        ops.ready(),
        m * k <= a@.len(),
        m * m <= old(c)@.len(),
    ensures
        final(c)@.len() == old(c)@.len(),
        final(c)@.skip(m * m) == old(c)@.skip(m * m),
        forall|i: int, j: int|
            0 <= i < m && 0 <= j < m ==> #[trigger] final(c)@[i * m + j] == gram(
                *ops,
                widened_all(a@),
                k as int,
                i,
                j,
            ),
{
    let wide = widen_all(a);
    sgemm_aat(ops, wide.as_slice(), m, k, c);
}

/// The second factor of a product, kept for many first factors.
#[derive(Debug)]
pub struct SgemmPackedB {
    buf: Vec<Real>,
    n: usize,
    k: usize,
    max_m: usize,
}

impl SgemmPackedB {
    /// The kept factor, row by row.
    pub closed spec fn rows(&self) -> Seq<Real> {
        self.buf@
    }

    /// Number of rows.
    pub closed spec fn count(&self) -> nat {
        self.n as nat
    }

    /// Length of a row.
    pub closed spec fn width(&self) -> nat {
        self.k as nat
    }

    /// Greatest number of rows of a first factor.
    pub closed spec fn limit(&self) -> nat {
        self.max_m as nat
    }

    /// Keeps the `n` by `k` matrix `b`, for first factors of up to `max_m` rows.
    pub fn pack(b: &[Real], n: usize, k: usize, max_m: usize) -> (r: Self)
        requires
            b@.len() == n * k,
        ensures
            r.rows() == b@,
            r.count() == n,
            r.width() == k,
            r.limit() == max_m,
    {
        let mut buf: Vec<Real> = Vec::with_capacity(b.len());
        let mut i: usize = 0;
        while i < b.len()
            invariant
                i <= b@.len(),
                buf@ == b@.take(i as int),
            decreases b@.len() - i,
        {
            buf.push(b[i]);
            assert(buf@ =~= b@.take(i + 1));
            i += 1;
        }
        assert(buf@ =~= b@);
        SgemmPackedB { buf, n, k, max_m }
    }

    /// Fills `c` with the dot products between the rows of the matrix `a` of `m` rows and those of
    /// the kept factor.
    pub fn compute<A: Arithmetic>(&self, ops: &A, a: &[Real], m: usize, c: &mut [Real])
        requires
            ops.ready(),
            self.rows().len() == self.count() * self.width(),
            m <= self.limit(),
            m * self.width() <= a@.len(),
            m * self.count() <= old(c)@.len(),
        ensures
            final(c)@.len() == old(c)@.len(),
            final(c)@.skip(m * self.count()) == old(c)@.skip(m * self.count()),
            forall|i: int, j: int|
                0 <= i < m && 0 <= j < self.count() ==> #[trigger] final(c)@[i * self.count() + j]
                    == dot_of(
                    *ops,
                    row(a@, self.width() as int, i),
                    row(self.rows(), self.width() as int, j),
                ),
    {
        sgemm_abt(ops, a, m, self.k, self.buf.as_slice(), self.n, c);
    }
}

proof fn dot_commutes<A: Arithmetic>(ops: A, a: Seq<Real>, b: Seq<Real>, m: int)
    requires
        forall|x: Real, y: Real| #[trigger] ops.product(x, y) == ops.product(y, x),
    ensures
        dot_upto(ops, a, b, m) == dot_upto(ops, b, a, m),
    decreases m,
{
    if m > 0 {
        dot_commutes(ops, a, b, m - 1);
    }
}

/// Where multiplication commutes, the matrix of dot products is symmetric.
pub proof fn gram_symmetric<A: Arithmetic>(ops: A, a: Seq<Real>, n: int, k: int, i: int, j: int)
    requires
        forall|x: Real, y: Real| #[trigger] ops.product(x, y) == ops.product(y, x),
        0 <= i < n,
        0 <= j < n,
        0 <= k,
        n * k <= a.len(),
    ensures
        gram(ops, a, k, i, j) == gram(ops, a, k, j, i),
{
    row_bounds(i, n, k);
    row_bounds(j, n, k);
    dot_commutes(ops, row(a, k, i), row(a, k, j), k);
}

} // verus!
