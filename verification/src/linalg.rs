//! Matrix products: exact products of bytes, general products of numbers, and the plan by which a
//! column-major routine computes a row-major product.

use crate::arith::Arithmetic;
use crate::knn::place_of;
use crate::measure::{row_bounds, rows_apart};
use crate::number::{count_bits, from_count, Real};
use vstd::prelude::*;

verus! {

/// Most components of a byte vector for which products fit into 32 bits.
pub const MAX_BYTE_DIMS: usize = 65793;

/// The first `l` components of row `j` of a byte matrix, summed.
pub open spec fn byte_sum(x: Seq<u8>, k: int, j: int, l: int) -> int
    decreases l,
{
    if l <= 0 {
        0
    } else {
        byte_sum(x, k, j, l - 1) + x[j * k + l - 1]
    }
}

/// The product of row `i` of one byte matrix with row `j` of another, over the first `l`
/// components.
pub open spec fn byte_dot(a: Seq<u8>, b: Seq<u8>, k: int, i: int, j: int, l: int) -> int
    decreases l,
{
    if l <= 0 {
        0
    } else {
        byte_dot(a, b, k, i, j, l - 1) + a[i * k + l - 1] * b[j * k + l - 1]
    }
}

/// The same with a second matrix of signed bytes.
pub open spec fn signed_dot(a: Seq<u8>, b: Seq<i8>, k: int, i: int, j: int, l: int) -> int
    decreases l,
{
    if l <= 0 {
        0
    } else {
        signed_dot(a, b, k, i, j, l - 1) + a[i * k + l - 1] * b[j * k + l - 1]
    }
}

/// Whether `s` is `x` moved down by half its range.
pub open spec fn centered(x: Seq<u8>, s: Seq<i8>) -> bool {
    &&& s.len() == x.len()
    &&& forall|i: int| 0 <= i < x.len() ==> #[trigger] s[i] == x[i] - 128
}

/// Whether `sums` are the sums of the rows of `x`.
pub open spec fn row_sums(x: Seq<u8>, n: int, k: int, sums: Seq<i64>) -> bool {
    &&& sums.len() == n
    &&& forall|j: int| 0 <= j < n ==> #[trigger] sums[j] == byte_sum(x, k, j, k)
}

/// Sums the rows of a byte matrix.
pub fn u8_row_sums(x: &[u8], n: usize, k: usize, out: &mut [i64])
    requires
        x@.len() == n * k,
        old(out)@.len() == n,
        255 * k <= i64::MAX,
    ensures
        row_sums(x@, n as int, k as int, final(out)@),
{
    assert(x.len() == x@.len());
    let mut j: usize = 0;
    while j < n
        invariant
            j <= n,
            x@.len() == n * k,
            x@.len() <= usize::MAX,
            255 * k <= i64::MAX,
            out@.len() == n,
            forall|r: int| 0 <= r < j ==> #[trigger] out@[r] == byte_sum(x@, k as int, r, k as int),
        decreases n - j,
    {
        proof {
            row_bounds(j as int, n as int, k as int);
        }
        let start: usize = j * k;
        let mut s: i64 = 0;
        let mut l: usize = 0;
        while l < k
            invariant
                l <= k,
                start == j * k,
                start + k <= x@.len() <= usize::MAX,
                255 * k <= i64::MAX,
                s == byte_sum(x@, k as int, j as int, l as int),
                0 <= s <= 255 * l,
            decreases k - l,
        {
            s = s + x[start + l] as i64;
            l += 1;
        }
        out[j] = s;
        j += 1;
    }
}

/// Moves bytes down by half their range.
pub fn u8_center_to_s8(x: &[u8], out: &mut [i8])
    requires
        x@.len() == old(out)@.len(),
    ensures
        centered(x@, final(out)@),
{
    let mut i: usize = 0;
    while i < x.len()
        invariant
            i <= x@.len(),
            x@.len() == out@.len(),
            forall|j: int| 0 <= j < i ==> #[trigger] out@[j] == x@[j] - 128,
        decreases x@.len() - i,
    {
        let v: i32 = x[i] as i32 - 128;
        out[i] = v as i8;
        i += 1;
    }
}

proof fn signed_dot_bounds(a: Seq<u8>, b: Seq<i8>, k: int, i: int, j: int, l: int)
    requires
        0 <= l,
    ensures
        -32640 * l <= signed_dot(a, b, k, i, j, l) <= 32385 * l,
    decreases l,
{
    if l > 0 {
        signed_dot_bounds(a, b, k, i, j, l - 1);
        let x = a[i * k + l - 1] as int;
        let y = b[j * k + l - 1] as int;
        assert(signed_dot(a, b, k, i, j, l) == signed_dot(a, b, k, i, j, l - 1) + x * y);
        assert(-32640 <= x * y <= 32385) by (nonlinear_arith)
            requires
                0 <= x <= 255,
                -128 <= y <= 127,
        ;
    }
}

/// Multiplies a byte matrix by a transposed matrix of signed bytes.
pub fn u8s8s32_abt_raw(a_u8: &[u8], m: usize, k: usize, b_s8: &[i8], n: usize, c: &mut [i32])
    requires
        a_u8@.len() == m * k,
        b_s8@.len() == n * k,
        old(c)@.len() == m * n,
        k <= MAX_BYTE_DIMS,
    ensures
        final(c)@.len() == m * n,
        forall|i: int, j: int|
            0 <= i < m && 0 <= j < n ==> #[trigger] final(c)@[i * n + j] == signed_dot(
                a_u8@,
                b_s8@,
                k as int,
                i,
                j,
                k as int,
            ),
{
    proof {
        assert(a_u8.len() == a_u8@.len());
        assert(b_s8.len() == b_s8@.len());
        assert(c.len() == c@.len());
    }
    let mut i: usize = 0;
    while i < m
        invariant
            i <= m,
            a_u8@.len() == m * k,
            a_u8@.len() <= usize::MAX,
            b_s8@.len() == n * k,
            b_s8@.len() <= usize::MAX,
            c@.len() == m * n,
            c@.len() <= usize::MAX,
            k <= MAX_BYTE_DIMS,
            forall|x: int, y: int|
                0 <= x < i && 0 <= y < n ==> #[trigger] c@[x * n + y] == signed_dot(
                    a_u8@,
                    b_s8@,
                    k as int,
                    x,
                    y,
                    k as int,
                ),
        decreases m - i,
    {
        proof {
            row_bounds(i as int, m as int, k as int);
            row_bounds(i as int, m as int, n as int);
        }
        let start_a: usize = i * k;
        let start_c: usize = i * n;
        let mut j: usize = 0;
        while j < n
            invariant
                i < m,
                j <= n,
                start_a == i * k,
                start_a + k <= a_u8@.len() <= usize::MAX,
                start_c == i * n,
                start_c + n <= c@.len() <= usize::MAX,
                b_s8@.len() == n * k,
                b_s8@.len() <= usize::MAX,
                c@.len() == m * n,
                k <= MAX_BYTE_DIMS,
                forall|x: int, y: int|
                    0 <= x < i && 0 <= y < n ==> #[trigger] c@[x * n + y] == signed_dot(
                        a_u8@,
                        b_s8@,
                        k as int,
                        x,
                        y,
                        k as int,
                    ),
                forall|y: int|
                    0 <= y < j ==> #[trigger] c@[i * n + y] == signed_dot(
                        a_u8@,
                        b_s8@,
                        k as int,
                        i as int,
                        y,
                        k as int,
                    ),
            decreases n - j,
        {
            proof {
                row_bounds(j as int, n as int, k as int);
            }
            let start_b: usize = j * k;
            let mut s: i32 = 0;
            let mut l: usize = 0;
            while l < k
                invariant
                    l <= k <= MAX_BYTE_DIMS,
                    start_a == i * k,
                    start_b == j * k,
                    start_a + k <= a_u8@.len() <= usize::MAX,
                    start_b + k <= b_s8@.len() <= usize::MAX,
                    s == signed_dot(a_u8@, b_s8@, k as int, i as int, j as int, l as int),
                decreases k - l,
            {
                let x: i32 = a_u8[start_a + l] as i32;
                let y: i32 = b_s8[start_b + l] as i32;
                proof {
                    signed_dot_bounds(a_u8@, b_s8@, k as int, i as int, j as int, l as int);
                    signed_dot_bounds(a_u8@, b_s8@, k as int, i as int, j as int, l + 1);
                    assert(-32640 <= x * y <= 32385) by (nonlinear_arith)
                        requires
                            0 <= x <= 255,
                            -128 <= y <= 127,
                    ;
                    assert(signed_dot(a_u8@, b_s8@, k as int, i as int, j as int, l + 1) == s + x
                        * y);
                }
                s = s + x * y;
                l += 1;
            }
            let ghost prior = c@;
            c[start_c + j] = s;
            proof {
                assert forall|x: int, y: int| 0 <= x < i && 0 <= y < n implies #[trigger] c@[x * n
                    + y] == signed_dot(a_u8@, b_s8@, k as int, x, y, k as int) by {
                    rows_apart(x, i as int, n as int);
                    row_bounds(x, m as int, n as int);
                    assert(prior[x * n + y] == signed_dot(a_u8@, b_s8@, k as int, x, y, k as int));
                }
            }
            j += 1;
        }
        i += 1;
    }
}

/// Moving the second factor down by half its range changes a product by half the range times the
/// row sum of the first.
pub proof fn centering_correction(
    a: Seq<u8>,
    b: Seq<u8>,
    s: Seq<i8>,
    k: int,
    i: int,
    j: int,
    l: int,
)
    requires
        centered(b, s),
        0 <= l <= k,
        0 <= j,
        (j + 1) * k <= b.len(),
        0 <= k,
    ensures
        signed_dot(a, s, k, i, j, l) + 128 * byte_sum(a, k, i, l) == byte_dot(a, b, k, i, j, l),
    decreases l,
{
    if l > 0 {
        centering_correction(a, b, s, k, i, j, l - 1);
        row_bounds(j, j + 1, k);
        let at = j * k + l - 1;
        let x = a[i * k + l - 1] as int;
        assert(s[at] == b[at] - 128);
        assert(x * (b[at] - 128) == x * b[at] - 128 * x) by (nonlinear_arith);
    }
}

proof fn byte_dot_bounds(a: Seq<u8>, b: Seq<u8>, k: int, i: int, j: int, l: int)
    requires
        0 <= l,
    ensures
        0 <= byte_dot(a, b, k, i, j, l) <= 65025 * l,
    decreases l,
{
    if l > 0 {
        byte_dot_bounds(a, b, k, i, j, l - 1);
        let x = a[i * k + l - 1] as int;
        let y = b[j * k + l - 1] as int;
        assert(0 <= x * y <= 65025) by (nonlinear_arith)
            requires
                0 <= x <= 255,
                0 <= y <= 255,
        ;
    }
}

/// The exact product of two rows of bytes, as a number.
pub open spec fn byte_gram(a: Seq<u8>, b: Seq<u8>, k: int, i: int, j: int) -> Real {
    Real { bits: count_bits(byte_dot(a, b, k, i, j, k) as nat) as u32 }
}

/// Corrects a product with a centered row.
fn corrected(raw: i32, rowsum: i64) -> (r: Real)
    requires
        0 <= raw + 128 * rowsum <= u32::MAX,
        0 <= rowsum <= 0x100_0000,
    ensures
        r.bits == count_bits((raw + 128 * rowsum) as nat),
{
    let exact: i64 = raw as i64 + 128 * rowsum;
    from_count(exact as u32)
}

proof fn byte_sum_bounds(a: Seq<u8>, k: int, i: int, l: int)
    requires
        0 <= l,
    ensures
        0 <= byte_sum(a, k, i, l) <= 255 * l,
    decreases l,
{
    if l > 0 {
        byte_sum_bounds(a, k, i, l - 1);
    }
}

/// Fills the lower triangle of the matrix of products between the rows of a byte matrix, exactly.
/// `a_s8` is the matrix moved down by half its range and `rowsum` its row sums. The products with
/// the moved rows are left in `s32_scratch`.
pub fn gram_u8_aat_lower(
    a_u8: &[u8],
    a_s8: &[i8],
    m: usize,
    k: usize,
    rowsum: &[i64],
    s32_scratch: &mut [i32],
    c: &mut [Real],
)
    requires
        a_u8@.len() == m * k,
        centered(a_u8@, a_s8@),
        row_sums(a_u8@, m as int, k as int, rowsum@),
        old(s32_scratch)@.len() == m * m,
        old(c)@.len() == m * m,
        k <= MAX_BYTE_DIMS,
    ensures
        final(c)@.len() == m * m,
        forall|i: int, j: int|
            0 <= j <= i < m ==> #[trigger] final(c)@[i * m + j] == byte_gram(
                a_u8@,
                a_u8@,
                k as int,
                i,
                j,
            ),
        forall|i: int, j: int|
            0 <= i < j < m ==> #[trigger] final(c)@[i * m + j] == old(c)@[i * m + j],
        final(s32_scratch)@.len() == m * m,
        forall|i: int, j: int|
            0 <= i < m && 0 <= j < m ==> #[trigger] final(s32_scratch)@[i * m + j] == signed_dot(
                a_u8@,
                a_s8@,
                k as int,
                i,
                j,
                k as int,
            ),
{
    u8s8s32_abt_raw(a_u8, m, k, a_s8, m, s32_scratch);
    let ghost before = c@;
    assert(c.len() == c@.len());
    let mut i: usize = 0;
    while i < m
        invariant
            i <= m,
            a_u8@.len() == m * k,
            centered(a_u8@, a_s8@),
            row_sums(a_u8@, m as int, k as int, rowsum@),
            k <= MAX_BYTE_DIMS,
            s32_scratch@.len() == m * m,
            forall|x: int, y: int|
                0 <= x < m && 0 <= y < m ==> #[trigger] s32_scratch@[x * m + y] == signed_dot(
                    a_u8@,
                    a_s8@,
                    k as int,
                    x,
                    y,
                    k as int,
                ),
            c@.len() == m * m,
            before.len() == m * m,
            c@.len() <= usize::MAX,
            forall|x: int, y: int|
                0 <= x < m && 0 <= y < m ==> #[trigger] c@[x * m + y] == if x < i && y <= x {
                    byte_gram(a_u8@, a_u8@, k as int, x, y)
                } else {
                    before[x * m + y]
                },
        decreases m - i,
    {
        proof {
            row_bounds(i as int, m as int, m as int);
            assert(rowsum@[i as int] == byte_sum(a_u8@, k as int, i as int, k as int));
            byte_sum_bounds(a_u8@, k as int, i as int, k as int);
        }
        let base: usize = i * m;
        let mut j: usize = 0;
        while j <= i
            invariant
                i < m,
                j <= i + 1,
                base == i * m,
                base + m <= m * m <= usize::MAX,
                a_u8@.len() == m * k,
                centered(a_u8@, a_s8@),
                row_sums(a_u8@, m as int, k as int, rowsum@),
                rowsum@[i as int] == byte_sum(a_u8@, k as int, i as int, k as int),
                0 <= rowsum@[i as int] <= 255 * k,
                k <= MAX_BYTE_DIMS,
                s32_scratch@.len() == m * m,
                forall|x: int, y: int|
                    0 <= x < m && 0 <= y < m ==> #[trigger] s32_scratch@[x * m + y] == signed_dot(
                        a_u8@,
                        a_s8@,
                        k as int,
                        x,
                        y,
                        k as int,
                    ),
                c@.len() == m * m,
                before.len() == m * m,
                forall|x: int, y: int|
                    0 <= x < m && 0 <= y < m ==> #[trigger] c@[x * m + y] == if (x < i && y <= x)
                        || (x == i && y < j) {
                        byte_gram(a_u8@, a_u8@, k as int, x, y)
                    } else {
                        before[x * m + y]
                    },
            decreases i + 1 - j,
        {
            proof {
                row_bounds(j as int, m as int, k as int);
                centering_correction(
                    a_u8@,
                    a_u8@,
                    a_s8@,
                    k as int,
                    i as int,
                    j as int,
                    k as int,
                );
                byte_dot_bounds(a_u8@, a_u8@, k as int, i as int, j as int, k as int);
                assert(s32_scratch@[i * m + j] == signed_dot(
                    a_u8@,
                    a_s8@,
                    k as int,
                    i as int,
                    j as int,
                    k as int,
                ));
            }
            let ghost prior = c@;
            let value = corrected(s32_scratch[base + j], rowsum[i]);
            assert(value == byte_gram(a_u8@, a_u8@, k as int, i as int, j as int));
            c[base + j] = value;
            proof {
                assert forall|x: int, y: int| 0 <= x < m && 0 <= y < m implies #[trigger] c@[x * m
                    + y] == if (x < i && y <= x) || (x == i && y < j + 1) {
                    byte_gram(a_u8@, a_u8@, k as int, x, y)
                } else {
                    before[x * m + y]
                } by {
                    crate::knn::cell_apart(m as int, x, y, i as int, j as int);
                    if !(x == i && y == j) {
                        assert(c@[x * m + y] == prior[x * m + y]);
                    }
                }
            }
            j += 1;
        }
        i += 1;
    }
}

/// Signed bytes moved up by half their range.
pub open spec fn uncentered(s: Seq<i8>) -> Seq<u8> {
    s.map_values(|v: i8| (v + 128) as u8)
}

/// Moving bytes down and up again changes nothing.
pub proof fn centering_undone(x: Seq<u8>, s: Seq<i8>)
    requires
        centered(x, s),
    ensures
        uncentered(s) == x,
{
    assert forall|i: int| 0 <= i < x.len() implies uncentered(s)[i] == x[i] by {
        assert(s[i] == x[i] - 128);
    }
    assert(uncentered(s) =~= x);
}

/// Fills the matrix of products between the rows of two byte matrices, exactly. The second one is
/// given as `b_s8`, moved down by half its range; `rowsum_a` are the row sums of the first. The
/// products with the moved rows are left in `s32_scratch`.
pub fn gram_u8_abt(
    a_u8: &[u8],
    m: usize,
    k: usize,
    b_s8: &[i8],
    n: usize,
    rowsum_a: &[i64],
    s32_scratch: &mut [i32],
    c: &mut [Real],
)
    requires
        a_u8@.len() == m * k,
        b_s8@.len() == n * k,
        row_sums(a_u8@, m as int, k as int, rowsum_a@),
        old(s32_scratch)@.len() == m * n,
        old(c)@.len() == m * n,
        k <= MAX_BYTE_DIMS,
    ensures
        final(c)@.len() == m * n,
        forall|i: int, j: int|
            0 <= i < m && 0 <= j < n ==> #[trigger] final(c)@[i * n + j] == byte_gram(
                a_u8@,
                uncentered(b_s8@),
                k as int,
                i,
                j,
            ),
        final(s32_scratch)@.len() == m * n,
        forall|i: int, j: int|
            0 <= i < m && 0 <= j < n ==> #[trigger] final(s32_scratch)@[i * n + j] == signed_dot(
                a_u8@,
                b_s8@,
                k as int,
                i,
                j,
                k as int,
            ),
{
    u8s8s32_abt_raw(a_u8, m, k, b_s8, n, s32_scratch);
    let ghost b = uncentered(b_s8@);
    assert(c.len() == c@.len());
    let mut i: usize = 0;
    while i < m
        invariant
            i <= m,
            a_u8@.len() == m * k,
            b_s8@.len() == n * k,
            b == uncentered(b_s8@),
            row_sums(a_u8@, m as int, k as int, rowsum_a@),
            k <= MAX_BYTE_DIMS,
            s32_scratch@.len() == m * n,
            forall|x: int, y: int|
                0 <= x < m && 0 <= y < n ==> #[trigger] s32_scratch@[x * n + y] == signed_dot(
                    a_u8@,
                    b_s8@,
                    k as int,
                    x,
                    y,
                    k as int,
                ),
            c@.len() == m * n,
            c@.len() <= usize::MAX,
            forall|x: int, y: int|
                0 <= x < i && 0 <= y < n ==> #[trigger] c@[x * n + y] == byte_gram(
                    a_u8@,
                    b,
                    k as int,
                    x,
                    y,
                ),
        decreases m - i,
    {
        proof {
            row_bounds(i as int, m as int, n as int);
            assert(rowsum_a@[i as int] == byte_sum(a_u8@, k as int, i as int, k as int));
            byte_sum_bounds(a_u8@, k as int, i as int, k as int);
        }
        let base: usize = i * n;
        let mut j: usize = 0;
        while j < n
            invariant
                i < m,
                j <= n,
                base == i * n,
                base + n <= m * n <= usize::MAX,
                b_s8@.len() == n * k,
                b == uncentered(b_s8@),
                rowsum_a@.len() == m,
                rowsum_a@[i as int] == byte_sum(a_u8@, k as int, i as int, k as int),
                0 <= rowsum_a@[i as int] <= 255 * k,
                k <= MAX_BYTE_DIMS,
                s32_scratch@.len() == m * n,
                forall|x: int, y: int|
                    0 <= x < m && 0 <= y < n ==> #[trigger] s32_scratch@[x * n + y] == signed_dot(
                        a_u8@,
                        b_s8@,
                        k as int,
                        x,
                        y,
                        k as int,
                    ),
                c@.len() == m * n,
                forall|x: int, y: int|
                    ((0 <= x < i && 0 <= y < n) || (x == i && 0 <= y < j)) ==> #[trigger] c@[x * n
                        + y] == byte_gram(a_u8@, b, k as int, x, y),
            decreases n - j,
        {
            proof {
                row_bounds(j as int, n as int, k as int);
                assert(centered(b, b_s8@)) by {
                    assert forall|x: int| 0 <= x < b.len() implies #[trigger] b_s8@[x] == b[x]
                        - 128 by {}
                }
                centering_correction(a_u8@, b, b_s8@, k as int, i as int, j as int, k as int);
                byte_dot_bounds(a_u8@, b, k as int, i as int, j as int, k as int);
                assert(s32_scratch@[i * n + j] == signed_dot(
                    a_u8@,
                    b_s8@,
                    k as int,
                    i as int,
                    j as int,
                    k as int,
                ));
            }
            let ghost prior = c@;
            let value = corrected(s32_scratch[base + j], rowsum_a[i]);
            assert(value == byte_gram(a_u8@, b, k as int, i as int, j as int));
            c[base + j] = value;
            proof {
                assert forall|x: int, y: int|
                    ((0 <= x < i && 0 <= y < n) || (x == i && 0 <= y < j
                        + 1)) implies #[trigger] c@[x * n + y] == byte_gram(
                    a_u8@,
                    b,
                    k as int,
                    x,
                    y,
                ) by {
                    if x < i {
                        rows_apart(x, i as int, n as int);
                        row_bounds(x, m as int, n as int);
                    }
                    if !(x == i && y == j) {
                        assert(c@[x * n + y] == prior[x * n + y]);
                    }
                }
            }
            j += 1;
        }
        i += 1;
    }
}

/// Whether a matrix enters a product transposed.
#[derive(Clone, Copy, Debug, PartialEq, Eq, Structural)]
pub enum Transpose {
    AsStored,
    Ordinary,
}

impl Transpose {
    /// Whether the matrix is transposed.
    pub fn is_transpose(self) -> (r: bool)
        ensures
            r == (self == Transpose::Ordinary),
    {
        match self {
            Transpose::AsStored => false,
            Transpose::Ordinary => true,
        }
    }
}

/// No flag.
pub const LIBXSMM_GEMM_FLAG_NONE: i32 = 0;

/// The first matrix is transposed.
pub const LIBXSMM_GEMM_FLAG_TRANS_A: i32 = 1;

/// The second matrix is transposed.
pub const LIBXSMM_GEMM_FLAG_TRANS_B: i32 = 2;

/// The result is overwritten.
pub const LIBXSMM_GEMM_FLAG_BETA_0: i32 = 16;

/// What a column-major routine is asked for: shape, leading dimensions and flags.
#[derive(Clone, Copy, Debug, PartialEq, Eq, Structural)]
pub struct GemmPlan {
    pub m: i32,
    pub n: i32,
    pub k: i32,
    pub lda: i32,
    pub ldb: i32,
    pub ldc: i32,
    pub flags: i32,
}

/// Plans a row-major product of an `m` by `k` matrix with a `k` by `n` matrix for a column-major
/// routine: the factors change places, and so do the dimensions.
pub fn column_major_plan(
    atranspose: Transpose,
    btranspose: Transpose,
    m: usize,
    n: usize,
    k: usize,
    overwrite: bool,
) -> (p: GemmPlan)
    requires
        m <= i32::MAX,
        n <= i32::MAX,
        k <= i32::MAX,
    ensures
        p.m == n,
        p.n == m,
        p.k == k,
        p.lda == if btranspose == Transpose::Ordinary { k } else { n },
        p.ldb == if atranspose == Transpose::Ordinary { m } else { k },
        p.ldc == n,
        p.flags == (if atranspose == Transpose::Ordinary {
            LIBXSMM_GEMM_FLAG_TRANS_B as int
        } else {
            0
        }) + (if btranspose == Transpose::Ordinary {
            LIBXSMM_GEMM_FLAG_TRANS_A as int
        } else {
            0
        }) + (if overwrite {
            LIBXSMM_GEMM_FLAG_BETA_0 as int
        } else {
            0
        }),
{
    let lda: i32 = if btranspose.is_transpose() {
        k as i32
    } else {
        n as i32
    };
    let ldb: i32 = if atranspose.is_transpose() {
        m as i32
    } else {
        k as i32
    };
    let mut flags: i32 = LIBXSMM_GEMM_FLAG_NONE;
    if atranspose.is_transpose() {
        flags += LIBXSMM_GEMM_FLAG_TRANS_B;
    }
    if btranspose.is_transpose() {
        flags += LIBXSMM_GEMM_FLAG_TRANS_A;
    }
    if overwrite {
        flags += LIBXSMM_GEMM_FLAG_BETA_0;
    }
    GemmPlan { m: n as i32, n: m as i32, k: k as i32, lda, ldb, ldc: n as i32, flags }
}

/// Place of entry `(r, c)` of a row-major factor of `rows` by `cols`, which is stored transposed
/// where asked.
pub open spec fn row_major_place(t: Transpose, rows: int, cols: int, r: int, c: int) -> int {
    if t == Transpose::Ordinary {
        c * rows + r
    } else {
        r * cols + c
    }
}

/// Place of entry `(r, c)` of a factor that a column-major routine reads with a leading dimension,
/// transposed where flagged.
pub open spec fn column_major_place(transposed: bool, ld: int, r: int, c: int) -> int {
    if transposed {
        c + r * ld
    } else {
        r + c * ld
    }
}

/// The plan reads and writes the right places: where the row-major product takes entry `(r, l)` of
/// the first factor, entry `(l, c)` of the second and puts entry `(r, c)`, the column-major routine
/// takes `(l, r)` of its second factor, `(c, l)` of its first, and puts `(c, r)`.
pub proof fn plan_matches_row_major(
    atranspose: Transpose,
    btranspose: Transpose,
    m: int,
    n: int,
    k: int,
    r: int,
    c: int,
    l: int,
)
    ensures
        ({
            let lda = if btranspose == Transpose::Ordinary { k } else { n };
            let ldb = if atranspose == Transpose::Ordinary { m } else { k };
            &&& row_major_place(atranspose, m, k, r, l) == column_major_place(
                atranspose == Transpose::Ordinary,
                ldb,
                l,
                r,
            )
            &&& row_major_place(btranspose, k, n, l, c) == column_major_place(
                btranspose == Transpose::Ordinary,
                lda,
                c,
                l,
            )
            &&& row_major_place(Transpose::AsStored, m, n, r, c) == column_major_place(false, n, c, r)
        }),
{
}

/// Entry `(r, c)` of the product of two row-major factors, over the first `l` summands.
pub open spec fn product_upto<A: Arithmetic>(
    ops: A,
    atranspose: Transpose,
    btranspose: Transpose,
    m: int,
    n: int,
    k: int,
    a: Seq<Real>,
    b: Seq<Real>,
    r: int,
    c: int,
    l: int,
) -> Real
    decreases l,
{
    if l <= 0 {
        Real::spec_zero()
    } else {
        ops.sum(
            product_upto(ops, atranspose, btranspose, m, n, k, a, b, r, c, l - 1),
            ops.product(
                a[row_major_place(atranspose, m, k, r, l - 1)],
                b[row_major_place(btranspose, k, n, l - 1, c)],
            ),
        )
    }
}

/// Entry `(r, c)` of a scaled product, added to what was there where `beta` is given.
pub open spec fn scaled_entry<A: Arithmetic>(
    ops: A,
    product: Real,
    alpha: Real,
    beta: Option<Real>,
    before: Real,
) -> Real {
    match beta {
        None => ops.product(alpha, product),
        Some(f) => ops.sum(ops.product(alpha, product), ops.product(f, before)),
    }
}

proof fn place_inside(t: Transpose, rows: int, cols: int, r: int, c: int)
    requires
        0 <= r < rows,
        0 <= c < cols,
    ensures
        0 <= row_major_place(t, rows, cols, r, c) < rows * cols,
{
    if t == Transpose::Ordinary {
        row_bounds(c, cols, rows);
        assert(cols * rows == rows * cols) by (nonlinear_arith);
    } else {
        row_bounds(r, rows, cols);
    }
}

fn entry_product<A: Arithmetic>(
    ops: &A,
    atranspose: Transpose,
    btranspose: Transpose,
    m: usize,
    n: usize,
    k: usize,
    a: &[Real],
    b: &[Real],
    r: usize,
    c: usize,
) -> (acc: Real)
    requires
        ops.ready(),
        a@.len() == m * k,
        b@.len() == k * n,
        r < m,
        c < n,
    ensures
        acc == product_upto(
            *ops,
            atranspose,
            btranspose,
            m as int,
            n as int,
            k as int,
            a@,
            b@,
            r as int,
            c as int,
            k as int,
        ),
{
    proof {
        assert(a.len() == a@.len());
        assert(b.len() == b@.len());
    }
    let mut acc = Real::zero();
    let mut l: usize = 0;
    while l < k
        invariant
            l <= k,
            ops.ready(),
            a@.len() == m * k,
            a@.len() <= usize::MAX,
            b@.len() == k * n,
            b@.len() <= usize::MAX,
            r < m,
            c < n,
            acc == product_upto(
                *ops,
                atranspose,
                btranspose,
                m as int,
                n as int,
                k as int,
                a@,
                b@,
                r as int,
                c as int,
                l as int,
            ),
        decreases k - l,
    {
        proof {
            place_inside(atranspose, m as int, k as int, r as int, l as int);
            place_inside(btranspose, k as int, n as int, l as int, c as int);
            row_bounds(l as int, k as int, m as int);
            row_bounds(r as int, m as int, k as int);
            row_bounds(c as int, n as int, k as int);
            row_bounds(l as int, k as int, n as int);
            assert(k * m == m * k) by (nonlinear_arith);
            assert(n * k == k * n) by (nonlinear_arith);
        }
        let pa: usize = if atranspose.is_transpose() {
            l * m + r
        } else {
            r * k + l
        };
        let pb: usize = if btranspose.is_transpose() {
            c * k + l
        } else {
            l * n + c
        };
        let p = ops.times(a[pa], b[pb]);
        acc = ops.plus(acc, p);
        l += 1;
    }
    acc
}

/// Multiplies two row-major matrices: `c` becomes `alpha` times the product, plus `beta` times
/// itself where `beta` is given.
pub fn sgemm_impl<A: Arithmetic>(
    ops: &A,
    atranspose: Transpose,
    btranspose: Transpose,
    m: usize,
    n: usize,
    k: usize,
    alpha: Real,
    a: &[Real],
    b: &[Real],
    beta: Option<Real>,
    c: &mut [Real],
)
    requires
        ops.ready(),
        a@.len() == m * k,
        b@.len() == k * n,
        old(c)@.len() == m * n,
    ensures
        final(c)@.len() == m * n,
        forall|r: int, q: int|
            0 <= r < m && 0 <= q < n ==> #[trigger] final(c)@[r * n + q] == scaled_entry(
                *ops,
                product_upto(
                    *ops,
                    atranspose,
                    btranspose,
                    m as int,
                    n as int,
                    k as int,
                    a@,
                    b@,
                    r,
                    q,
                    k as int,
                ),
                alpha,
                beta,
                old(c)@[r * n + q],
            ),
{
    let ghost before = c@;
    assert(c.len() == c@.len());
    let mut r: usize = 0;
    while r < m
        invariant
            r <= m,
            ops.ready(),
            a@.len() == m * k,
            b@.len() == k * n,
            c@.len() == m * n,
            before.len() == m * n,
            c@.len() <= usize::MAX,
            forall|x: int, y: int|
                0 <= x < m && 0 <= y < n ==> #[trigger] c@[x * n + y] == if x < r {
                    scaled_entry(
                        *ops,
                        product_upto(
                            *ops,
                            atranspose,
                            btranspose,
                            m as int,
                            n as int,
                            k as int,
                            a@,
                            b@,
                            x,
                            y,
                            k as int,
                        ),
                        alpha,
                        beta,
                        before[x * n + y],
                    )
                } else {
                    before[x * n + y]
                },
        decreases m - r,
    {
        let mut q: usize = 0;
        while q < n
            invariant
                r < m,
                q <= n,
                ops.ready(),
                a@.len() == m * k,
                b@.len() == k * n,
                c@.len() == m * n,
                before.len() == m * n,
                c@.len() <= usize::MAX,
                forall|x: int, y: int|
                    0 <= x < m && 0 <= y < n ==> #[trigger] c@[x * n + y] == if x < r || (x == r
                        && y < q) {
                        scaled_entry(
                            *ops,
                            product_upto(
                                *ops,
                                atranspose,
                                btranspose,
                                m as int,
                                n as int,
                                k as int,
                                a@,
                                b@,
                                x,
                                y,
                                k as int,
                            ),
                            alpha,
                            beta,
                            before[x * n + y],
                        )
                    } else {
                        before[x * n + y]
                    },
            decreases n - q,
        {
            proof {
                row_bounds(r as int, m as int, n as int);
                assert(c@[r * n + q] == before[r * n + q]);
            }
            let product = entry_product(ops, atranspose, btranspose, m, n, k, a, b, r, q);
            let at: usize = r * n + q;
            let scaled = ops.times(alpha, product);
            let value = match beta {
                None => scaled,
                Some(f) => {
                    let kept = ops.times(f, c[at]);
                    ops.plus(scaled, kept)
                },
            };
            let ghost prior = c@;
            c[at] = value;
            proof {
                assert forall|x: int, y: int| 0 <= x < m && 0 <= y < n implies #[trigger] c@[x * n
                    + y] == if x < r || (x == r && y < q + 1) {
                    scaled_entry(
                        *ops,
                        product_upto(
                            *ops,
                            atranspose,
                            btranspose,
                            m as int,
                            n as int,
                            k as int,
                            a@,
                            b@,
                            x,
                            y,
                            k as int,
                        ),
                        alpha,
                        beta,
                        before[x * n + y],
                    )
                } else {
                    before[x * n + y]
                } by {
                    place_of(x, n as int, y);
                    place_of(r as int, n as int, q as int);
                    row_bounds(x, m as int, n as int);
                    if !(x == r && y == q) {
                        assert(x * n + y != r * n + q);
                        assert(c@[x * n + y] == prior[x * n + y]);
                    }
                }
            }
            q += 1;
        }
        r += 1;
    }
}

/// Bytes of a cache line.
pub const LINE_BYTES: usize = 64;

/// How many numbers of four bytes a buffer needs so that `bytes` bytes fit behind a cache-line
/// boundary.
pub fn padded_len(bytes: usize) -> (r: usize)
    requires
        bytes <= usize::MAX - 67,
    ensures
        r == (bytes + 3) / 4 + 16,
        4 * (r - 16) >= bytes,
{
    (bytes + 3) / 4 + 16
}

/// How many numbers of four bytes lie between an address and the next cache-line boundary.
pub fn aligned_start(addr: usize) -> (r: usize)
    requires
        addr % 4 == 0,
        addr <= usize::MAX - 63,
    ensures
        (addr + 4 * r) % 64 == 0,
        r < 16,
{
    let rest: usize = addr % LINE_BYTES;
    if rest == 0 {
        0
    } else {
        (LINE_BYTES - rest) / 4
    }
}

} // verus!
