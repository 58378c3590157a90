//! What the entries of the distance matrices of a leaf are.

use crate::arith::Arithmetic;
use crate::bit_laws::{hamming_counts_bits, unlike_bits_of};
use crate::distance_laws::{
    at_least_zero, cosine_from_norms_worth, leaf_cosine_worth, leaf_distance_worth, norm_worth,
};
use crate::exact::{all_worth, count_worth, deepest, exact, short, stays_short, total, worth};
use crate::gemm::dot_of;
use crate::leaf::triangle_distances;
use crate::leaf_build::leaf_matrix;
use crate::leaf_robust::direct_matrix;
use crate::measure::{pair_value, row, vector_value};
use crate::metric::{clamped, norm_of, Metric};
use crate::number::{power_of_two, Real};
use crate::quantized::{hamming, hamming_matrix, measured_matrix, QuantizedData};
use crate::sum_laws::{dot_sums_products, products};
use vstd::prelude::*;

verus! {

/// Place `i * n + j` of a square matrix is row `i`, column `j`.
pub proof fn matrix_place(n: int, i: int, j: int)
    requires
        0 <= i < n,
        0 <= j < n,
    ensures
        0 <= i * n + j < n * n,
        (i * n + j) / n == i,
        (i * n + j) % n == j,
{
    vstd::arithmetic::div_mod::lemma_fundamental_div_mod_converse(i * n + j, n, i, j);
    assert(0 <= i * n + j < n * n) by (nonlinear_arith)
        requires
            0 <= i < n,
            0 <= j < n,
    ;
}

/// In an exact arithmetic an entry of the cosine distance matrix of a leaf is one less the sum of
/// the products of the two points' components over the product of their lengths `p` and `q`; one
/// where a length is zero.
pub proof fn matrix_cosine_worth<A: Arithmetic>(
    ops: A,
    data: Seq<Real>,
    ndims: int,
    indices: Seq<usize>,
    i: int,
    j: int,
    ks: Seq<int>,
    ls: Seq<int>,
    p: int,
    q: int,
    c: int,
    s: nat,
    u: nat,
)
    requires
        exact(ops),
        2 * s <= deepest(),
        u <= 24,
        0 <= i < indices.len(),
        0 <= j < indices.len(),
        i != j,
        ks.len() == ls.len(),
        all_worth(row(data, ndims, indices[i] as int), ks, s),
        all_worth(row(data, ndims, indices[j] as int), ls, s),
        stays_short(products(ks, ks)),
        stays_short(products(ls, ls)),
        stays_short(products(ks, ls)),
        0 <= p,
        0 <= q,
        p * p == total(products(ks, ks)),
        q * q == total(products(ls, ls)),
        short(p),
        short(q),
        short(p * q),
        short(c),
        short(power_of_two(u) - c),
        p * q > 0 ==> c * (p * q) == total(products(ks, ls)) * power_of_two(u),
        p * q == 0 ==> c == 0,
    ensures
        worth(
            leaf_matrix(ops, Metric::Cosine, data, ndims, indices)[i * indices.len() + j],
            at_least_zero(power_of_two(u) - c),
            u,
        ),
{
    let n = indices.len() as int;
    matrix_place(n, i, j);
    let a = row(data, ndims, indices[i] as int);
    let b = row(data, ndims, indices[j] as int);
    dot_sums_products(ops, a, a, ks, ks, s, s);
    dot_sums_products(ops, b, b, ls, ls, s, s);
    dot_sums_products(ops, a, b, ks, ls, s, s);
    leaf_cosine_worth(
        ops,
        dot_of(ops, a, a),
        dot_of(ops, b, b),
        dot_of(ops, a, b),
        p,
        q,
        total(products(ks, ls)),
        s,
        c,
        u,
    );
}

/// The diagonal of every distance matrix of a leaf holds the largest number.
pub proof fn diagonals_are_largest<A: Arithmetic, D: Fn(&[Real], &[Real]) -> Real, F: Fn(
    usize,
    usize,
) -> Real>(
    ops: A,
    metric: Metric,
    dist_fn: D,
    distance: F,
    qdata: QuantizedData,
    data: Seq<Real>,
    ndims: int,
    indices: Seq<usize>,
    i: int,
)
    requires
        0 <= i < indices.len(),
    ensures
        leaf_matrix(ops, metric, data, ndims, indices)[i * indices.len() + i] == Real::spec_max(),
        direct_matrix(dist_fn, data, ndims, indices)[i * indices.len() + i] == Real::spec_max(),
        hamming_matrix(qdata, indices)[i * indices.len() + i] == Real::spec_max(),
        measured_matrix(distance, indices)[i * indices.len() + i] == Real::spec_max(),
{
    matrix_place(indices.len() as int, i, i);
}

/// A measured distance of a leaf is what the supplied function answers for the two points, the
/// earlier one first, and the same in both directions.
pub proof fn direct_entries_are_answers<D: Fn(&[Real], &[Real]) -> Real>(
    dist_fn: D,
    data: Seq<Real>,
    ndims: int,
    indices: Seq<usize>,
    i: int,
    j: int,
)
    requires
        0 <= i < j < indices.len(),
    ensures
        direct_matrix(dist_fn, data, ndims, indices)[i * indices.len() + j] == vector_value(
            dist_fn,
            row(data, ndims, indices[i] as int),
            row(data, ndims, indices[j] as int),
        ),
        direct_matrix(dist_fn, data, ndims, indices)[j * indices.len() + i] == direct_matrix(
            dist_fn,
            data,
            ndims,
            indices,
        )[i * indices.len() + j],
{
    matrix_place(indices.len() as int, i, j);
    matrix_place(indices.len() as int, j, i);
}

/// A distance of a leaf of points is what the supplied function answers for the two.
pub proof fn measured_entries_are_answers<F: Fn(usize, usize) -> Real>(
    distance: F,
    indices: Seq<usize>,
    i: int,
    j: int,
)
    requires
        0 <= i < indices.len(),
        0 <= j < indices.len(),
        i != j,
    ensures
        measured_matrix(distance, indices)[i * indices.len() + j] == pair_value(
            distance,
            indices[i] as int,
            indices[j] as int,
        ),
{
    matrix_place(indices.len() as int, i, j);
}

/// A distance of a leaf of quantized vectors is worth the number of bits in which they differ.
pub proof fn hamming_entry_worth(qdata: QuantizedData, indices: Seq<usize>, i: int, j: int)
    requires
        0 <= i < indices.len(),
        0 <= j < indices.len(),
        i != j,
        hamming(qdata.vector(indices[i] as int), qdata.vector(indices[j] as int)) <= 0x100_0000,
    ensures
        ({
            let a = qdata.vector(indices[i] as int);
            let b = qdata.vector(indices[j] as int);
            worth(
                hamming_matrix(qdata, indices)[i * indices.len() + j],
                total(unlike_bits_of(a, b, a.len() as int)),
                0,
            )
        }),
{
    let a = qdata.vector(indices[i] as int);
    let b = qdata.vector(indices[j] as int);
    matrix_place(indices.len() as int, i, j);
    hamming_counts_bits(a, b, a.len() as int);
    count_worth(hamming(a, b));
}

/// The dot products of a leaf, of which only the lower triangle is read, are worth the given whole
/// numbers.
pub open spec fn triangle_worth(
    dots: Seq<Real>,
    points: int,
    ds: spec_fn(int, int) -> int,
    s: nat,
) -> bool {
    forall|r: int, c: int|
        0 <= c <= r < points ==> worth(#[trigger] dots[r * points + c], ds(r, c), s)
}

/// In an exact arithmetic the distance of two positions of a leaf comes from their own dot product
/// and their own squared lengths: for the squared Euclidean distance the lengths less twice the
/// product, for normalized vectors one less the product, both at least zero; for the inner product
/// the product negated.
pub proof fn triangle_distance_worth<A: Arithmetic>(
    ops: A,
    dots: Seq<Real>,
    points: int,
    t: int,
    p: int,
    ds: spec_fn(int, int) -> int,
    s: nat,
)
    requires
        exact(ops),
        s <= 24,
        0 <= p < t < points,
        triangle_worth(dots, points, ds, s),
        short(ds(t, t) + ds(p, p)),
        short(2 * ds(t, p)),
        short(ds(t, t) + ds(p, p) - 2 * ds(t, p)),
        short(power_of_two(s) - ds(t, p)),
    ensures
        worth(
            (triangle_distances(ops, Metric::L2, dots, points, t))(p),
            at_least_zero(ds(t, t) + ds(p, p) - 2 * ds(t, p)),
            s,
        ),
        worth(
            (triangle_distances(ops, Metric::CosineNormalized, dots, points, t))(p),
            at_least_zero(power_of_two(s) - ds(t, p)),
            s,
        ),
        worth(
            (triangle_distances(ops, Metric::InnerProduct, dots, points, t))(p),
            -ds(t, p),
            s,
        ),
{
    let a = dots[t * points + t];
    let b = dots[p * points + p];
    let d = dots[t * points + p];
    assert(worth(a, ds(t, t), s));
    assert(worth(b, ds(p, p), s));
    assert(worth(d, ds(t, p), s));
    leaf_distance_worth(ops, a, b, d, ds(t, t), ds(p, p), ds(t, p), s);
}

/// The same for the cosine: one less the dot product over the product of the lengths `g` and `h`,
/// at least zero; one where a length is zero.
pub proof fn triangle_cosine_worth<A: Arithmetic>(
    ops: A,
    dots: Seq<Real>,
    points: int,
    t: int,
    p: int,
    ds: spec_fn(int, int) -> int,
    g: int,
    h: int,
    c: int,
    s: nat,
    u: nat,
)
    requires
        exact(ops),
        2 * s <= deepest(),
        u <= 24,
        0 <= p < t < points,
        triangle_worth(dots, points, ds, 2 * s),
        0 <= g,
        0 <= h,
        short(g),
        short(h),
        ds(t, t) == g * g,
        ds(p, p) == h * h,
        short(g * h),
        short(c),
        short(power_of_two(u) - c),
        g * h != 0 ==> c * (g * h) == ds(t, p) * power_of_two(u),
        g * h == 0 ==> c == 0,
    ensures
        worth(
            (triangle_distances(ops, Metric::Cosine, dots, points, t))(p),
            at_least_zero(power_of_two(u) - c),
            u,
        ),
{
    let a = dots[t * points + t];
    let b = dots[p * points + p];
    let d = dots[t * points + p];
    assert(worth(a, ds(t, t), 2 * s));
    assert(worth(b, ds(p, p), 2 * s));
    assert(worth(d, ds(t, p), 2 * s));
    norm_worth(ops, Metric::Cosine, a, g, s);
    norm_worth(ops, Metric::Cosine, b, h, s);
    cosine_from_norms_worth(
        ops,
        d,
        norm_of(ops, Metric::Cosine, a),
        norm_of(ops, Metric::Cosine, b),
        g,
        h,
        ds(t, p),
        s,
        c,
        u,
    );
}

/// To the cosine the length of a vector is zero exactly where its squared length is below two to
/// the power of minus one hundred and twenty-six; otherwise it is the root.
pub proof fn tiny_vectors_have_no_length<A: Arithmetic>(ops: A, squared: Real)
    ensures
        norm_of(ops, Metric::Cosine, squared) == if squared.lt(Real { bits: 0x80_0000 }) {
            Real::spec_zero()
        } else {
            ops.root(squared)
        },
{
}

/// A clamped distance is undefined where it was; otherwise it is the larger of the distance and
/// zero.
pub proof fn clamping_raises_to_zero(d: Real)
    ensures
        clamped(d).nan() <==> d.nan(),
        !d.nan() ==> Real::spec_zero().le(clamped(d)) && d.le(clamped(d)),
        clamped(d) == d || clamped(d) == Real::spec_zero(),
{
}

} // verus!
