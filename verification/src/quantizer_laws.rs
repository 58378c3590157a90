//! What the numbers of a quantizer are worth: products, lengths and distances of reconstructions.

use crate::arith::Arithmetic;
use crate::centroids::{ascends, code_separates, passed};
use crate::exact::{
    all_worth, count_worth, deepest, exact, exact_difference, exact_product, exact_quotient,
    exact_root, exact_sum, order_of_worth, partial_sums_short, short, stays_short, sum_in_order,
    total, total_of_more, units_worth, worth, zero_worth,
};
use crate::measure::row;
use crate::number::{count_bits, power_of_two, Real, TWO_BITS};
use crate::quantizer::{
    differences_upto, encoded_distance, inverse_root_of_dim, length_of, query_distance,
    reconstructed, root_of_dim, rotated, rotated_back, scaled_product, squares_upto,
    transposed_upto, weighted_upto, TurboQuantQuantizer,
};
use crate::sum_laws::{
    dot_sums_products, products, short_root, square_of_difference, squares, squares_not_negative,
};
use crate::tq_codes::TurboQuantMeta;
use crate::tq_store::in_order;
use vstd::prelude::*;

verus! {

/// A list of whole numbers, each times `c`.
pub open spec fn times(ks: Seq<int>, c: int) -> Seq<int> {
    ks.map_values(|k: int| k * c)
}

/// The values of the first `n` codes are worth the given numbers.
pub open spec fn values_worth(
    values: Seq<Real>,
    codes: Seq<u8>,
    n: int,
    vs: Seq<int>,
    t: nat,
) -> bool {
    &&& 0 <= n == vs.len()
    &&& n <= codes.len()
    &&& forall|j: int| 0 <= j < n ==> worth(values[codes[j] as int], #[trigger] vs[j], t)
}

/// A factor can be taken out of a sum of products.
proof fn factor_out(qs: Seq<int>, vs: Seq<int>, c: int, m: int)
    requires
        0 <= m <= qs.len(),
        qs.len() == vs.len(),
    ensures
        total(products(qs, times(vs, c)).take(m)) == total(products(qs, vs).take(m)) * c,
    decreases m,
{
    if m > 0 {
        factor_out(qs, vs, c, m - 1);
        total_of_more(products(qs, times(vs, c)), m);
        total_of_more(products(qs, vs), m);
        let q = qs[m - 1];
        let v = vs[m - 1];
        let sum = total(products(qs, vs).take(m - 1));
        assert(sum * c + q * (v * c) == (sum + q * v) * c) by (nonlinear_arith);
    } else {
        assert(products(qs, times(vs, c)).take(0) =~= Seq::<int>::empty());
        assert(products(qs, vs).take(0) =~= Seq::<int>::empty());
        assert(0 * c == 0) by (nonlinear_arith);
    }
}

/// The inner product of a query with scaled values is that with the values, scaled.
pub proof fn scaling_leaves_the_sum(qs: Seq<int>, vs: Seq<int>, c: int)
    requires
        qs.len() == vs.len(),
    ensures
        total(products(qs, times(vs, c))) == total(products(qs, vs)) * c,
{
    factor_out(qs, vs, c, qs.len() as int);
    assert(products(qs, times(vs, c)).take(qs.len() as int) =~= products(qs, times(vs, c)));
    assert(products(qs, vs).take(qs.len() as int) =~= products(qs, vs));
}

/// The reconstruction of a code is its value, scaled down by the root of the dimension and up to
/// the vector's length.
pub proof fn reconstruction_worth<A: Arithmetic>(
    ops: A,
    values: Seq<Real>,
    inv_sqrt_dim: Real,
    norm: Real,
    code: u8,
    v: int,
    i: int,
    h: int,
    t: nat,
    u: nat,
    w: nat,
)
    requires
        exact(ops),
        t + u + w <= deepest(),
        worth(values[code as int], v, t),
        worth(inv_sqrt_dim, i, u),
        worth(norm, h, w),
        short(v * i),
        short(v * (i * h)),
    ensures
        worth(reconstructed(ops, values, inv_sqrt_dim, norm, code), v * (i * h), t + u + w),
{
    let value = values[code as int];
    exact_product(ops, value, inv_sqrt_dim, v, i, t, u);
    assert(v * i * h == v * (i * h)) by (nonlinear_arith);
    exact_product(ops, ops.product(value, inv_sqrt_dim), norm, v * i, h, t + u, w);
}

proof fn squares_in_order<A: Arithmetic>(
    ops: A,
    values: Seq<Real>,
    inv_sqrt_dim: Real,
    norm: Real,
    codes: Seq<u8>,
    n: int,
)
    ensures
        squares_upto(ops, values, inv_sqrt_dim, norm, codes, n) == in_order(
            ops,
            |j: int|
                ops.product(
                    reconstructed(ops, values, inv_sqrt_dim, norm, codes[j]),
                    reconstructed(ops, values, inv_sqrt_dim, norm, codes[j]),
                ),
            n,
        ),
    decreases n,
{
    if n > 0 {
        squares_in_order(ops, values, inv_sqrt_dim, norm, codes, n - 1);
    }
}

/// In an exact arithmetic the squared length that is kept beside the codes is the sum of the
/// squares of the reconstruction.
pub proof fn kept_square_worth<A: Arithmetic>(
    ops: A,
    values: Seq<Real>,
    inv_sqrt_dim: Real,
    norm: Real,
    codes: Seq<u8>,
    n: int,
    vs: Seq<int>,
    i: int,
    h: int,
    t: nat,
    u: nat,
    w: nat,
)
    requires
        exact(ops),
        2 * (t + u + w) <= deepest(),
        values_worth(values, codes, n, vs, t),
        worth(inv_sqrt_dim, i, u),
        worth(norm, h, w),
        forall|j: int| 0 <= j < n ==> short(#[trigger] vs[j] * i),
        stays_short(products(times(vs, i * h), times(vs, i * h))),
    ensures
        worth(
            squares_upto(ops, values, inv_sqrt_dim, norm, codes, n),
            total(products(times(vs, i * h), times(vs, i * h))),
            2 * (t + u + w),
        ),
{
    let rs = times(vs, i * h);
    let terms = products(rs, rs);
    let term = |j: int|
        ops.product(
            reconstructed(ops, values, inv_sqrt_dim, norm, codes[j]),
            reconstructed(ops, values, inv_sqrt_dim, norm, codes[j]),
        );
    let g = t + u + w;
    assert forall|j: int| 0 <= j < n implies worth(#[trigger] term(j), terms[j], 2 * g) by {
        partial_sums_short(terms, j);
        short_root(rs[j]);
        assert(short(vs[j] * i));
        reconstruction_worth(ops, values, inv_sqrt_dim, norm, codes[j], vs[j], i, h, t, u, w);
        let r = reconstructed(ops, values, inv_sqrt_dim, norm, codes[j]);
        exact_product(ops, r, r, rs[j], rs[j], g, g);
    }
    sum_in_order(ops, term, terms, 2 * g, n);
    squares_in_order(ops, values, inv_sqrt_dim, norm, codes, n);
    assert(terms.take(n) =~= terms);
}

proof fn weighted_in_order<A: Arithmetic>(
    ops: A,
    values: Seq<Real>,
    query: Seq<Real>,
    codes: Seq<u8>,
    n: int,
)
    ensures
        weighted_upto(ops, values, query, codes, n) == in_order(
            ops,
            |j: int| ops.product(query[j], values[codes[j] as int]),
            n,
        ),
    decreases n,
{
    if n > 0 {
        weighted_in_order(ops, values, query, codes, n - 1);
    }
}

/// In an exact arithmetic the inner product of a query with an encoded vector is the sum of the
/// products of the query's components with the reconstruction's.
pub proof fn inner_product_worth<A: Arithmetic>(
    ops: A,
    values: Seq<Real>,
    inv_sqrt_dim: Real,
    query: Seq<Real>,
    codes: Seq<u8>,
    n: int,
    norm: Real,
    qs: Seq<int>,
    vs: Seq<int>,
    i: int,
    h: int,
    s: nat,
    t: nat,
    u: nat,
    w: nat,
)
    requires
        exact(ops),
        s + t + u + w <= deepest(),
        n <= query.len(),
        all_worth(query.take(n), qs, s),
        values_worth(values, codes, n, vs, t),
        worth(inv_sqrt_dim, i, u),
        worth(norm, h, w),
        stays_short(products(qs, vs)),
        short(i * h),
        short(total(products(qs, times(vs, i * h)))),
    ensures
        worth(
            scaled_product(ops, values, inv_sqrt_dim, query, codes, n, norm),
            total(products(qs, times(vs, i * h))),
            s + t + u + w,
        ),
{
    let terms = products(qs, vs);
    let term = |j: int| ops.product(query[j], values[codes[j] as int]);
    assert forall|j: int| 0 <= j < n implies worth(#[trigger] term(j), terms[j], s + t) by {
        partial_sums_short(terms, j);
        assert(worth(query.take(n)[j], qs[j], s));
        assert(worth(values[codes[j] as int], vs[j], t));
        exact_product(ops, query[j], values[codes[j] as int], qs[j], vs[j], s, t);
    }
    sum_in_order(ops, term, terms, s + t, n);
    weighted_in_order(ops, values, query, codes, n);
    assert(terms.take(n) =~= terms);
    exact_product(ops, inv_sqrt_dim, norm, i, h, u, w);
    scaling_leaves_the_sum(qs, vs, i * h);
    exact_product(
        ops,
        weighted_upto(ops, values, query, codes, n),
        ops.product(inv_sqrt_dim, norm),
        total(terms),
        i * h,
        s + t,
        u + w,
    );
}

/// The squared distance of a query to an encoded vector comes from the very inner product that is
/// given for the two: the query's squared length, less twice the inner product, plus the squared
/// length kept with the codes; zero where that is negative or not a number.
pub proof fn distance_uses_inner_product<A: Arithmetic>(
    ops: A,
    values: Seq<Real>,
    inv_sqrt_dim: Real,
    query: Seq<Real>,
    query_norm_sq: Real,
    codes: Seq<u8>,
    n: int,
    meta: TurboQuantMeta,
)
    ensures
        ({
            let ip = scaled_product(ops, values, inv_sqrt_dim, query, codes, n, meta.norm);
            let rest = ops.difference(query_norm_sq, ops.product(Real { bits: TWO_BITS }, ip));
            let d = ops.sum(rest, meta.quant_norm_sq);
            let r = query_distance(
                ops,
                values,
                inv_sqrt_dim,
                query,
                query_norm_sq,
                codes,
                n,
                meta,
            );
            &&& Real::spec_zero().le(d) ==> r == d
            &&& !Real::spec_zero().le(d) ==> r == Real::spec_zero()
        }),
{
}

/// In an exact arithmetic the squared distance of a query to an encoded vector is the sum of the
/// squared differences between the query and the reconstruction, where both squared lengths are
/// the true ones.
pub proof fn query_distance_worth<A: Arithmetic>(
    ops: A,
    values: Seq<Real>,
    inv_sqrt_dim: Real,
    query: Seq<Real>,
    query_norm_sq: Real,
    codes: Seq<u8>,
    n: int,
    meta: TurboQuantMeta,
    qs: Seq<int>,
    vs: Seq<int>,
    i: int,
    h: int,
    t: nat,
    u: nat,
    w: nat,
)
    requires
        exact(ops),
        2 * (t + u + w) <= deepest(),
        n <= query.len(),
        all_worth(query.take(n), qs, t + u + w),
        values_worth(values, codes, n, vs, t),
        worth(inv_sqrt_dim, i, u),
        worth(meta.norm, h, w),
        worth(query_norm_sq, total(products(qs, qs)), 2 * (t + u + w)),
        worth(
            meta.quant_norm_sq,
            total(products(times(vs, i * h), times(vs, i * h))),
            2 * (t + u + w),
        ),
        stays_short(products(qs, vs)),
        short(i * h),
        short(2 * total(products(qs, times(vs, i * h)))),
        short(total(products(qs, qs)) - 2 * total(products(qs, times(vs, i * h)))),
        stays_short(squares(qs, times(vs, i * h))),
    ensures
        worth(
            query_distance(ops, values, inv_sqrt_dim, query, query_norm_sq, codes, n, meta),
            total(squares(qs, times(vs, i * h))),
            2 * (t + u + w),
        ),
{
    let rs = times(vs, i * h);
    let g = t + u + w;
    inner_product_worth(
        ops,
        values,
        inv_sqrt_dim,
        query,
        codes,
        n,
        meta.norm,
        qs,
        vs,
        i,
        h,
        g,
        t,
        u,
        w,
    );
    let ip = scaled_product(ops, values, inv_sqrt_dim, query, codes, n, meta.norm);
    let d = total(products(qs, rs));
    let two = Real { bits: TWO_BITS };
    units_worth();
    assert(worth(ip, d, 2 * g));
    exact_product(ops, two, ip, 2, d, 0, 2 * g);
    exact_difference(
        ops,
        query_norm_sq,
        ops.product(two, ip),
        total(products(qs, qs)),
        2 * d,
        2 * g,
    );
    square_of_difference(qs, rs);
    partial_sums_short(squares(qs, rs), n);
    assert(squares(qs, rs).take(n) =~= squares(qs, rs));
    let rest = ops.difference(query_norm_sq, ops.product(two, ip));
    exact_sum(
        ops,
        rest,
        meta.quant_norm_sq,
        total(products(qs, qs)) - 2 * d,
        total(products(rs, rs)),
        2 * g,
    );
    zero_worth(2 * g);
    order_of_worth(
        ops.sum(rest, meta.quant_norm_sq),
        Real::spec_zero(),
        total(squares(qs, rs)),
        0,
        2 * g,
    );
    squares_not_negative(qs, rs, n);
}

proof fn differences_in_order<A: Arithmetic>(
    ops: A,
    values: Seq<Real>,
    scale_a: Real,
    scale_b: Real,
    a: Seq<u8>,
    b: Seq<u8>,
    n: int,
)
    ensures
        differences_upto(ops, values, scale_a, scale_b, a, b, n) == in_order(
            ops,
            |j: int|
                {
                    let d = ops.difference(
                        ops.product(values[a[j] as int], scale_a),
                        ops.product(values[b[j] as int], scale_b),
                    );
                    ops.product(d, d)
                },
            n,
        ),
    decreases n,
{
    if n > 0 {
        differences_in_order(ops, values, scale_a, scale_b, a, b, n - 1);
    }
}

/// In an exact arithmetic the squared distance of two encoded vectors is the sum of the squared
/// differences of their reconstructions.
pub proof fn encoded_distance_worth<A: Arithmetic>(
    ops: A,
    values: Seq<Real>,
    inv_sqrt_dim: Real,
    a: Seq<u8>,
    a_norm: Real,
    b: Seq<u8>,
    b_norm: Real,
    n: int,
    vs: Seq<int>,
    ws: Seq<int>,
    i: int,
    g: int,
    h: int,
    t: nat,
    u: nat,
    w: nat,
)
    requires
        exact(ops),
        2 * (t + u + w) <= deepest(),
        values_worth(values, a, n, vs, t),
        values_worth(values, b, n, ws, t),
        worth(inv_sqrt_dim, i, u),
        worth(a_norm, g, w),
        worth(b_norm, h, w),
        short(i * g),
        short(i * h),
        forall|j: int| 0 <= j < n ==> short(#[trigger] vs[j] * (i * g)),
        forall|j: int| 0 <= j < n ==> short(#[trigger] ws[j] * (i * h)),
        stays_short(squares(times(vs, i * g), times(ws, i * h))),
    ensures
        worth(
            encoded_distance(ops, values, inv_sqrt_dim, a, a_norm, b, b_norm, n),
            total(squares(times(vs, i * g), times(ws, i * h))),
            2 * (t + u + w),
        ),
{
    let ks = times(vs, i * g);
    let ls = times(ws, i * h);
    let terms = squares(ks, ls);
    let scale_a = ops.product(inv_sqrt_dim, a_norm);
    let scale_b = ops.product(inv_sqrt_dim, b_norm);
    let e = t + u + w;
    exact_product(ops, inv_sqrt_dim, a_norm, i, g, u, w);
    exact_product(ops, inv_sqrt_dim, b_norm, i, h, u, w);
    let term = |j: int|
        {
            let d = ops.difference(
                ops.product(values[a[j] as int], scale_a),
                ops.product(values[b[j] as int], scale_b),
            );
            ops.product(d, d)
        };
    assert forall|j: int| 0 <= j < n implies worth(#[trigger] term(j), terms[j], 2 * e) by {
        partial_sums_short(terms, j);
        short_root(ks[j] - ls[j]);
        assert(short(vs[j] * (i * g)));
        assert(short(ws[j] * (i * h)));
        let x = values[a[j] as int];
        let y = values[b[j] as int];
        exact_product(ops, x, scale_a, vs[j], i * g, t, u + w);
        exact_product(ops, y, scale_b, ws[j], i * h, t, u + w);
        let p = ops.product(x, scale_a);
        let q = ops.product(y, scale_b);
        exact_difference(ops, p, q, ks[j], ls[j], e);
        let d = ops.difference(p, q);
        exact_product(ops, d, d, ks[j] - ls[j], ks[j] - ls[j], e, e);
    }
    sum_in_order(ops, term, terms, 2 * e, n);
    differences_in_order(ops, values, scale_a, scale_b, a, b, n);
    assert(terms.take(n) =~= terms);
}

/// In an exact arithmetic the length of a vector is the root of the sum of its squares.
pub proof fn length_worth<A: Arithmetic>(ops: A, x: Seq<Real>, ks: Seq<int>, p: int, s: nat)
    requires
        exact(ops),
        2 * s <= deepest(),
        all_worth(x, ks, s),
        stays_short(products(ks, ks)),
        0 <= p,
        p * p == total(products(ks, ks)),
    ensures
        worth(length_of(ops, x), p, s),
{
    dot_sums_products(ops, x, x, ks, ks, s, s);
    partial_sums_short(products(ks, ks), ks.len() as int);
    assert(products(ks, ks).take(ks.len() as int) =~= products(ks, ks));
    short_root(p);
    exact_root(ops, crate::gemm::dot_of(ops, x, x), p, s);
}

/// In an exact arithmetic a component of a rotated vector is the sum of the products of the
/// vector's components with a row of the matrix; a component of a vector that is rotated back, the
/// same with a column.
pub proof fn rotation_worth<A: Arithmetic>(
    ops: A,
    m: Seq<Real>,
    dim: int,
    x: Seq<Real>,
    i: int,
    ks: Seq<int>,
    rs: Seq<int>,
    cs: Seq<int>,
    s: nat,
    t: nat,
)
    requires
        exact(ops),
        s + t <= deepest(),
        0 <= i < dim,
        m.len() == dim * dim,
        x.len() == dim,
        all_worth(x, ks, s),
        rs.len() == dim,
        cs.len() == dim,
        forall|j: int| 0 <= j < dim ==> worth(m[i * dim + j], #[trigger] rs[j], t),
        forall|j: int| 0 <= j < dim ==> worth(m[j * dim + i], #[trigger] cs[j], t),
        stays_short(products(rs, ks)),
        stays_short(products(cs, ks)),
    ensures
        rotated(ops, m, dim, x).len() == dim,
        worth(rotated(ops, m, dim, x)[i], total(products(rs, ks)), s + t),
        rotated_back(ops, m, dim, x).len() == dim,
        worth(rotated_back(ops, m, dim, x)[i], total(products(cs, ks)), s + t),
{
    let line = row(m, dim, i);
    row_place(dim, i);
    assert forall|j: int| 0 <= j < line.len() implies worth(#[trigger] line[j], rs[j], t) by {
        assert(line[j] == m[i * dim + j]);
        assert(worth(m[i * dim + j], rs[j], t));
    }
    dot_sums_products(ops, line, x, rs, ks, t, s);
    let terms = products(cs, ks);
    let term = |j: int| ops.product(row(m, dim, j)[i], x[j]);
    assert forall|j: int| 0 <= j < dim implies worth(#[trigger] term(j), terms[j], s + t) by {
        row_place(dim, j);
        partial_sums_short(terms, j);
        assert(row(m, dim, j)[i] == m[j * dim + i]);
        assert(worth(m[j * dim + i], cs[j], t));
        exact_product(ops, row(m, dim, j)[i], x[j], cs[j], ks[j], t, s);
    }
    sum_in_order(ops, term, terms, s + t, dim);
    transposed_in_order(ops, m, dim, x, i, dim);
    assert(terms.take(dim) =~= terms);
}

proof fn row_place(dim: int, i: int)
    requires
        0 <= i < dim,
    ensures
        0 <= i * dim,
        (i + 1) * dim == i * dim + dim,
        (i + 1) * dim <= dim * dim,
{
    assert(0 <= i * dim && (i + 1) * dim == i * dim + dim && (i + 1) * dim <= dim * dim)
        by (nonlinear_arith)
        requires
            0 <= i < dim,
    ;
}

proof fn transposed_in_order<A: Arithmetic>(
    ops: A,
    m: Seq<Real>,
    dim: int,
    x: Seq<Real>,
    j: int,
    n: int,
)
    ensures
        transposed_upto(ops, m, dim, x, j, n) == in_order(
            ops,
            |i: int| ops.product(row(m, dim, i)[j], x[i]),
            n,
        ),
    decreases n,
{
    if n > 0 {
        transposed_in_order(ops, m, dim, x, j, n - 1);
    }
}

/// In an exact arithmetic, where the dimension is a square, its root is the whole number whose
/// square it is; and one over that, where the root is a power of two.
pub proof fn root_of_dim_worth<A: Arithmetic>(ops: A, dim: usize, p: int, q: int, u: nat)
    requires
        exact(ops),
        0 < p,
        dim == p * p,
        dim <= 0x100_0000,
        short(q),
        u <= deepest(),
        q * p == power_of_two(u),
    ensures
        worth(root_of_dim(ops, dim), p, 0),
        worth(inverse_root_of_dim(ops, dim), q, u),
{
    count_worth(dim as nat);
    short_root(p);
    exact_root(ops, Real { bits: count_bits(dim as nat) as u32 }, p, 0);
    units_worth();
    assert(power_of_two(0) == 1);
    exact_quotient(ops, Real::spec_one(), root_of_dim(ops, dim), 1, p, 0, 0, q, u);
}

/// A rotated vector is scaled by the root of the dimension over its length, so that a length times
/// the scale gives the root; a vector no longer than a ten-billionth is scaled to zero.
pub proof fn scale_worth<A: Arithmetic>(
    quantizer: &TurboQuantQuantizer,
    ops: A,
    norm: Real,
    r: int,
    h: int,
    c: int,
    w: nat,
    z: nat,
)
    requires
        exact(ops),
        worth(quantizer.root(), r, 0),
        worth(norm, h, w),
        h != 0,
        short(c),
        z <= deepest(),
        c * h == r * power_of_two(w + z),
    ensures
        (Real { bits: 0x2edb_e6ff }).lt(norm) ==> worth(quantizer.scale_for(ops, norm), c, z),
        !(Real { bits: 0x2edb_e6ff }).lt(norm) ==> quantizer.scale_for(ops, norm)
            == Real::spec_zero(),
{
    assert(power_of_two(0) == 1);
    exact_quotient(ops, quantizer.root(), norm, r, h, 0, w, c, z);
}

/// The code of a component depends on that component and the vector's length alone.
pub proof fn codes_go_by_component<A: Arithmetic>(
    quantizer: &TurboQuantQuantizer,
    ops: A,
    norm: Real,
    y: Seq<Real>,
    z: Seq<Real>,
    i: int,
    j: int,
)
    requires
        0 <= i < quantizer.dims(),
        0 <= j < quantizer.dims(),
        y[i] == z[j],
    ensures
        quantizer.codes_of_rotated(ops, norm, y).len() == quantizer.dims(),
        quantizer.codes_of_rotated(ops, norm, y)[i] == quantizer.codes_of_rotated(
            ops,
            norm,
            z,
        )[j],
{
}

/// In an exact arithmetic the code of a component is above a boundary if and only if the component,
/// scaled, is.
pub proof fn codes_pass_boundaries<A: Arithmetic>(
    quantizer: &TurboQuantQuantizer,
    ops: A,
    norm: Real,
    y: Seq<Real>,
    j: int,
    b: int,
    k: int,
    c: int,
    e: int,
    s: nat,
    z: nat,
)
    requires
        exact(ops),
        quantizer.wf(),
        ascends(quantizer.table().bounds()),
        0 <= j < quantizer.dims(),
        0 <= b < quantizer.table().bounds().len(),
        worth(y[j], k, s),
        worth(quantizer.scale_for(ops, norm), c, z),
        worth(quantizer.table().bounds()[b], e, s + z),
        short(k * c),
        s + z <= deepest(),
    ensures
        b < quantizer.codes_of_rotated(ops, norm, y)[j] <==> e < k * c,
{
    let bounds = quantizer.table().bounds();
    let scale = quantizer.scale_for(ops, norm);
    let value = ops.product(y[j], scale);
    exact_product(ops, y[j], scale, k, c, s, z);
    order_of_worth(bounds[b], value, e, k * c, s + z);
    code_separates(bounds, value, 0);
    let code = passed(bounds, value, 0);
    if code <= b {
        bounds_ascend(bounds, code as int, b);
    }
}

proof fn bounds_ascend(bounds: Seq<Real>, a: int, b: int)
    requires
        ascends(bounds),
        0 <= a <= b < bounds.len(),
    ensures
        bounds[a].rank() <= bounds[b].rank(),
        a < b ==> !bounds[a].nan() && !bounds[b].nan(),
    decreases b - a,
{
    if a < b {
        bounds_ascend(bounds, a, b - 1);
        assert(bounds[b - 1].lt(bounds[b - 1 + 1]));
        assert(bounds[a].lt(bounds[a + 1]));
    }
}

/// In an exact arithmetic every component of the reconstruction of an encoded vector is the value
/// of its own code, scaled down by the root of the dimension and up to the vector's length.
pub proof fn components_reconstruct_codes<A: Arithmetic>(
    quantizer: &TurboQuantQuantizer,
    ops: A,
    codes: Seq<u8>,
    norm: Real,
    j: int,
    v: int,
    i: int,
    h: int,
    t: nat,
    u: nat,
    w: nat,
)
    requires
        exact(ops),
        t + u + w <= deepest(),
        0 <= j < quantizer.dims(),
        worth(quantizer.table().values()[codes[j] as int], v, t),
        worth(quantizer.inverse_root(), i, u),
        worth(norm, h, w),
        short(v * i),
        short(v * (i * h)),
    ensures
        quantizer.reconstruction(ops, codes, norm).len() == quantizer.dims(),
        worth(quantizer.reconstruction(ops, codes, norm)[j], v * (i * h), t + u + w),
{
    reconstruction_worth(
        ops,
        quantizer.table().values(),
        quantizer.inverse_root(),
        norm,
        codes[j],
        v,
        i,
        h,
        t,
        u,
        w,
    );
}

} // verus!
