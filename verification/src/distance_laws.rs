//! What distances are: how they go with the dot product, and what they are worth.

use crate::arith::Arithmetic;
use crate::exact::{
    all_worth, deeper, deepest, exact, exact_difference, exact_product, exact_quotient, exact_root,
    exact_sum, negation_worth, order_of_worth, short, stays_short, total, units_worth, worth,
    zero_worth,
};
use crate::gemm::dot_of;
use crate::leaf_build::{leaf_distance, leaf_matrix};
use crate::measure::row;
use crate::metric::{distance_from_dot, norm_of, Metric};
use crate::number::{
    fixed_powers, power_adds, power_grows, power_of_two, MIN_POSITIVE_BITS, Real, TWO_BITS,
};
use crate::sum_laws::{
    dot_sums_products, products, square_of_difference, squares, squares_not_negative,
};
use vstd::prelude::*;

verus! {

/// Differences fall with what is taken away, products with a positive factor and quotients with a
/// positive divisor rise.
pub open spec fn keeps_order<A: Arithmetic>(ops: A) -> bool {
    &&& forall|c: Real, x: Real, y: Real|
        #![trigger ops.difference(c, x), ops.difference(c, y)]
        c.finite() && x.le(y) ==> ops.difference(c, y).le(ops.difference(c, x))
    &&& forall|c: Real, x: Real, y: Real|
        #![trigger ops.product(c, x), ops.product(c, y)]
        c.finite() && Real::spec_zero().lt(c) && x.le(y) ==> ops.product(c, x).le(ops.product(c, y))
    &&& forall|c: Real, x: Real, y: Real|
        #![trigger ops.quotient(x, c), ops.quotient(y, c)]
        c.finite() && Real::spec_zero().lt(c) && x.finite() && y.finite() && x.le(y)
            ==> ops.quotient(x, c).le(ops.quotient(y, c))
}

/// Of two dot products the larger one never gives the larger distance in a leaf, whatever the
/// metric. In particular a negative dot product gives at least the distance that zero gives.
pub proof fn larger_dot_is_closer<A: Arithmetic>(
    ops: A,
    metric: Metric,
    ni: Real,
    nj: Real,
    low: Real,
    high: Real,
)
    requires
        keeps_order(ops),
        low.finite(),
        high.finite(),
        low.le(high),
        metric == Metric::L2 ==> ops.sum(ni, nj).finite(),
        metric == Metric::Cosine ==> ops.product(ops.root(ni), ops.root(nj)).finite(),
    ensures
        leaf_distance(ops, metric, ni, nj, high).le(leaf_distance(ops, metric, ni, nj, low)),
{
    if metric == Metric::L2 {
        let two = Real { bits: TWO_BITS };
        assert(ops.product(two, low).le(ops.product(two, high)));
    } else if metric == Metric::Cosine {
        let den = ops.product(ops.root(ni), ops.root(nj));
        let one = Real::spec_one();
        if Real::spec_zero().lt(den) {
            assert(ops.quotient(low, den).le(ops.quotient(high, den)));
            assert(ops.difference(one, ops.quotient(high, den)).le(
                ops.difference(one, ops.quotient(low, den)),
            ));
        }
    }
}

/// Of two dot products the larger one never gives the larger distance, whatever the metric.
pub proof fn larger_dot_is_closer_from_norms<A: Arithmetic>(
    ops: A,
    metric: Metric,
    low: Real,
    high: Real,
    row_norm: Real,
    column_norm: Real,
)
    requires
        keeps_order(ops),
        low.finite(),
        high.finite(),
        low.le(high),
        metric == Metric::L2 ==> ops.sum(row_norm, column_norm).finite(),
        metric == Metric::Cosine && !row_norm.vanishes() && !column_norm.vanishes() ==> {
            &&& ops.product(row_norm, column_norm).finite()
            &&& Real::spec_zero().lt(ops.product(row_norm, column_norm))
        },
    ensures
        distance_from_dot(ops, metric, high, row_norm, column_norm).le(
            distance_from_dot(ops, metric, low, row_norm, column_norm),
        ),
{
    let one = Real::spec_one();
    let zero = Real::spec_zero();
    if metric == Metric::L2 {
        let two = Real { bits: TWO_BITS };
        assert(ops.product(two, low).le(ops.product(two, high)));
    } else if metric == Metric::Cosine {
        if row_norm.vanishes() || column_norm.vanishes() {
            assert(ops.difference(one, zero).le(ops.difference(one, zero)));
        } else {
            let den = ops.product(row_norm, column_norm);
            assert(ops.quotient(low, den).le(ops.quotient(high, den)));
            assert(ops.difference(one, ops.quotient(high, den)).le(
                ops.difference(one, ops.quotient(low, den)),
            ));
        }
    }
}

/// A whole number, or zero where it is negative.
pub open spec fn at_least_zero(k: int) -> int {
    if k < 0 {
        0
    } else {
        k
    }
}

/// A leaf distance of exact numbers. For the squared Euclidean distance it is the sum of the
/// squared lengths less twice the dot product; for normalized vectors one less the dot product;
/// for the inner product the dot product negated.
pub proof fn leaf_distance_worth<A: Arithmetic>(
    ops: A,
    ni: Real,
    nj: Real,
    dot: Real,
    n: int,
    m: int,
    d: int,
    s: nat,
)
    requires
        exact(ops),
        s <= 24,
        worth(ni, n, s),
        worth(nj, m, s),
        worth(dot, d, s),
        short(n + m),
        short(2 * d),
        short(n + m - 2 * d),
        short(power_of_two(s) - d),
    ensures
        worth(leaf_distance(ops, Metric::L2, ni, nj, dot), at_least_zero(n + m - 2 * d), s),
        worth(
            leaf_distance(ops, Metric::CosineNormalized, ni, nj, dot),
            at_least_zero(power_of_two(s) - d),
            s,
        ),
        worth(leaf_distance(ops, Metric::InnerProduct, ni, nj, dot), -d, s),
        worth(distance_from_dot(ops, Metric::L2, dot, ni, nj), at_least_zero(n + m - 2 * d), s),
        worth(
            distance_from_dot(ops, Metric::CosineNormalized, dot, ni, nj),
            at_least_zero(power_of_two(s) - d),
            s,
        ),
        worth(distance_from_dot(ops, Metric::InnerProduct, dot, ni, nj), -d, s),
{
    let two = Real { bits: TWO_BITS };
    let one = Real::spec_one();
    units_worth();
    zero_worth(s);
    exact_sum(ops, ni, nj, n, m, s);
    exact_product(ops, two, dot, 2, d, 0, s);
    exact_difference(ops, ops.sum(ni, nj), ops.product(two, dot), n + m, 2 * d, s);
    order_of_worth(
        ops.difference(ops.sum(ni, nj), ops.product(two, dot)),
        Real::spec_zero(),
        n + m - 2 * d,
        0,
        s,
    );
    deeper(one, 1, 0, s);
    exact_difference(ops, one, dot, power_of_two(s) as int, d, s);
    order_of_worth(ops.difference(one, dot), Real::spec_zero(), power_of_two(s) - d, 0, s);
    negation_worth(dot, d, s);
}

/// A cosine distance of exact numbers: one less the dot product over the product of the lengths
/// `p` and `q`; one where either length is zero.
pub proof fn leaf_cosine_worth<A: Arithmetic>(
    ops: A,
    ni: Real,
    nj: Real,
    dot: Real,
    p: int,
    q: int,
    d: int,
    s: nat,
    c: int,
    u: nat,
)
    requires
        exact(ops),
        2 * s <= deepest(),
        u <= 24,
        0 <= p,
        0 <= q,
        short(p),
        short(q),
        short(p * q),
        short(c),
        short(power_of_two(u) - c),
        worth(ni, p * p, 2 * s),
        worth(nj, q * q, 2 * s),
        worth(dot, d, 2 * s),
        p * q > 0 ==> c * (p * q) == d * power_of_two(u),
        p * q == 0 ==> c == 0,
    ensures
        worth(leaf_distance(ops, Metric::Cosine, ni, nj, dot), at_least_zero(power_of_two(u) - c), u),
{
    let one = Real::spec_one();
    units_worth();
    zero_worth(2 * s);
    zero_worth(u);
    exact_root(ops, ni, p, s);
    exact_root(ops, nj, q, s);
    exact_product(ops, ops.root(ni), ops.root(nj), p, q, s, s);
    let den = ops.product(ops.root(ni), ops.root(nj));
    assert(worth(den, p * q, 2 * s));
    assert(p * q >= 0) by (nonlinear_arith)
        requires
            p >= 0,
            q >= 0,
    ;
    order_of_worth(Real::spec_zero(), den, 0, p * q, 2 * s);
    let cosine = if Real::spec_zero().lt(den) {
        ops.quotient(dot, den)
    } else {
        Real::spec_zero()
    };
    if p * q > 0 {
        power_adds(2 * s, u);
        let a = power_of_two(2 * s) as int;
        let b = power_of_two(u) as int;
        let l = p * q;
        assert(c * l * a == d * (a * b)) by (nonlinear_arith)
            requires
                c * l == d * b,
        ;
        exact_quotient(ops, dot, den, d, l, 2 * s, 2 * s, c, u);
    }
    assert(worth(cosine, c, u));
    deeper(one, 1, 0, u);
    exact_difference(ops, one, cosine, power_of_two(u) as int, c, u);
    order_of_worth(ops.difference(one, cosine), Real::spec_zero(), power_of_two(u) - c, 0, u);
}

proof fn smallest_normal_worth()
    ensures
        worth(Real { bits: MIN_POSITIVE_BITS }, 1, 126),
{
    reveal(worth);
    fixed_powers();
    power_adds(23, 126);
    assert(power_of_two(0) == 1);
    assert(0x80_0000int / 0x80_0000 == 1);
    assert(crate::centroid_laws::magnitude(0x80_0000) == 0x80_0000 * power_of_two(0));
}

/// To the cosine the norm of a vector is its length, else its squared length.
pub proof fn norm_worth<A: Arithmetic>(ops: A, metric: Metric, squared: Real, p: int, s: nat)
    requires
        exact(ops),
        2 * s <= deepest(),
        0 <= p,
        short(p),
        worth(squared, p * p, 2 * s),
    ensures
        metric == Metric::Cosine ==> worth(norm_of(ops, metric, squared), p, s),
        metric != Metric::Cosine ==> worth(norm_of(ops, metric, squared), p * p, 2 * s),
{
    if metric == Metric::Cosine {
        exact_root(ops, squared, p, s);
        zero_worth(s);
        let floor = Real { bits: MIN_POSITIVE_BITS };
        smallest_normal_worth();
        let gap = (126 - 2 * s) as nat;
        deeper(squared, p * p, 2 * s, gap);
        power_grows(0, gap);
        let lift = power_of_two(gap) as int;
        order_of_worth(squared, floor, p * p * lift, 1, 126);
        if p != 0 {
            assert(p * p * lift >= 1) by (nonlinear_arith)
                requires
                    p >= 1,
                    lift >= 1,
            ;
        }
    }
}

/// A cosine distance from lengths: one less the dot product over the product of the lengths; one
/// where either length is zero.
pub proof fn cosine_from_norms_worth<A: Arithmetic>(
    ops: A,
    dot: Real,
    row_norm: Real,
    column_norm: Real,
    p: int,
    q: int,
    d: int,
    s: nat,
    c: int,
    u: nat,
)
    requires
        exact(ops),
        2 * s <= deepest(),
        u <= 24,
        short(p * q),
        short(c),
        short(power_of_two(u) - c),
        worth(row_norm, p, s),
        worth(column_norm, q, s),
        worth(dot, d, 2 * s),
        p * q != 0 ==> c * (p * q) == d * power_of_two(u),
        p * q == 0 ==> c == 0,
    ensures
        worth(
            distance_from_dot(ops, Metric::Cosine, dot, row_norm, column_norm),
            at_least_zero(power_of_two(u) - c),
            u,
        ),
{
    let one = Real::spec_one();
    units_worth();
    zero_worth(s);
    zero_worth(u);
    exact_product(ops, row_norm, column_norm, p, q, s, s);
    let den = ops.product(row_norm, column_norm);
    order_of_worth(Real::spec_zero(), row_norm, 0, p, s);
    order_of_worth(row_norm, Real::spec_zero(), p, 0, s);
    order_of_worth(Real::spec_zero(), column_norm, 0, q, s);
    order_of_worth(column_norm, Real::spec_zero(), q, 0, s);
    assert(row_norm.vanishes() <==> p == 0);
    assert(column_norm.vanishes() <==> q == 0);
    assert(p * q == 0 <==> p == 0 || q == 0) by (nonlinear_arith);
    let cosine = if p == 0 || q == 0 {
        Real::spec_zero()
    } else {
        ops.quotient(dot, den)
    };
    if p * q != 0 {
        power_adds(2 * s, u);
        let a = power_of_two(2 * s) as int;
        let b = power_of_two(u) as int;
        let l = p * q;
        assert(c * l * a == d * (a * b)) by (nonlinear_arith)
            requires
                c * l == d * b,
        ;
        exact_quotient(ops, dot, den, d, l, 2 * s, 2 * s, c, u);
    }
    assert(worth(cosine, c, u));
    deeper(one, 1, 0, u);
    exact_difference(ops, one, cosine, power_of_two(u) as int, c, u);
    order_of_worth(ops.difference(one, cosine), Real::spec_zero(), power_of_two(u) - c, 0, u);
}

/// In an exact arithmetic an entry of the distance matrix of a leaf is, for the squared Euclidean
/// distance, the sum of the squared differences of the two points' components; for normalized
/// vectors one less the sum of the products, at least zero; for the inner product the sum of the
/// products, negated.
pub proof fn matrix_entry_worth<A: Arithmetic>(
    ops: A,
    metric: Metric,
    data: Seq<Real>,
    ndims: int,
    indices: Seq<usize>,
    i: int,
    j: int,
    ks: Seq<int>,
    ls: Seq<int>,
    s: nat,
)
    requires
        exact(ops),
        2 * s <= 24,
        0 <= i < indices.len(),
        0 <= j < indices.len(),
        i != j,
        metric != Metric::Cosine,
        ks.len() == ls.len(),
        all_worth(row(data, ndims, indices[i] as int), ks, s),
        all_worth(row(data, ndims, indices[j] as int), ls, s),
        stays_short(products(ks, ks)),
        stays_short(products(ls, ls)),
        stays_short(products(ks, ls)),
        short(total(products(ks, ks)) + total(products(ls, ls))),
        short(2 * total(products(ks, ls))),
        short(total(squares(ks, ls))),
        short(power_of_two(2 * s) - total(products(ks, ls))),
    ensures
        worth(
            leaf_matrix(ops, metric, data, ndims, indices)[i * indices.len() + j],
            match metric {
                Metric::L2 => total(squares(ks, ls)),
                Metric::InnerProduct => -total(products(ks, ls)),
                _ => at_least_zero(power_of_two(2 * s) - total(products(ks, ls))),
            },
            2 * s,
        ),
{
    let n = indices.len() as int;
    let x = i * n + j;
    assert(0 <= x < n * n && x / n == i && x % n == j) by {
        vstd::arithmetic::div_mod::lemma_fundamental_div_mod_converse(x, n, i, j);
        assert(0 <= x < n * n) by (nonlinear_arith)
            requires
                x == i * n + j,
                0 <= i < n,
                0 <= j < n,
        ;
    }
    let a = row(data, ndims, indices[i] as int);
    let b = row(data, ndims, indices[j] as int);
    dot_sums_products(ops, a, a, ks, ks, s, s);
    dot_sums_products(ops, b, b, ls, ls, s, s);
    dot_sums_products(ops, a, b, ks, ls, s, s);
    square_of_difference(ks, ls);
    squares_not_negative(ks, ls, ks.len() as int);
    assert(squares(ks, ls).take(ks.len() as int) =~= squares(ks, ls));
    leaf_distance_worth(
        ops,
        dot_of(ops, a, a),
        dot_of(ops, b, b),
        dot_of(ops, a, b),
        total(products(ks, ks)),
        total(products(ls, ls)),
        total(products(ks, ls)),
        2 * s,
    );
}

} // verus!
