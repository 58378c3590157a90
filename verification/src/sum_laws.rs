//! Dot products, squared distances and matrix products as sums of whole numbers.

use crate::arith::Arithmetic;
use crate::exact::{
    all_worth, count_worth, deepest, exact, exact_difference, exact_product, exact_sum,
    partial_sums_short, short, stays_short, sum_in_order, total, total_of_more, worth,
};
use crate::gemm::{dot_of, dot_upto, squared_l2_of, squared_l2_upto};
use crate::knn::query_distances;
use crate::linalg::{
    byte_dot, byte_gram, byte_sum, product_upto, scaled_entry, signed_dot, Transpose,
};
use crate::measure::row;
use crate::number::Real;
use crate::tq_store::in_order;
use vstd::prelude::*;

verus! {

/// The products of the entries of two lists at the same places.
pub open spec fn products(ks: Seq<int>, ls: Seq<int>) -> Seq<int> {
    Seq::new(ks.len(), |i: int| ks[i] * ls[i])
}

/// The squared differences of the entries of two lists at the same places.
pub open spec fn squares(ks: Seq<int>, ls: Seq<int>) -> Seq<int> {
    Seq::new(ks.len(), |i: int| (ks[i] - ls[i]) * (ks[i] - ls[i]))
}

/// A number whose square is short is short.
pub proof fn short_root(d: int)
    requires
        short(d * d),
    ensures
        short(d),
{
    assert(short(d)) by (nonlinear_arith)
        requires
            d * d <= 0x100_0000,
    ;
}

/// Lists with the same partial sums have the same sum.
pub proof fn totals_combine(ks: Seq<int>, ls: Seq<int>, m: int)
    requires
        0 <= m <= ks.len(),
        ks.len() == ls.len(),
    ensures
        total(squares(ks, ls).take(m)) == total(products(ks, ks).take(m)) + total(
            products(ls, ls).take(m),
        ) - 2 * total(products(ks, ls).take(m)),
    decreases m,
{
    if m > 0 {
        totals_combine(ks, ls, m - 1);
        total_of_more(squares(ks, ls), m);
        total_of_more(products(ks, ks), m);
        total_of_more(products(ls, ls), m);
        total_of_more(products(ks, ls), m);
        let k = ks[m - 1];
        let l = ls[m - 1];
        assert((k - l) * (k - l) == k * k + l * l - 2 * (k * l)) by (nonlinear_arith);
    } else {
        assert(squares(ks, ls).take(0) =~= Seq::<int>::empty());
        assert(products(ks, ks).take(0) =~= Seq::<int>::empty());
        assert(products(ls, ls).take(0) =~= Seq::<int>::empty());
        assert(products(ks, ls).take(0) =~= Seq::<int>::empty());
    }
}

/// The squared distance of two lists of whole numbers is the sum of their squared lengths less
/// twice their product.
pub proof fn square_of_difference(ks: Seq<int>, ls: Seq<int>)
    requires
        ks.len() == ls.len(),
    ensures
        total(squares(ks, ls)) == total(products(ks, ks)) + total(products(ls, ls)) - 2 * total(
            products(ks, ls),
        ),
{
    totals_combine(ks, ls, ks.len() as int);
    assert(squares(ks, ls).take(ks.len() as int) =~= squares(ks, ls));
    assert(products(ks, ks).take(ks.len() as int) =~= products(ks, ks));
    assert(products(ls, ls).take(ks.len() as int) =~= products(ls, ls));
    assert(products(ks, ls).take(ks.len() as int) =~= products(ks, ls));
}

/// A sum of squares is not negative.
pub proof fn squares_not_negative(ks: Seq<int>, ls: Seq<int>, m: int)
    requires
        0 <= m <= ks.len(),
        ks.len() == ls.len(),
    ensures
        0 <= total(squares(ks, ls).take(m)),
    decreases m,
{
    if m > 0 {
        squares_not_negative(ks, ls, m - 1);
        total_of_more(squares(ks, ls), m);
        let d = ks[m - 1] - ls[m - 1];
        assert(0 <= d * d) by (nonlinear_arith);
    } else {
        assert(squares(ks, ls).take(0) =~= Seq::<int>::empty());
    }
}

proof fn dot_in_order<A: Arithmetic>(ops: A, a: Seq<Real>, b: Seq<Real>, m: int)
    ensures
        dot_upto(ops, a, b, m) == in_order(ops, |i: int| ops.product(a[i], b[i]), m),
    decreases m,
{
    if m > 0 {
        dot_in_order(ops, a, b, m - 1);
    }
}

/// In an exact arithmetic the dot product of two vectors is the sum of the products of their
/// components, as long as that stays short.
pub proof fn dot_sums_products<A: Arithmetic>(
    ops: A,
    a: Seq<Real>,
    b: Seq<Real>,
    ks: Seq<int>,
    ls: Seq<int>,
    s: nat,
    t: nat,
)
    requires
        exact(ops),
        a.len() == b.len(),
        all_worth(a, ks, s),
        all_worth(b, ls, t),
        s + t <= deepest(),
        stays_short(products(ks, ls)),
    ensures
        worth(dot_of(ops, a, b), total(products(ks, ls)), s + t),
{
    let terms = products(ks, ls);
    let term = |i: int| ops.product(a[i], b[i]);
    let n = a.len() as int;
    assert forall|i: int| 0 <= i < n implies worth(#[trigger] term(i), terms[i], s + t) by {
        partial_sums_short(terms, i);
        assert(worth(a[i], ks[i], s));
        assert(worth(b[i], ls[i], t));
        exact_product(ops, a[i], b[i], ks[i], ls[i], s, t);
    }
    sum_in_order(ops, term, terms, s + t, n);
    dot_in_order(ops, a, b, n);
    assert(terms.take(n) =~= terms);
}

proof fn squares_in_order<A: Arithmetic>(ops: A, a: Seq<Real>, b: Seq<Real>, m: int)
    ensures
        squared_l2_upto(ops, a, b, m) == in_order(
            ops,
            |i: int|
                ops.product(ops.difference(a[i], b[i]), ops.difference(a[i], b[i])),
            m,
        ),
    decreases m,
{
    if m > 0 {
        squares_in_order(ops, a, b, m - 1);
    }
}

/// In an exact arithmetic the squared distance of two vectors is the sum of the squared
/// differences of their components, as long as that stays short.
pub proof fn distance_sums_squares<A: Arithmetic>(
    ops: A,
    a: Seq<Real>,
    b: Seq<Real>,
    ks: Seq<int>,
    ls: Seq<int>,
    s: nat,
)
    requires
        exact(ops),
        a.len() == b.len(),
        all_worth(a, ks, s),
        all_worth(b, ls, s),
        s + s <= deepest(),
        stays_short(squares(ks, ls)),
    ensures
        worth(squared_l2_of(ops, a, b), total(squares(ks, ls)), s + s),
{
    let terms = squares(ks, ls);
    let term = |i: int| ops.product(ops.difference(a[i], b[i]), ops.difference(a[i], b[i]));
    let n = a.len() as int;
    assert forall|i: int| 0 <= i < n implies worth(#[trigger] term(i), terms[i], s + s) by {
        partial_sums_short(terms, i);
        let d = ks[i] - ls[i];
        short_root(d);
        assert(worth(a[i], ks[i], s));
        assert(worth(b[i], ls[i], s));
        exact_difference(ops, a[i], b[i], ks[i], ls[i], s);
        let x = ops.difference(a[i], b[i]);
        exact_product(ops, x, x, d, d, s, s);
    }
    sum_in_order(ops, term, terms, s + s, n);
    squares_in_order(ops, a, b, n);
    assert(terms.take(n) =~= terms);
}

proof fn matrix_product_in_order<A: Arithmetic>(
    ops: A,
    at: Transpose,
    bt: Transpose,
    m: int,
    n: int,
    k: int,
    a: Seq<Real>,
    b: Seq<Real>,
    r: int,
    c: int,
    l: int,
)
    ensures
        product_upto(ops, at, bt, m, n, k, a, b, r, c, l) == in_order(
            ops,
            |x: int|
                ops.product(
                    if at == Transpose::Ordinary {
                        a[x * m + r]
                    } else {
                        a[r * k + x]
                    },
                    if bt == Transpose::Ordinary {
                        b[c * k + x]
                    } else {
                        b[x * n + c]
                    },
                ),
            l,
        ),
    decreases l,
{
    if l > 0 {
        matrix_product_in_order(ops, at, bt, m, n, k, a, b, r, c, l - 1);
    }
}

/// In an exact arithmetic an entry of a matrix product is the sum of the products along a row of
/// the first factor and a column of the second. A factor that is stored transposed is read
/// accordingly.
pub proof fn matrix_product_worth<A: Arithmetic>(
    ops: A,
    at: Transpose,
    bt: Transpose,
    m: int,
    n: int,
    k: int,
    a: Seq<Real>,
    b: Seq<Real>,
    r: int,
    c: int,
    ks: Seq<int>,
    ls: Seq<int>,
    s: nat,
    t: nat,
)
    requires
        exact(ops),
        s + t <= deepest(),
        0 <= k == ks.len(),
        ls.len() == k,
        forall|x: int|
            0 <= x < k ==> worth(
                if at == Transpose::Ordinary {
                    a[x * m + r]
                } else {
                    a[r * k + x]
                },
                #[trigger] ks[x],
                s,
            ),
        forall|x: int|
            0 <= x < k ==> worth(
                if bt == Transpose::Ordinary {
                    b[c * k + x]
                } else {
                    b[x * n + c]
                },
                #[trigger] ls[x],
                t,
            ),
        stays_short(products(ks, ls)),
    ensures
        worth(
            product_upto(ops, at, bt, m, n, k, a, b, r, c, k),
            total(products(ks, ls)),
            s + t,
        ),
{
    let terms = products(ks, ls);
    let term = |x: int|
        ops.product(
            if at == Transpose::Ordinary {
                a[x * m + r]
            } else {
                a[r * k + x]
            },
            if bt == Transpose::Ordinary {
                b[c * k + x]
            } else {
                b[x * n + c]
            },
        );
    assert forall|x: int| 0 <= x < k implies worth(#[trigger] term(x), terms[x], s + t) by {
        partial_sums_short(terms, x);
        let p = if at == Transpose::Ordinary {
            a[x * m + r]
        } else {
            a[r * k + x]
        };
        let q = if bt == Transpose::Ordinary {
            b[c * k + x]
        } else {
            b[x * n + c]
        };
        assert(worth(p, ks[x], s));
        assert(worth(q, ls[x], t));
        exact_product(ops, p, q, ks[x], ls[x], s, t);
    }
    sum_in_order(ops, term, terms, s + t, k);
    matrix_product_in_order(ops, at, bt, m, n, k, a, b, r, c, k);
    assert(terms.take(k) =~= terms);
}

/// In an exact arithmetic a scaled entry is `alpha` times the product, plus `beta` times what was
/// there where `beta` is given.
pub proof fn scaled_entry_worth<A: Arithmetic>(
    ops: A,
    product: Real,
    alpha: Real,
    beta: Option<Real>,
    before: Real,
    p: int,
    a: int,
    b: int,
    h: int,
    s: nat,
    t: nat,
)
    requires
        exact(ops),
        s + t <= deepest(),
        worth(product, p, s),
        worth(alpha, a, t),
        worth(before, h, s),
        beta matches Some(f) ==> worth(f, b, t),
        beta is None ==> b == 0,
        short(a * p),
        short(b * h),
        short(a * p + b * h),
    ensures
        worth(scaled_entry(ops, product, alpha, beta, before), a * p + b * h, s + t),
{
    exact_product(ops, alpha, product, a, p, t, s);
    match beta {
        None => {
            assert(0 * h == 0) by (nonlinear_arith);
        },
        Some(f) => {
            exact_product(ops, f, before, b, h, t, s);
            exact_sum(
                ops,
                ops.product(alpha, product),
                ops.product(f, before),
                a * p,
                b * h,
                s + t,
            );
        },
    }
}

/// The entries of row `i` of a byte matrix, as whole numbers.
pub open spec fn byte_row(a: Seq<u8>, k: int, i: int) -> Seq<int> {
    Seq::new(k as nat, |l: int| a[i * k + l] as int)
}

/// The entries of row `i` of a matrix of signed bytes, as whole numbers.
pub open spec fn signed_row(a: Seq<i8>, k: int, i: int) -> Seq<int> {
    Seq::new(k as nat, |l: int| a[i * k + l] as int)
}

proof fn bytes_add_up_to(a: Seq<u8>, b: Seq<u8>, c: Seq<i8>, k: int, i: int, j: int, l: int)
    requires
        0 <= l <= k,
    ensures
        byte_sum(a, k, i, l) == total(byte_row(a, k, i).take(l)),
        byte_dot(a, b, k, i, j, l) == total(
            products(byte_row(a, k, i), byte_row(b, k, j)).take(l),
        ),
        signed_dot(a, c, k, i, j, l) == total(
            products(byte_row(a, k, i), signed_row(c, k, j)).take(l),
        ),
    decreases l,
{
    let xs = byte_row(a, k, i);
    let ps = products(xs, byte_row(b, k, j));
    let qs = products(xs, signed_row(c, k, j));
    if l > 0 {
        bytes_add_up_to(a, b, c, k, i, j, l - 1);
        total_of_more(xs, l);
        total_of_more(ps, l);
        total_of_more(qs, l);
    } else {
        assert(xs.take(0) =~= Seq::<int>::empty());
        assert(ps.take(0) =~= Seq::<int>::empty());
        assert(qs.take(0) =~= Seq::<int>::empty());
    }
}

/// Sums and products of rows of bytes are those of their entries as whole numbers.
pub proof fn bytes_add_up(a: Seq<u8>, b: Seq<u8>, c: Seq<i8>, k: int, i: int, j: int)
    requires
        0 <= k,
    ensures
        byte_sum(a, k, i, k) == total(byte_row(a, k, i)),
        byte_dot(a, b, k, i, j, k) == total(products(byte_row(a, k, i), byte_row(b, k, j))),
        signed_dot(a, c, k, i, j, k) == total(products(byte_row(a, k, i), signed_row(c, k, j))),
{
    let xs = byte_row(a, k, i);
    let ps = products(xs, byte_row(b, k, j));
    let qs = products(xs, signed_row(c, k, j));
    bytes_add_up_to(a, b, c, k, i, j, k);
    assert(xs.take(k) =~= xs);
    assert(ps.take(k) =~= ps);
    assert(qs.take(k) =~= qs);
}

/// The product of two rows of bytes is exact, as long as it stays short.
pub proof fn byte_gram_worth(a: Seq<u8>, b: Seq<u8>, k: int, i: int, j: int)
    requires
        0 <= k,
        0 <= total(products(byte_row(a, k, i), byte_row(b, k, j))) <= 0x100_0000,
    ensures
        worth(
            byte_gram(a, b, k, i, j),
            total(products(byte_row(a, k, i), byte_row(b, k, j))),
            0,
        ),
{
    bytes_add_up(a, b, Seq::empty(), k, i, j);
    count_worth(byte_dot(a, b, k, i, j, k) as nat);
}

/// In an exact arithmetic the distances of all points to a query are the sums of the squared
/// differences of their components.
pub proof fn query_distances_worth<A: Arithmetic>(
    ops: A,
    data: Seq<Real>,
    ndims: int,
    npoints: int,
    query: Seq<Real>,
    i: int,
    ks: Seq<int>,
    ls: Seq<int>,
    s: nat,
)
    requires
        exact(ops),
        s + s <= deepest(),
        0 <= i < npoints,
        row(data, ndims, i).len() == query.len(),
        all_worth(row(data, ndims, i), ks, s),
        all_worth(query, ls, s),
        stays_short(squares(ks, ls)),
    ensures
        query_distances(ops, data, ndims, npoints, query).len() == npoints,
        worth(
            query_distances(ops, data, ndims, npoints, query)[i],
            total(squares(ks, ls)),
            s + s,
        ),
{
    distance_sums_squares(ops, row(data, ndims, i), query, ks, ls, s);
}

} // verus!
