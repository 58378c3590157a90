//! What the distances of a store of encoded vectors are worth.

use crate::arith::Arithmetic;
use crate::exact::{
    all_worth, deepest, exact, exact_difference, exact_product, exact_sum, order_of_worth,
    partial_sums_short, short, size, stays_short, sum_in_order, total, total_not_negative,
    total_of_more, units_worth, worth, zero_worth,
};
use crate::number::{Real, TWO_BITS};
use crate::quantizer::length_of;
use crate::quantizer_laws::{kept_square_worth, scaling_leaves_the_sum, times, values_worth};
use crate::sum_laws::{
    dot_sums_products, products, square_of_difference, squares, squares_not_negative,
};
use crate::tq_codes::{code_at, code_bytes, levels, stored_meta, TurboQuantMeta};
use crate::tq_store::{
    by_fours, code_product, code_terms, continued, every_second, four_lanes, in_order,
    query_product, query_terms, record_of_rotated, stored_vector_reads_back, two_lanes,
    TQDistanceComputer, TQQueryComputer, TQStore,
};
use vstd::prelude::*;

verus! {

/// Every second entry from `start` on, `n` of them.
pub open spec fn lane(ks: Seq<int>, start: int, n: int) -> Seq<int> {
    Seq::new(n as nat, |i: int| ks[start + 2 * i])
}

/// The sums of two entries out of each of the first `n` groups of four.
pub open spec fn pairs(ks: Seq<int>, start: int, n: int) -> Seq<int> {
    Seq::new(n as nat, |i: int| ks[4 * i + start] + ks[4 * i + start + 2])
}

/// The entries without their signs.
pub open spec fn sizes(ks: Seq<int>) -> Seq<int> {
    ks.map_values(|k: int| size(k))
}

proof fn lanes_cover(ks: Seq<int>, m: int)
    requires
        0 <= m <= ks.len(),
    ensures
        total(ks.take(m)) == total(lane(ks, 0, (m + 1) / 2)) + total(lane(ks, 1, m / 2)),
    decreases m,
{
    if m > 0 {
        lanes_cover(ks, m - 1);
        total_of_more(ks, m);
        if m % 2 == 1 {
            let n = (m + 1) / 2;
            assert(lane(ks, 0, n).drop_last() =~= lane(ks, 0, n - 1));
            assert(lane(ks, 0, n).last() == ks[m - 1]);
        } else {
            let n = m / 2;
            assert(lane(ks, 1, n).drop_last() =~= lane(ks, 1, n - 1));
            assert(lane(ks, 1, n).last() == ks[m - 1]);
        }
    } else {
        assert(ks.take(0) =~= Seq::<int>::empty());
        assert(lane(ks, 0, 0) =~= Seq::<int>::empty());
        assert(lane(ks, 1, 0) =~= Seq::<int>::empty());
    }
}

proof fn sizes_not_negative(ks: Seq<int>)
    ensures
        0 <= total(sizes(ks)),
{
    total_not_negative(sizes(ks), ks.len() as int);
    assert(sizes(ks).take(ks.len() as int) =~= sizes(ks));
}

proof fn second_in_order<A: Arithmetic>(ops: A, term: spec_fn(int) -> Real, start: int, n: int)
    ensures
        every_second(ops, term, start, n) == in_order(ops, |i: int| term(start + 2 * i), n),
    decreases n,
{
    if n > 0 {
        second_in_order(ops, term, start, n - 1);
    }
}

/// In an exact arithmetic summing even and odd terms apart gives the sum of all terms.
pub proof fn two_lanes_worth<A: Arithmetic>(
    ops: A,
    term: spec_fn(int) -> Real,
    ks: Seq<int>,
    s: nat,
)
    requires
        exact(ops),
        s <= deepest(),
        stays_short(ks),
        forall|j: int| 0 <= j < ks.len() ==> worth(#[trigger] term(j), ks[j], s),
    ensures
        worth(two_lanes(ops, term, ks.len() as int), total(ks), s),
{
    let dim = ks.len() as int;
    let half = (dim + 1) / 2;
    let rest = dim / 2;
    let even = lane(ks, 0, half);
    let odd = lane(ks, 1, rest);
    lanes_cover(ks, dim);
    lanes_cover(sizes(ks), dim);
    assert(ks.take(dim) =~= ks);
    assert(sizes(ks).take(dim) =~= sizes(ks));
    assert(sizes(even) =~= lane(sizes(ks), 0, half));
    assert(sizes(odd) =~= lane(sizes(ks), 1, rest));
    sizes_not_negative(even);
    sizes_not_negative(odd);
    let f = |i: int| term(0 + 2 * i);
    let g = |i: int| term(1 + 2 * i);
    assert forall|i: int| 0 <= i < half implies worth(#[trigger] f(i), even[i], s) by {
        assert(worth(term(2 * i), ks[2 * i], s));
    }
    assert forall|i: int| 0 <= i < rest implies worth(#[trigger] g(i), odd[i], s) by {
        assert(worth(term(1 + 2 * i), ks[1 + 2 * i], s));
    }
    sum_in_order(ops, f, even, s, half);
    sum_in_order(ops, g, odd, s, rest);
    second_in_order(ops, term, 0, half);
    second_in_order(ops, term, 1, rest);
    assert(even.take(half) =~= even);
    assert(odd.take(rest) =~= odd);
    partial_sums_short(ks, dim);
    exact_sum(
        ops,
        every_second(ops, term, 0, half),
        every_second(ops, term, 1, rest),
        total(even),
        total(odd),
        s,
    );
}

proof fn pairs_cover(ks: Seq<int>, n: int)
    requires
        0 <= n,
        4 * n <= ks.len(),
    ensures
        total(ks.take(4 * n)) == total(pairs(ks, 0, n)) + total(pairs(ks, 1, n)),
    decreases n,
{
    if n > 0 {
        pairs_cover(ks, n - 1);
        total_of_more(ks, 4 * n);
        total_of_more(ks, 4 * n - 1);
        total_of_more(ks, 4 * n - 2);
        total_of_more(ks, 4 * n - 3);
        assert(pairs(ks, 0, n).drop_last() =~= pairs(ks, 0, n - 1));
        assert(pairs(ks, 1, n).drop_last() =~= pairs(ks, 1, n - 1));
    } else {
        assert(ks.take(0) =~= Seq::<int>::empty());
        assert(pairs(ks, 0, 0) =~= Seq::<int>::empty());
        assert(pairs(ks, 1, 0) =~= Seq::<int>::empty());
    }
}

proof fn pair_sizes(ks: Seq<int>, start: int, n: int)
    requires
        0 <= n,
        0 <= start <= 1,
        4 * n <= ks.len(),
    ensures
        0 <= total(sizes(pairs(ks, start, n))) <= total(pairs(sizes(ks), start, n)),
    decreases n,
{
    let a = sizes(pairs(ks, start, n));
    let b = pairs(sizes(ks), start, n);
    if n > 0 {
        pair_sizes(ks, start, n - 1);
        assert(a.drop_last() =~= sizes(pairs(ks, start, n - 1)));
        assert(b.drop_last() =~= pairs(sizes(ks), start, n - 1));
    } else {
        assert(a =~= Seq::<int>::empty());
        assert(b =~= Seq::<int>::empty());
    }
}

proof fn fours_in_order<A: Arithmetic>(ops: A, term: spec_fn(int) -> Real, start: int, n: int)
    ensures
        by_fours(ops, term, start, n) == in_order(
            ops,
            |i: int| ops.sum(term(4 * i + start), term(4 * i + start + 2)),
            n,
        ),
    decreases n,
{
    if n > 0 {
        fours_in_order(ops, term, start, n - 1);
    }
}

proof fn fours_worth<A: Arithmetic>(
    ops: A,
    term: spec_fn(int) -> Real,
    ks: Seq<int>,
    start: int,
    n: int,
    s: nat,
)
    requires
        exact(ops),
        s <= deepest(),
        0 <= n,
        0 <= start <= 1,
        4 * n <= ks.len(),
        stays_short(pairs(ks, start, n)),
        forall|j: int| 0 <= j < ks.len() ==> worth(#[trigger] term(j), ks[j], s),
    ensures
        worth(by_fours(ops, term, start, n), total(pairs(ks, start, n)), s),
{
    let ps = pairs(ks, start, n);
    let f = |i: int| ops.sum(term(4 * i + start), term(4 * i + start + 2));
    assert forall|i: int| 0 <= i < n implies worth(#[trigger] f(i), ps[i], s) by {
        partial_sums_short(ps, i);
        let at = 4 * i + start;
        assert(worth(term(at), ks[at], s));
        assert(worth(term(at + 2), ks[at + 2], s));
        exact_sum(ops, term(at), term(at + 2), ks[at], ks[at + 2], s);
    }
    sum_in_order(ops, f, ps, s, n);
    fours_in_order(ops, term, start, n);
    assert(ps.take(n) =~= ps);
}

proof fn continued_worth<A: Arithmetic>(
    ops: A,
    term: spec_fn(int) -> Real,
    acc: Real,
    a: int,
    ks: Seq<int>,
    from: int,
    s: nat,
)
    requires
        exact(ops),
        s <= deepest(),
        0 <= from <= ks.len(),
        worth(acc, a, s),
        size(a) + total(sizes(ks)) - total(sizes(ks).take(from)) <= 0x100_0000,
        forall|j: int| 0 <= j < ks.len() ==> worth(#[trigger] term(j), ks[j], s),
    ensures
        worth(
            continued(ops, term, acc, from, ks.len() as int),
            a + total(ks) - total(ks.take(from)),
            s,
        ),
    decreases ks.len() - from,
{
    let n = ks.len() as int;
    if from < n {
        let k = ks[from];
        total_of_more(ks, from + 1);
        total_of_more(sizes(ks), from + 1);
        tail_not_negative(sizes(ks), from + 1);
        assert(worth(term(from), k, s));
        exact_sum(ops, acc, term(from), a, k, s);
        continued_worth(ops, term, ops.sum(acc, term(from)), a + k, ks, from + 1, s);
    } else {
        assert(ks.take(n) =~= ks);
    }
}

proof fn tail_not_negative(ks: Seq<int>, m: int)
    requires
        0 <= m <= ks.len(),
        forall|i: int| 0 <= i < ks.len() ==> 0 <= #[trigger] ks[i],
    ensures
        total(ks.take(m)) <= total(ks),
    decreases ks.len() - m,
{
    if m < ks.len() {
        tail_not_negative(ks, m + 1);
        total_of_more(ks, m + 1);
    } else {
        assert(ks.take(m) =~= ks);
    }
}

proof fn size_of_total(ks: Seq<int>, m: int)
    requires
        0 <= m <= ks.len(),
    ensures
        size(total(ks.take(m))) <= total(sizes(ks).take(m)),
    decreases m,
{
    if m > 0 {
        size_of_total(ks, m - 1);
        total_of_more(ks, m);
        total_of_more(sizes(ks), m);
    } else {
        assert(ks.take(0) =~= Seq::<int>::empty());
        assert(sizes(ks).take(0) =~= Seq::<int>::empty());
    }
}

/// In an exact arithmetic summing in lanes of groups of four gives the sum of all terms.
pub proof fn four_lanes_worth<A: Arithmetic>(
    ops: A,
    term: spec_fn(int) -> Real,
    ks: Seq<int>,
    s: nat,
)
    requires
        exact(ops),
        s <= deepest(),
        stays_short(ks),
        forall|j: int| 0 <= j < ks.len() ==> worth(#[trigger] term(j), ks[j], s),
    ensures
        worth(four_lanes(ops, term, ks.len() as int), total(ks), s),
{
    let dim = ks.len() as int;
    let n = dim / 4;
    let even = pairs(ks, 0, n);
    let odd = pairs(ks, 1, n);
    pairs_cover(ks, n);
    pairs_cover(sizes(ks), n);
    pair_sizes(ks, 0, n);
    pair_sizes(ks, 1, n);
    tail_not_negative(sizes(ks), 4 * n);
    fours_worth(ops, term, ks, 0, n, s);
    fours_worth(ops, term, ks, 1, n, s);
    size_of_total(even, n);
    assert(even.take(n) =~= even);
    assert(sizes(even).take(n) =~= sizes(even));
    continued_worth(ops, term, by_fours(ops, term, 0, n), total(even), ks, 4 * n, s);
    partial_sums_short(ks, dim);
    assert(ks.take(dim) =~= ks);
    exact_sum(
        ops,
        continued(ops, term, by_fours(ops, term, 0, n), 4 * n, dim),
        by_fours(ops, term, 1, n),
        total(even) + total(ks) - total(ks.take(4 * n)),
        total(odd),
        s,
    );
}

/// The values of packed codes are worth the given numbers.
pub open spec fn packed_worth(
    packed: Seq<u8>,
    values: Seq<Real>,
    nbits: usize,
    vs: Seq<int>,
    t: nat,
) -> bool {
    forall|j: int|
        0 <= j < vs.len() ==> worth(
            values[code_at(packed, j, nbits) as int],
            #[trigger] vs[j],
            t,
        )
}

/// In an exact arithmetic the product of a query with packed codes is the sum of the products of
/// the query's components with the codes' values, however many bits a code has.
pub proof fn query_product_worth<A: Arithmetic>(
    ops: A,
    query: Seq<Real>,
    packed: Seq<u8>,
    values: Seq<Real>,
    nbits: usize,
    qs: Seq<int>,
    vs: Seq<int>,
    s: nat,
    t: nat,
)
    requires
        exact(ops),
        s + t <= deepest(),
        qs.len() == vs.len() <= query.len(),
        all_worth(query.take(qs.len() as int), qs, s),
        packed_worth(packed, values, nbits, vs, t),
        stays_short(products(qs, vs)),
    ensures
        worth(
            query_product(ops, query, packed, values, qs.len() as int, nbits),
            total(products(qs, vs)),
            s + t,
        ),
{
    let terms = products(qs, vs);
    let term = query_terms(ops, query, packed, values, nbits);
    let n = qs.len() as int;
    assert forall|j: int| 0 <= j < n implies worth(#[trigger] term(j), terms[j], s + t) by {
        partial_sums_short(terms, j);
        assert(worth(query.take(n)[j], qs[j], s));
        let value = values[code_at(packed, j, nbits) as int];
        assert(worth(value, vs[j], t));
        exact_product(ops, query[j], value, qs[j], vs[j], s, t);
    }
    if nbits == 4 {
        two_lanes_worth(ops, term, terms, s + t);
    } else if nbits == 2 {
        four_lanes_worth(ops, term, terms, s + t);
    } else {
        sum_in_order(ops, term, terms, s + t, n);
        assert(terms.take(n) =~= terms);
    }
}

/// In an exact arithmetic the product of two lists of packed codes is the sum of the products of
/// their values.
pub proof fn code_product_worth<A: Arithmetic>(
    ops: A,
    a: Seq<u8>,
    b: Seq<u8>,
    values: Seq<Real>,
    nbits: usize,
    vs: Seq<int>,
    ws: Seq<int>,
    t: nat,
)
    requires
        exact(ops),
        2 * t <= deepest(),
        vs.len() == ws.len(),
        packed_worth(a, values, nbits, vs, t),
        packed_worth(b, values, nbits, ws, t),
        stays_short(products(vs, ws)),
    ensures
        worth(
            code_product(ops, a, b, values, vs.len() as int, nbits),
            total(products(vs, ws)),
            2 * t,
        ),
{
    let terms = products(vs, ws);
    let term = code_terms(ops, a, b, values, nbits);
    let n = vs.len() as int;
    assert forall|j: int| 0 <= j < n implies worth(#[trigger] term(j), terms[j], 2 * t) by {
        partial_sums_short(terms, j);
        let x = values[code_at(a, j, nbits) as int];
        let y = values[code_at(b, j, nbits) as int];
        assert(worth(x, vs[j], t));
        assert(worth(y, ws[j], t));
        exact_product(ops, x, y, vs[j], ws[j], t, t);
    }
    if nbits == 4 {
        two_lanes_worth(ops, term, terms, 2 * t);
    } else {
        sum_in_order(ops, term, terms, 2 * t, n);
        assert(terms.take(n) =~= terms);
    }
}

/// In an exact arithmetic the squared distance of the query to an encoded vector is the sum of the
/// squared differences between the query and the reconstruction, where both squared lengths are
/// the true ones.
pub proof fn query_computer_worth<A: Arithmetic>(
    c: TQQueryComputer<'_>,
    ops: A,
    codes: Seq<u8>,
    meta: TurboQuantMeta,
    qs: Seq<int>,
    vs: Seq<int>,
    i: int,
    h: int,
    t: nat,
    u: nat,
    w: nat,
)
    requires
        exact(ops),
        2 * (t + u + w) <= deepest(),
        qs.len() == vs.len() == c.dim <= c.rotated_query@.len(),
        all_worth(c.rotated_query@.take(c.dim as int), qs, t + u + w),
        packed_worth(codes, c.centroids.values(), c.nbits, vs, t),
        worth(c.inv_sqrt_dim, i, u),
        worth(meta.norm, h, w),
        worth(c.query_norm_sq, total(products(qs, qs)), 2 * (t + u + w)),
        worth(
            meta.quant_norm_sq,
            total(products(times(vs, i * h), times(vs, i * h))),
            2 * (t + u + w),
        ),
        stays_short(products(qs, vs)),
        short(2 * total(products(qs, vs))),
        short(i * h),
        short(2 * total(products(qs, times(vs, i * h)))),
        short(total(products(qs, qs)) - 2 * total(products(qs, times(vs, i * h)))),
        stays_short(squares(qs, times(vs, i * h))),
    ensures
        worth(
            c.distance(ops, codes, meta),
            total(squares(qs, times(vs, i * h))),
            2 * (t + u + w),
        ),
{
    let rs = times(vs, i * h);
    let g = t + u + w;
    let n = qs.len() as int;
    let values = c.centroids.values();
    let two = Real { bits: TWO_BITS };
    query_product_worth(ops, c.rotated_query@, codes, values, c.nbits, qs, vs, g, t);
    let ip = query_product(ops, c.rotated_query@, codes, values, n, c.nbits);
    let p = total(products(qs, vs));
    let d = total(products(qs, rs));
    scaling_leaves_the_sum(qs, vs, i * h);
    units_worth();
    exact_product(ops, two, ip, 2, p, 0, g + t);
    exact_product(ops, c.inv_sqrt_dim, meta.norm, i, h, u, w);
    let scale = ops.product(c.inv_sqrt_dim, meta.norm);
    assert(2 * p * (i * h) == 2 * d) by (nonlinear_arith)
        requires
            d == p * (i * h),
    ;
    exact_product(ops, ops.product(two, ip), scale, 2 * p, i * h, g + t, u + w);
    let twice = ops.product(ops.product(two, ip), scale);
    exact_difference(ops, c.query_norm_sq, twice, total(products(qs, qs)), 2 * d, 2 * g);
    square_of_difference(qs, rs);
    partial_sums_short(squares(qs, rs), n);
    assert(squares(qs, rs).take(n) =~= squares(qs, rs));
    let rest = ops.difference(c.query_norm_sq, twice);
    exact_sum(
        ops,
        rest,
        meta.quant_norm_sq,
        total(products(qs, qs)) - 2 * d,
        total(products(rs, rs)),
        2 * g,
    );
    zero_worth(2 * g);
    squares_not_negative(qs, rs, n);
    order_of_worth(
        ops.sum(rest, meta.quant_norm_sq),
        Real::spec_zero(),
        total(squares(qs, rs)),
        0,
        2 * g,
    );
}

proof fn scaling_both(vs: Seq<int>, ws: Seq<int>, a: int, b: int)
    requires
        vs.len() == ws.len(),
    ensures
        total(products(times(vs, a), times(ws, b))) == total(products(vs, ws)) * (a * b),
{
    scaling_leaves_the_sum(times(vs, a), ws, b);
    scaling_leaves_the_sum(ws, vs, a);
    assert forall|j: int| 0 <= j < vs.len() implies #[trigger] products(times(vs, a), ws)[j]
        == products(ws, times(vs, a))[j] by {
        let x = vs[j] * a;
        let y = ws[j];
        assert(x * y == y * x) by (nonlinear_arith);
    }
    assert(products(times(vs, a), ws) =~= products(ws, times(vs, a)));
    assert forall|j: int| 0 <= j < vs.len() implies #[trigger] products(vs, ws)[j] == products(
        ws,
        vs,
    )[j] by {
        let x = vs[j];
        let y = ws[j];
        assert(x * y == y * x) by (nonlinear_arith);
    }
    assert(products(vs, ws) =~= products(ws, vs));
    let p = total(products(vs, ws));
    assert(p * a * b == p * (a * b)) by (nonlinear_arith);
}

/// In an exact arithmetic the squared distance of two encoded vectors is the sum of the squared
/// differences of their reconstructions, where both squared lengths are the true ones.
pub proof fn distance_computer_worth<A: Arithmetic>(
    c: TQDistanceComputer<'_>,
    ops: A,
    left: Seq<u8>,
    left_meta: TurboQuantMeta,
    right: Seq<u8>,
    right_meta: TurboQuantMeta,
    vs: Seq<int>,
    ws: Seq<int>,
    i: int,
    g: int,
    h: int,
    t: nat,
    u: nat,
    w: nat,
)
    requires
        exact(ops),
        2 * (t + u + w) <= deepest(),
        vs.len() == ws.len() == c.dim,
        packed_worth(left, c.centroids.values(), c.nbits, vs, t),
        packed_worth(right, c.centroids.values(), c.nbits, ws, t),
        worth(c.inv_sqrt_dim, i, u),
        worth(left_meta.norm, g, w),
        worth(right_meta.norm, h, w),
        worth(
            left_meta.quant_norm_sq,
            total(products(times(vs, i * g), times(vs, i * g))),
            2 * (t + u + w),
        ),
        worth(
            right_meta.quant_norm_sq,
            total(products(times(ws, i * h), times(ws, i * h))),
            2 * (t + u + w),
        ),
        stays_short(products(vs, ws)),
        short(2 * total(products(vs, ws))),
        short(i * i),
        short(i * i * g),
        short(i * i * g * h),
        short(2 * total(products(times(vs, i * g), times(ws, i * h)))),
        short(
            total(products(times(vs, i * g), times(vs, i * g))) + total(
                products(times(ws, i * h), times(ws, i * h)),
            ),
        ),
        stays_short(squares(times(vs, i * g), times(ws, i * h))),
    ensures
        worth(
            c.distance(ops, left, left_meta, right, right_meta),
            total(squares(times(vs, i * g), times(ws, i * h))),
            2 * (t + u + w),
        ),
{
    let ks = times(vs, i * g);
    let ls = times(ws, i * h);
    let e = t + u + w;
    let n = vs.len() as int;
    let values = c.centroids.values();
    let two = Real { bits: TWO_BITS };
    let inv = c.inv_sqrt_dim;
    code_product_worth(ops, left, right, values, c.nbits, vs, ws, t);
    let ip = code_product(ops, left, right, values, n, c.nbits);
    let p = total(products(vs, ws));
    let d = total(products(ks, ls));
    scaling_both(vs, ws, i * g, i * h);
    units_worth();
    exact_product(ops, two, ip, 2, p, 0, 2 * t);
    exact_product(ops, inv, inv, i, i, u, u);
    let unit = ops.product(inv, inv);
    exact_product(ops, unit, left_meta.norm, i * i, g, u + u, w);
    let half = ops.product(unit, left_meta.norm);
    exact_product(ops, half, right_meta.norm, i * i * g, h, u + u + w, w);
    let scale = ops.product(half, right_meta.norm);
    assert(2 * p * (i * i * g * h) == 2 * d) by (nonlinear_arith)
        requires
            d == p * ((i * g) * (i * h)),
    ;
    exact_product(ops, ops.product(two, ip), scale, 2 * p, i * i * g * h, 2 * t, u + u + w + w);
    let twice = ops.product(ops.product(two, ip), scale);
    let a = total(products(ks, ks));
    let b = total(products(ls, ls));
    exact_sum(ops, left_meta.quant_norm_sq, right_meta.quant_norm_sq, a, b, 2 * e);
    let both = ops.sum(left_meta.quant_norm_sq, right_meta.quant_norm_sq);
    square_of_difference(ks, ls);
    partial_sums_short(squares(ks, ls), n);
    assert(squares(ks, ls).take(n) =~= squares(ks, ls));
    assert(2 * t + (u + u + w + w) == 2 * e);
    exact_difference(ops, both, twice, a + b, 2 * d, 2 * e);
    zero_worth(2 * e);
    squares_not_negative(ks, ls, n);
    order_of_worth(
        ops.difference(both, twice),
        Real::spec_zero(),
        total(squares(ks, ls)),
        0,
        2 * e,
    );
}

/// In an exact arithmetic the distance of a query to a vector that was written to a store is the
/// sum of the squared differences between the rotated query and the vector's reconstruction: the
/// values of its codes, scaled down by the root of the dimension and up to the vector's length.
pub proof fn stored_distance_worth<A: Arithmetic>(
    store: &TQStore,
    ops: A,
    at: int,
    query: Seq<Real>,
    c: TQQueryComputer<'_>,
    v: Seq<Real>,
    y: Seq<Real>,
    qs: Seq<int>,
    vs: Seq<int>,
    i: int,
    h: int,
    t: nat,
    u: nat,
    w: nat,
)
    requires
        exact(ops),
        2 * (t + u + w) <= deepest(),
        store.prepared(ops, query, c),
        store.codec().wf(),
        store.codec().table().width() <= usize::MAX,
        store.codec().table().values().len() <= levels(store.codec().table().width() as usize),
        store.bytes(at) == record_of_rotated(ops, store.codec(), v, y),
        query.len() == store.codec().dims(),
        all_worth(query, qs, t + u + w),
        values_worth(
            store.codec().table().values(),
            store.codec().codes_of_rotated(ops, length_of(ops, v), y),
            store.codec().dims() as int,
            vs,
            t,
        ),
        worth(c.inv_sqrt_dim, i, u),
        worth(store.codec().inverse_root(), i, u),
        worth(length_of(ops, v), h, w),
        forall|j: int| 0 <= j < vs.len() ==> short(#[trigger] vs[j] * i),
        stays_short(products(qs, qs)),
        stays_short(products(qs, vs)),
        stays_short(products(times(vs, i * h), times(vs, i * h))),
        short(2 * total(products(qs, vs))),
        short(i * h),
        short(2 * total(products(qs, times(vs, i * h)))),
        short(total(products(qs, qs)) - 2 * total(products(qs, times(vs, i * h)))),
        stays_short(squares(qs, times(vs, i * h))),
    ensures
        ({
            let dim = store.codec().dims() as int;
            let nbits = store.codec().table().width() as usize;
            let bytes = store.bytes(at);
            worth(
                c.distance(
                    ops,
                    bytes.take(code_bytes(dim, nbits)),
                    stored_meta(bytes, dim, nbits),
                ),
                total(squares(qs, times(vs, i * h))),
                2 * (t + u + w),
            )
        }),
{
    let q = store.codec();
    let dim = q.dims() as int;
    let nbits = q.table().width() as usize;
    let values = q.table().values();
    let norm = length_of(ops, v);
    let codes = q.codes_of_rotated(ops, norm, y);
    let bytes = store.bytes(at);
    let front = bytes.take(code_bytes(dim, nbits));
    let meta = stored_meta(bytes, dim, nbits);
    stored_vector_reads_back(ops, q, v, y);
    assert(meta.norm == norm);
    assert forall|j: int| 0 <= j < vs.len() implies worth(
        values[code_at(front, j, nbits) as int],
        #[trigger] vs[j],
        t,
    ) by {
        assert(code_at(front, j, nbits) == codes[j]);
    }
    kept_square_worth(ops, values, q.inverse_root(), norm, codes, dim, vs, i, h, t, u, w);
    dot_sums_products(ops, query, query, qs, qs, t + u + w, t + u + w);
    assert(query.take(dim) =~= query);
    query_computer_worth(c, ops, front, meta, qs, vs, i, h, t, u, w);
}

} // verus!
