//! What the centroid of a sample is, component by component.

use crate::arith::Arithmetic;
use crate::exact::{
    all_worth, count_worth, deeper, deepest, exact, exact_product, exact_quotient, order_of_worth,
    partial_sums_short, short, short_below_max, stays_short, sum_in_order, total, units_worth,
    worth,
};
use crate::gemm::squared_l2_of;
use crate::measure::row;
use crate::medoid::{centroid_of, medoid_of, nearest_is_nearest, nearest_upto, sum_upto};
use crate::number::{count_bits, fixed_powers, power_grows, power_of_two, Real};
use crate::sum_laws::{distance_sums_squares, squares};
use crate::tq_store::in_order;
use vstd::prelude::*;

verus! {

proof fn sums_in_order<A: Arithmetic>(
    ops: A,
    data: Seq<Real>,
    ndims: int,
    samples: Seq<usize>,
    m: int,
    d: int,
)
    ensures
        sum_upto(ops, data, ndims, samples, m, d) == in_order(
            ops,
            |i: int| row(data, ndims, samples[i] as int)[d],
            m,
        ),
    decreases m,
{
    if m > 0 {
        sums_in_order(ops, data, ndims, samples, m - 1, d);
    }
}

proof fn same_terms<A: Arithmetic>(
    ops: A,
    f: spec_fn(int) -> Real,
    g: spec_fn(int) -> Real,
    m: int,
)
    requires
        forall|i: int| 0 <= i < m ==> #[trigger] f(i) == g(i),
    ensures
        in_order(ops, f, m) == in_order(ops, g, m),
    decreases m,
{
    if m > 0 {
        same_terms(ops, f, g, m - 1);
        assert(f(m - 1) == g(m - 1));
    }
}

/// A component of the centroid depends on that component of the samples alone: two data sets and
/// samples of the same size whose points agree there, one by one, have centroids that agree there.
/// The component may stand at different places in the two data sets.
pub proof fn centroid_goes_by_component<A: Arithmetic>(
    ops: A,
    data: Seq<Real>,
    ndims: int,
    samples: Seq<usize>,
    d: int,
    other: Seq<Real>,
    other_ndims: int,
    other_samples: Seq<usize>,
    e: int,
)
    requires
        0 <= d < ndims,
        0 <= e < other_ndims,
        samples.len() == other_samples.len(),
        forall|i: int|
            0 <= i < samples.len() ==> row(data, ndims, #[trigger] samples[i] as int)[d] == row(
                other,
                other_ndims,
                other_samples[i] as int,
            )[e],
    ensures
        centroid_of(ops, data, ndims, samples).len() == ndims,
        centroid_of(ops, data, ndims, samples)[d] == centroid_of(
            ops,
            other,
            other_ndims,
            other_samples,
        )[e],
{
    let n = samples.len() as int;
    let f = |i: int| row(data, ndims, samples[i] as int)[d];
    let g = |i: int| row(other, other_ndims, other_samples[i] as int)[e];
    assert forall|i: int| 0 <= i < n implies #[trigger] f(i) == g(i) by {
        assert(row(data, ndims, samples[i] as int)[d] == row(
            other,
            other_ndims,
            other_samples[i] as int,
        )[e]);
    }
    sums_in_order(ops, data, ndims, samples, n, d);
    sums_in_order(ops, other, other_ndims, other_samples, n, e);
    same_terms(ops, f, g, n);
}

/// Where all samples have the same value in a component, the centroid has there the sum of as many
/// copies of that value, times one over their number.
pub proof fn centroid_of_equal_components<A: Arithmetic>(
    ops: A,
    data: Seq<Real>,
    ndims: int,
    samples: Seq<usize>,
    d: int,
    v: Real,
)
    requires
        0 <= d < ndims,
        forall|i: int|
            0 <= i < samples.len() ==> row(data, ndims, #[trigger] samples[i] as int)[d] == v,
    ensures
        centroid_of(ops, data, ndims, samples)[d] == ops.product(
            Seq::new(samples.len(), |i: int| v).fold_left(
                Real::spec_zero(),
                |sum: Real, x: Real| ops.sum(sum, x),
            ),
            ops.quotient(Real::spec_one(), Real { bits: count_bits(samples.len()) as u32 }),
        ),
{
    let n = samples.len() as int;
    let f = |i: int| row(data, ndims, samples[i] as int)[d];
    let g = |i: int| v;
    assert forall|i: int| 0 <= i < n implies #[trigger] f(i) == g(i) by {
        assert(row(data, ndims, samples[i] as int)[d] == v);
    }
    sums_in_order(ops, data, ndims, samples, n, d);
    same_terms(ops, f, g, n);
    copies_in_order(ops, v, samples.len());
}

proof fn copies_in_order<A: Arithmetic>(ops: A, v: Real, n: nat)
    ensures
        in_order(ops, |i: int| v, n as int) == Seq::new(n, |i: int| v).fold_left(
            Real::spec_zero(),
            |sum: Real, x: Real| ops.sum(sum, x),
        ),
    decreases n,
{
    let copies = Seq::new(n, |i: int| v);
    if n > 0 {
        copies_in_order(ops, v, (n - 1) as nat);
        assert(copies.drop_last() =~= Seq::new((n - 1) as nat, |i: int| v));
    }
}

/// Component `d` of the sampled points is worth `ks`.
pub open spec fn column_worth(
    data: Seq<Real>,
    ndims: int,
    samples: Seq<usize>,
    d: int,
    ks: Seq<int>,
    s: nat,
) -> bool {
    &&& ks.len() == samples.len()
    &&& forall|i: int|
        0 <= i < samples.len() ==> worth(
            row(data, ndims, #[trigger] samples[i] as int)[d],
            ks[i],
            s,
        )
}

/// In an exact arithmetic, where the number of samples is a power of two, a component of the
/// centroid is the sum of that component over the samples, divided by their number.
pub proof fn centroid_is_average<A: Arithmetic>(
    ops: A,
    data: Seq<Real>,
    ndims: int,
    samples: Seq<usize>,
    d: int,
    ks: Seq<int>,
    s: nat,
    e: nat,
)
    requires
        exact(ops),
        0 <= d < ndims,
        samples.len() == power_of_two(e),
        e <= 24,
        column_worth(data, ndims, samples, d, ks, s),
        stays_short(ks),
        s + e <= deepest(),
    ensures
        worth(centroid_of(ops, data, ndims, samples)[d], total(ks), s + e),
{
    let n = samples.len() as int;
    let f = |i: int| row(data, ndims, samples[i] as int)[d];
    assert forall|i: int| 0 <= i < n implies worth(#[trigger] f(i), ks[i], s) by {
        assert(worth(row(data, ndims, samples[i] as int)[d], ks[i], s));
    }
    sum_in_order(ops, f, ks, s, n);
    sums_in_order(ops, data, ndims, samples, n, d);
    partial_sums_short(ks, n);
    assert(ks.take(n) =~= ks);
    units_worth();
    let count = Real { bits: count_bits(samples.len()) as u32 };
    power_grows(0, e);
    power_grows(e, 24);
    fixed_powers();
    count_worth(samples.len());
    exact_quotient(ops, Real::spec_one(), count, 1, n, 0, 0, 1, e);
    let share = ops.quotient(Real::spec_one(), count);
    let sum = sum_upto(ops, data, ndims, samples, n, d);
    assert(total(ks) * 1 == total(ks));
    exact_product(ops, sum, share, total(ks), 1, s, e);
}

proof fn nearest_found<A: Arithmetic>(
    ops: A,
    data: Seq<Real>,
    ndims: int,
    samples: Seq<usize>,
    target: Seq<Real>,
    m: int,
) -> (j: int)
    requires
        0 <= m <= samples.len(),
        0 < samples.len(),
    ensures
        0 <= j < samples.len(),
        nearest_upto(ops, data, ndims, samples, target, m).0 == samples[j],
        ({
            let kept = nearest_upto(ops, data, ndims, samples, target, m).1;
            let d = squared_l2_of(ops, row(data, ndims, samples[j] as int), target);
            if kept == Real::spec_max() {
                &&& j == 0
                &&& forall|i: int|
                    0 <= i < m ==> !squared_l2_of(
                        ops,
                        row(data, ndims, #[trigger] samples[i] as int),
                        target,
                    ).lt(Real::spec_max())
            } else {
                &&& j < m
                &&& kept == d
                &&& d.lt(Real::spec_max())
                &&& forall|i: int|
                    0 <= i < j ==> !squared_l2_of(
                        ops,
                        row(data, ndims, #[trigger] samples[i] as int),
                        target,
                    ).le(d)
            }
        }),
    decreases m,
{
    if m > 0 {
        let j = nearest_found(ops, data, ndims, samples, target, m - 1);
        nearest_is_nearest(ops, data, ndims, samples, target, m - 1);
        let sofar = nearest_upto(ops, data, ndims, samples, target, m - 1);
        let d = squared_l2_of(ops, row(data, ndims, samples[m - 1] as int), target);
        if d.lt(sofar.1) {
            m - 1
        } else {
            j
        }
    } else {
        0
    }
}

/// The start point is the sampled point nearest to the centroid, the first of those at equal
/// distance; it is the first sample if no distance is below the largest number.
pub proof fn medoid_is_nearest<A: Arithmetic>(
    ops: A,
    data: Seq<Real>,
    ndims: int,
    samples: Seq<usize>,
) -> (j: int)
    requires
        0 < samples.len(),
    ensures
        0 <= j < samples.len(),
        medoid_of(ops, data, ndims, samples) == samples[j],
        ({
            let target = centroid_of(ops, data, ndims, samples);
            let d = squared_l2_of(ops, row(data, ndims, samples[j] as int), target);
            ||| j == 0 && forall|i: int|
                0 <= i < samples.len() ==> !squared_l2_of(
                    ops,
                    row(data, ndims, #[trigger] samples[i] as int),
                    target,
                ).lt(Real::spec_max())
            ||| d.lt(Real::spec_max()) && forall|i: int|
                0 <= i < samples.len() ==> {
                    let other = squared_l2_of(
                        ops,
                        row(data, ndims, #[trigger] samples[i] as int),
                        target,
                    );
                    !other.lt(d) && (i < j ==> !other.le(d))
                }
        }),
{
    let target = centroid_of(ops, data, ndims, samples);
    let n = samples.len() as int;
    nearest_is_nearest(ops, data, ndims, samples, target, n);
    nearest_found(ops, data, ndims, samples, target, n)
}

/// A list of whole numbers, each times two to the power `e`.
pub open spec fn lifted(ks: Seq<int>, e: nat) -> Seq<int> {
    ks.map_values(|k: int| k * power_of_two(e))
}

/// Column `d` of the sampled points.
pub open spec fn column(points: Seq<Seq<int>>, d: int) -> Seq<int> {
    points.map_values(|point: Seq<int>| point[d])
}

/// The squared distance of a point from the average of all, both times their number: a power of
/// two.
pub open spec fn off_average(points: Seq<Seq<int>>, ndims: nat, i: int, e: nat) -> Seq<int> {
    squares(lifted(points[i], e), Seq::new(ndims, |d: int| total(column(points, d))))
}

/// In an exact arithmetic, where the number of samples is a power of two, no sampled point is
/// closer to the average of the sample than the start point.
pub proof fn medoid_is_nearest_to_average<A: Arithmetic>(
    ops: A,
    data: Seq<Real>,
    ndims: int,
    samples: Seq<usize>,
    points: Seq<Seq<int>>,
    s: nat,
    e: nat,
) -> (j: int)
    requires
        exact(ops),
        0 <= ndims,
        samples.len() == power_of_two(e),
        e <= 24,
        2 * (s + e) <= deepest(),
        points.len() == samples.len(),
        forall|i: int|
            0 <= i < samples.len() ==> all_worth(
                row(data, ndims, #[trigger] samples[i] as int),
                points[i],
                s,
            ) && points[i].len() == ndims,
        forall|d: int| 0 <= d < ndims ==> stays_short(#[trigger] column(points, d)),
        forall|i: int|
            0 <= i < points.len() ==> stays_short(#[trigger] off_average(points, ndims as nat, i, e)),
    ensures
        0 <= j < samples.len(),
        medoid_of(ops, data, ndims, samples) == samples[j],
        forall|i: int|
            0 <= i < points.len() ==> total(off_average(points, ndims as nat, j, e)) <= total(
                #[trigger] off_average(points, ndims as nat, i, e),
            ),
{
    let target = centroid_of(ops, data, ndims, samples);
    let sums = Seq::new(ndims as nat, |d: int| total(column(points, d)));
    power_grows(0, e);
    assert forall|d: int| 0 <= d < ndims implies worth(#[trigger] target[d], sums[d], s + e) by {
        assert forall|i: int| 0 <= i < samples.len() implies worth(
            row(data, ndims, #[trigger] samples[i] as int)[d],
            column(points, d)[i],
            s,
        ) by {
            assert(all_worth(row(data, ndims, samples[i] as int), points[i], s));
        }
        centroid_is_average(ops, data, ndims, samples, d, column(points, d), s, e);
    }
    assert forall|i: int| 0 <= i < samples.len() implies worth(
        squared_l2_of(ops, row(data, ndims, #[trigger] samples[i] as int), target),
        total(off_average(points, ndims as nat, i, e)),
        s + e + (s + e),
    ) && short(total(off_average(points, ndims as nat, i, e))) by {
        let point = row(data, ndims, samples[i] as int);
        assert(all_worth(point, points[i], s));
        assert forall|d: int| 0 <= d < point.len() implies worth(
            #[trigger] point[d],
            lifted(points[i], e)[d],
            s + e,
        ) by {
            deeper(point[d], points[i][d], s, e);
        }
        let terms = off_average(points, ndims as nat, i, e);
        assert(stays_short(terms));
        distance_sums_squares(ops, point, target, lifted(points[i], e), sums, s + e);
        partial_sums_short(terms, terms.len() as int);
        assert(terms.take(terms.len() as int) =~= terms);
    }
    let j = medoid_is_nearest(ops, data, ndims, samples);
    let t = s + e + (s + e);
    let dj = squared_l2_of(ops, row(data, ndims, samples[j] as int), target);
    assert(worth(dj, total(off_average(points, ndims as nat, j, e)), t));
    short_below_max(dj, total(off_average(points, ndims as nat, j, e)), t);
    assert(dj.lt(Real::spec_max()));
    assert forall|i: int| 0 <= i < points.len() implies total(
        off_average(points, ndims as nat, j, e),
    ) <= total(#[trigger] off_average(points, ndims as nat, i, e)) by {
        let di = squared_l2_of(ops, row(data, ndims, samples[i] as int), target);
        order_of_worth(
            di,
            dj,
            total(off_average(points, ndims as nat, i, e)),
            total(off_average(points, ndims as nat, j, e)),
            t,
        );
    }
    j
}

} // verus!
