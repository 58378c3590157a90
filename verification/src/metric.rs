//! Distances between points, derived from dot products.

use crate::arith::Arithmetic;
use crate::number::{Real, MIN_POSITIVE_BITS, TWO_BITS};
use vstd::prelude::*;

verus! {

/// How the distance between two points is measured.
#[derive(Clone, Copy, Debug, PartialEq, Eq, Structural)]
pub enum Metric {
    /// Squared Euclidean distance.
    L2,
    /// One minus the cosine of the angle.
    Cosine,
    /// One minus the dot product, for vectors of length one.
    CosineNormalized,
    /// The negated dot product.
    InnerProduct,
}

/// A number, but zero where it is negative. What is not a number stays as it is.
pub open spec fn clamped(d: Real) -> Real {
    if d.lt(Real::spec_zero()) {
        Real::spec_zero()
    } else {
        d
    }
}

/// A number, but zero where it is negative.
pub fn clamp_to_zero(d: Real) -> (r: Real)
    ensures
        r == clamped(d),
{
    if d.is_less(Real::zero()) {
        Real::zero()
    } else {
        d
    }
}

/// What the diagonal of a dot-product matrix contributes to distances: the squared length of a
/// vector, or its length where the metric is the cosine. A squared length below the smallest
/// positive normal number counts as that of a zero vector.
pub open spec fn norm_of<A: Arithmetic>(ops: A, metric: Metric, squared: Real) -> Real {
    if metric == Metric::Cosine {
        if squared.lt(Real { bits: MIN_POSITIVE_BITS }) {
            Real::spec_zero()
        } else {
            ops.root(squared)
        }
    } else {
        squared
    }
}

/// Computes the contribution of a diagonal entry.
pub fn norm<A: Arithmetic>(ops: &A, metric: Metric, squared: Real) -> (r: Real)
    requires
        ops.ready(),
    ensures
        r == norm_of(*ops, metric, squared),
{
    if metric == Metric::Cosine {
        if squared.is_less(Real::from_bits(MIN_POSITIVE_BITS)) {
            Real::zero()
        } else {
            ops.sqrt(squared)
        }
    } else {
        squared
    }
}

/// The distance between two points with the given dot product and norms.
pub open spec fn distance_from_dot<A: Arithmetic>(
    ops: A,
    metric: Metric,
    dot: Real,
    row_norm: Real,
    column_norm: Real,
) -> Real {
    match metric {
        Metric::L2 => clamped(
            ops.difference(
                ops.sum(row_norm, column_norm),
                ops.product(Real { bits: TWO_BITS }, dot),
            ),
        ),
        Metric::CosineNormalized => clamped(ops.difference(Real::spec_one(), dot)),
        Metric::InnerProduct => dot.negation(),
        Metric::Cosine => clamped(
            ops.difference(
                Real::spec_one(),
                if row_norm.vanishes() || column_norm.vanishes() {
                    Real::spec_zero()
                } else {
                    ops.quotient(dot, ops.product(row_norm, column_norm))
                },
            ),
        ),
    }
}

/// Computes the distance between two points from their dot product and norms.
pub fn pair_distance<A: Arithmetic>(
    ops: &A,
    metric: Metric,
    dot: Real,
    row_norm: Real,
    column_norm: Real,
) -> (r: Real)
    requires
        ops.ready(),
    ensures
        r == distance_from_dot(*ops, metric, dot, row_norm, column_norm),
{
    match metric {
        Metric::L2 => {
            let norms = ops.plus(row_norm, column_norm);
            let twice = ops.times(Real::from_bits(TWO_BITS), dot);
            clamp_to_zero(ops.minus(norms, twice))
        },
        Metric::CosineNormalized => clamp_to_zero(ops.minus(Real::one(), dot)),
        Metric::InnerProduct => dot.negated(),
        Metric::Cosine => {
            let cosine = if row_norm.is_zero() || column_norm.is_zero() {
                Real::zero()
            } else {
                let denominator = ops.times(row_norm, column_norm);
                ops.over(dot, denominator)
            };
            clamp_to_zero(ops.minus(Real::one(), cosine))
        },
    }
}

/// Except for the inner product, no distance is negative.
pub proof fn distances_not_negative<A: Arithmetic>(
    ops: A,
    metric: Metric,
    dot: Real,
    row_norm: Real,
    column_norm: Real,
)
    requires
        metric != Metric::InnerProduct,
    ensures
        !distance_from_dot(ops, metric, dot, row_norm, column_norm).lt(Real::spec_zero()),
{
}

/// To the cosine a zero vector is unlike everything: its distance to any point is that of
/// similarity zero, whatever the dot product.
pub proof fn zero_vector_unlike_all<A: Arithmetic>(ops: A, dot: Real, squared: Real, other: Real)
    requires
        squared.lt(Real { bits: MIN_POSITIVE_BITS }),
    ensures
        ({
            let own = norm_of(ops, Metric::Cosine, squared);
            let unlike = clamped(ops.difference(Real::spec_one(), Real::spec_zero()));
            &&& distance_from_dot(ops, Metric::Cosine, dot, own, other) == unlike
            &&& distance_from_dot(ops, Metric::Cosine, dot, other, own) == unlike
        }),
{
}

} // verus!
