//! The ladder of occlusion thresholds that pruning climbs.

use crate::arith::Arithmetic;
use crate::number::Real;
use vstd::prelude::*;

verus! {

/// Encoding of the largest factor between two rungs, six fifths.
pub const STEP_BITS: u32 = 0x3f99_999a;

/// The smaller of two numbers.
pub open spec fn smaller(a: Real, b: Real) -> Real {
    if b.lt(a) {
        b
    } else {
        a
    }
}

/// Factor between two rungs of the ladder up to `alpha`.
pub open spec fn step(alpha: Real) -> Real {
    smaller(alpha, Real { bits: STEP_BITS })
}

/// The rung above `cur`.
pub open spec fn next_rung<A: Arithmetic>(ops: A, cur: Real, alpha: Real) -> Real {
    smaller(ops.product(cur, step(alpha)), alpha)
}

/// The rungs from `cur` on: each is the one before times the step, never beyond `alpha`, up to
/// the first that is not below `alpha`.
pub open spec fn rungs<A: Arithmetic>(ops: A, cur: Real, alpha: Real) -> Seq<Real>
    decreases alpha.rank() - cur.rank(),
{
    let next = next_rung(ops, cur, alpha);
    if cur.lt(alpha) && cur.lt(next) {
        seq![cur] + rungs(ops, next, alpha)
    } else {
        seq![cur]
    }
}

/// The thresholds from one up to `alpha`.
pub open spec fn ladder<A: Arithmetic>(ops: A, alpha: Real) -> Seq<Real> {
    rungs(ops, Real::spec_one(), alpha)
}

/// Multiplying a number from one on by the step makes it larger.
pub open spec fn grows<A: Arithmetic>(ops: A, alpha: Real) -> bool {
    forall|x: Real, r: Real|
        Real::spec_one().le(x) && x.lt(alpha) && #[trigger] ops.gives_product(x, step(alpha), r)
            ==> x.lt(r)
}

/// Thresholds that start at one, ascend strictly and end at `alpha`; where `alpha` is below one,
/// one is the only threshold.
pub open spec fn rising(thresholds: Seq<Real>, alpha: Real) -> bool {
    &&& thresholds.len() > 0
    &&& thresholds[0] == Real::spec_one()
    &&& forall|i: int, j: int|
        0 <= i < j < thresholds.len() ==> (#[trigger] thresholds[i]).lt(#[trigger] thresholds[j])
    &&& if Real::spec_one().le(alpha) {
        thresholds.last().rank() == alpha.rank()
    } else {
        thresholds.len() == 1
    }
}

/// The threshold is a number, and the ladder up to it ends.
pub open spec fn climbable<A: Arithmetic>(ops: A, alpha: Real) -> bool {
    !alpha.nan() && ops.ready() && grows(ops, alpha)
}

/// The smaller of two numbers.
pub fn min_of(a: Real, b: Real) -> (r: Real)
    ensures
        r == smaller(a, b),
{
    if b.is_less(a) {
        b
    } else {
        a
    }
}

/// Thresholds from one up to `alpha`.
pub fn alpha_ladder<A: Arithmetic>(ops: &A, alpha: Real) -> (out: Vec<Real>)
    requires
        climbable(*ops, alpha),
    ensures
        out@ == ladder(*ops, alpha),
        rising(out@, alpha),
{
    let increment = min_of(alpha, Real::from_bits(STEP_BITS));
    let mut cur = Real::one();
    let mut out: Vec<Real> = Vec::new();
    while cur.is_less(alpha)
        invariant
            climbable(*ops, alpha),
            Real::spec_one().le(cur),
            increment == step(alpha),
            out@ + rungs(*ops, cur, alpha) == ladder(*ops, alpha),
            out@.len() == 0 ==> cur == Real::spec_one(),
            out@.len() > 0 ==> out@[0] == Real::spec_one() && cur.le(alpha),
            forall|i: int| 0 <= i < out@.len() ==> (#[trigger] out@[i]).lt(cur),
            forall|i: int, j: int|
                0 <= i < j < out@.len() ==> (#[trigger] out@[i]).lt(#[trigger] out@[j]),
        decreases alpha.rank() - cur.rank(),
    {
        let ghost prev = out@;
        let ghost here = cur;
        out.push(cur);
        cur = min_of(ops.times(cur, increment), alpha);
        proof {
            assert(out@ + rungs(*ops, cur, alpha) =~= prev + rungs(*ops, here, alpha));
        }
    }
    let ghost prev = out@;
    out.push(cur);
    proof {
        assert(out@ =~= prev + rungs(*ops, cur, alpha));
    }
    out
}

/// The product of a number from one on with the step is larger than the number.
pub open spec fn products_grow<A: Arithmetic>(ops: A, alpha: Real) -> bool {
    forall|x: Real|
        Real::spec_one().le(x) && x.lt(alpha) ==> x.lt(#[trigger] ops.product(x, step(alpha)))
}

proof fn rungs_ascend<A: Arithmetic>(ops: A, cur: Real, alpha: Real)
    requires
        Real::spec_one().le(cur),
        cur.le(alpha),
        products_grow(ops, alpha),
    ensures
        rungs(ops, cur, alpha).len() > 0,
        rungs(ops, cur, alpha)[0] == cur,
        rungs(ops, cur, alpha).last().rank() == alpha.rank(),
        forall|i: int|
            0 <= i < rungs(ops, cur, alpha).len() ==> cur.le(#[trigger] rungs(ops, cur, alpha)[i]),
        forall|i: int, j: int|
            0 <= i < j < rungs(ops, cur, alpha).len() ==> (#[trigger] rungs(ops, cur, alpha)[i]).lt(
                #[trigger] rungs(ops, cur, alpha)[j],
            ),
    decreases alpha.rank() - cur.rank(),
{
    let next = next_rung(ops, cur, alpha);
    let all = rungs(ops, cur, alpha);
    if cur.lt(alpha) {
        rungs_ascend(ops, next, alpha);
        let rest = rungs(ops, next, alpha);
        assert forall|i: int| 1 <= i < all.len() implies #[trigger] all[i] == rest[i - 1] by {}
        assert(all.last() == rest.last());
        assert forall|i: int| 0 <= i < all.len() implies cur.le(#[trigger] all[i]) by {
            if i > 0 {
                assert(next.le(rest[i - 1]));
            }
        }
        assert forall|i: int, j: int| 0 <= i < j < all.len() implies (#[trigger] all[i]).lt(
            #[trigger] all[j],
        ) by {
            assert(next.le(rest[j - 1]));
            if i > 0 {
                assert(rest[i - 1].lt(rest[j - 1]));
            }
        }
    }
}

/// Where products grow, the ladder starts at one, ascends strictly and ends at the threshold.
pub proof fn ladder_rises<A: Arithmetic>(ops: A, alpha: Real)
    requires
        products_grow(ops, alpha),
    ensures
        rising(ladder(ops, alpha), alpha),
{
    if Real::spec_one().le(alpha) {
        rungs_ascend(ops, Real::spec_one(), alpha);
    }
}

/// Every threshold but the first is the one before times the smaller of six fifths and `alpha`, or
/// `alpha` where that is exceeded. The ladder ends where a threshold is not below `alpha`, or the
/// next would not be larger.
pub proof fn thresholds_multiply<A: Arithmetic>(ops: A, alpha: Real, i: int)
    requires
        0 <= i < ladder(ops, alpha).len(),
    ensures
        ladder(ops, alpha)[0] == Real::spec_one(),
        ({
            let steps = ladder(ops, alpha);
            let factor = if (Real { bits: 0x3f99_999a }).lt(alpha) {
                Real { bits: 0x3f99_999a }
            } else {
                alpha
            };
            let times = ops.product(steps[i], factor);
            let next = if alpha.lt(times) {
                alpha
            } else {
                times
            };
            if i + 1 < steps.len() {
                steps[i].lt(alpha) && steps[i].lt(next) && steps[i + 1] == next
            } else {
                !(steps[i].lt(alpha) && steps[i].lt(next))
            }
        }),
{
    rungs_multiply(ops, Real::spec_one(), alpha, i);
}

proof fn rungs_multiply<A: Arithmetic>(ops: A, cur: Real, alpha: Real, i: int)
    requires
        0 <= i < rungs(ops, cur, alpha).len(),
    ensures
        rungs(ops, cur, alpha)[0] == cur,
        ({
            let steps = rungs(ops, cur, alpha);
            let next = next_rung(ops, steps[i], alpha);
            if i + 1 < steps.len() {
                steps[i].lt(alpha) && steps[i].lt(next) && steps[i + 1] == next
            } else {
                !(steps[i].lt(alpha) && steps[i].lt(next))
            }
        }),
    decreases i,
{
    let next = next_rung(ops, cur, alpha);
    if cur.lt(alpha) && cur.lt(next) {
        let rest = rungs(ops, next, alpha);
        assert(rest.len() > 0);
        assert(rest[0] == next);
        if i > 0 {
            rungs_multiply(ops, next, alpha, i - 1);
            assert(rungs(ops, cur, alpha)[i] == rest[i - 1]);
        }
    }
}

/// No threshold of a ladder that rises is negative or undefined.
pub proof fn rising_valid(thresholds: Seq<Real>, alpha: Real)
    requires
        rising(thresholds, alpha),
    ensures
        forall|i: int|
            0 <= i < thresholds.len() ==> Real::spec_zero().le(#[trigger] thresholds[i]),
{
    assert forall|i: int| 0 <= i < thresholds.len() implies Real::spec_zero().le(
        #[trigger] thresholds[i],
    ) by {
        if i > 0 {
            assert(thresholds[0].lt(thresholds[i]));
        }
    }
}

} // verus!
