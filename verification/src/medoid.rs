//! The start point of search: the sampled point nearest to the centroid of the sample.

use crate::arith::Arithmetic;
use crate::gemm::{row_slice, squared_l2, squared_l2_of};
use crate::measure::row;
use crate::number::{count_bits, from_count, Real};
use rand::prelude::IndexedRandom;
use rand::rngs::StdRng;
use rand::SeedableRng;
use vstd::prelude::*;

verus! {

/// Most points that are sampled.
pub const MEDOID_SAMPLES: usize = 100_000;

/// Seed of the sample.
pub const MEDOID_SEED: u64 = 42;

/// What `IndexedRandom::choose_multiple` picks from a list with a standard generator that was
/// seeded by `SeedableRng::seed_from_u64`.
pub uninterp spec fn picked(all: Seq<usize>, seed: u64, amount: usize) -> Seq<usize>;

/// Picks `amount` elements of a list (all, if there are fewer) with `rand`'s
/// `IndexedRandom::choose_multiple`, driven by `StdRng::seed_from_u64`. The contract claims that
/// the outcome depends on the list, the seed and the amount alone, that it has the right length,
/// that every element comes from the list, and that none comes twice if the list has none twice.
/// Which elements are picked, and in what order, is left open. Of a list that 32 bits cannot count
/// fewer than all have to be asked for.
#[verifier::external_body]
fn choose_multiple(all: &Vec<usize>, seed: u64, amount: usize) -> (r: Vec<usize>)
    requires
        all@.len() <= u32::MAX || amount < all@.len(),
    ensures
        r@ == picked(all@, seed, amount),
        r@.len() == if amount < all@.len() { amount as nat } else { all@.len() },
        forall|i: int| 0 <= i < r@.len() ==> all@.contains(#[trigger] r@[i]),
        all@.no_duplicates() ==> r@.no_duplicates(),
{
    let mut rng = StdRng::seed_from_u64(seed);
    all.choose_multiple(&mut rng, amount).copied().collect()
}

/// Component `d` of the sum of the first `m` sampled points.
pub open spec fn sum_upto<A: Arithmetic>(
    ops: A,
    data: Seq<Real>,
    ndims: int,
    samples: Seq<usize>,
    m: int,
    d: int,
) -> Real
    decreases m,
{
    if m <= 0 {
        Real::spec_zero()
    } else {
        ops.sum(
            sum_upto(ops, data, ndims, samples, m - 1, d),
            row(data, ndims, samples[m - 1] as int)[d],
        )
    }
}

/// The centroid of sampled points.
pub open spec fn centroid_of<A: Arithmetic>(
    ops: A,
    data: Seq<Real>,
    ndims: int,
    samples: Seq<usize>,
) -> Seq<Real> {
    let share = ops.quotient(
        Real::spec_one(),
        Real { bits: count_bits(samples.len()) as u32 },
    );
    Seq::new(
        ndims as nat,
        |d: int|
            ops.product(sum_upto(ops, data, ndims, samples, samples.len() as int, d), share),
    )
}

/// The nearest to `target` among the first `m` sampled points, the first of equals, and its
/// distance; the first sample where no distance is below the largest number.
pub open spec fn nearest_upto<A: Arithmetic>(
    ops: A,
    data: Seq<Real>,
    ndims: int,
    samples: Seq<usize>,
    target: Seq<Real>,
    m: int,
) -> (usize, Real)
    decreases m,
{
    if m <= 0 {
        (samples[0], Real::spec_max())
    } else {
        let sofar = nearest_upto(ops, data, ndims, samples, target, m - 1);
        let d = squared_l2_of(ops, row(data, ndims, samples[m - 1] as int), target);
        if d.lt(sofar.1) {
            (samples[m - 1], d)
        } else {
            sofar
        }
    }
}

/// The sampled point nearest to the centroid of the sample.
pub open spec fn medoid_of<A: Arithmetic>(
    ops: A,
    data: Seq<Real>,
    ndims: int,
    samples: Seq<usize>,
) -> usize {
    nearest_upto(
        ops,
        data,
        ndims,
        samples,
        centroid_of(ops, data, ndims, samples),
        samples.len() as int,
    ).0
}

/// No sampled point is nearer to the target than the one that is found.
pub proof fn nearest_is_nearest<A: Arithmetic>(
    ops: A,
    data: Seq<Real>,
    ndims: int,
    samples: Seq<usize>,
    target: Seq<Real>,
    m: int,
)
    requires
        0 <= m <= samples.len(),
        samples.len() > 0,
    ensures
        samples.contains(nearest_upto(ops, data, ndims, samples, target, m).0),
        forall|i: int|
            0 <= i < m ==> !squared_l2_of(
                ops,
                row(data, ndims, #[trigger] samples[i] as int),
                target,
            ).lt(nearest_upto(ops, data, ndims, samples, target, m).1),
        !nearest_upto(ops, data, ndims, samples, target, m).1.nan(),
    decreases m,
{
    if m > 0 {
        nearest_is_nearest(ops, data, ndims, samples, target, m - 1);
        assert(samples.contains(samples[m - 1]));
    } else {
        assert(samples.contains(samples[0]));
    }
}

/// Finds the sampled point nearest to the centroid of the sample.
pub fn nearest_to_centroid<A: Arithmetic>(
    ops: &A,
    data: &[Real],
    npoints: usize,
    ndims: usize,
    samples: &Vec<usize>,
) -> (r: usize)
    requires
        ops.ready(),
        npoints * ndims <= data@.len(),
        0 < samples@.len() <= u32::MAX,
        forall|i: int| 0 <= i < samples@.len() ==> #[trigger] samples@[i] < npoints,
    ensures
        r == medoid_of(*ops, data@, ndims as int, samples@),
        samples@.contains(r),
{
    let n: usize = samples.len();
    let mut centroid: Vec<Real> = vec![Real::zero(); ndims];
    let mut i: usize = 0;
    while i < n
        invariant
            i <= n == samples@.len(),
            ops.ready(),
            npoints * ndims <= data@.len(),
            forall|i: int| 0 <= i < samples@.len() ==> #[trigger] samples@[i] < npoints,
            centroid@.len() == ndims,
            forall|d: int|
                0 <= d < ndims ==> #[trigger] centroid@[d] == sum_upto(
                    *ops,
                    data@,
                    ndims as int,
                    samples@,
                    i as int,
                    d,
                ),
        decreases n - i,
    {
        assert(samples@[i as int] < npoints);
        let point = row_slice(data, ndims, samples[i], Ghost(npoints as int));
        let ghost prior = centroid@;
        let mut d: usize = 0;
        while d < ndims
            invariant
                i < n == samples@.len(),
                d <= ndims,
                ops.ready(),
                point@ == row(data@, ndims as int, samples@[i as int] as int),
                point@.len() == ndims,
                centroid@.len() == ndims,
                prior.len() == ndims,
                forall|x: int|
                    0 <= x < ndims ==> #[trigger] prior[x] == sum_upto(
                        *ops,
                        data@,
                        ndims as int,
                        samples@,
                        i as int,
                        x,
                    ),
                forall|x: int| d <= x < ndims ==> #[trigger] centroid@[x] == prior[x],
                forall|x: int|
                    0 <= x < d ==> #[trigger] centroid@[x] == sum_upto(
                        *ops,
                        data@,
                        ndims as int,
                        samples@,
                        i + 1,
                        x,
                    ),
            decreases ndims - d,
        {
            assert(centroid@[d as int] == prior[d as int]);
            let s = ops.plus(centroid[d], point[d]);
            centroid.set(d, s);
            d += 1;
        }
        i += 1;
    }
    let share = ops.over(Real::one(), from_count(n as u32));
    let ghost sums = centroid@;
    let mut d: usize = 0;
    while d < ndims
        invariant
            d <= ndims,
            ops.ready(),
            centroid@.len() == ndims,
            sums.len() == ndims,
            forall|x: int| d <= x < ndims ==> #[trigger] centroid@[x] == sums[x],
            forall|x: int| 0 <= x < d ==> #[trigger] centroid@[x] == ops.product(sums[x], share),
        decreases ndims - d,
    {
        assert(centroid@[d as int] == sums[d as int]);
        let c = ops.times(centroid[d], share);
        centroid.set(d, c);
        d += 1;
    }
    assert(centroid@ =~= centroid_of(*ops, data@, ndims as int, samples@));
    let mut best: usize = samples[0];
    let mut best_dist = Real::max_finite();
    let mut i: usize = 0;
    while i < n
        invariant
            i <= n == samples@.len(),
            ops.ready(),
            npoints * ndims <= data@.len(),
            forall|i: int| 0 <= i < samples@.len() ==> #[trigger] samples@[i] < npoints,
            centroid@.len() == ndims,
            (best, best_dist) == nearest_upto(
                *ops,
                data@,
                ndims as int,
                samples@,
                centroid@,
                i as int,
            ),
        decreases n - i,
    {
        assert(samples@[i as int] < npoints);
        let point = row_slice(data, ndims, samples[i], Ghost(npoints as int));
        let dist = squared_l2(ops, point, centroid.as_slice());
        if dist.is_less(best_dist) {
            best_dist = dist;
            best = samples[i];
        }
        i += 1;
    }
    proof {
        nearest_is_nearest(*ops, data@, ndims as int, samples@, centroid@, n as int);
    }
    best
}

/// All points of a data set.
pub open spec fn all_points(npoints: usize) -> Seq<usize> {
    Seq::new(npoints as nat, |i: int| i as usize)
}

/// The points that are sampled from a data set.
pub open spec fn sampled_points(npoints: usize) -> Seq<usize> {
    picked(
        all_points(npoints),
        MEDOID_SEED,
        if npoints < MEDOID_SAMPLES {
            npoints
        } else {
            MEDOID_SAMPLES
        },
    )
}

/// Finds the start point of search, from a sample of the data set.
pub fn find_medoid<A: Arithmetic>(ops: &A, data: &[Real], npoints: usize, ndims: usize) -> (r:
    usize)
    requires
        ops.ready(),
        0 < npoints,
        npoints * ndims <= data@.len(),
    ensures
        r < npoints,
        r == medoid_of(*ops, data@, ndims as int, sampled_points(npoints)),
{
    let sample_size: usize = if npoints < MEDOID_SAMPLES {
        npoints
    } else {
        MEDOID_SAMPLES
    };
    let mut all: Vec<usize> = Vec::with_capacity(npoints);
    let mut i: usize = 0;
    while i < npoints
        invariant
            i <= npoints,
            all@.len() == i,
            forall|j: int| 0 <= j < i ==> #[trigger] all@[j] == j,
        decreases npoints - i,
    {
        all.push(i);
        i += 1;
    }
    assert(all@ =~= all_points(npoints));
    let samples = choose_multiple(&all, MEDOID_SEED, sample_size);
    proof {
        assert forall|i: int| 0 <= i < samples@.len() implies #[trigger] samples@[i] < npoints by {
            assert(all@.contains(samples@[i]));
        }
    }
    nearest_to_centroid(ops, data, npoints, ndims, &samples)
}

} // verus!
