//! Which settings and data sets are turned away, and for which reason.

use crate::arith::Arithmetic;
use crate::config::{
    alpha_verdict, bad_fanout, data_verdict, quantized_verdict, sq_verdict, BuildSettings,
    ConfigError, Entry, LeafPruneMode, MergeMode, PiPNNBuildContext, PiPNNConfig, PiPNNError,
    PruneKind,
};
use crate::ladder::ladder;
use crate::leaf::{matrix_name, output_name, shape_verdict, LeafKernelError};
use crate::metric::Metric;
use crate::number::Real;
use crate::vamana::{prune_result, Policy, RobustPruneError, Rules};
use std::collections::TryReserveError;
use vstd::prelude::*;

verus! {

/// A fan-out is fine if it is at least one and no more than can be kept.
pub open spec fn fanouts_fine(fanout: Seq<usize>, max: usize, m: int) -> bool {
    forall|i: int| 0 <= i < m ==> 1 <= #[trigger] fanout[i] <= max
}

/// The first fan-out that is not fine is named.
pub proof fn first_bad_fanout_named(fanout: Seq<usize>, max: usize, i: int)
    requires
        0 <= i < fanout.len(),
        fanouts_fine(fanout, max, i),
        !(1 <= fanout[i] <= max),
    ensures
        bad_fanout(fanout, max) == Some(fanout[i]),
    decreases fanout.len(),
{
    if i > 0 {
        let rest = fanout.drop_first();
        assert(1 <= fanout[0] <= max);
        assert forall|j: int| 0 <= j < i - 1 implies 1 <= #[trigger] rest[j] <= max by {
            assert(1 <= fanout[j + 1] <= max);
        }
        assert(rest[i - 1] == fanout[i]);
        first_bad_fanout_named(rest, max, i - 1);
    }
}

proof fn no_bad_fanout(fanout: Seq<usize>, max: usize)
    requires
        fanouts_fine(fanout, max, fanout.len() as int),
    ensures
        bad_fanout(fanout, max) is None,
    decreases fanout.len(),
{
    if fanout.len() > 0 {
        let rest = fanout.drop_first();
        assert(1 <= fanout[0] <= max);
        assert forall|j: int| 0 <= j < rest.len() implies 1 <= #[trigger] rest[j] <= max by {
            assert(1 <= fanout[j + 1] <= max);
        }
        no_bad_fanout(rest, max);
    }
}

/// The sizes of leaves and the sampled fraction are in order.
pub open spec fn sizes_fine(c: PiPNNConfig) -> bool {
    &&& 1 <= c.c_min <= c.c_max
    &&& 0 < c.p_samp.bits <= 0x3ff0_0000_0000_0000
}

/// Every reason for which settings are turned away, with exactly the settings that it is given for:
/// the first in this order that holds.
pub proof fn reasons_against_settings(c: PiPNNConfig, max_fanout: usize)
    ensures
        ({
            let v = c.verdict(max_fanout);
            let n = c.fanout@.len() as int;
            let fine = fanouts_fine(c.fanout@, max_fanout, n);
            &&& c.c_max == 0 <==> v == Err::<(), ConfigError>(ConfigError::ZeroCMax)
            &&& c.c_max > 0 && c.c_min == 0 <==> v == Err::<(), ConfigError>(ConfigError::ZeroCMin)
            &&& 0 < c.c_max < c.c_min <==> v == Err::<(), ConfigError>(
                ConfigError::CMinAboveCMax { c_min: c.c_min, c_max: c.c_max },
            )
            &&& 1 <= c.c_min <= c.c_max && !sizes_fine(c) <==> v == Err::<(), ConfigError>(
                ConfigError::InvalidFraction(c.p_samp),
            )
            &&& sizes_fine(c) && n == 0 <==> v == Err::<(), ConfigError>(ConfigError::EmptyFanout)
            &&& sizes_fine(c) && n > 0 && fine && c.k == 0 <==> v == Err::<(), ConfigError>(
                ConfigError::ZeroK,
            )
            &&& sizes_fine(c) && n > 0 && fine && c.k > 0 && c.replicas == 0 <==> v == Err::<
                (),
                ConfigError,
            >(ConfigError::ZeroReplicas)
            &&& sizes_fine(c) && n > 0 && fine && c.k > 0 && c.replicas > 0 <==> v is Ok
            &&& forall|i: int|
                0 <= i < n && sizes_fine(c) && #[trigger] fanouts_fine(c.fanout@, max_fanout, i)
                    && !(1 <= c.fanout@[i] <= max_fanout) ==> v == Err::<(), ConfigError>(
                    ConfigError::FanoutOutOfRange { fanout: c.fanout@[i], max: max_fanout },
                )
        }),
{
    let n = c.fanout@.len() as int;
    if fanouts_fine(c.fanout@, max_fanout, n) {
        no_bad_fanout(c.fanout@, max_fanout);
    } else {
        let i = first_bad(c.fanout@, max_fanout, n);
        first_bad_fanout_named(c.fanout@, max_fanout, i);
    }
    assert forall|i: int|
        0 <= i < n && sizes_fine(c) && #[trigger] fanouts_fine(c.fanout@, max_fanout, i) && !(1
            <= c.fanout@[i] <= max_fanout) implies c.verdict(max_fanout) == Err::<(), ConfigError>(
        ConfigError::FanoutOutOfRange { fanout: c.fanout@[i], max: max_fanout },
    ) by {
        first_bad_fanout_named(c.fanout@, max_fanout, i);
    }
}

proof fn first_bad(fanout: Seq<usize>, max: usize, m: int) -> (i: int)
    requires
        0 <= m <= fanout.len(),
        !fanouts_fine(fanout, max, m),
    ensures
        0 <= i < m,
        fanouts_fine(fanout, max, i),
        !(1 <= fanout[i] <= max),
    decreases m,
{
    if fanouts_fine(fanout, max, m - 1) {
        m - 1
    } else {
        first_bad(fanout, max, m - 1)
    }
}

/// A threshold is fine if it is a finite number from one on.
pub open spec fn alpha_fine(alpha: Real) -> bool {
    0x3f80_0000 <= alpha.bits < 0x7f80_0000
}

/// A threshold is accepted exactly if it is a finite number from one on, and named otherwise.
pub proof fn thresholds_from_one_on(alpha: Real)
    ensures
        alpha_verdict(alpha) == if alpha_fine(alpha) {
            Ok::<(), ConfigError>(())
        } else {
            Err(ConfigError::InvalidAlpha(alpha))
        },
{
}

/// Every reason for which the settings of a build are turned away once its partition settings are
/// accepted.
pub proof fn reasons_against_build(s: BuildSettings, max_fanout: usize)
    ensures
        ({
            let v = s.verdict(max_fanout);
            let planes = 1 <= s.num_hash_planes <= 16;
            let sized = s.max_degree > 0 && s.l_max > 0;
            let served = s.metric != Metric::InnerProduct;
            &&& s.config.verdict(max_fanout) is Err ==> v == s.config.verdict(max_fanout)
            &&& s.config.verdict(max_fanout) is Ok ==> {
                &&& s.max_degree == 0 <==> v == Err::<(), ConfigError>(ConfigError::ZeroMaxDegree)
                &&& s.max_degree > 0 && s.l_max == 0 <==> v == Err::<(), ConfigError>(
                    ConfigError::ZeroLMax,
                )
                &&& sized && !planes <==> v == Err::<(), ConfigError>(
                    ConfigError::HashPlanesOutOfRange(s.num_hash_planes),
                )
                &&& sized && planes && !served <==> v == Err::<(), ConfigError>(
                    ConfigError::UnsupportedMetric(s.metric),
                )
                &&& sized && planes && served && !alpha_fine(s.alpha) <==> v == Err::<
                    (),
                    ConfigError,
                >(ConfigError::InvalidAlpha(s.alpha))
                &&& sized && planes && served && alpha_fine(s.alpha) <==> v is Ok
            }
        }),
{
}

/// Inner products go with the occluding kind of pruning, every other metric with the triangle
/// inequality; another pairing is turned away once settings and threshold are accepted.
pub proof fn kinds_go_with_metrics(
    config: PiPNNConfig,
    max_fanout: usize,
    alpha: Real,
    prune_kind: PruneKind,
    metric: Metric,
)
    ensures
        ({
            let v = PiPNNBuildContext::verdict(config, max_fanout, alpha, prune_kind, metric);
            let pair = (prune_kind == PruneKind::Occluding) == (metric == Metric::InnerProduct);
            &&& config.verdict(max_fanout) is Err ==> v == config.verdict(max_fanout)
            &&& config.verdict(max_fanout) is Ok ==> {
                &&& !alpha_fine(alpha) <==> v == Err::<(), ConfigError>(
                    ConfigError::InvalidAlpha(alpha),
                )
                &&& alpha_fine(alpha) && !pair <==> v == Err::<(), ConfigError>(
                    ConfigError::IncompatiblePruneKind { prune_kind, metric },
                )
                &&& alpha_fine(alpha) && pair <==> v is Ok
            }
        }),
{
}

/// A data set is accepted exactly if it has points and components, and as many numbers as both
/// ask for. An empty one of plain numbers is called empty whatever its length; otherwise the length
/// is looked at first.
pub proof fn reasons_against_data(entry: Entry, len: int, npoints: int, ndims: int)
    requires
        0 <= npoints,
        0 <= ndims,
    ensures
        ({
            let v = data_verdict(entry, len, npoints, ndims);
            let filled = npoints > 0 && ndims > 0;
            &&& filled && len == npoints * ndims <==> v is Ok
            &&& !filled && (entry == Entry::Plain || len == npoints * ndims) <==> v == Err::<
                (),
                PiPNNError,
            >(PiPNNError::Config(ConfigError::EmptyDataset))
            &&& len != npoints * ndims && (filled || entry == Entry::Typed) <==> v == Err::<
                (),
                PiPNNError,
            >(
                PiPNNError::DataLengthMismatch {
                    expected: (npoints * ndims) as usize,
                    actual: len as usize,
                    npoints: npoints as usize,
                    ndims: ndims as usize,
                },
            )
        }),
{
}

/// A build that quantizes its data set is accepted exactly if settings and data set are, nothing
/// is to be pruned at the end, and the quantizer was trained for vectors of the same length.
pub proof fn reasons_against_quantizing(
    settings: BuildSettings,
    max_fanout: usize,
    len: int,
    npoints: int,
    ndims: int,
    shift: usize,
)
    requires
        0 <= npoints,
        0 <= ndims <= usize::MAX,
        settings.verdict(max_fanout) is Ok,
        data_verdict(Entry::Typed, len, npoints, ndims) is Ok,
    ensures
        ({
            let v = sq_verdict(settings, max_fanout, len, npoints, ndims, shift);
            &&& settings.final_prune <==> v == Err::<(), PiPNNError>(
                PiPNNError::Config(ConfigError::FinalPruneOfQuantized),
            )
            &&& !settings.final_prune && shift != ndims <==> v == Err::<(), PiPNNError>(
                PiPNNError::DimensionMismatch { expected: ndims as usize, actual: shift },
            )
            &&& !settings.final_prune && shift == ndims <==> v is Ok
        }),
{
}

/// A build from quantized vectors is accepted exactly if its settings are, there are points and
/// components, nothing is to be pruned at the end, and there are as many vectors of the length
/// declared.
pub proof fn reasons_against_quantized(
    settings: BuildSettings,
    max_fanout: usize,
    npoints: int,
    ndims: int,
    qpoints: int,
    qdims: int,
)
    requires
        0 <= npoints,
        0 <= ndims,
        settings.verdict(max_fanout) is Ok,
    ensures
        ({
            let v = quantized_verdict(settings, max_fanout, npoints, ndims, qpoints, qdims);
            let filled = npoints > 0 && ndims > 0;
            let same = qpoints == npoints && qdims == ndims;
            &&& !filled <==> v == Err::<(), PiPNNError>(
                PiPNNError::Config(ConfigError::EmptyDataset),
            )
            &&& filled && settings.final_prune <==> v == Err::<(), PiPNNError>(
                PiPNNError::Config(ConfigError::FinalPruneOfQuantized),
            )
            &&& filled && !settings.final_prune && same <==> v is Ok
        }),
{
}

/// The degree in a leaf is the one asked for, or that of the graph where none is.
pub proof fn leaf_degree_falls_back(s: BuildSettings)
    ensures
        s.leaf_prune_degree > 0 ==> s.leaf_degree() == s.leaf_prune_degree,
        s.leaf_prune_degree == 0 ==> s.leaf_degree() == s.max_degree,
{
}

/// Candidates are accumulated exactly if that is asked for, the leaves are not in the baseline
/// mode, and the data is not quantized.
pub proof fn accumulation_is_asked_for(s: BuildSettings, quantized: bool)
    ensures
        quantized ==> !s.accumulates(quantized),
        s.leaf_prune_mode == LeafPruneMode::Baseline ==> !s.accumulates(quantized),
        s.merge_mode != MergeMode::Accumulate ==> !s.accumulates(quantized),
        !quantized && s.leaf_prune_mode != LeafPruneMode::Baseline && s.merge_mode
            == MergeMode::Accumulate ==> s.accumulates(quantized),
{
}

/// Every reason for which the shapes of a leaf's dot products and output are turned away, and how
/// many neighbours each row gets otherwise: as many as asked for and there are others.
pub proof fn reasons_against_shapes(points: int, matrix: int, k: int, output: int)
    requires
        0 <= points,
        0 <= k <= usize::MAX,
    ensures
        ({
            let v = shape_verdict(points, matrix, k, output);
            let others = if points == 0 {
                0
            } else {
                points - 1
            };
            let per_row = if k < others {
                k
            } else {
                others
            };
            let counted = points <= u32::MAX;
            let held = counted && points * points <= usize::MAX;
            let square = held && matrix == points * points;
            let room = square && points * per_row <= usize::MAX;
            &&& !counted <==> v == Err::<usize, LeafKernelError>(
                LeafKernelError::TooManyPoints(points as usize),
            )
            &&& counted && !held ==> v == Err::<usize, LeafKernelError>(
                LeafKernelError::ShapeOverflow {
                    buffer: matrix_name(),
                    rows: points as usize,
                    cols: points as usize,
                },
            )
            &&& held && !square ==> v == Err::<usize, LeafKernelError>(
                LeafKernelError::InvalidBufferLength {
                    buffer: matrix_name(),
                    expected: (points * points) as usize,
                    actual: matrix as usize,
                },
            )
            &&& square && !room ==> v == Err::<usize, LeafKernelError>(
                LeafKernelError::ShapeOverflow {
                    buffer: output_name(),
                    rows: points as usize,
                    cols: per_row as usize,
                },
            )
            &&& room && output != points * per_row ==> v == Err::<usize, LeafKernelError>(
                LeafKernelError::InvalidBufferLength {
                    buffer: output_name(),
                    expected: (points * per_row) as usize,
                    actual: output as usize,
                },
            )
            &&& room && output == points * per_row <==> v is Ok
            &&& v is Ok ==> v == Ok::<usize, LeafKernelError>(per_row as usize)
        }),
{
}

/// Every reason for which pruning fails, and what is left of the earlier neighbours: all of them
/// whenever it fails, none where there are no candidates.
pub proof fn reasons_against_pruning<E, O: Arithmetic>(
    rules: Rules<E>,
    policy: Policy,
    ops: O,
    reserved: Result<(), TryReserveError>,
    before: Seq<u32>,
)
    ensures
        ({
            let n = rules.candidates.len();
            let (v, after) = prune_result(rules, policy, ops, reserved, before);
            let fine = alpha_fine(policy.alpha);
            &&& !fine <==> v == Err::<(), RobustPruneError<E>>(
                RobustPruneError::InvalidAlpha(policy.alpha),
            )
            &&& fine && n > 65535 <==> v == Err::<(), RobustPruneError<E>>(
                RobustPruneError::TooManyCandidates { actual: n as usize, max: 65535 },
            )
            &&& fine && n == 0 ==> v is Ok && after.len() == 0
            &&& fine && 0 < n <= 65535 ==> (reserved matches Err(e) ==> v == Err::<
                (),
                RobustPruneError<E>,
            >(RobustPruneError::Allocation(e)))
            &&& v is Err ==> after == before
            &&& fine && 0 < n <= 65535 && reserved is Ok ==> match rules.outcome(
                policy.degree as int,
                ladder(ops, policy.alpha),
                policy.saturate,
            ) {
                Ok(ids) => v is Ok && after == ids,
                Err(e) => v == Err::<(), RobustPruneError<E>>(RobustPruneError::Distance(e)),
            }
        }),
{
}

} // verus!
