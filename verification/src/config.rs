//! Settings of a graph build and their validation.

use crate::metric::Metric;
use crate::number::Real;
use vstd::prelude::*;

verus! {

/// Encoding of the number one in the binary64 format.
pub const WIDE_ONE_BITS: u64 = 0x3ff0_0000_0000_0000;

/// Most hash planes.
pub const MAX_HASH_PLANES: usize = 16;

/// A binary64 number, represented by its encoding.
#[derive(Clone, Copy, Debug, PartialEq, Eq, Structural)]
pub struct WideReal {
    pub bits: u64,
}

impl WideReal {
    /// The number is above zero and at most one.
    pub open spec fn proper_fraction(self) -> bool {
        0 < self.bits <= WIDE_ONE_BITS
    }
}

/// What is wrong with the settings of a build.
#[derive(Clone, Copy, Debug, PartialEq, Eq, Structural)]
pub enum ConfigError {
    /// Leaves would have no points.
    ZeroCMax,
    /// The smallest leaf size is zero.
    ZeroCMin,
    /// The smallest leaf size exceeds the largest.
    CMinAboveCMax { c_min: usize, c_max: usize },
    /// The sampled fraction is not above zero and at most one.
    InvalidFraction(WideReal),
    /// There is no partition level.
    EmptyFanout,
    /// A partition level keeps no leader, or more than can be kept.
    FanoutOutOfRange { fanout: usize, max: usize },
    /// Points would get no neighbours in their leaves.
    ZeroK,
    /// There would be no partition pass.
    ZeroReplicas,
    /// The occlusion threshold is not finite or below one.
    InvalidAlpha(Real),
    /// The prune kind of the graph does not go with the metric.
    IncompatiblePruneKind { prune_kind: PruneKind, metric: Metric },
    /// Points would have no neighbours.
    ZeroMaxDegree,
    /// Reservoirs would hold nothing.
    ZeroLMax,
    /// The number of hash planes is not from one to sixteen.
    HashPlanesOutOfRange(usize),
    /// The metric cannot be built for.
    UnsupportedMetric(Metric),
    /// There are no points, or vectors have no components.
    EmptyDataset,
    /// Quantized builds cannot prune at the end.
    FinalPruneOfQuantized,
}

/// How candidates occlude each other.
#[derive(Clone, Copy, Debug, PartialEq, Eq, Structural)]
pub enum PruneKind {
    /// By the ratio of distances.
    TriangleInequality,
    /// By inner products.
    Occluding,
}

/// The prune kind that goes with a metric.
pub open spec fn kind_for(metric: Metric) -> PruneKind {
    match metric {
        Metric::InnerProduct => PruneKind::Occluding,
        _ => PruneKind::TriangleInequality,
    }
}

/// Finds the prune kind that goes with a metric.
pub fn prune_kind_for(metric: Metric) -> (r: PruneKind)
    ensures
        r == kind_for(metric),
{
    match metric {
        Metric::InnerProduct => PruneKind::Occluding,
        _ => PruneKind::TriangleInequality,
    }
}

/// Settings of partitioning and of the neighbours inside leaves.
#[derive(Clone, Debug)]
pub struct PiPNNConfig {
    /// Most points in a leaf.
    pub c_max: usize,
    /// Smallest leaf that is not merged with others.
    pub c_min: usize,
    /// Fraction of a cluster that is sampled as leaders.
    pub p_samp: WideReal,
    /// Nearest leaders kept at each partition level.
    pub fanout: Vec<usize>,
    /// Nearest neighbours of a point inside its leaf.
    pub k: usize,
    /// Partition passes over the data set.
    pub replicas: usize,
}

/// The first fan-out that is not from one to `max`, if there is one.
pub open spec fn bad_fanout(fanout: Seq<usize>, max: usize) -> Option<usize>
    decreases fanout.len(),
{
    if fanout.len() == 0 {
        None
    } else if !(1 <= fanout[0] <= max) {
        Some(fanout[0])
    } else {
        bad_fanout(fanout.drop_first(), max)
    }
}

impl PiPNNConfig {
    /// The verdict on the settings, `max_fanout` being the most leaders that a level can keep.
    pub open spec fn verdict(&self, max_fanout: usize) -> Result<(), ConfigError> {
        if self.c_max == 0 {
            Err(ConfigError::ZeroCMax)
        } else if self.c_min == 0 {
            Err(ConfigError::ZeroCMin)
        } else if self.c_min > self.c_max {
            Err(ConfigError::CMinAboveCMax { c_min: self.c_min, c_max: self.c_max })
        } else if !self.p_samp.proper_fraction() {
            Err(ConfigError::InvalidFraction(self.p_samp))
        } else if self.fanout@.len() == 0 {
            Err(ConfigError::EmptyFanout)
        } else {
            match bad_fanout(self.fanout@, max_fanout) {
                Some(fanout) => Err(ConfigError::FanoutOutOfRange { fanout, max: max_fanout }),
                None => if self.k == 0 {
                    Err(ConfigError::ZeroK)
                } else if self.replicas == 0 {
                    Err(ConfigError::ZeroReplicas)
                } else {
                    Ok(())
                },
            }
        }
    }

    /// Checks the settings.
    pub fn validate(&self, max_fanout: usize) -> (r: Result<(), ConfigError>)
        ensures
            r == self.verdict(max_fanout),
    {
        if self.c_max == 0 {
            return Err(ConfigError::ZeroCMax);
        }
        if self.c_min == 0 {
            return Err(ConfigError::ZeroCMin);
        }
        if self.c_min > self.c_max {
            return Err(ConfigError::CMinAboveCMax { c_min: self.c_min, c_max: self.c_max });
        }
        if self.p_samp.bits == 0 || self.p_samp.bits > WIDE_ONE_BITS {
            return Err(ConfigError::InvalidFraction(self.p_samp));
        }
        if self.fanout.len() == 0 {
            return Err(ConfigError::EmptyFanout);
        }
        let mut i: usize = 0;
        assert(self.fanout@.skip(0) =~= self.fanout@);
        while i < self.fanout.len()
            invariant
                i <= self.fanout@.len(),
                self.c_max != 0,
                self.c_min != 0,
                self.c_min <= self.c_max,
                self.p_samp.proper_fraction(),
                self.fanout@.len() != 0,
                bad_fanout(self.fanout@, max_fanout) == bad_fanout(
                    self.fanout@.skip(i as int),
                    max_fanout,
                ),
            decreases self.fanout@.len() - i,
        {
            let fanout: usize = self.fanout[i];
            proof {
                assert(self.fanout@.skip(i as int)[0] == fanout);
                assert(self.fanout@.skip(i as int).drop_first() =~= self.fanout@.skip(i + 1));
            }
            if fanout < 1 || fanout > max_fanout {
                return Err(ConfigError::FanoutOutOfRange { fanout, max: max_fanout });
            }
            i += 1;
        }
        if self.k == 0 {
            return Err(ConfigError::ZeroK);
        }
        if self.replicas == 0 {
            return Err(ConfigError::ZeroReplicas);
        }
        Ok(())
    }
}

/// Settings are accepted exactly if every one of them is in its range.
pub proof fn accepted_settings(config: PiPNNConfig, max_fanout: usize)
    ensures
        config.verdict(max_fanout) is Ok <==> {
            &&& 1 <= config.c_min <= config.c_max
            &&& config.p_samp.proper_fraction()
            &&& config.fanout@.len() > 0
            &&& forall|i: int|
                0 <= i < config.fanout@.len() ==> 1 <= #[trigger] config.fanout@[i] <= max_fanout
            &&& config.k > 0
            &&& config.replicas > 0
        },
{
    fanout_accepted(config.fanout@, max_fanout);
}

proof fn fanout_accepted(fanout: Seq<usize>, max: usize)
    ensures
        bad_fanout(fanout, max) is None <==> forall|i: int|
            0 <= i < fanout.len() ==> 1 <= #[trigger] fanout[i] <= max,
    decreases fanout.len(),
{
    if fanout.len() > 0 {
        let rest = fanout.drop_first();
        fanout_accepted(rest, max);
        assert forall|i: int| 0 <= i < rest.len() implies #[trigger] rest[i] == fanout[i + 1] by {}
        if forall|i: int| 0 <= i < rest.len() ==> 1 <= #[trigger] rest[i] <= max {
            assert forall|i: int| 1 <= i < fanout.len() implies 1 <= #[trigger] fanout[i] <= max by {
                assert(fanout[i] == rest[i - 1]);
            }
        } else {
            let i = choose|i: int| 0 <= i < rest.len() && !(1 <= #[trigger] rest[i] <= max);
            assert(fanout[i + 1] == rest[i]);
        }
    }
}

/// The verdict on an occlusion threshold: it has to be finite and at least one.
pub open spec fn alpha_verdict(alpha: Real) -> Result<(), ConfigError> {
    if alpha.finite() && Real::spec_one().le(alpha) {
        Ok(())
    } else {
        Err(ConfigError::InvalidAlpha(alpha))
    }
}

fn check_alpha(alpha: Real) -> (r: Result<(), ConfigError>)
    ensures
        r == alpha_verdict(alpha),
{
    if alpha.is_finite() && Real::one().is_at_most(alpha) {
        Ok(())
    } else {
        Err(ConfigError::InvalidAlpha(alpha))
    }
}

/// Validated settings of a build together with the graph policy that they go with.
#[derive(Clone, Debug)]
pub struct PiPNNBuildContext {
    pub config: PiPNNConfig,
    pub alpha: Real,
    pub prune_kind: PruneKind,
    pub metric: Metric,
}

impl PiPNNBuildContext {
    /// The verdict on settings and graph policy together.
    pub open spec fn verdict(
        config: PiPNNConfig,
        max_fanout: usize,
        alpha: Real,
        prune_kind: PruneKind,
        metric: Metric,
    ) -> Result<(), ConfigError> {
        match config.verdict(max_fanout) {
            Err(e) => Err(e),
            Ok(_) => match alpha_verdict(alpha) {
                Err(e) => Err(e),
                Ok(_) => if prune_kind != kind_for(metric) {
                    Err(ConfigError::IncompatiblePruneKind { prune_kind, metric })
                } else {
                    Ok(())
                },
            },
        }
    }

    /// Checks settings and graph policy and combines them.
    pub fn new(
        config: PiPNNConfig,
        max_fanout: usize,
        alpha: Real,
        prune_kind: PruneKind,
        metric: Metric,
    ) -> (r: Result<Self, ConfigError>)
        ensures
            match PiPNNBuildContext::verdict(config, max_fanout, alpha, prune_kind, metric) {
                Err(e) => r == Err::<Self, ConfigError>(e),
                Ok(_) => r == Ok::<Self, ConfigError>(
                    PiPNNBuildContext { config, alpha, prune_kind, metric },
                ),
            },
    {
        match config.validate(max_fanout) {
            Err(e) => {
                return Err(e);
            },
            Ok(_) => {},
        }
        match check_alpha(alpha) {
            Err(e) => {
                return Err(e);
            },
            Ok(_) => {},
        }
        if prune_kind != prune_kind_for(metric) {
            return Err(ConfigError::IncompatiblePruneKind { prune_kind, metric });
        }
        Ok(PiPNNBuildContext { config, alpha, prune_kind, metric })
    }
}

/// How the candidates of a leaf are chosen.
#[derive(Clone, Copy, Debug, PartialEq, Eq, Structural)]
pub enum LeafPruneMode {
    /// Nearest neighbours in both directions, merged through hash buckets.
    Baseline,
    /// Nearest neighbours in both directions.
    KnnBidir,
    /// All pairs, pruned in the leaf.
    RobustNoGemm,
    /// The nearest candidates, pruned in the leaf.
    GemmTopKRobust,
    /// The nearest candidates, not pruned in the leaf.
    GemmTopKNoPrune,
}

/// How the edges of leaves are merged.
#[derive(Clone, Copy, Debug, PartialEq, Eq, Structural)]
pub enum MergeMode {
    /// Through hash buckets.
    HashPrune,
    /// By accumulating candidates and pruning them at the end.
    Accumulate,
}

/// All settings of a build.
#[derive(Clone, Debug)]
pub struct BuildSettings {
    pub config: PiPNNConfig,
    /// Most neighbours of a point.
    pub max_degree: usize,
    /// Most entries of a reservoir.
    pub l_max: usize,
    /// Hyperplanes per sketch.
    pub num_hash_planes: usize,
    pub metric: Metric,
    /// Whether the reservoirs are pruned at the end.
    pub final_prune: bool,
    /// Last occlusion threshold.
    pub alpha: Real,
    /// Whether pruning fills up to the degree.
    pub saturate_after_prune: bool,
    pub leaf_prune_mode: LeafPruneMode,
    pub merge_mode: MergeMode,
    /// Most accumulated candidates of a point; zero for no limit.
    pub merge_l_max: usize,
    /// Most neighbours of a point in a leaf; zero for `max_degree`.
    pub leaf_prune_degree: usize,
}

impl BuildSettings {
    /// The verdict on all settings.
    pub open spec fn verdict(&self, max_fanout: usize) -> Result<(), ConfigError> {
        match self.config.verdict(max_fanout) {
            Err(e) => Err(e),
            Ok(_) => if self.max_degree == 0 {
                Err(ConfigError::ZeroMaxDegree)
            } else if self.l_max == 0 {
                Err(ConfigError::ZeroLMax)
            } else if !(1 <= self.num_hash_planes <= MAX_HASH_PLANES) {
                Err(ConfigError::HashPlanesOutOfRange(self.num_hash_planes))
            } else if self.metric == Metric::InnerProduct {
                Err(ConfigError::UnsupportedMetric(self.metric))
            } else {
                alpha_verdict(self.alpha)
            },
        }
    }

    /// Checks all settings.
    pub fn validate(&self, max_fanout: usize) -> (r: Result<(), ConfigError>)
        ensures
            r == self.verdict(max_fanout),
    {
        match self.config.validate(max_fanout) {
            Err(e) => {
                return Err(e);
            },
            Ok(_) => {},
        }
        if self.max_degree == 0 {
            return Err(ConfigError::ZeroMaxDegree);
        }
        if self.l_max == 0 {
            return Err(ConfigError::ZeroLMax);
        }
        if self.num_hash_planes < 1 || self.num_hash_planes > MAX_HASH_PLANES {
            return Err(ConfigError::HashPlanesOutOfRange(self.num_hash_planes));
        }
        if self.metric == Metric::InnerProduct {
            return Err(ConfigError::UnsupportedMetric(self.metric));
        }
        check_alpha(self.alpha)
    }

    /// Most neighbours of a point in a leaf.
    pub open spec fn leaf_degree(&self) -> usize {
        if self.leaf_prune_degree > 0 {
            self.leaf_prune_degree
        } else {
            self.max_degree
        }
    }

    /// Most neighbours of a point in a leaf.
    pub fn leaf_deg(&self) -> (r: usize)
        ensures
            r == self.leaf_degree(),
    {
        if self.leaf_prune_degree > 0 {
            self.leaf_prune_degree
        } else {
            self.max_degree
        }
    }

    /// Whether a threshold is climbed to at any point: in the leaves, at the end, or where
    /// candidates are accumulated.
    pub open spec fn prunes(&self) -> bool {
        ||| self.leaf_prune_mode == LeafPruneMode::RobustNoGemm
        ||| self.leaf_prune_mode == LeafPruneMode::GemmTopKRobust
        ||| self.accumulates(false)
        ||| self.final_prune
    }

    /// Whether candidates are accumulated and pruned at the end instead of merged through hash
    /// buckets. Quantized data always goes through hash buckets.
    pub open spec fn accumulates(&self, quantized: bool) -> bool {
        self.leaf_prune_mode != LeafPruneMode::Baseline && self.merge_mode == MergeMode::Accumulate
            && !quantized
    }

    /// Decides how edges are merged.
    pub fn uses_accumulation(&self, quantized: bool) -> (r: bool)
        ensures
            r == self.accumulates(quantized),
    {
        self.leaf_prune_mode != LeafPruneMode::Baseline && self.merge_mode == MergeMode::Accumulate
            && !quantized
    }
}

/// What is wrong with the input of a build.
#[derive(Clone, Copy, Debug, PartialEq, Eq, Structural)]
pub enum PiPNNError {
    /// The settings.
    Config(ConfigError),
    /// The data set does not have the length of its shape.
    DataLengthMismatch { expected: usize, actual: usize, npoints: usize, ndims: usize },
    /// The quantizer was trained for vectors of another length.
    DimensionMismatch { expected: usize, actual: usize },
}

/// The entry points of a build, which check their input in different orders.
#[derive(Clone, Copy, Debug, PartialEq, Eq, Structural)]
pub enum Entry {
    /// Vectors of numbers: emptiness is checked before the length.
    Plain,
    /// Vectors of any type: the length is checked before emptiness.
    Typed,
}

/// The verdict on a data set of `len` numbers declared as `npoints` vectors of length `ndims`.
pub open spec fn data_verdict(entry: Entry, len: int, npoints: int, ndims: int) -> Result<
    (),
    PiPNNError,
> {
    let empty = npoints == 0 || ndims == 0;
    let mismatch = PiPNNError::DataLengthMismatch {
        expected: (npoints * ndims) as usize,
        actual: len as usize,
        npoints: npoints as usize,
        ndims: ndims as usize,
    };
    if entry == Entry::Plain && empty {
        Err(PiPNNError::Config(ConfigError::EmptyDataset))
    } else if len != npoints * ndims {
        Err(mismatch)
    } else if empty {
        Err(PiPNNError::Config(ConfigError::EmptyDataset))
    } else {
        Ok(())
    }
}

/// Checks settings and data set of a build.
pub fn check_build(
    entry: Entry,
    settings: &BuildSettings,
    max_fanout: usize,
    len: usize,
    npoints: usize,
    ndims: usize,
) -> (r: Result<(), PiPNNError>)
    requires
        npoints * ndims <= usize::MAX,
    ensures
        r == match settings.verdict(max_fanout) {
            Err(e) => Err(PiPNNError::Config(e)),
            Ok(_) => data_verdict(entry, len as int, npoints as int, ndims as int),
        },
{
    match settings.validate(max_fanout) {
        Err(e) => {
            return Err(PiPNNError::Config(e));
        },
        Ok(_) => {},
    }
    let empty = npoints == 0 || ndims == 0;
    if entry == Entry::Plain && empty {
        return Err(PiPNNError::Config(ConfigError::EmptyDataset));
    }
    let expected: usize = npoints * ndims;
    if len != expected {
        return Err(PiPNNError::DataLengthMismatch { expected, actual: len, npoints, ndims });
    }
    if empty {
        return Err(PiPNNError::Config(ConfigError::EmptyDataset));
    }
    Ok(())
}

/// The verdict on settings, data set and quantizer of a build that quantizes its data set.
pub open spec fn sq_verdict(
    settings: BuildSettings,
    max_fanout: usize,
    len: int,
    npoints: int,
    ndims: int,
    shift: usize,
) -> Result<(), PiPNNError> {
    match settings.verdict(max_fanout) {
        Err(e) => Err(PiPNNError::Config(e)),
        Ok(_) => match data_verdict(Entry::Typed, len, npoints, ndims) {
            Err(e) => Err(e),
            Ok(_) => if settings.final_prune {
                Err(PiPNNError::Config(ConfigError::FinalPruneOfQuantized))
            } else if shift != ndims {
                Err(PiPNNError::DimensionMismatch { expected: ndims as usize, actual: shift })
            } else {
                Ok(())
            },
        },
    }
}

/// Checks settings, data set and quantizer of a build that quantizes its data set. `shift` is the
/// number of components that the quantizer was trained for.
pub fn check_build_with_sq(
    settings: &BuildSettings,
    max_fanout: usize,
    len: usize,
    npoints: usize,
    ndims: usize,
    shift: usize,
) -> (r: Result<(), PiPNNError>)
    requires
        npoints * ndims <= usize::MAX,
    ensures
        r == sq_verdict(
            *settings,
            max_fanout,
            len as int,
            npoints as int,
            ndims as int,
            shift,
        ),
{
    match check_build(Entry::Typed, settings, max_fanout, len, npoints, ndims) {
        Err(e) => {
            return Err(e);
        },
        Ok(_) => {},
    }
    if settings.final_prune {
        return Err(PiPNNError::Config(ConfigError::FinalPruneOfQuantized));
    }
    if shift != ndims {
        return Err(PiPNNError::DimensionMismatch { expected: ndims, actual: shift });
    }
    Ok(())
}

/// The verdict on settings and shape of a build from quantized data, which has `qpoints` vectors
/// of `qdims` components.
pub open spec fn quantized_verdict(
    settings: BuildSettings,
    max_fanout: usize,
    npoints: int,
    ndims: int,
    qpoints: int,
    qdims: int,
) -> Result<(), PiPNNError> {
    match settings.verdict(max_fanout) {
        Err(e) => Err(PiPNNError::Config(e)),
        Ok(_) => if npoints == 0 || ndims == 0 {
            Err(PiPNNError::Config(ConfigError::EmptyDataset))
        } else if settings.final_prune {
            Err(PiPNNError::Config(ConfigError::FinalPruneOfQuantized))
        } else if qpoints != npoints || qdims != ndims {
            Err(
                PiPNNError::DataLengthMismatch {
                    expected: (npoints * ndims) as usize,
                    actual: (qpoints * qdims) as usize,
                    npoints: npoints as usize,
                    ndims: ndims as usize,
                },
            )
        } else {
            Ok(())
        },
    }
}

/// Checks settings and shape of a build from quantized data.
pub fn check_build_from_quantized(
    settings: &BuildSettings,
    max_fanout: usize,
    npoints: usize,
    ndims: usize,
    qpoints: usize,
    qdims: usize,
) -> (r: Result<(), PiPNNError>)
    requires
        npoints * ndims <= usize::MAX,
        qpoints * qdims <= usize::MAX,
    ensures
        r == quantized_verdict(
            *settings,
            max_fanout,
            npoints as int,
            ndims as int,
            qpoints as int,
            qdims as int,
        ),
{
    match settings.validate(max_fanout) {
        Err(e) => {
            return Err(PiPNNError::Config(e));
        },
        Ok(_) => {},
    }
    if npoints == 0 || ndims == 0 {
        return Err(PiPNNError::Config(ConfigError::EmptyDataset));
    }
    if settings.final_prune {
        return Err(PiPNNError::Config(ConfigError::FinalPruneOfQuantized));
    }
    if qpoints != npoints || qdims != ndims {
        return Err(
            PiPNNError::DataLengthMismatch {
                expected: npoints * ndims,
                actual: qpoints * qdims,
                npoints,
                ndims,
            },
        );
    }
    Ok(())
}

} // verus!
