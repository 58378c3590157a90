use pipnn::arith::{Arithmetic, Operations};
use pipnn::builder::{
    build, build_from_quantized, build_typed, build_with_sq, replica_seed, sort_leaves, LeafCounts,
    LeafInput, SQParams,
};
use pipnn::config::{
    prune_kind_for, BuildSettings, ConfigError, LeafPruneMode, MergeMode, PiPNNBuildContext,
    PiPNNConfig, PiPNNError, PruneKind, WideReal,
};
use pipnn::graph::PiPNNGraph;
use pipnn::knn::brute_force_knn;
use pipnn::lsh::{clamp_planes, sketch_points, LshState};
use pipnn::medoid::{find_medoid, nearest_to_centroid};
use pipnn::metric::Metric;
use pipnn::number::Real;
use pipnn::quantize::quantize_1bit;
use rand::prelude::IndexedRandom;
use rand::rngs::StdRng;
use rand::{Rng, SeedableRng};
use std::collections::HashSet;

fn coded(x: f32) -> Real {
    Real::from_bits(x.to_bits())
}

fn num(x: Real) -> f32 {
    f32::from_bits(x.to_bits())
}

fn ops() -> impl Arithmetic {
    Operations::new(
        |a: Real, b: Real| coded(num(a) + num(b)),
        |a: Real, b: Real| coded(num(a) - num(b)),
        |a: Real, b: Real| coded(num(a) * num(b)),
        |a: Real, b: Real| coded(num(a) / num(b)),
        |a: Real| coded(num(a).sqrt()),
    )
}

fn reals(xs: &[f32]) -> Vec<Real> {
    xs.iter().map(|&x| coded(x)).collect()
}

fn distance(metric: Metric) -> impl Fn(&[Real], &[Real]) -> Real {
    move |a: &[Real], b: &[Real]| {
        let dot = |x: &[Real], y: &[Real]| -> f32 {
            x.iter().zip(y).map(|(p, q)| num(*p) * num(*q)).sum()
        };
        coded(match metric {
            Metric::L2 => a.iter().zip(b).map(|(x, y)| (num(*x) - num(*y)).powi(2)).sum(),
            Metric::CosineNormalized => 1.0 - dot(a, b),
            Metric::InnerProduct => -dot(a, b),
            Metric::Cosine => 1.0 - dot(a, b) / (dot(a, a).sqrt() * dot(b, b).sqrt()),
        })
    }
}

const MAX_FANOUT: usize = 64;

fn settings() -> BuildSettings {
    BuildSettings {
        config: PiPNNConfig {
            c_max: 1024,
            c_min: 256,
            p_samp: WideReal { bits: 0.005f64.to_bits() },
            fanout: vec![10, 3],
            k: 3,
            replicas: 1,
        },
        max_degree: 64,
        l_max: 128,
        num_hash_planes: 12,
        metric: Metric::L2,
        final_prune: false,
        alpha: coded(1.2),
        saturate_after_prune: false,
        leaf_prune_mode: LeafPruneMode::Baseline,
        merge_mode: MergeMode::HashPrune,
        merge_l_max: 0,
        leaf_prune_degree: 0,
    }
}

fn sized(
    c_max: usize,
    c_min: usize,
    k: usize,
    max_degree: usize,
    replicas: usize,
    l_max: usize,
) -> BuildSettings {
    let mut s = settings();
    s.config.c_max = c_max;
    s.config.c_min = c_min;
    s.config.k = k;
    s.config.replicas = replicas;
    s.max_degree = max_degree;
    s.l_max = l_max;
    s
}

fn generate_random_data(npoints: usize, ndims: usize, seed: u64) -> Vec<f32> {
    let mut rng = StdRng::seed_from_u64(seed);
    (0..npoints * ndims).map(|_| rng.random_range(-1.0f32..1.0f32)).collect()
}

fn normalize(data: &mut [f32], ndims: usize) {
    for row in data.chunks_exact_mut(ndims) {
        let norm: f32 = row.iter().map(|v| v * v).sum::<f32>().sqrt();
        if norm > 0.0 {
            for v in row.iter_mut() {
                *v /= norm;
            }
        }
    }
}

/// Leaves of at most `c_max` points: every point goes to its three nearest leaders.
fn partition(data: &[f32], npoints: usize, ndims: usize, c_max: usize, seed: u64) -> Vec<Vec<u32>> {
    if npoints == 0 {
        return Vec::new();
    }
    if npoints <= c_max {
        return vec![(0..npoints as u32).collect()];
    }
    let mut rng = StdRng::seed_from_u64(seed);
    let all: Vec<usize> = (0..npoints).collect();
    let leaders: Vec<usize> =
        all.choose_multiple(&mut rng, npoints.div_ceil(c_max / 4)).copied().collect();
    let mut clusters: Vec<Vec<u32>> = vec![Vec::new(); leaders.len()];
    for p in 0..npoints {
        let mut by: Vec<(f32, usize)> = leaders
            .iter()
            .enumerate()
            .map(|(l, &x)| {
                let d: f32 = (0..ndims)
                    .map(|j| (data[p * ndims + j] - data[x * ndims + j]).powi(2))
                    .sum();
                (d, l)
            })
            .collect();
        by.sort_by(|a, b| a.partial_cmp(b).unwrap());
        for &(_, l) in by.iter().take(3) {
            clusters[l].push(p as u32);
        }
    }
    let mut leaves: Vec<Vec<u32>> = Vec::new();
    for c in clusters {
        let parts = c.len().div_ceil(c_max).max(1);
        for chunk in c.chunks(c.len().div_ceil(parts).max(1)) {
            leaves.push(chunk.to_vec());
        }
    }
    leaves
}

fn replicas(data: &[f32], npoints: usize, ndims: usize, s: &BuildSettings) -> Vec<Vec<Vec<u32>>> {
    (0..s.config.replicas as u64)
        .map(|r| partition(data, npoints, ndims, s.config.c_max, replica_seed(r)))
        .collect()
}

fn lsh_of(data: &[f32], npoints: usize, ndims: usize, s: &BuildSettings) -> LshState {
    let mut rng = StdRng::seed_from_u64(42);
    let planes: Vec<Real> = (0..clamp_planes(s.num_hash_planes) * ndims)
        .map(|_| coded(rng.random_range(-1.0f32..1.0)))
        .collect();
    sketch_points(&ops(), &reals(data), npoints, ndims, s.num_hash_planes, s.l_max, planes)
}

fn run(
    data: &[f32],
    npoints: usize,
    ndims: usize,
    s: &BuildSettings,
    typed: bool,
) -> Result<(PiPNNGraph, LeafCounts), PiPNNError> {
    let fits = data.len() == npoints * ndims;
    let (parts, lsh) = if fits && npoints > 0 && ndims > 0 {
        (replicas(data, npoints, ndims, s), lsh_of(data, npoints, ndims, s))
    } else {
        (Vec::new(), lsh_of(&[], 0, 1, s))
    };
    let values = reals(data);
    let arithmetic = ops();
    let dist_fn = distance(s.metric);
    let input = LeafInput {
        ops: &arithmetic,
        data: &values,
        npoints,
        ndims,
        settings: s,
        dist_fn: &dist_fn,
        cache_log2: None,
    };
    if typed {
        build_typed(&input, MAX_FANOUT, &parts, lsh)
    } else {
        build(&input, MAX_FANOUT, &parts, lsh)
    }
}

fn graph_of(data: &[f32], npoints: usize, ndims: usize, s: &BuildSettings) -> PiPNNGraph {
    run(data, npoints, ndims, s, false).unwrap().0
}

fn avg_degree(graph: &PiPNNGraph) -> f64 {
    graph.total_degree() as f64 / graph.npoints as f64
}

fn search(graph: &PiPNNGraph, data: &[f32], query: &[f32], k: usize, l: usize) -> Vec<(usize, f32)> {
    graph
        .search(&reals(data), &reals(query), k, l, &distance(graph.metric))
        .into_iter()
        .map(|(i, d)| (i, num(d)))
        .collect()
}

fn exact(data: &[f32], ndims: usize, npoints: usize, query: &[f32], k: usize) -> Vec<usize> {
    brute_force_knn(&ops(), &reals(data), ndims, npoints, &reals(query), k)
        .into_iter()
        .map(|(i, _)| i)
        .collect()
}

#[test]
fn test_build_small() {
    let (npoints, ndims) = (100, 8);
    let data = generate_random_data(npoints, ndims, 42);
    let graph = graph_of(&data, npoints, ndims, &sized(32, 8, 3, 16, 1, 32));
    assert_eq!(graph.npoints, npoints);
    assert!(avg_degree(&graph) > 0.0);
    assert!(graph.num_isolated() < npoints);
}

#[test]
fn test_build_data_length_mismatch() {
    let data = vec![0.0f32; 10];
    let result = run(&data, 5, 3, &settings(), false);
    assert!(result.is_err());
    let err = result.unwrap_err();
    assert!(matches!(err, PiPNNError::DataLengthMismatch { .. }));
    assert_eq!(
        err,
        PiPNNError::DataLengthMismatch { expected: 15, actual: 10, npoints: 5, ndims: 3 }
    );
}

#[test]
fn test_search_basic() {
    let (npoints, ndims) = (200, 8);
    let data = generate_random_data(npoints, ndims, 42);
    let graph = graph_of(&data, npoints, ndims, &sized(64, 16, 4, 32, 2, 64));
    let results = search(&graph, &data, &data[0..ndims], 10, 50);
    assert!(!results.is_empty());
    assert_eq!(results[0].0, 0);
    assert!(results[0].1 < 1e-6);
}

#[test]
fn test_recall() {
    let (npoints, ndims) = (500, 16);
    let data = generate_random_data(npoints, ndims, 42);
    let graph = graph_of(&data, npoints, ndims, &sized(128, 32, 4, 32, 2, 64));
    let k = 10;
    let search_l = 100;
    let num_queries = 20;
    let mut rng = StdRng::seed_from_u64(999);
    let mut total_recall = 0.0;
    for _ in 0..num_queries {
        let query: Vec<f32> = (0..ndims).map(|_| rng.random_range(-1.0f32..1.0f32)).collect();
        let approx = search(&graph, &data, &query, k, search_l);
        let exact_set: HashSet<usize> =
            exact(&data, ndims, npoints, &query, k).into_iter().collect();
        let recall =
            approx.iter().filter(|&&(id, _)| exact_set.contains(&id)).count() as f64 / k as f64;
        total_recall += recall;
    }
    let avg_recall = total_recall / num_queries as f64;
    println!("Average recall@{}: {:.4}", k, avg_recall);
    assert!(avg_recall > 0.2, "recall too low: {:.4}", avg_recall);
}

fn verdict(change: impl Fn(&mut BuildSettings)) -> Result<(), ConfigError> {
    let mut s = settings();
    change(&mut s);
    s.validate(MAX_FANOUT)
}

fn p_samp(x: f64) -> impl Fn(&mut BuildSettings) {
    move |s: &mut BuildSettings| s.config.p_samp = WideReal { bits: x.to_bits() }
}

#[test]
fn test_config_validate() {
    assert!(verdict(|_| {}).is_ok());
    assert!(verdict(|s| s.config.c_max = 0).is_err());
    assert!(verdict(|s| s.config.c_min = 0).is_err());
    assert!(verdict(|s| {
        s.config.c_min = 2048;
        s.config.c_max = 1024;
    })
    .is_err());
    assert!(verdict(p_samp(0.0)).is_err());
    assert!(verdict(p_samp(1.5)).is_err());
    assert!(verdict(|s| s.config.fanout = vec![]).is_err());
    assert!(verdict(|s| s.config.fanout = vec![0]).is_err());
    assert!(verdict(|s| s.num_hash_planes = 0).is_err());
    assert!(verdict(|s| s.num_hash_planes = 17).is_err());
}

#[test]
fn test_config_validate_failures() {
    assert!(verdict(|s| s.max_degree = 0).is_err());
    assert!(verdict(|s| s.config.k = 0).is_err());
    assert!(verdict(|s| s.config.replicas = 0).is_err());
    assert!(verdict(|s| s.l_max = 0).is_err());
    assert!(verdict(p_samp(1.0)).is_ok());
    assert!(verdict(|s| s.num_hash_planes = 1).is_ok());
    assert!(verdict(|s| s.num_hash_planes = 16).is_ok());
}

#[test]
fn every_fault_of_the_settings_is_named() {
    assert_eq!(verdict(|s| s.config.c_max = 0), Err(ConfigError::ZeroCMax));
    assert_eq!(verdict(|s| s.config.c_min = 0), Err(ConfigError::ZeroCMin));
    assert_eq!(
        verdict(|s| s.config.c_min = 2000),
        Err(ConfigError::CMinAboveCMax { c_min: 2000, c_max: 1024 })
    );
    assert_eq!(
        verdict(p_samp(-0.0)),
        Err(ConfigError::InvalidFraction(WideReal { bits: (-0.0f64).to_bits() }))
    );
    assert!(verdict(p_samp(f64::INFINITY)).is_err());
    assert!(verdict(p_samp(f64::MIN_POSITIVE)).is_ok());
    assert_eq!(verdict(|s| s.config.fanout = vec![]), Err(ConfigError::EmptyFanout));
    assert_eq!(
        verdict(|s| s.config.fanout = vec![3, 65, 0]),
        Err(ConfigError::FanoutOutOfRange { fanout: 65, max: 64 })
    );
    assert_eq!(verdict(|s| s.config.k = 0), Err(ConfigError::ZeroK));
    assert_eq!(verdict(|s| s.config.replicas = 0), Err(ConfigError::ZeroReplicas));
    assert_eq!(verdict(|s| s.max_degree = 0), Err(ConfigError::ZeroMaxDegree));
    assert_eq!(verdict(|s| s.l_max = 0), Err(ConfigError::ZeroLMax));
    assert_eq!(
        verdict(|s| s.num_hash_planes = 17),
        Err(ConfigError::HashPlanesOutOfRange(17))
    );
    assert_eq!(
        verdict(|s| s.metric = Metric::InnerProduct),
        Err(ConfigError::UnsupportedMetric(Metric::InnerProduct))
    );
    assert_eq!(
        verdict(|s| s.alpha = coded(0.5)),
        Err(ConfigError::InvalidAlpha(coded(0.5)))
    );
}

#[test]
fn contexts_combine_settings_and_policy() {
    let make = |alpha: f32, kind: PruneKind, metric: Metric| {
        PiPNNBuildContext::new(settings().config, MAX_FANOUT, coded(alpha), kind, metric)
            .map(|c| (num(c.alpha), c.prune_kind, c.metric, c.config.k))
    };
    let triangle = PruneKind::TriangleInequality;
    assert_eq!(make(1.2, triangle, Metric::L2), Ok((1.2, triangle, Metric::L2, 3)));
    assert_eq!(make(0.9, triangle, Metric::L2), Err(ConfigError::InvalidAlpha(coded(0.9))));
    assert_eq!(
        make(1.2, triangle, Metric::InnerProduct),
        Err(ConfigError::IncompatiblePruneKind {
            prune_kind: triangle,
            metric: Metric::InnerProduct
        })
    );
    assert_eq!(prune_kind_for(Metric::InnerProduct), PruneKind::Occluding);
    assert_eq!(prune_kind_for(Metric::Cosine), triangle);
    let mut bad = settings().config;
    bad.k = 0;
    assert!(matches!(
        PiPNNBuildContext::new(bad, MAX_FANOUT, coded(1.2), triangle, Metric::L2),
        Err(ConfigError::ZeroK)
    ));
}

#[test]
fn test_build_cosine() {
    let (npoints, ndims) = (100, 8);
    let mut data = generate_random_data(npoints, ndims, 42);
    normalize(&mut data, ndims);
    let mut s = sized(32, 8, 3, 16, 1, 32);
    s.metric = Metric::Cosine;
    let graph = graph_of(&data, npoints, ndims, &s);
    assert!(matches!(graph.metric, Metric::Cosine));
    assert_eq!(graph.npoints, npoints);
    assert!(avg_degree(&graph) > 0.0);
}

/// A quantizer whose range is the mean of every component, plus and minus one.
fn train_sq_params(data: &[f32], npoints: usize, ndims: usize) -> SQParams {
    let shift = (0..ndims)
        .map(|d| {
            let mean = (0..npoints).map(|i| data[i * ndims + d]).sum::<f32>() / npoints as f32;
            coded(mean - 1.0)
        })
        .collect();
    SQParams { shift, inverse_scale: coded(0.5) }
}

fn run_sq(
    data: &[f32],
    npoints: usize,
    ndims: usize,
    s: &BuildSettings,
    sq: &SQParams,
) -> Result<(PiPNNGraph, LeafCounts), PiPNNError> {
    build_with_sq(
        &ops(),
        &reals(data),
        npoints,
        ndims,
        s,
        MAX_FANOUT,
        sq,
        lsh_of(data, npoints, ndims, s),
        &replicas(data, npoints, ndims, s),
    )
}

#[test]
fn test_build_with_sq() {
    let (npoints, ndims) = (100, 64);
    let data = generate_random_data(npoints, ndims, 42);
    let sq_params = train_sq_params(&data, npoints, ndims);
    let graph = run_sq(&data, npoints, ndims, &sized(32, 8, 3, 16, 1, 32), &sq_params).unwrap().0;
    assert_eq!(graph.npoints, npoints);
    assert!(avg_degree(&graph) > 0.0);
}

#[test]
fn quantized_builds_agree() {
    let (npoints, ndims) = (90, 70);
    let data = generate_random_data(npoints, ndims, 5);
    let s = sized(32, 8, 3, 16, 2, 32);
    let sq = train_sq_params(&data, npoints, ndims);
    let (one, counts) = run_sq(&data, npoints, ndims, &s, &sq).unwrap();
    let q = quantize_1bit(&ops(), &reals(&data), npoints, ndims, &sq.shift, sq.inverse_scale);
    let parts = replicas(&data, npoints, ndims, &s);
    let lsh = || lsh_of(&data, npoints, ndims, &s);
    let go = |s: &BuildSettings, n: usize, d: usize| {
        build_from_quantized(&ops(), s, MAX_FANOUT, &q, n, d, one.medoid, lsh(), &parts)
    };
    let two = go(&s, npoints, ndims).unwrap();
    assert_eq!(one.adjacency, two.0.adjacency);
    assert_eq!(counts.num_leaves as usize, parts.iter().map(Vec::len).sum::<usize>());
    assert_eq!(counts.total_edges, two.1.total_edges);
    assert_eq!(
        go(&s, 91, ndims).unwrap_err(),
        PiPNNError::DataLengthMismatch {
            expected: 91 * 70,
            actual: 90 * 70,
            npoints: 91,
            ndims: 70
        }
    );
    assert_eq!(
        go(&s, 0, ndims).unwrap_err(),
        PiPNNError::Config(ConfigError::EmptyDataset)
    );
    let mut pruning = s.clone();
    pruning.final_prune = true;
    let refused = PiPNNError::Config(ConfigError::FinalPruneOfQuantized);
    assert_eq!(go(&pruning, npoints, ndims).unwrap_err(), refused);
    assert_eq!(run_sq(&data, npoints, ndims, &pruning, &sq).unwrap_err(), refused);
}

#[test]
fn test_build_typed_f32() {
    let (npoints, ndims) = (60, 8);
    let data = generate_random_data(npoints, ndims, 42);
    let s = sized(32, 8, 3, 16, 1, 32);
    let graph_direct = graph_of(&data, npoints, ndims, &s);
    let graph_typed = run(&data, npoints, ndims, &s, true).unwrap().0;
    assert_eq!(graph_direct.npoints, graph_typed.npoints);
    assert_eq!(graph_direct.medoid, graph_typed.medoid);
    assert_eq!(graph_direct.adjacency, graph_typed.adjacency);
}

#[test]
fn test_save_graph_format() {
    let (npoints, ndims) = (50, 8);
    let data = generate_random_data(npoints, ndims, 42);
    let graph = graph_of(&data, npoints, ndims, &sized(32, 8, 3, 16, 1, 32));
    let bytes = graph.save_graph();
    assert!(bytes.len() >= 24, "file too small: {} bytes", bytes.len());
    let file_size = u64::from_le_bytes(bytes[0..8].try_into().unwrap());
    assert_eq!(file_size as usize, bytes.len(), "header file_size mismatch");
    let max_deg = u32::from_le_bytes(bytes[8..12].try_into().unwrap());
    assert_eq!(max_deg as usize, graph.max_degree());
    let start_pt = u32::from_le_bytes(bytes[12..16].try_into().unwrap());
    assert_eq!(start_pt as usize, graph.medoid);
}

#[test]
fn test_medoid_is_valid() {
    let (npoints, ndims) = (100, 8);
    let data = generate_random_data(npoints, ndims, 42);
    let graph = graph_of(&data, npoints, ndims, &sized(32, 8, 3, 16, 1, 32));
    assert!(
        graph.medoid < npoints,
        "medoid {} is out of range [0, {})",
        graph.medoid,
        npoints
    );
}

#[test]
fn test_graph_connectivity() {
    let (npoints, ndims) = (200, 8);
    let data = generate_random_data(npoints, ndims, 42);
    let graph = graph_of(&data, npoints, ndims, &sized(64, 16, 4, 32, 2, 64));
    assert_eq!(
        graph.num_isolated(),
        0,
        "found {} isolated nodes with replicas=2",
        graph.num_isolated()
    );
}

#[test]
fn test_build_zero_npoints() {
    let result = run(&[], 0, 8, &settings(), false);
    assert!(result.is_err(), "npoints=0 should error");
    assert_eq!(result.unwrap_err(), PiPNNError::Config(ConfigError::EmptyDataset));
}

#[test]
fn test_build_zero_ndims() {
    let result = run(&[], 10, 0, &settings(), false);
    assert!(result.is_err(), "ndims=0 should error");
}

#[test]
fn test_build_single_point() {
    let data = vec![1.0f32, 2.0, 3.0, 4.0];
    let graph = graph_of(&data, 1, 4, &sized(32, 1, 3, 16, 1, 32));
    assert_eq!(graph.npoints, 1, "should have 1 point");
    assert_eq!(graph.adjacency[0].len(), 0, "single point should have 0 edges");
}

#[test]
fn test_build_two_points() {
    let data = vec![0.0f32, 0.0, 1.0, 0.0];
    let graph = graph_of(&data, 2, 2, &sized(32, 1, 3, 16, 1, 32));
    assert_eq!(graph.npoints, 2, "should have 2 points");
    let total_edges: usize = graph.adjacency.iter().map(|a| a.len()).sum();
    assert!(total_edges > 0, "two points should have at least one edge between them");
}

#[test]
fn test_build_duplicate_points() {
    let (npoints, ndims) = (20, 4);
    let data = vec![1.0f32; npoints * ndims];
    let graph = graph_of(&data, npoints, ndims, &sized(32, 4, 3, 16, 1, 32));
    assert_eq!(graph.npoints, npoints, "should build successfully with duplicate points");
}

#[test]
fn test_build_very_small_k() {
    let (npoints, ndims) = (50, 4);
    let data = generate_random_data(npoints, ndims, 42);
    let graph = graph_of(&data, npoints, ndims, &sized(32, 8, 1, 16, 1, 32));
    assert_eq!(graph.npoints, npoints, "k=1 should produce valid graph");
    assert!(avg_degree(&graph) > 0.0, "k=1 should still produce some edges");
}

#[test]
fn test_build_k_larger_than_leaf() {
    let (npoints, ndims) = (50, 4);
    let data = generate_random_data(npoints, ndims, 42);
    let graph = graph_of(&data, npoints, ndims, &sized(32, 8, 100, 16, 1, 32));
    assert_eq!(graph.npoints, npoints, "k > c_max should still produce valid graph");
}

#[test]
fn test_search_empty_graph() {
    let graph = PiPNNGraph {
        adjacency: vec![],
        npoints: 0,
        ndims: 4,
        medoid: 0,
        metric: Metric::L2,
    };
    let results = search(&graph, &[], &[1.0f32, 2.0, 3.0, 4.0], 5, 10);
    assert!(results.is_empty(), "search on empty graph should return empty results");
}

#[test]
fn test_search_k_larger_than_npoints() {
    let (npoints, ndims) = (10, 4);
    let data = generate_random_data(npoints, ndims, 42);
    let graph = graph_of(&data, npoints, ndims, &sized(32, 4, 3, 16, 1, 32));
    let results = search(&graph, &data, &data[0..ndims], 100, 200);
    assert!(
        results.len() <= npoints,
        "should not return more results than npoints, got {}",
        results.len()
    );
}

#[test]
fn test_search_with_self_query() {
    let (npoints, ndims) = (100, 8);
    let data = generate_random_data(npoints, ndims, 42);
    let graph = graph_of(&data, npoints, ndims, &sized(64, 16, 4, 32, 2, 64));
    let medoid = graph.medoid;
    let results =
        search(&graph, &data, &data[medoid * ndims..(medoid + 1) * ndims], 5, 50);
    assert!(!results.is_empty(), "search should return at least one result");
    assert_eq!(results[0].0, medoid, "searching with a data point should find itself first");
    assert!(
        results[0].1 < 1e-6,
        "self-distance should be near zero, got {}",
        results[0].1
    );
}

#[test]
fn test_search_different_l_values() {
    let (npoints, ndims) = (300, 8);
    let data = generate_random_data(npoints, ndims, 42);
    let graph = graph_of(&data, npoints, ndims, &sized(64, 16, 4, 32, 2, 64));
    let k = 10;
    let query = &data[0..ndims];
    let exact_set: HashSet<usize> = exact(&data, ndims, npoints, query, k).into_iter().collect();
    let recall = |l: usize| -> f64 {
        search(&graph, &data, query, k, l)
            .iter()
            .filter(|&&(id, _)| exact_set.contains(&id))
            .count() as f64
            / k as f64
    };
    let recall_small = recall(k);
    let recall_large = recall(200);
    assert!(
        recall_large >= recall_small,
        "larger L ({:.4}) should give recall >= smaller L ({:.4})",
        recall_large,
        recall_small
    );
}

#[test]
fn test_build_with_sq_wrong_shift_dims() {
    let (npoints, ndims) = (50, 64);
    let data = generate_random_data(npoints, ndims, 42);
    let sq_params =
        SQParams { shift: reals(&vec![0.0f32; ndims + 5]), inverse_scale: coded(1.0) };
    let result = run_sq(&data, npoints, ndims, &sized(32, 8, 3, 16, 1, 32), &sq_params);
    assert!(result.is_err(), "shift length != ndims should produce an error");
    let err = result.unwrap_err();
    assert!(
        matches!(err, PiPNNError::DimensionMismatch { .. }),
        "should be a DimensionMismatch error"
    );
    assert_eq!(err, PiPNNError::DimensionMismatch { expected: 64, actual: 69 });
}

#[test]
fn test_build_with_sq_produces_connected_graph() {
    let (npoints, ndims) = (100, 64);
    let data = generate_random_data(npoints, ndims, 42);
    let sq_params = train_sq_params(&data, npoints, ndims);
    let graph =
        run_sq(&data, npoints, ndims, &sized(64, 16, 4, 32, 2, 64), &sq_params).unwrap().0;
    assert_eq!(
        graph.num_isolated(),
        0,
        "build_with_sq should produce a connected graph with sufficient replicas, found {} \
         isolated nodes",
        graph.num_isolated()
    );
}

#[test]
fn test_build_typed_data_length_mismatch() {
    let data = vec![1.0f32; 30];
    let result = run(&data, 5, 8, &settings(), true);
    assert!(result.is_err(), "data length mismatch should produce an error");
}

#[test]
fn test_save_graph_single_node() {
    let graph = PiPNNGraph {
        adjacency: vec![vec![]],
        npoints: 1,
        ndims: 4,
        medoid: 0,
        metric: Metric::L2,
    };
    let bytes = graph.save_graph();
    assert!(bytes.len() >= 24, "file too small for single node graph");
    let file_size = u64::from_le_bytes(bytes[0..8].try_into().unwrap());
    assert_eq!(file_size as usize, bytes.len(), "header file_size mismatch for single node");
    let max_deg = u32::from_le_bytes(bytes[8..12].try_into().unwrap());
    assert_eq!(max_deg, 0, "single node with no edges should have max_degree=0");
    let num_neighbors = u32::from_le_bytes(bytes[24..28].try_into().unwrap());
    assert_eq!(num_neighbors, 0, "single node should have 0 neighbors");
}

#[test]
fn test_save_graph_large() {
    let (npoints, ndims) = (1000, 8);
    let data = generate_random_data(npoints, ndims, 42);
    let graph = graph_of(&data, npoints, ndims, &sized(128, 32, 4, 32, 1, 64));
    let bytes = graph.save_graph();
    let file_size = u64::from_le_bytes(bytes[0..8].try_into().unwrap());
    assert_eq!(file_size as usize, bytes.len(), "header file_size mismatch for large graph");
    let mut offset = 24usize;
    let mut total_parsed_nodes = 0usize;
    while offset < bytes.len() {
        let num_neighbors =
            u32::from_le_bytes(bytes[offset..offset + 4].try_into().unwrap()) as usize;
        offset += 4;
        for _ in 0..num_neighbors {
            let neighbor =
                u32::from_le_bytes(bytes[offset..offset + 4].try_into().unwrap()) as usize;
            assert!(
                neighbor < npoints,
                "neighbor index {} out of range for node {}",
                neighbor,
                total_parsed_nodes
            );
            offset += 4;
        }
        total_parsed_nodes += 1;
    }
    assert_eq!(
        total_parsed_nodes,
        npoints + 1,
        "expected to parse {} nodes ({}+1 frozen) but got {}",
        npoints + 1,
        npoints,
        total_parsed_nodes
    );
}

#[test]
fn graph_files_hold_header_nodes_and_frozen_start() {
    let graph = PiPNNGraph {
        adjacency: vec![vec![1, 2], vec![], vec![0]],
        npoints: 3,
        ndims: 4,
        medoid: 2,
        metric: Metric::L2,
    };
    let mut want: Vec<u8> = Vec::new();
    want.extend_from_slice(&56u64.to_le_bytes());
    want.extend_from_slice(&2u32.to_le_bytes());
    want.extend_from_slice(&2u32.to_le_bytes());
    want.extend_from_slice(&1u64.to_le_bytes());
    for word in [2u32, 1, 2, 0, 1, 0, 1, 0] {
        want.extend_from_slice(&word.to_le_bytes());
    }
    assert_eq!(graph.save_graph(), want);
    assert_eq!(graph.neighbors(0), &[1, 2]);
    assert_eq!(graph.total_degree(), 3);
    assert_eq!(graph.max_degree(), 2);
    assert_eq!(graph.num_isolated(), 1);
}

#[test]
fn test_config_c_min_greater_than_c_max() {
    assert!(
        verdict(|s| {
            s.config.c_min = 2048;
            s.config.c_max = 1024;
        })
        .is_err(),
        "c_min > c_max should fail validation"
    );
}

#[test]
fn test_config_empty_fanout() {
    assert!(
        verdict(|s| s.config.fanout = vec![]).is_err(),
        "empty fanout should fail validation"
    );
}

#[test]
fn test_config_zero_fanout_element() {
    assert!(
        verdict(|s| s.config.fanout = vec![5, 0, 2]).is_err(),
        "fanout containing 0 should fail validation"
    );
}

#[test]
fn test_config_p_samp_zero() {
    assert!(verdict(p_samp(0.0)).is_err(), "p_samp=0.0 should fail validation");
}

#[test]
fn test_config_p_samp_negative() {
    assert!(verdict(p_samp(-0.5)).is_err(), "p_samp < 0 should fail validation");
}

#[test]
fn test_config_hash_planes_zero() {
    assert!(
        verdict(|s| s.num_hash_planes = 0).is_err(),
        "num_hash_planes=0 should fail validation"
    );
}

#[test]
fn test_config_hash_planes_17() {
    assert!(
        verdict(|s| s.num_hash_planes = 17).is_err(),
        "num_hash_planes=17 (> 16) should fail validation"
    );
}

#[test]
fn test_final_prune_reduces_degree() {
    let (npoints, ndims) = (200, 8);
    let data = generate_random_data(npoints, ndims, 42);
    let config_no_prune = sized(64, 16, 6, 16, 2, 64);
    let mut config_with_prune = config_no_prune.clone();
    config_with_prune.final_prune = true;
    let graph_no = graph_of(&data, npoints, ndims, &config_no_prune);
    let graph_yes = graph_of(&data, npoints, ndims, &config_with_prune);
    assert!(
        graph_yes.max_degree() <= config_with_prune.max_degree,
        "final_prune max_degree {} > config max_degree {}",
        graph_yes.max_degree(),
        config_with_prune.max_degree
    );
    assert!(avg_degree(&graph_no) > 0.0);
    assert!(avg_degree(&graph_yes) > 0.0);
}

#[test]
fn test_final_prune_alpha_effect() {
    let (npoints, ndims) = (200, 8);
    let data = generate_random_data(npoints, ndims, 42);
    let mut config_aggressive = sized(64, 16, 6, 16, 2, 64);
    config_aggressive.final_prune = true;
    config_aggressive.alpha = coded(1.0);
    let mut config_relaxed = config_aggressive.clone();
    config_relaxed.alpha = coded(2.0);
    let graph_aggressive = graph_of(&data, npoints, ndims, &config_aggressive);
    let graph_relaxed = graph_of(&data, npoints, ndims, &config_relaxed);
    assert!(
        avg_degree(&graph_relaxed) >= avg_degree(&graph_aggressive),
        "alpha=2.0 ({:.1}) should produce >= degree than alpha=1.0 ({:.1})",
        avg_degree(&graph_relaxed),
        avg_degree(&graph_aggressive)
    );
}

#[test]
fn test_build_final_prune_vs_no_prune_recall() {
    let (npoints, ndims) = (500, 8);
    let data = generate_random_data(npoints, ndims, 42);
    let config_no_prune = sized(128, 32, 3, 32, 1, 64);
    let mut config_prune = config_no_prune.clone();
    config_prune.l_max = 64;
    config_prune.final_prune = true;
    let graph_no = graph_of(&data, npoints, ndims, &config_no_prune);
    let graph_yes = graph_of(&data, npoints, ndims, &config_prune);
    assert!(avg_degree(&graph_no) > 1.0);
    assert!(avg_degree(&graph_yes) > 1.0);
    assert!(
        avg_degree(&graph_yes) <= avg_degree(&graph_no),
        "pruned ({:.1}) should be <= unpruned ({:.1})",
        avg_degree(&graph_yes),
        avg_degree(&graph_no)
    );
    let query = &data[0..ndims];
    let r1 = exact(&data, ndims, npoints, query, 10);
    let s_no = search(&graph_no, &data, query, 10, 50);
    let s_yes = search(&graph_yes, &data, query, 10, 50);
    assert!(!s_no.is_empty(), "no_prune search should return results");
    assert!(!s_yes.is_empty(), "prune search should return results");
    assert_eq!(s_no[0].0, r1[0], "no_prune should find NN");
    assert_eq!(s_yes[0].0, r1[0], "prune should find NN");
}

#[test]
fn test_build_cosine_normalized() {
    let (npoints, ndims) = (100, 8);
    let mut data = generate_random_data(npoints, ndims, 42);
    normalize(&mut data, ndims);
    let mut s = settings();
    s.config.c_max = 32;
    s.config.c_min = 8;
    s.config.k = 3;
    s.max_degree = 16;
    s.metric = Metric::CosineNormalized;
    let graph = graph_of(&data, npoints, ndims, &s);
    assert!(avg_degree(&graph) > 0.0);
    assert_eq!(graph.metric, Metric::CosineNormalized);
    let results = search(&graph, &data, &data[0..ndims], 5, 20);
    assert!(!results.is_empty());
    assert_eq!(results[0].0, 0);
}

#[test]
fn test_config_validate_inner_product_rejected() {
    assert!(verdict(|s| s.metric = Metric::InnerProduct).is_err());
}

#[test]
fn test_config_validate_alpha_infinity() {
    assert!(verdict(|s| s.alpha = coded(f32::INFINITY)).is_err());
}

#[test]
fn test_config_validate_p_samp_nan() {
    assert!(verdict(p_samp(f64::NAN)).is_err());
}

#[test]
fn test_pipnn_graph_stats() {
    let (npoints, ndims) = (100, 4);
    let data = generate_random_data(npoints, ndims, 42);
    let mut s = settings();
    s.config.c_max = 32;
    s.config.c_min = 8;
    s.config.k = 3;
    s.max_degree = 16;
    let graph = graph_of(&data, npoints, ndims, &s);
    assert_eq!(graph.npoints, npoints);
    assert_eq!(graph.ndims, ndims);
    assert!(graph.medoid < npoints);
    assert!(graph.max_degree() <= s.max_degree);
    assert!(avg_degree(&graph) > 0.0);
    assert!(avg_degree(&graph) <= s.max_degree as f64);
    assert_eq!(graph.num_isolated(), 0, "graph should have no isolated nodes");
}

#[test]
fn builds_a_single_leaf_graph_for_real_dataset_ids() {
    let data = [0.0_f32, 1.0, 2.0, 3.0];
    let mut s = sized(4, 1, 1, 2, 1, 8);
    s.config.p_samp = WideReal { bits: 0.5f64.to_bits() };
    s.config.fanout = vec![2];
    s.leaf_prune_mode = LeafPruneMode::KnnBidir;
    s.merge_mode = MergeMode::Accumulate;
    let graph = graph_of(&data, 4, 1, &s);
    assert_eq!(graph.adjacency, [vec![1], vec![0, 2], vec![1, 3], vec![2]]);
}

#[test]
fn rejects_empty_dataset_dimensions_at_the_public_boundary() {
    let mut s = sized(4, 1, 1, 2, 1, 8);
    s.config.p_samp = WideReal { bits: 0.5f64.to_bits() };
    s.config.fanout = vec![2];
    assert!(run(&[], 0, 4, &s, false).is_err());
    assert!(run(&[], 4, 0, &s, false).is_err());
}

#[test]
fn every_leaf_mode_builds_bounded_graphs() {
    let (npoints, ndims) = (120, 6);
    let data = generate_random_data(npoints, ndims, 9);
    for mode in [
        LeafPruneMode::KnnBidir,
        LeafPruneMode::RobustNoGemm,
        LeafPruneMode::GemmTopKRobust,
        LeafPruneMode::GemmTopKNoPrune,
    ] {
        for merge in [MergeMode::Accumulate, MergeMode::HashPrune] {
            for merge_l_max in [0, 12] {
                let mut s = sized(32, 8, 5, 6, 2, 16);
                s.leaf_prune_mode = mode;
                s.merge_mode = merge;
                s.merge_l_max = merge_l_max;
                s.leaf_prune_degree = 4;
                assert_eq!(s.uses_accumulation(false), merge == MergeMode::Accumulate);
                assert!(!s.uses_accumulation(true));
                assert_eq!(s.leaf_deg(), 4);
                let graph = graph_of(&data, npoints, ndims, &s);
                assert_eq!(graph.num_isolated(), 0);
                for (p, list) in graph.adjacency.iter().enumerate() {
                    assert!(list.len() <= 6, "{mode:?}, {merge:?}");
                    let set: HashSet<u32> = list.iter().copied().collect();
                    assert_eq!(set.len(), list.len());
                    assert!(!set.contains(&(p as u32)));
                    assert!(set.iter().all(|&x| (x as usize) < npoints));
                }
            }
        }
    }
}

#[test]
fn a_wide_search_finds_everything_in_reach() {
    let graph = PiPNNGraph {
        adjacency: vec![vec![1], vec![2], vec![0], vec![0]],
        npoints: 4,
        ndims: 1,
        medoid: 0,
        metric: Metric::L2,
    };
    let data = [0.0f32, 1.0, 2.0, 1.1];
    let ids = |k: usize, l: usize| -> Vec<usize> {
        search(&graph, &data, &[1.4], k, l).iter().map(|h| h.0).collect()
    };
    assert_eq!(ids(10, 10), [1, 2, 0]);
    assert_eq!(ids(1, 10), [1]);
    assert!(ids(0, 0).is_empty());
    let hits = search(&graph, &data, &[3.0], 2, 10);
    assert_eq!(hits, [(2, 1.0), (1, 4.0)]);
}

#[test]
fn medoid_of_a_sample() {
    let npoints = 100_001;
    let all: Vec<usize> = (0..npoints).collect();
    let mut rng = StdRng::seed_from_u64(42);
    let picked: HashSet<usize> = all.choose_multiple(&mut rng, 100_000).copied().collect();
    let left_out = (0..npoints).find(|i| !picked.contains(i)).unwrap();
    let second = (left_out + 5) % npoints;
    let mut data: Vec<f32> = (0..npoints).map(|i| if i % 2 == 0 { 1.0 } else { -1.0 }).collect();
    data[left_out] = 0.0;
    data[second] = 0.25;
    // The point that the sample leaves out is the one nearest to the centroid.
    assert_eq!(nearest_to_centroid(&ops(), &reals(&data), npoints, 1, &all), left_out);
    assert_eq!(find_medoid(&ops(), &reals(&data), npoints, 1), second);
}

#[test]
fn medoid_ties_go_by_the_order_of_the_sample() {
    let npoints = 50;
    let all: Vec<usize> = (0..npoints).collect();
    let mut rng = StdRng::seed_from_u64(42);
    let picked: Vec<usize> = all.choose_multiple(&mut rng, npoints).copied().collect();
    let data = vec![1.0f32; npoints];
    assert_eq!(find_medoid(&ops(), &reals(&data), npoints, 1), picked[0]);
}

#[test]
fn nearest_to_the_mean() {
    let data = reals(&[0.0, 0.0, 4.0, 0.0, 1.0, 1.0, 0.0, 4.0]);
    assert_eq!(nearest_to_centroid(&ops(), &data, 4, 2, &vec![0, 1, 2, 3]), 2);
    assert_eq!(nearest_to_centroid(&ops(), &data, 4, 2, &vec![1, 0]), 1);
}

#[test]
fn seeds_and_leaf_order() {
    assert_eq!(replica_seed(0), 1000);
    assert_eq!(replica_seed(2), 1000 + 2 * 7919);
    let leaves = vec![vec![5, 3], vec![], vec![9, 1], vec![3, 7]];
    assert_eq!(sort_leaves(&leaves), [1, 2, 0, 3]);
}

#[test]
fn a_search_follows_the_edges_to_the_closest() {
    let graph = PiPNNGraph {
        adjacency: vec![vec![1], vec![0, 2], vec![3, 1], vec![2], vec![0]],
        npoints: 5,
        ndims: 1,
        medoid: 0,
        metric: Metric::L2,
    };
    let data = [0.0, 1.0, 2.0, 3.0, 2.5];
    let found = |k: usize, l: usize| -> Vec<usize> {
        search(&graph, &data, &[2.75], k, l).into_iter().map(|(i, _)| i).collect()
    };
    // No edge leads to the last point, though it is as close as the one found.
    assert_eq!(found(2, 2), [3, 2]);
    assert_eq!(found(1, 1), [3]);
    assert_eq!(found(9, 4), [3, 2, 1, 0]);
    assert_eq!(search(&graph, &data, &[2.75], 1, 3), [(3, 0.0625)]);
}
