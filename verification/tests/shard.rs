use pipnn::config::{BuildSettings, LeafPruneMode, MergeMode, PiPNNConfig, WideReal};
use pipnn::metric::Metric;
use pipnn::number::Real;
use pipnn::shard::{
    estimate_pipnn_shard_ram, exceeds_budget, gather_shard_data, shard_reads, RowRead, StartPoint,
    StartPointError,
};

fn test_config(l_max: usize, num_hash_planes: usize) -> BuildSettings {
    BuildSettings {
        config: PiPNNConfig {
            c_max: 1024,
            c_min: 256,
            p_samp: WideReal { bits: 0.005f64.to_bits() },
            fanout: vec![10, 3],
            k: 2,
            replicas: 1,
        },
        max_degree: 64,
        l_max,
        num_hash_planes,
        metric: Metric::CosineNormalized,
        final_prune: false,
        alpha: Real::from_bits(1.2f32.to_bits()),
        saturate_after_prune: false,
        leaf_prune_mode: LeafPruneMode::Baseline,
        merge_mode: MergeMode::HashPrune,
        merge_l_max: 0,
        leaf_prune_degree: 0,
    }
}

fn estimate(npoints: u64, ndims: u64, type_size: usize, s: &BuildSettings) -> f64 {
    estimate_pipnn_shard_ram(npoints, ndims, type_size, s).unwrap() as f64
}

#[test]
fn test_pipnn_shard_ram_estimate_enron() {
    let config = test_config(64, 14);
    let est = estimate(544_000, 384, 2, &config);
    assert!(
        est < 1.0 * 1024.0 * 1024.0 * 1024.0,
        "estimated {:.1} MB should be < 1 GB",
        est / (1024.0 * 1024.0)
    );
    assert!(
        est > 500.0 * 1024.0 * 1024.0,
        "estimated {:.1} MB should be > 500 MB",
        est / (1024.0 * 1024.0)
    );
}

#[test]
fn test_pipnn_shard_ram_estimate_components() {
    let config = test_config(64, 14);
    let npoints = 100_000u64;
    let ndims = 384u64;
    let type_size = 2usize;
    let est = estimate(npoints, ndims, type_size, &config);
    let data = npoints as f64 * ndims as f64 * type_size as f64;
    let reservoirs = npoints as f64 * 64.0 * 8.0;
    let sketches = npoints as f64 * 14.0 * 4.0;
    let overhead = 150.0 * 1024.0 * 1024.0;
    let expected = data + reservoirs + sketches + overhead;
    assert!(
        (est - expected).abs() < 1.0,
        "estimate {est} should match manual calc {expected}"
    );
}

#[test]
fn test_pipnn_shard_ram_scales_with_points() {
    let config = test_config(64, 14);
    let est_small = estimate(100_000, 384, 2, &config);
    let est_large = estimate(1_000_000, 384, 2, &config);
    assert!(est_large > est_small, "larger dataset should need more RAM");
    let ratio = (est_large - 150.0 * 1024.0 * 1024.0) / (est_small - 150.0 * 1024.0 * 1024.0);
    assert!(
        (ratio - 10.0).abs() < 0.01,
        "variable part should scale linearly, ratio={ratio}"
    );
}

#[test]
fn test_routing_oneshot_when_budget_sufficient() {
    let config = test_config(64, 14);
    let estimated = estimate(1_090_000, 384, 2, &config);
    let budget = 32.0 * 1024.0 * 1024.0 * 1024.0;
    assert!(
        estimated <= budget,
        "estimated {:.1} GB should fit in 32 GB budget",
        estimated / (1024.0 * 1024.0 * 1024.0)
    );
    assert!(!exceeds_budget(1_090_000, 384, 2, &config, budget as u64));
}

#[test]
fn test_routing_merged_when_budget_exceeded() {
    let config = test_config(64, 14);
    let estimated = estimate(1_090_000, 384, 2, &config);
    let budget = 1.0 * 1024.0 * 1024.0 * 1024.0;
    assert!(
        estimated > budget,
        "estimated {:.1} GB should exceed 1 GB budget",
        estimated / (1024.0 * 1024.0 * 1024.0)
    );
    assert!(exceeds_budget(1_090_000, 384, 2, &config, budget as u64));
}

#[test]
fn test_routing_merged_when_budget_tight() {
    let config = test_config(128, 12);
    let estimated = estimate(500_000, 128, 4, &config);
    let budget = 900.0 * 1024.0 * 1024.0;
    assert!(
        estimated > budget,
        "estimated {:.1} MB should exceed 900 MB budget",
        estimated / (1024.0 * 1024.0)
    );
    let budget_1g = 1024.0 * 1024.0 * 1024.0;
    assert!(
        estimated < budget_1g,
        "estimated {:.1} MB should fit in 1 GB budget",
        estimated / (1024.0 * 1024.0)
    );
    assert!(exceeds_budget(500_000, 128, 4, &config, budget as u64));
    assert!(!exceeds_budget(500_000, 128, 4, &config, budget_1g as u64));
}

#[test]
fn estimates_beyond_all_memory_exceed_every_budget() {
    let config = test_config(128, 12);
    assert_eq!(estimate_pipnn_shard_ram(u64::MAX, u64::MAX, 16, &config), None);
    assert!(exceeds_budget(u64::MAX, u64::MAX, 16, &config, u64::MAX));
}

fn test_bin(data: &[f32], npoints: usize, ndims: usize) -> Vec<u8> {
    let mut w = Vec::new();
    w.extend_from_slice(&(npoints as u32).to_le_bytes());
    w.extend_from_slice(&(ndims as u32).to_le_bytes());
    w.extend_from_slice(bytemuck::cast_slice(data));
    w
}

fn gather(file: &[u8], id_map: &[u32], ndims: usize) -> Vec<f32> {
    gather_shard_data(file, id_map, ndims * 4)
        .unwrap()
        .chunks_exact(4)
        .map(|c| f32::from_le_bytes([c[0], c[1], c[2], c[3]]))
        .collect()
}

#[test]
fn test_gather_shard_data_basic() {
    let ndims = 3;
    let npoints = 5;
    let data: Vec<f32> = (0..npoints)
        .flat_map(|i| {
            let base = (i * 10) as f32;
            vec![base + 1.0, base + 2.0, base + 3.0]
        })
        .collect();
    let file = test_bin(&data, npoints, ndims);
    let id_map = vec![3u32, 0, 4];
    let result = gather(&file, &id_map, ndims);
    assert_eq!(&result[0..3], &[31.0, 32.0, 33.0]);
    assert_eq!(&result[3..6], &[1.0, 2.0, 3.0]);
    assert_eq!(&result[6..9], &[41.0, 42.0, 43.0]);
}

#[test]
fn test_gather_shard_data_sequential() {
    let ndims = 2;
    let npoints = 4;
    let data: Vec<f32> =
        (0..npoints).flat_map(|i| vec![i as f32, (i * 100) as f32]).collect();
    let file = test_bin(&data, npoints, ndims);
    let id_map = vec![0u32, 1, 2, 3];
    assert_eq!(gather(&file, &id_map, ndims), data);
}

#[test]
fn test_gather_shard_data_single_point() {
    let ndims = 4;
    let npoints = 10;
    let data: Vec<f32> = (0..npoints * ndims).map(|i| i as f32).collect();
    let file = test_bin(&data, npoints, ndims);
    let id_map = vec![7u32];
    assert_eq!(&gather(&file, &id_map, ndims)[..], &data[28..32]);
}

#[test]
fn test_gather_shard_data_preserves_shard_order() {
    let ndims = 2;
    let npoints = 3;
    let data: Vec<f32> = vec![10.0, 11.0, 20.0, 21.0, 30.0, 31.0];
    let file = test_bin(&data, npoints, ndims);
    let id_map = vec![2u32, 1, 0];
    let result = gather(&file, &id_map, ndims);
    assert_eq!(&result[0..2], &[30.0, 31.0]);
    assert_eq!(&result[2..4], &[20.0, 21.0]);
    assert_eq!(&result[4..6], &[10.0, 11.0]);
}

#[test]
fn reads_go_through_the_file_once() {
    let read = |row, position, seek| RowRead { row, position, seek };
    assert_eq!(
        shard_reads(&[5, 0, 1, 6], 10),
        [read(1, 8, false), read(2, 18, false), read(0, 58, true), read(3, 68, false)]
    );
    assert_eq!(gather_shard_data(&[0; 7], &[], 4), None);
    assert_eq!(gather_shard_data(&[0; 8], &[], 4), Some(vec![]));
    assert_eq!(gather_shard_data(&[0; 11], &[0], 4), None);
}

#[test]
fn test_start_point_creation() {
    let id = 42u32;
    let start_point = StartPoint::new(id);
    assert_eq!(start_point.id(), id);
}

#[test]
fn test_start_point_save_and_load() {
    let id = 42u32;
    let start_point = StartPoint::new(id);
    let file = start_point.save();
    let loaded_start_point = StartPoint::load(Some(&file)).unwrap();
    assert_eq!(loaded_start_point.id(), id);
}

#[test]
fn test_start_point_load_nonexistent_file() {
    let result = StartPoint::load(None);
    assert_eq!(result.err().unwrap(), StartPointError::FileNotFound);
}

#[test]
fn test_start_point_load_empty_file() {
    let result = StartPoint::load(Some(&[]));
    assert_eq!(result.err().unwrap(), StartPointError::Io);
}

#[test]
fn test_start_point_load_invalid_data() {
    let npts = 0u32;
    let dim = 1u32;
    let mut file = Vec::new();
    file.extend_from_slice(&npts.to_le_bytes());
    file.extend_from_slice(&dim.to_le_bytes());
    let result = StartPoint::load(Some(&file));
    assert_eq!(result.err().unwrap(), StartPointError::InvalidFileFormat);
}
