use pipnn::arith::{Arithmetic, Operations};
use pipnn::cache::{
    gather_rows, gather_rows_cached, point_cache_enabled, point_cache_log2, point_cache_mask,
    point_cache_size, PointCache,
};
use pipnn::gemm::squared_l2;
use pipnn::knn::{brute_force_knn, extract_knn, make_bidirected_edges, Edge};
use pipnn::leaf_build::{
    build_leaf, build_leaf_with_buffers, leaf_has_neighbors, release_thread_buffers, CacheTotals,
    LeafBuffers, QuantLeafBuffers,
};
use pipnn::leaf_robust::{
    build_leaf_gemm_topk_robust, build_leaf_robust_no_gemm, gemm_fill_dist_matrix,
    prune_leaf_from_matrix,
};
use pipnn::metric::Metric;
use pipnn::number::Real;
use pipnn::quantize::quantize_1bit;
use pipnn::quantized::{
    bits_as_numbers, build_leaf_direct, build_leaf_quantized, count_differing,
    direct_leaf_has_neighbors, hamming_distance, QuantizedData,
};
use rand::rngs::StdRng;
use rand::{Rng, SeedableRng};
use std::collections::{HashMap, HashSet};

fn coded(x: f32) -> Real {
    Real::from_bits(x.to_bits())
}

fn num(x: Real) -> f32 {
    f32::from_bits(x.to_bits())
}

fn ops() -> impl Arithmetic {
    Operations::new(
        |a: Real, b: Real| coded(num(a) + num(b)),
        |a: Real, b: Real| coded(num(a) - num(b)),
        |a: Real, b: Real| coded(num(a) * num(b)),
        |a: Real, b: Real| coded(num(a) / num(b)),
        |a: Real| coded(num(a).sqrt()),
    )
}

fn reals(xs: &[f32]) -> Vec<Real> {
    xs.iter().map(|&x| coded(x)).collect()
}

fn l2(a: &[Real], b: &[Real]) -> Real {
    coded(a.iter().zip(b).map(|(x, y)| (num(*x) - num(*y)) * (num(*x) - num(*y))).sum())
}

fn leaf(data: &[f32], ndims: usize, indices: &[usize], k: usize, metric: Metric) -> Vec<Edge> {
    let data = reals(data);
    assert!(leaf_has_neighbors(&ops(), &data, ndims, indices, k, metric));
    build_leaf(&ops(), &data, ndims, indices, k, metric)
}

fn pairs(edges: &[Edge]) -> HashSet<(usize, usize)> {
    edges.iter().map(|e| (e.src, e.dst)).collect()
}

fn invariants(edges: &[Edge], indices: &[usize], max_degree: usize) {
    let leaf: HashSet<usize> = indices.iter().copied().collect();
    let mut deg: HashMap<usize, usize> = HashMap::new();
    for e in edges {
        assert_ne!(e.src, e.dst, "no self loops");
        assert!(leaf.contains(&e.src) && leaf.contains(&e.dst), "edges within leaf");
        *deg.entry(e.src).or_insert(0) += 1;
    }
    for (_s, d) in deg {
        assert!(d <= max_degree, "degree {} exceeds max_degree {}", d, max_degree);
    }
}

#[test]
fn test_leaf_robust_no_gemm_invariants_and_diversity() {
    let data = reals(&[0.0, 0.0, 1.0, 0.0, 0.0, 1.0, 0.05, 0.0, 5.0, 5.0]);
    let indices = vec![0usize, 1, 2, 3, 4];
    let mut bufs = LeafBuffers::new();
    let edges =
        build_leaf_robust_no_gemm(&ops(), &data, 2, &indices, 8, coded(1.0), &l2, &mut bufs);
    assert!(!edges.is_empty());
    invariants(&edges, &indices, 8);
    assert!(edges.iter().any(|e| e.src == 1), "point 1 should emit edges");
}

#[test]
fn test_leaf_gemm_topk_robust_invariants() {
    let mut data = Vec::new();
    for i in 0..12 {
        data.extend_from_slice(&[(i as f32) * 0.3, ((i * 7) % 5) as f32, (i as f32).sin()]);
    }
    let indices: Vec<usize> = (0..12).collect();
    let mut bufs = LeafBuffers::new();
    let edges = build_leaf_gemm_topk_robust(
        &ops(),
        &reals(&data),
        3,
        &indices,
        5,
        3,
        Metric::L2,
        coded(1.2),
        true,
        &mut bufs,
    );
    assert!(!edges.is_empty());
    invariants(&edges, &indices, 3);
}

#[test]
fn test_leaf_robust_no_gemm_matches_topk_when_k_covers_leaf() {
    let data = reals(&[0.0, 0.0, 1.0, 0.0, 0.0, 1.0, 2.0, 2.0, 3.0, 0.5]);
    let indices = vec![0usize, 1, 2, 3, 4];
    let mut b1 = LeafBuffers::new();
    let mut b2 = LeafBuffers::new();
    let e1 = build_leaf_robust_no_gemm(&ops(), &data, 2, &indices, 4, coded(1.2), &l2, &mut b1);
    let e2 = build_leaf_gemm_topk_robust(
        &ops(),
        &data,
        2,
        &indices,
        100,
        4,
        Metric::L2,
        coded(1.2),
        true,
        &mut b2,
    );
    assert_eq!(
        pairs(&e1),
        pairs(&e2),
        "all-pairs (no-gemm) and full-k (gemm) prune must agree"
    );
}

#[test]
fn a_leaf_without_pruning_keeps_the_closest() {
    let data = reals(&[0.0, 1.0, 3.0, 7.0]);
    let mut bufs = LeafBuffers::new();
    let edges = build_leaf_gemm_topk_robust(
        &ops(),
        &data,
        1,
        &[0, 1, 2, 3],
        2,
        9,
        Metric::L2,
        coded(1.2),
        false,
        &mut bufs,
    );
    let found: Vec<(usize, usize, f32)> =
        edges.iter().map(|e| (e.src, e.dst, num(e.distance))).collect();
    assert_eq!(
        found,
        [
            (0, 1, 1.0),
            (0, 2, 9.0),
            (1, 0, 1.0),
            (1, 2, 4.0),
            (2, 1, 4.0),
            (2, 0, 9.0),
            (3, 2, 16.0),
            (3, 1, 36.0),
        ]
    );
}

#[test]
fn test_distance_l2() {
    let o = ops();
    let p0 = reals(&[0.0, 0.0]);
    let p1 = reals(&[1.0, 0.0]);
    let p2 = reals(&[0.0, 1.0]);
    assert!((num(squared_l2(&o, &p0, &p1)) - 1.0).abs() < 1e-6);
    assert!((num(squared_l2(&o, &p0, &p2)) - 1.0).abs() < 1e-6);
    assert!((num(squared_l2(&o, &p1, &p2)) - 2.0).abs() < 1e-6);
}

#[test]
fn test_build_leaf() {
    let data = vec![0.0, 0.0, 1.0, 0.0, 0.0, 1.0, 1.0, 1.0];
    let edges = leaf(&data, 2, &[0, 1, 2, 3], 2, Metric::L2);
    assert!(!edges.is_empty());
    for edge in &edges {
        assert!(edge.src < 4);
        assert!(edge.dst < 4);
        assert!(edge.src != edge.dst);
        assert!(num(edge.distance) >= 0.0);
    }
}

#[test]
fn test_extract_knn() {
    let dist = reals(&[f32::MAX, 1.0, 4.0, 1.0, f32::MAX, 1.0, 4.0, 1.0, f32::MAX]);
    let edges = extract_knn(&dist, 3, 1);
    assert_eq!(edges.len(), 3);
    let p0_edges: Vec<_> = edges.iter().filter(|e| e.0 == 0).collect();
    assert_eq!(p0_edges.len(), 1);
    assert_eq!(p0_edges[0].1, 1);
    let p2_edges: Vec<_> = edges.iter().filter(|e| e.0 == 2).collect();
    assert_eq!(p2_edges.len(), 1);
    assert_eq!(p2_edges[0].1, 1);
}

#[test]
fn test_brute_force_knn() {
    let data = reals(&[0.0, 0.0, 1.0, 0.0, 0.0, 1.0, 1.0, 1.0]);
    let query = reals(&[0.1, 0.1]);
    let results = brute_force_knn(&ops(), &data, 2, 4, &query, 2);
    assert_eq!(results.len(), 2);
    assert_eq!(results[0].0, 0);
}

#[test]
fn test_build_leaf_cosine() {
    let mut data: Vec<f32> = vec![1.0, 0.0, 0.0, 1.0, 0.707, 0.707, -1.0, 0.0];
    for i in 0..4 {
        let row = &mut data[i * 2..(i + 1) * 2];
        let norm: f32 = row.iter().map(|v| v * v).sum::<f32>().sqrt();
        if norm > 0.0 {
            for v in row.iter_mut() {
                *v /= norm;
            }
        }
    }
    let edges = leaf(&data, 2, &[0, 1, 2, 3], 2, Metric::CosineNormalized);
    assert!(!edges.is_empty(), "cosine leaf should produce edges");
    for edge in &edges {
        assert!(edge.src < 4);
        assert!(edge.dst < 4);
        assert_ne!(edge.src, edge.dst);
        assert!(num(edge.distance) >= 0.0, "negative cosine distance");
    }
}

#[test]
fn test_build_leaf_cosine_normalized_matches_unit_norm_l2_neighbors() {
    let mut data: Vec<f32> =
        vec![1.0, 0.0, 0.0, 0.0, 1.0, 0.0, 0.8, 0.6, 0.0, -1.0, 0.0, 0.0, 0.0, 0.0, 1.0];
    for row in data.chunks_exact_mut(3) {
        let norm = row.iter().map(|v| v * v).sum::<f32>().sqrt();
        for v in row.iter_mut() {
            *v /= norm;
        }
    }
    let indices = vec![0, 1, 2, 3, 4];
    let cosine_edges = leaf(&data, 3, &indices, 2, Metric::CosineNormalized);
    let l2_edges = leaf(&data, 3, &indices, 2, Metric::L2);
    assert_eq!(pairs(&cosine_edges), pairs(&l2_edges));
}

#[test]
fn test_build_leaf_quantized() {
    let ndims = 64;
    let npoints = 10;
    let mut rng = StdRng::seed_from_u64(42);
    let data: Vec<f32> = (0..npoints * ndims).map(|_| rng.random_range(-1.0..1.0)).collect();
    let shift: Vec<f32> = (0..ndims)
        .map(|d| (0..npoints).map(|i| data[i * ndims + d]).fold(f32::MAX, f32::min))
        .collect();
    let qdata =
        quantize_1bit(&ops(), &reals(&data), npoints, ndims, &reals(&shift), coded(0.5));
    let indices: Vec<usize> = (0..npoints).collect();
    let edges = build_leaf_quantized(&qdata, &indices, 3);
    assert!(!edges.is_empty(), "quantized leaf should produce edges");
    for edge in &edges {
        assert!(edge.src < npoints, "src {} out of range", edge.src);
        assert!(edge.dst < npoints, "dst {} out of range", edge.dst);
        assert_ne!(edge.src, edge.dst);
        assert!(num(edge.distance) >= 0.0);
    }
}

#[test]
fn test_build_leaf_single_point() {
    let data = vec![1.0f32, 2.0, 3.0, 4.0];
    let edges = leaf(&data, 4, &[0], 3, Metric::L2);
    assert!(edges.is_empty(), "single point leaf should produce 0 edges, got {}", edges.len());
}

#[test]
fn test_build_leaf_two_points() {
    let data = vec![0.0f32, 0.0, 1.0, 0.0];
    let edges = leaf(&data, 2, &[0, 1], 3, Metric::L2);
    assert!(!edges.is_empty(), "two point leaf should produce edges");
    let has_0_to_1 = edges.iter().any(|e| e.src == 0 && e.dst == 1);
    let has_1_to_0 = edges.iter().any(|e| e.src == 1 && e.dst == 0);
    assert!(has_0_to_1, "should have edge 0 -> 1");
    assert!(has_1_to_0, "should have edge 1 -> 0");
}

#[test]
fn test_build_leaf_k_equals_n() {
    let data = vec![0.0, 0.0, 1.0, 0.0, 0.0, 1.0, 1.0, 1.0];
    let indices = vec![0, 1, 2, 3];
    let n = indices.len();
    let edge_set = pairs(&leaf(&data, 2, &indices, n, Metric::L2));
    for i in 0..n {
        for j in 0..n {
            if i != j {
                assert!(
                    edge_set.contains(&(i, j)),
                    "k >= n: edge ({} -> {}) should exist",
                    i,
                    j
                );
            }
        }
    }
}

#[test]
fn test_build_leaf_with_buffers_reuse() {
    let data = reals(&[0.0, 0.0, 1.0, 0.0, 0.0, 1.0, 1.0, 1.0]);
    let indices = vec![0, 1, 2, 3];
    let mut bufs = LeafBuffers::new();
    let edges1 =
        build_leaf_with_buffers(&ops(), &data, 2, &indices, 2, Metric::L2, &mut bufs, None);
    assert!(!edges1.is_empty(), "first call should produce edges");
    assert!(!bufs.local_data.is_empty(), "buffers should be allocated after first call");
    let edges2 =
        build_leaf_with_buffers(&ops(), &data, 2, &indices, 2, Metric::L2, &mut bufs, None);
    assert_eq!(
        edges1.len(),
        edges2.len(),
        "same input should produce same number of edges with reused buffers"
    );
    assert_eq!(edges1, edges2);
}

#[test]
fn test_extract_knn_k_larger_than_n() {
    let dist = reals(&[f32::MAX, 1.0, 1.0, f32::MAX]);
    let edges = extract_knn(&dist, 2, 100);
    assert_eq!(
        edges.len(),
        2,
        "k > n-1 should be clamped, each point gets 1 neighbor, total 2 edges"
    );
}

#[test]
fn test_brute_force_knn_single_point() {
    let data = reals(&[5.0, 10.0]);
    let query = reals(&[5.0, 10.0]);
    let results = brute_force_knn(&ops(), &data, 2, 1, &query, 5);
    assert_eq!(results.len(), 1, "brute force on 1 point should return 1 result");
    assert_eq!(results[0].0, 0, "should return the only point (index 0)");
    assert!(num(results[0].1) < 1e-6, "distance to identical query should be near zero");
}

#[test]
fn test_brute_force_knn_identity() {
    let data = reals(&[0.0, 0.0, 1.0, 0.0, 0.0, 1.0, 1.0, 1.0]);
    let query = reals(&[1.0, 0.0]);
    let results = brute_force_knn(&ops(), &data, 2, 4, &query, 3);
    assert_eq!(results[0].0, 1, "query identical to point 1 should find it first");
    assert!(num(results[0].1) < 1e-6, "self-distance should be 0");
}

#[test]
fn test_edge_symmetry() {
    let data = vec![0.0, 0.0, 1.0, 0.0, 0.0, 1.0, 1.0, 1.0, 0.5, 0.5];
    let edges = leaf(&data, 2, &[0, 1, 2, 3, 4], 2, Metric::L2);
    let edge_set = pairs(&edges);
    for edge in &edges {
        assert!(
            edge_set.contains(&(edge.dst, edge.src)),
            "edge ({} -> {}) exists but reverse ({} -> {}) does not",
            edge.src,
            edge.dst,
            edge.dst,
            edge.src
        );
    }
    assert_eq!(edge_set.len(), edges.len(), "no edge comes twice");
}

#[test]
fn test_build_leaf_cosine_unnormalized() {
    let data = vec![1.0, 0.0, 3.0, 0.0, 0.0, 1.0, 1.0, 1.0];
    let edges = leaf(&data, 2, &[0, 1, 2, 3], 2, Metric::Cosine);
    assert!(!edges.is_empty());
    let e01 = edges.iter().find(|e| e.src == 0 && e.dst == 1);
    assert!(e01.is_some(), "co-linear points should be neighbors");
    assert!(
        num(e01.unwrap().distance) < 0.01,
        "cosine dist between co-linear should be ~0, got {}",
        num(e01.unwrap().distance)
    );
}

#[test]
fn test_build_leaf_inner_product() {
    let data = vec![1.0, 0.0, 0.0, 1.0, 1.0, 1.0];
    let edges = leaf(&data, 2, &[0, 1, 2], 1, Metric::InnerProduct);
    assert!(!edges.is_empty());
}

#[test]
fn test_build_leaf_large_k_clamped() {
    let data = vec![0.0f32; 5 * 4];
    let edge_set = pairs(&leaf(&data, 4, &[0, 1, 2, 3, 4], 1000, Metric::L2));
    for i in 0..5 {
        for j in 0..5 {
            if i != j {
                assert!(edge_set.contains(&(i, j)), "all-pairs edge ({}, {}) missing", i, j);
            }
        }
    }
}

#[test]
fn test_build_leaf_distances_nonnegative() {
    let data = vec![-1.5, 2.3, 0.1, 0.7, -0.4, 1.9, 1.0, 1.0, 1.0];
    for metric in [Metric::L2, Metric::Cosine, Metric::CosineNormalized] {
        for e in &leaf(&data, 3, &[0, 1, 2], 2, metric) {
            assert!(
                num(e.distance) >= 0.0,
                "{:?}: negative distance {} for ({},{})",
                metric,
                num(e.distance),
                e.src,
                e.dst
            );
        }
    }
}

#[test]
fn test_extract_knn_k_zero() {
    let dist = reals(&[f32::MAX, 1.0, 1.0, f32::MAX]);
    let edges = extract_knn(&dist, 2, 0);
    assert!(edges.is_empty(), "k=0 should return no edges");
}

#[test]
fn test_build_leaf_buffer_reuse_different_sizes() {
    let data_large = reals(&[1.0f32; 20 * 4]);
    let indices_large: Vec<usize> = (0..20).collect();
    let mut bufs = LeafBuffers::new();
    let edges1 = build_leaf_with_buffers(
        &ops(),
        &data_large,
        4,
        &indices_large,
        2,
        Metric::L2,
        &mut bufs,
        None,
    );
    assert!(!edges1.is_empty());
    let data_small = reals(&[1.0f32; 4 * 4]);
    let indices_small: Vec<usize> = (0..4).collect();
    let edges2 = build_leaf_with_buffers(
        &ops(),
        &data_small,
        4,
        &indices_small,
        2,
        Metric::L2,
        &mut bufs,
        None,
    );
    assert!(!edges2.is_empty(), "small leaf after large should work with reused buffers");
    assert_eq!(edges2, leaf(&[1.0f32; 16], 4, &indices_small, 2, Metric::L2));
}

#[test]
fn edges_go_both_ways_once() {
    let dm = reals(&[f32::MAX, 1.0, 4.0, 1.0, f32::MAX, 2.0, 4.0, 2.0, f32::MAX]);
    let local = extract_knn(&dm, 3, 1);
    let mut seen = vec![false; 9];
    let edges = make_bidirected_edges(&local, &dm, 3, &[10, 20, 30], &mut seen);
    let found: Vec<(usize, usize, f32)> =
        edges.iter().map(|e| (e.src, e.dst, num(e.distance))).collect();
    assert_eq!(found, [(10, 20, 1.0), (20, 10, 1.0), (30, 20, 2.0), (20, 30, 2.0)]);
    // A mark for each of the pairs (0, 1), (1, 0), (1, 2) and (2, 1), and no other.
    assert_eq!(seen, [false, true, false, true, false, true, false, true, false]);
    // A pair that was marked before is left out, and stays marked.
    let mut some = vec![false; 9];
    some[1] = true;
    let rest = make_bidirected_edges(&local, &dm, 3, &[10, 20, 30], &mut some);
    assert!(rest.iter().all(|e| (e.src, e.dst) != (10, 20)));
    assert_eq!(some, seen);
}

#[test]
fn no_candidates_give_no_edges() {
    let dm = reals(&[f32::MAX, 1.0, 1.0, f32::MAX]);
    for prune in [false, true] {
        let none =
            prune_leaf_from_matrix(&ops(), &dm, 2, &[7, 9], Some(0), 4, coded(1.2), prune);
        assert!(none.is_empty());
        for k in [Some(1), Some(5), None] {
            let all = prune_leaf_from_matrix(&ops(), &dm, 2, &[7, 9], k, 4, coded(1.2), prune);
            assert_eq!(pairs(&all), HashSet::from([(7, 9), (9, 7)]));
        }
    }
}

#[test]
fn a_leaf_that_is_not_pruned_needs_no_threshold() {
    let dm = reals(&[f32::MAX, 2.0, 1.0, 2.0, f32::MAX, 3.0, 1.0, 3.0, f32::MAX]);
    let edges =
        prune_leaf_from_matrix(&ops(), &dm, 3, &[4, 5, 6], Some(1), 1, coded(f32::NAN), false);
    assert_eq!(pairs(&edges), HashSet::from([(4, 6), (5, 4), (6, 4)]));
}

#[test]
fn bits_become_numbers() {
    let words = vec![0b101u64, 1 << 1, u64::MAX, 0];
    let q = QuantizedData::new(words, 2, 66, 2).unwrap();
    let numbers: Vec<f32> = bits_as_numbers(&q).into_iter().map(num).collect();
    assert_eq!(numbers.len(), 132);
    for (j, &x) in numbers[..66].iter().enumerate() {
        assert_eq!(x, if [0, 2, 65].contains(&j) { 1.0 } else { 0.0 });
    }
    assert!(numbers[66..130].iter().all(|&x| x == 1.0));
    assert_eq!(numbers[130..], [0.0, 0.0]);
}

#[test]
fn filling_a_matrix_keeps_what_follows_it() {
    let data = reals(&[0.0, 0.0, 3.0, 4.0, 1.0, 0.0]);
    let mut bufs = LeafBuffers::new();
    bufs.ensure_capacity(2, 2);
    bufs.dist_matrix.push(coded(77.0));
    bufs.local_data.push(coded(78.0));
    let (nd, nl) = (bufs.dist_matrix.len(), bufs.local_data.len());
    gemm_fill_dist_matrix(&ops(), &data, 2, &[1, 0], Metric::L2, &mut bufs);
    assert_eq!((bufs.dist_matrix.len(), bufs.local_data.len()), (nd, nl));
    let front: Vec<f32> = bufs.dist_matrix[..4].iter().map(|&x| num(x)).collect();
    assert_eq!(front, [f32::MAX, 25.0, 25.0, f32::MAX]);
    assert_eq!(num(bufs.dist_matrix[nd - 1]), 77.0);
    assert_eq!(num(bufs.local_data[nl - 1]), 78.0);
}

#[test]
fn a_leaf_of_unrankable_distances_has_too_few_neighbors() {
    let data = reals(&[f32::NAN, 0.0, 1.0]);
    let metric = Metric::InnerProduct;
    assert!(!leaf_has_neighbors(&ops(), &data, 1, &[0, 1, 2], 2, metric));
    assert!(leaf_has_neighbors(&ops(), &data, 1, &[1, 2], 2, metric));
}

#[test]
fn cached_rows_are_those_of_the_data() {
    let ndims = 3;
    let data: Vec<Real> = (0..300).map(|i| coded(i as f32)).collect();
    let mut cache = PointCache::new();
    cache.ensure_capacity(ndims, 3);
    let mut rng = StdRng::seed_from_u64(1);
    let mut lookups = 0;
    for _ in 0..20 {
        let indices: Vec<usize> = (0..17).map(|_| rng.random_range(0..100)).collect();
        let mut plain = reals(&[0.0; 51]);
        let mut cached = reals(&[0.0; 51]);
        gather_rows(&data, ndims, &indices, &mut plain);
        gather_rows_cached(&data, ndims, &indices, &mut cached, &mut cache, 3);
        assert_eq!(plain, cached);
        lookups += 17;
        assert_eq!(cache.hits + cache.misses, lookups);
    }
    assert!(cache.hits > 0);
    cache.clear();
    assert!(cache.keys.iter().all(|&k| k == u32::MAX));
}

#[test]
fn a_leaf_is_the_same_with_and_without_a_cache() {
    let mut rng = StdRng::seed_from_u64(2);
    let data: Vec<Real> = (0..200).map(|_| coded(rng.random_range(-1.0f32..1.0))).collect();
    let mut with = LeafBuffers::new();
    let mut without = LeafBuffers::new();
    for start in 0..10 {
        let indices: Vec<usize> = (start..start + 30).collect();
        let a = build_leaf_with_buffers(
            &ops(),
            &data,
            4,
            &indices,
            3,
            Metric::L2,
            &mut with,
            Some(4),
        );
        let b = build_leaf_with_buffers(
            &ops(),
            &data,
            4,
            &indices,
            3,
            Metric::L2,
            &mut without,
            None,
        );
        assert_eq!(a, b);
    }
    let misses = with.point_cache.misses;
    let hits = with.point_cache.hits;
    let mut quant = QuantLeafBuffers::new();
    let mut totals = CacheTotals { hits: 1, misses: 2 };
    release_thread_buffers(&mut with, &mut quant, &mut totals);
    assert_eq!((totals.hits, totals.misses), (1 + hits, 2 + misses));
    assert!(with.local_data.is_empty() && with.dist_matrix.is_empty());
    assert_eq!(with.point_cache.misses, 0);
}

#[test]
fn cache_settings() {
    assert!(point_cache_enabled(Some(b"1")));
    assert!(point_cache_enabled(Some(b"true")));
    assert!(point_cache_enabled(Some(b"TRUE")));
    assert!(point_cache_enabled(Some(b"on")));
    assert!(!point_cache_enabled(Some(b"yes")));
    assert!(!point_cache_enabled(None));
    assert_eq!(point_cache_log2(None), 11);
    assert_eq!(point_cache_log2(Some(10)), 10);
    assert_eq!(point_cache_log2(Some(99)), 11);
    assert_eq!(point_cache_size(10), 1024);
    assert_eq!(point_cache_mask(10), 1023);
    assert_eq!(
        PointCache::slot(12345, 10),
        (12345u64.wrapping_mul(0x9E37_79B9_7F4A_7C15) & 1023) as usize
    );
}

#[test]
fn bits_that_differ() {
    assert_eq!(count_differing(0b1011, 0b0110), 3);
    assert_eq!(hamming_distance(&[u64::MAX, 0], &[0, 1]), 65);
    assert_eq!(hamming_distance(&[5, 6], &[5, 6]), 0);
    assert!(QuantizedData::new(vec![1, 2, 3], 2, 64, 1).is_none());
    let q = QuantizedData::new(vec![1, 2, 3], 3, 64, 1).unwrap();
    assert_eq!((q.npoints(), q.ndims(), q.u64s_per_vec()), (3, 64, 1));
    assert_eq!(q.get_u64(2), &[3]);
    let edges = build_leaf_quantized(&q, &[0, 1, 2], 1);
    let found: Vec<(usize, usize, f32)> =
        edges.iter().map(|e| (e.src, e.dst, num(e.distance))).collect();
    assert_eq!(found, [(0, 2, 1.0), (2, 0, 1.0), (1, 2, 1.0), (2, 1, 1.0)]);
}

#[test]
fn components_become_bits() {
    let ndims = 70;
    let data: Vec<f32> = (0..140).map(|i| (i % 7) as f32 - 3.0).collect();
    let shift: Vec<f32> = (0..ndims).map(|d| (d % 3) as f32 - 1.0).collect();
    let q = quantize_1bit(&ops(), &reals(&data), 2, ndims, &reals(&shift), coded(0.5));
    assert_eq!(q.u64s_per_vec(), 2);
    let mut unlike = 0;
    for d in 0..128 {
        let mut bits = [false; 2];
        for i in 0..2 {
            let word = q.get_u64(i)[d / 64];
            bits[i] = word >> (d % 64) & 1 == 1;
            if d < ndims {
                let code =
                    ((data[i * ndims + d] - shift[d]) * 0.5).clamp(0.0, 1.0).round() as u8;
                assert_eq!(bits[i], code > 0, "vector {i}, component {d}");
            } else {
                assert!(!bits[i]);
            }
        }
        unlike += (bits[0] != bits[1]) as u32;
    }
    assert_eq!(hamming_distance(q.get_u64(0), q.get_u64(1)), unlike);
    let q = quantize_1bit(&ops(), &reals(&[f32::NAN, 1.0]), 1, 2, &reals(&[0.0; 2]), coded(0.5));
    assert_eq!(q.get_u64(0), &[2]);
}

#[test]
fn leaves_by_given_distances() {
    let points = [0.0f32, 10.0, 11.0];
    let distance = |a: usize, b: usize| coded((points[a] - points[b]).abs());
    assert!(direct_leaf_has_neighbors(3, &[0, 1, 2], 1, &distance));
    let edges = build_leaf_direct(3, &[0, 1, 2], 1, &distance);
    assert_eq!(
        pairs(&edges),
        HashSet::from([(0, 1), (1, 0), (1, 2), (2, 1)])
    );
    let far = |_: usize, _: usize| coded(f32::MAX);
    assert!(!direct_leaf_has_neighbors(3, &[0, 1, 2], 1, &far));
}
