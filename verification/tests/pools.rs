use pipnn::arith::{Arithmetic, Operations};
use pipnn::candidate_pool::{dedup_sorted, AppendOnlyPool, BoundedPool, CandidatePool};
use pipnn::hash_prune::HashPrune;
use pipnn::knn::Edge;
use pipnn::lsh::{clamp_planes, sketch_points, LshState};
use pipnn::number::Real;
use pipnn::reservoir::{
    detect_tier, round_up_to_32, tier, CpuFeatures, OnlineHashPrune, SimdTier, L_MAX_MAX,
};
use rand::rngs::StdRng;
use rand::{Rng, SeedableRng};
use std::sync::{Arc, Mutex};

fn coded(x: f32) -> Real {
    Real::from_bits(x.to_bits())
}

fn num(x: Real) -> f32 {
    f32::from_bits(x.to_bits())
}

fn ops() -> impl Arithmetic {
    Operations::new(
        |a: Real, b: Real| coded(num(a) + num(b)),
        |a: Real, b: Real| coded(num(a) - num(b)),
        |a: Real, b: Real| coded(num(a) * num(b)),
        |a: Real, b: Real| coded(num(a) / num(b)),
        |a: Real| coded(num(a).sqrt()),
    )
}

fn reals(xs: &[f32]) -> Vec<Real> {
    xs.iter().map(|&x| coded(x)).collect()
}

fn edge(src: usize, dst: usize, d: f32) -> Edge {
    Edge { src, dst, distance: coded(d) }
}

fn plain(list: &[(u32, Real)]) -> Vec<(u32, f32)> {
    list.iter().map(|&(i, d)| (i, num(d))).collect()
}

#[test]
fn test_candidate_pool_dedup_keeps_min() {
    let mut pool = CandidatePool::new(8, 16);
    pool.add_edges_batched(&[edge(0, 5, 2.0), edge(0, 5, 1.0), edge(0, 7, 3.0)]);
    let out = pool.extract_dedupped_sorted();
    assert_eq!(plain(&out[0]), vec![(5, 1.0), (7, 3.0)], "dedup keeps min dist, sorted asc");
    assert!(out[1].is_empty());
}

#[test]
fn test_candidate_pool_bounded_evicts_farthest() {
    let mut pool = CandidatePool::new(4, 2);
    pool.add_edges_batched(&[edge(1, 10, 3.0), edge(1, 11, 1.0), edge(1, 12, 2.0)]);
    let out = pool.extract_dedupped_sorted();
    assert_eq!(out[1].len(), 2);
    assert_eq!(plain(&out[1])[0], (11, 1.0));
    assert_eq!(plain(&out[1])[1], (12, 2.0));
    assert!(!out[1].iter().any(|&(id, _)| id == 10), "farthest evicted");
}

#[test]
fn test_append_only_unbounded_dedup() {
    let mut pool = AppendOnlyPool::new(4);
    pool.add_edges_batched(&[
        edge(2, 1, 5.0),
        edge(2, 1, 4.0),
        edge(2, 3, 1.0),
        edge(2, 9, 2.0),
    ]);
    let out = pool.extract_dedupped_sorted();
    assert_eq!(plain(&out[2]), vec![(3, 1.0), (9, 2.0), (1, 4.0)]);
}

#[test]
fn a_pool_keeps_the_closest_negative_distances_too() {
    let mut pool = CandidatePool::new(1, 2);
    pool.add_edges_batched(&[edge(0, 1, -5.0), edge(0, 2, -1.0), edge(0, 3, -3.0)]);
    assert_eq!(plain(&pool.extract_dedupped_sorted()[0]), vec![(1, -5.0), (3, -3.0)]);
}

#[test]
fn a_pool_without_room_keeps_nothing() {
    let mut pool = BoundedPool::new();
    pool.insert(1, coded(1.0), 0);
    pool.insert(2, coded(-1.0), 0);
    assert!(pool.into_entries().is_empty());
}

#[test]
fn dedup_sorts_by_distance_then_neighbor() {
    let out = dedup_sorted(vec![
        (9, coded(2.0)),
        (4, coded(2.0)),
        (7, coded(1.0)),
        (9, coded(2.5)),
        (4, coded(3.0)),
    ]);
    assert_eq!(plain(&out), vec![(7, 1.0), (4, 2.0), (9, 2.0)]);
    assert!(dedup_sorted(Vec::new()).is_empty());
}

#[test]
fn a_pool_holds_the_closest_of_a_long_history() {
    let mut rng = StdRng::seed_from_u64(3);
    let history: Vec<(u32, f32)> =
        (0..500).map(|i| (i, rng.random_range(-4.0f32..4.0))).collect();
    let mut pool = BoundedPool::new();
    for &(i, d) in &history {
        pool.insert(i, coded(d), 20);
    }
    let mut kept = plain(&pool.into_entries());
    kept.sort_by(|a, b| a.1.partial_cmp(&b.1).unwrap());
    let mut all = history.clone();
    all.sort_by(|a, b| a.1.partial_cmp(&b.1).unwrap());
    assert_eq!(kept, all[..20]);
}

#[test]
fn online_fill_then_evict_farthest() {
    let mut hp = OnlineHashPrune::new(4, 4);
    hp.add_edge(2, 100, 10, coded(4.0));
    hp.add_edge(2, 200, 20, coded(3.0));
    hp.add_edge(2, 300, 30, coded(2.0));
    hp.add_edge(2, 400, 40, coded(1.0));
    hp.add_edge(2, 500, 50, coded(0.5));
    let got = hp.get_neighbors(2, 4);
    let ids: Vec<u32> = got.iter().map(|&(id, _)| id).collect();
    assert_eq!(got.len(), 4);
    assert!(!ids.contains(&100), "farthest evicted");
    assert!(ids.contains(&500));
    assert!(hp.get_neighbors(0, 4).is_empty());
}

#[test]
fn online_same_bucket_keeps_closer() {
    let mut hp = OnlineHashPrune::new(2, 8);
    hp.add_edge(1, 7, 99, coded(5.0));
    hp.add_edge(1, 8, 99, coded(2.0));
    let got = hp.get_neighbors(1, 8);
    assert_eq!(got.len(), 1, "same bucket dedups");
    assert_eq!(got[0].0, 8);
}

#[test]
fn online_concurrent_disjoint_nodes() {
    let hp = Arc::new(Mutex::new(OnlineHashPrune::new(1000, 64)));
    let lanes: Vec<usize> = (0..8).collect();
    for t in lanes {
        let hp = hp.clone();
        for n in (t..1000).step_by(8) {
            for k in 0..50u32 {
                hp.lock().unwrap().add_edge(
                    n,
                    n as u32 * 1000 + k,
                    (k % 64) as u16,
                    coded(k as f32),
                );
            }
        }
    }
    assert_eq!(hp.lock().unwrap().get_neighbors(500, 64).len(), 50);
}

#[test]
fn reservoirs_drain_from_near_to_far_in_coarse_distances() {
    let mut hp = OnlineHashPrune::new(1, 3);
    hp.add_edge(0, 1, 1, coded(3.0));
    hp.add_edge(0, 2, 2, coded(1.0 + 1.0 / 1024.0));
    hp.add_edge(0, 3, 3, coded(2.0));
    assert_eq!(plain(&hp.get_neighbors(0, 9)), vec![(2, 1.0), (3, 2.0), (1, 3.0)]);
    assert_eq!(plain(&hp.get_neighbors(0, 1)), vec![(2, 1.0)]);
    // Full: no closer than the farthest is ignored, also in a known bucket.
    hp.add_edge(0, 4, 4, coded(3.0));
    hp.add_edge(0, 5, 1, coded(3.0));
    assert_eq!(hp.get_neighbors(0, 9)[2].0, 1);
    hp.add_edge(0, 6, 1, coded(0.5));
    assert_eq!(plain(&hp.get_neighbors(0, 9)), vec![(6, 0.5), (2, 1.0), (3, 2.0)]);
    assert_eq!(hp.l_max(), 3);
    assert_eq!(hp.len(), 1);
}

#[test]
fn a_reservoir_holds_the_closest_buckets_of_a_long_history() {
    let mut rng = StdRng::seed_from_u64(5);
    let mut hp = OnlineHashPrune::new(1, 16);
    let mut best: std::collections::BTreeMap<u16, (u32, f32)> = Default::default();
    for i in 0..2000u32 {
        let hash: u16 = rng.random_range(0..64);
        let d = rng.random_range(1..200) as f32;
        hp.add_edge(0, i, hash, coded(d));
        let e = best.entry(hash).or_insert((i, d));
        if d < e.1 {
            *e = (i, d);
        }
    }
    let mut want: Vec<f32> = best.values().map(|e| e.1).collect();
    want.sort_by(|a, b| a.partial_cmp(b).unwrap());
    let got: Vec<f32> = hp.get_neighbors(0, 16).iter().map(|e| num(e.1)).collect();
    assert_eq!(got, want[..16]);
}

#[test]
fn slots_without_room_stay_empty() {
    let mut hp = OnlineHashPrune::new(2, 0);
    hp.add_edge(0, 1, 1, coded(0.0));
    assert!(hp.get_neighbors(0, 5).is_empty());
    assert_eq!(L_MAX_MAX, 128);
    assert_eq!(round_up_to_32(0), 0);
    assert_eq!(round_up_to_32(1), 32);
    assert_eq!(round_up_to_32(32), 32);
    assert_eq!(round_up_to_32(33), 64);
}

#[test]
fn instruction_sets_by_features() {
    let none = CpuFeatures { avx512f: false, avx512bw: false, avx2: false, fma: false, f16c: false };
    let some = CpuFeatures { avx2: true, fma: true, f16c: true, ..none };
    let all = CpuFeatures { avx512f: true, avx512bw: true, ..some };
    assert_eq!(detect_tier(none), SimdTier::Scalar);
    assert_eq!(detect_tier(some), SimdTier::Avx2);
    assert_eq!(detect_tier(CpuFeatures { fma: false, ..some }), SimdTier::Scalar);
    assert_eq!(detect_tier(all), SimdTier::Avx512);
    assert_eq!(detect_tier(CpuFeatures { avx512bw: false, ..all }), SimdTier::Avx2);
    let mut known = None;
    assert_eq!(tier(&mut known, some), SimdTier::Avx2);
    assert_eq!(tier(&mut known, all), SimdTier::Avx2);
}

fn hyperplanes(n: usize, seed: u64) -> Vec<Real> {
    let mut rng = StdRng::seed_from_u64(seed);
    (0..n).map(|_| coded(rng.random_range(-1.0f32..1.0))).collect()
}

#[test]
fn test_set_and_relative_hash_self_all_ones() {
    let mut lsh = LshState::new(4, 2, 8, 8, hyperplanes(8, 42));
    lsh.set_sketch(&ops(), 0, &reals(&[1.0, 0.0]));
    assert_eq!(lsh.relative_hash(&ops(), 0, 0), (1u16 << 4) - 1);
    assert_eq!(lsh.l_max(), 8);
}

#[test]
fn test_missing_sketch_returns_zero() {
    let mut lsh = LshState::new(6, 3, 4, 8, hyperplanes(18, 7));
    lsh.set_sketch(&ops(), 1, &reals(&[1.0, 2.0, 3.0]));
    assert_eq!(lsh.relative_hash(&ops(), 1, 2), 0);
    assert_eq!(lsh.relative_hash(&ops(), 1, 99), 0);
}

#[test]
fn sketches_are_written_once() {
    let o = ops();
    let mut lsh = LshState::new(2, 2, 3, 8, reals(&[1.0, 0.0, 0.0, 1.0]));
    lsh.set_sketch(&o, 0, &reals(&[0.0, 0.0]));
    lsh.set_sketch(&o, 1, &reals(&[1.0, -1.0]));
    assert_eq!(lsh.relative_hash(&o, 0, 1), 0b01);
    assert_eq!(lsh.relative_hash(&o, 1, 0), 0b10);
    lsh.set_sketch(&o, 1, &reals(&[-1.0, 1.0]));
    assert_eq!(lsh.relative_hash(&o, 0, 1), 0b01, "a second sketch is ignored");
    lsh.set_sketch(&o, 2, &reals(&[1.0]));
    assert_eq!(lsh.relative_hash(&o, 0, 2), 0, "a vector of another length is ignored");
    lsh.set_sketch(&o, 9, &reals(&[1.0, 1.0]));
    assert_eq!(clamp_planes(0), 1);
    assert_eq!(clamp_planes(7), 7);
    assert_eq!(clamp_planes(99), 16);
}

#[test]
fn hash_merge_keeps_one_candidate_per_side() {
    let o = ops();
    let data = reals(&[0.0, 1.0, 2.0, -1.0, -3.0]);
    let lsh = sketch_points(&o, &data, 5, 1, 1, 4, reals(&[1.0]));
    let mut merge = HashPrune::from_sketches(&o, lsh, 5, 4, 2);
    merge.add_edges_batched(&[
        edge(0, 2, 4.0),
        edge(0, 1, 1.0),
        edge(0, 4, 9.0),
        edge(0, 3, 1.5),
        edge(1, 0, 1.0),
    ]);
    let graph = merge.extract_graph();
    assert_eq!(graph, vec![vec![1, 3], vec![0], vec![], vec![], vec![]]);
    let full = merge.extract_graph_for_prune();
    assert_eq!(plain(&full[0]), vec![(1, 1.0), (3, 1.5)]);
}

#[test]
fn two_hashes_cover_all_planes() {
    let (planes, dims) = (7, 3);
    let full = (1u16 << planes) - 1;
    let mut rng = StdRng::seed_from_u64(5);
    let mut lsh = LshState::new(planes, dims, 6, 8, hyperplanes(planes * dims, 9));
    for p in 0..5 {
        let v: Vec<f32> = (0..dims).map(|_| rng.random_range(-2.0f32..2.0)).collect();
        lsh.set_sketch(&ops(), p, &reals(&v));
    }
    for p in 0..5 {
        assert_eq!(lsh.relative_hash(&ops(), p, p), full);
        for c in 0..5 {
            let (out, back) = (lsh.relative_hash(&ops(), p, c), lsh.relative_hash(&ops(), c, p));
            assert!(out <= full);
            assert_eq!(out | back, full);
        }
        assert_eq!(lsh.relative_hash(&ops(), p, 5), 0);
        assert_eq!(lsh.relative_hash(&ops(), 6, p), 0);
    }
}

#[test]
fn batching_does_not_change_what_a_pool_gives_out() {
    let mut rng = StdRng::seed_from_u64(3);
    let edges: Vec<Edge> = (0..200)
        .map(|_| Edge {
            src: rng.random_range(0..4),
            dst: rng.random_range(0..20),
            distance: coded(rng.random_range(-5.0f32..5.0)),
        })
        .collect();
    let run = |batches: &[&[Edge]]| {
        let mut pool = AppendOnlyPool::new(4);
        for batch in batches {
            pool.add_edges_batched(batch);
        }
        pool.extract_dedupped_sorted()
    };
    let whole = run(&[&edges]);
    let mut turned = edges.clone();
    turned.reverse();
    assert_eq!(run(&[&turned[..7], &[], &turned[7..90], &turned[90..]]), whole);
    for (s, list) in whole.iter().enumerate() {
        assert!(list.windows(2).all(|w| num(w[0].1) <= num(w[1].1)));
        for dst in 0..20u32 {
            let least = edges
                .iter()
                .filter(|e| e.src == s && e.dst == dst as usize)
                .map(|e| num(e.distance))
                .reduce(f32::min);
            let given: Vec<f32> =
                list.iter().filter(|c| c.0 == dst).map(|c| num(c.1)).collect();
            assert_eq!(given, least.into_iter().collect::<Vec<f32>>());
        }
    }
}

#[test]
fn a_refused_sketch_changes_no_hash() {
    let o = ops();
    let mut lsh = LshState::new(5, 2, 4, 8, hyperplanes(10, 1));
    lsh.set_sketch(&o, 0, &reals(&[1.0, 0.5]));
    lsh.set_sketch(&o, 1, &reals(&[-1.0, 0.25]));
    let hashes = |lsh: &LshState| -> Vec<u16> {
        (0..25).map(|x| lsh.relative_hash(&ops(), x / 5, x % 5)).collect()
    };
    let before = hashes(&lsh);
    lsh.set_sketch(&o, 4, &reals(&[3.0, 3.0]));
    lsh.set_sketch(&o, 2, &reals(&[3.0]));
    lsh.set_sketch(&o, 1, &reals(&[3.0, 3.0]));
    assert_eq!(hashes(&lsh), before);
    lsh.set_sketch(&o, 2, &reals(&[0.1, 0.2]));
    let after = hashes(&lsh);
    for p in 0..5 {
        for c in 0..5 {
            if p != 2 && c != 2 {
                assert_eq!(after[p * 5 + c], before[p * 5 + c]);
            }
        }
    }
    assert_eq!(after[2 * 5 + 2], 31);
}

#[test]
fn a_reservoir_gives_out_the_closest_buckets() {
    let mut rng = StdRng::seed_from_u64(8);
    let edges: Vec<(u32, u16, f32)> = (0..300)
        .map(|c| (c, rng.random_range(0..40u16), rng.random_range(0.0f32..9.0)))
        .collect();
    let cut = |x: f32| f32::from_bits(x.to_bits() & 0xffff_0000);
    let mut least = [f32::MAX; 40];
    for &(_, hash, dist) in &edges {
        least[hash as usize] = least[hash as usize].min(cut(dist));
    }
    let mut want: Vec<f32> = least.iter().copied().filter(|&x| x < f32::MAX).collect();
    want.sort_by(f32::total_cmp);
    for reversed in [false, true] {
        let mut hp = OnlineHashPrune::new(2, 16);
        let mut list = edges.clone();
        if reversed {
            list.reverse();
        }
        for &(c, hash, dist) in &list {
            hp.add_edge(1, c, hash, coded(dist));
            hp.add_edge(0, c, 0, coded(0.0));
        }
        for degree in [0, 5, 16, 50] {
            let got = hp.get_neighbors(1, degree);
            let dists: Vec<f32> = got.iter().map(|x| num(x.1)).collect();
            assert_eq!(dists, want[..degree.min(16)]);
            for (c, d) in got {
                assert_eq!(cut(edges[c as usize].2), num(d));
            }
        }
    }
}
