use pipnn::arith::{Arithmetic, Operations};
use pipnn::centroids::LloydMaxCentroids;
use pipnn::metric::Metric;
use pipnn::number::Real;
use pipnn::quantizer::{RotationMode, TurboQuantData, TurboQuantL2, TurboQuantQuantizer};
use pipnn::tq_codes::{
    bytes_per_vector, extract_code, is_packable, pack_codes, packed_code_bytes, tqref_from_slice,
    write_encoded, TurboQuantMeta,
};
use pipnn::tq_generation::{TQGeneration, TQGenerationContext};
use pipnn::tq_store::{
    fetch_ahead, write_lock_of, TQError, TQLoadError, TQStore, WithTurboQuant,
};
use rand::rngs::StdRng;
use rand::{Rng, SeedableRng};

const DIM: usize = 32;
const NPTS: usize = 10;
const NBITS: usize = 4;

fn coded(x: f32) -> Real {
    Real::from_bits(x.to_bits())
}

fn num(x: Real) -> f32 {
    f32::from_bits(x.to_bits())
}

fn ops() -> impl Arithmetic {
    Operations::new(
        |a: Real, b: Real| coded(num(a) + num(b)),
        |a: Real, b: Real| coded(num(a) - num(b)),
        |a: Real, b: Real| coded(num(a) * num(b)),
        |a: Real, b: Real| coded(num(a) / num(b)),
        |a: Real| coded(num(a).sqrt()),
    )
}

fn reals(xs: &[f32]) -> Vec<Real> {
    xs.iter().map(|&x| coded(x)).collect()
}

fn nums(xs: &[Real]) -> Vec<f32> {
    xs.iter().map(|&x| num(x)).collect()
}

/// The columns of a matrix of normal entries, made orthonormal.
fn random_orthogonal(dim: usize, rng: &mut StdRng) -> Vec<f32> {
    let mut m: Vec<f64> = (0..dim * dim)
        .map(|_| {
            let u1: f64 = rng.random::<f64>().max(1e-15);
            let u2: f64 = rng.random::<f64>();
            (-2.0 * u1.ln()).sqrt() * (2.0 * std::f64::consts::PI * u2).cos()
        })
        .collect();
    for j in 0..dim {
        for k in 0..j {
            let dot: f64 = (0..dim).map(|i| m[i * dim + k] * m[i * dim + j]).sum();
            for i in 0..dim {
                m[i * dim + j] -= dot * m[i * dim + k];
            }
        }
        let norm = (0..dim).map(|i| m[i * dim + j] * m[i * dim + j]).sum::<f64>().sqrt();
        if norm > 1e-10 {
            for i in 0..dim {
                m[i * dim + j] /= norm;
            }
        }
    }
    m.iter().map(|&v| v as f32).collect()
}

fn make_quantizer(dim: usize, nbits: usize, seed: u64) -> TurboQuantQuantizer {
    let mut rng = StdRng::seed_from_u64(seed);
    let rotation = reals(&random_orthogonal(dim, &mut rng));
    TurboQuantQuantizer::with_rotation(
        &ops(),
        dim,
        rotation,
        LloydMaxCentroids::new(nbits).unwrap(),
    )
}

fn make_store(metric: Metric) -> TQStore {
    TQStore::new(make_quantizer(DIM, NBITS, 42), NPTS, metric, None)
}

fn random_vector(seed: u64) -> Vec<Real> {
    let mut rng = StdRng::seed_from_u64(seed);
    let v: Vec<f32> = (0..DIM).map(|_| rng.random::<f32>() - 0.5).collect();
    let norm: f32 = v.iter().map(|x| x * x).sum::<f32>().sqrt();
    v.iter().map(|x| coded(x / norm)).collect()
}

#[test]
fn test_dim() {
    let store = make_store(Metric::L2);
    assert_eq!(store.dim(), DIM);
}

#[test]
fn test_set_and_get_vector() {
    let mut store = make_store(Metric::L2);
    let v = random_vector(1);
    store.set_vector(&ops(), 0, &v);
    let got = store.get_vector(0);
    assert_eq!(got.codes.len(), packed_code_bytes(DIM, NBITS));
    assert!(num(got.meta.norm) > 0.0);
}

#[test]
fn test_distance_computer_symmetry() {
    let mut store = make_store(Metric::L2);
    let v1 = random_vector(1);
    let v2 = random_vector(2);
    store.set_vector(&ops(), 0, &v1);
    store.set_vector(&ops(), 1, &v2);
    let dc = store.distance_computer(&ops()).unwrap();
    let r0 = store.get_vector(0);
    let r1 = store.get_vector(1);
    let d01 = num(dc.evaluate_similarity(&ops(), r0, r1));
    let d10 = num(dc.evaluate_similarity(&ops(), r1, r0));
    assert!((d01 - d10).abs() < 1e-6, "distance is not symmetric: {d01} vs {d10}");
}

#[test]
fn test_distance_computer_self_is_zero() {
    let mut store = make_store(Metric::L2);
    let v = random_vector(3);
    store.set_vector(&ops(), 0, &v);
    let dc = store.distance_computer(&ops()).unwrap();
    let r = store.get_vector(0);
    let d = num(dc.evaluate_similarity(&ops(), r, r));
    assert!(d < 1e-6, "self-distance should be ~0, got {d}");
}

#[test]
fn test_query_computer() {
    let mut store = make_store(Metric::L2);
    let v = random_vector(4);
    store.set_vector(&ops(), 0, &v);
    let query = random_vector(5);
    let qc = store.query_computer(&ops(), &query);
    let r = store.get_vector(0);
    let d = num(qc.evaluate_similarity(&ops(), r));
    assert!(d >= 0.0, "distance should be non-negative, got {d}");
}

#[test]
fn test_query_distance_is_reasonable() {
    let mut store = make_store(Metric::L2);
    let v = random_vector(6);
    store.set_vector(&ops(), 0, &v);
    let qc = store.query_computer(&ops(), &v);
    let r = store.get_vector(0);
    let d = num(qc.evaluate_similarity(&ops(), r));
    assert!(d < 0.5, "distance from a vector to its own encoding should be small, got {d}");
}

#[test]
fn turboquant_test_distance_preserves_ordering() {
    let mut store = make_store(Metric::L2);
    let query = random_vector(100);
    let mut vectors: Vec<Vec<Real>> = Vec::new();
    for i in 0..8 {
        let v = random_vector(200 + i);
        store.set_vector(&ops(), i as usize, &v);
        vectors.push(v);
    }
    let qc = store.query_computer(&ops(), &query);
    let mut true_dists: Vec<(usize, f32)> = Vec::new();
    let mut approx_dists: Vec<(usize, f32)> = Vec::new();
    for i in 0..8 {
        let true_l2: f32 = query
            .iter()
            .zip(vectors[i].iter())
            .map(|(a, b)| (num(*a) - num(*b)) * (num(*a) - num(*b)))
            .sum();
        true_dists.push((i, true_l2));
        let r = store.get_vector(i);
        approx_dists.push((i, num(qc.evaluate_similarity(&ops(), r))));
    }
    true_dists.sort_by(|a, b| a.1.partial_cmp(&b.1).unwrap());
    approx_dists.sort_by(|a, b| a.1.partial_cmp(&b.1).unwrap());
    let nearest_true = true_dists[0].0;
    let top3_approx: Vec<usize> = approx_dists.iter().take(3).map(|x| x.0).collect();
    assert!(
        top3_approx.contains(&nearest_true),
        "true nearest neighbor {nearest_true} not in approx top-3: {:?}",
        top3_approx,
    );
}

#[test]
fn test_unsupported_metric() {
    let store = make_store(Metric::Cosine);
    let err = store.distance_computer(&ops()).unwrap_err();
    match err {
        TQError::UnsupportedDistanceMetric(Metric::Cosine) => {}
        _ => panic!("expected UnsupportedDistanceMetric error"),
    }
}

#[test]
fn test_set_raw_vector() {
    let mut store = make_store(Metric::L2);
    let bpv = bytes_per_vector(DIM, NBITS);
    let raw = vec![1u8; bpv];
    store.set_raw_vector(0, &raw);
    let slice = store.get_data(0);
    assert_eq!(&slice[..bpv], raw.as_slice());
    assert_eq!(store.get_data(1), vec![0u8; bpv]);
}

#[test]
fn test_bytes_per_vector() {
    assert_eq!(bytes_per_vector(32, 4), 24);
    assert_eq!(bytes_per_vector(128, 4), 72);
    assert_eq!(bytes_per_vector(32, 2), 16);
    assert_eq!(bytes_per_vector(128, 2), 40);
    assert_eq!(bytes_per_vector(32, 8), 40);
}

#[test]
fn test_pack_and_extract_codes() {
    let codes = [3u8, 1, 4, 2, 15, 0, 7, 9];
    let packed = pack_codes(&codes, 4);
    assert_eq!(packed.len(), 4);
    for (i, &expected) in codes.iter().enumerate() {
        assert_eq!(extract_code(&packed, i, 4), expected, "4-bit code {i} mismatch");
    }
    let codes2 = [0u8, 1, 2, 3, 1, 0, 3, 2];
    let packed2 = pack_codes(&codes2, 2);
    assert_eq!(packed2.len(), 2);
    for (i, &expected) in codes2.iter().enumerate() {
        assert_eq!(extract_code(&packed2, i, 2), expected, "2-bit code {i} mismatch");
    }
}

#[test]
fn test_tqref_roundtrip() {
    let dim = 4;
    let nbits = NBITS;
    let mut buf = vec![0u8; bytes_per_vector(dim, nbits)];
    let codes = [3u8, 1, 4, 2];
    let norm: f32 = 1.5;
    let qns: f32 = 2.25;
    write_encoded(&mut buf, dim, nbits, &codes, coded(norm), coded(qns));
    let r = tqref_from_slice(&buf, dim, nbits);
    for (i, &expected) in codes.iter().enumerate() {
        assert_eq!(extract_code(r.codes, i, nbits), expected, "code {i} mismatch");
    }
    assert!((num(r.meta.norm) - norm).abs() < 1e-7);
    assert!((num(r.meta.quant_norm_sq) - qns).abs() < 1e-7);
}

#[test]
fn codes_share_bytes_lowest_first() {
    assert_eq!(pack_codes(&[1, 0, 1, 1, 0, 0, 0, 1, 1], 1), [0b1000_1101, 1]);
    assert_eq!(pack_codes(&[1, 2, 3], 2), [0b11_10_01]);
    assert_eq!(pack_codes(&[0xa, 0xb, 0xc], 4), [0xba, 0x0c]);
    assert_eq!(pack_codes(&[200, 3], 8), [200, 3]);
    assert!(is_packable(4) && !is_packable(3));
    for nbits in [1usize, 2, 4, 8] {
        let codes: Vec<u8> =
            (0..37u32).map(|i| (i * 29 % 251 % (1 << nbits)) as u8).collect();
        let packed = pack_codes(&codes, nbits);
        assert_eq!(packed.len(), packed_code_bytes(37, nbits));
        for (i, &c) in codes.iter().enumerate() {
            assert_eq!(extract_code(&packed, i, nbits), c);
        }
    }
}

fn plain_distance(a: &[f32], b: &[f32]) -> f32 {
    a.iter().zip(b).map(|(x, y)| (x - y) * (x - y)).sum()
}

#[test]
fn all_components_count_in_code_distances() {
    // Dimensions that fill no whole number of blocks.
    for dim in [3usize, 17, 33] {
        for nbits in [1usize, 2, 4] {
            let mut store =
                TQStore::new(make_quantizer(dim, nbits, 7), 2, Metric::L2, Some(1));
            let a: Vec<f32> = (0..dim).map(|i| (i as f32 * 0.7).sin()).collect();
            let b: Vec<f32> = (0..dim).map(|i| (i as f32 * 1.3).cos()).collect();
            store.set_vector(&ops(), 0, &reals(&a));
            store.set_vector(&ops(), 1, &reals(&b));
            let q = make_quantizer(dim, nbits, 7);
            let da = nums(&q.decode(&ops(), &q.encode(&ops(), &reals(&a))));
            let db = nums(&q.decode(&ops(), &q.encode(&ops(), &reals(&b))));
            let dc = store.distance_computer(&ops()).unwrap();
            let got =
                num(dc.evaluate_similarity(&ops(), store.get_vector(0), store.get_vector(1)));
            let want = plain_distance(&da, &db);
            assert!((got - want).abs() < 1e-3 * (1.0 + want), "{got} {want}");
            let qc = store.query_computer(&ops(), &reals(&b));
            let got = num(qc.evaluate_similarity(&ops(), store.get_vector(0)));
            let want = plain_distance(&da, &b);
            assert!((got - want).abs() < 1e-3 * (1.0 + want), "{got} {want}");
            let by_code = num(q.distance_encoded_l2_squared(
                &ops(),
                &q.encode(&ops(), &reals(&a)),
                &q.encode(&ops(), &reals(&b)),
            ));
            assert!((by_code - plain_distance(&da, &db)).abs() < 1e-3 * (1.0 + by_code));
        }
    }
}

#[test]
fn stores_are_made_to_measure() {
    let store = WithTurboQuant::new(make_quantizer(DIM, NBITS, 1)).create(5, Metric::L2, None);
    assert_eq!(store.total(), 5);
    assert_eq!(store.prefetch_lookahead(), 8);
    let with = WithTurboQuant::new(make_quantizer(DIM, 2, 1));
    assert_eq!(with.quantizer().nbits(), 2);
    assert_eq!(with.create(5, Metric::L2, Some(3)).prefetch_lookahead(), 3);
    assert_eq!(fetch_ahead(2, 3, 6), Some(5));
    assert_eq!(fetch_ahead(3, 3, 6), None);
    assert_eq!(fetch_ahead(3, 0, 6), None);
    assert_eq!(write_lock_of(33), 2);
}

#[test]
fn test_1bit_centroids_match_paper() {
    let c = LloydMaxCentroids::new(1).unwrap();
    assert_eq!(c.num_levels(), 2);
    let expected = (2.0_f32 / std::f32::consts::PI).sqrt();
    assert!((num(c.centroids()[0]) - (-expected)).abs() < 1e-6);
    assert!((num(c.centroids()[1]) - expected).abs() < 1e-6);
}

#[test]
fn test_2bit_centroids_match_paper() {
    let c = LloydMaxCentroids::new(2).unwrap();
    assert_eq!(c.num_levels(), 4);
    assert!((num(c.centroids()[0]) - (-1.5104)).abs() < 0.001);
    assert!((num(c.centroids()[1]) - (-0.4528)).abs() < 0.001);
    assert!((num(c.centroids()[2]) - 0.4528).abs() < 0.001);
    assert!((num(c.centroids()[3]) - 1.5104).abs() < 0.001);
}

fn normal_pdf(x: f64) -> f64 {
    0.3989422804014327 * (-0.5 * x * x).exp()
}

fn erf(x: f64) -> f64 {
    let sign = if x >= 0.0 { 1.0 } else { -1.0 };
    let x = x.abs();
    let t = 1.0 / (1.0 + 0.3275911 * x);
    let y = 1.0
        - (((((1.061405429 * t - 1.453152027) * t) + 1.421413741) * t - 0.284496736) * t
            + 0.254829592)
            * t
            * (-x * x).exp();
    sign * y
}

fn normal_cdf(x: f64) -> f64 {
    0.5 * (1.0 + erf(x / std::f64::consts::SQRT_2))
}

/// Tables by alternating midpoints and conditional means of the normal distribution, to hold the
/// fixed ones against.
fn compute(nbits: usize) -> LloydMaxCentroids {
    let n = 1usize << nbits;
    let mut centroids: Vec<f64> =
        (0..n).map(|i| -4.0 + 8.0 * (i as f64 + 0.5) / n as f64).collect();
    let mut boundaries: Vec<f64> = vec![0.0; n + 1];
    boundaries[0] = f64::NEG_INFINITY;
    boundaries[n] = f64::INFINITY;
    for _ in 0..1000 {
        let old = centroids.clone();
        for i in 1..n {
            boundaries[i] = (centroids[i - 1] + centroids[i]) / 2.0;
        }
        for i in 0..n {
            let (lo, hi) = (boundaries[i], boundaries[i + 1]);
            let prob = normal_cdf(hi) - normal_cdf(lo);
            if prob < 1e-15 {
                continue;
            }
            let density = |x: f64| if x.is_finite() { normal_pdf(x) } else { 0.0 };
            centroids[i] = (density(lo) - density(hi)) / prob;
        }
        let change =
            centroids.iter().zip(&old).map(|(a, b)| (a - b).abs()).fold(0.0f64, f64::max);
        if change < 1e-12 {
            break;
        }
    }
    let narrow = |xs: &[f64]| -> Vec<Real> { xs.iter().map(|&x| coded(x as f32)).collect() };
    LloydMaxCentroids::from_tables(narrow(&centroids), narrow(&boundaries[1..n]), nbits).unwrap()
}

#[test]
fn test_computed_matches_precomputed() {
    for nbits in 1..=4 {
        let precomputed = LloydMaxCentroids::new(nbits).unwrap();
        let computed = compute(nbits);
        assert_eq!(precomputed.num_levels(), computed.num_levels());
        for (a, b) in nums(precomputed.centroids()).iter().zip(nums(computed.centroids())) {
            assert!(
                (a - b).abs() < 1e-4,
                "nbits={nbits}: precomputed {a} != computed {b}"
            );
        }
    }
}

#[test]
fn test_centroids_are_sorted() {
    for nbits in 1..=4 {
        let c = LloydMaxCentroids::new(nbits).unwrap();
        let centroids = nums(c.centroids());
        for i in 1..c.num_levels() {
            assert!(
                centroids[i] > centroids[i - 1],
                "centroids not sorted at nbits={nbits}"
            );
        }
    }
}

#[test]
fn test_centroids_are_symmetric() {
    for nbits in 1..=4 {
        let c = LloydMaxCentroids::new(nbits).unwrap();
        let centroids = nums(c.centroids());
        let n = c.num_levels();
        for i in 0..n / 2 {
            assert!(
                (centroids[i] + centroids[n - 1 - i]).abs() < 1e-6,
                "centroids not symmetric at nbits={nbits}, i={i}"
            );
        }
    }
}

#[test]
fn test_quantize_basic() {
    let c = LloydMaxCentroids::new(2).unwrap();
    assert_eq!(c.quantize(coded(-3.0)), 0);
    assert_eq!(c.quantize(coded(-0.2)), 1);
    assert_eq!(c.quantize(coded(0.2)), 2);
    assert_eq!(c.quantize(coded(3.0)), 3);
}

#[test]
fn test_quantize_at_boundaries() {
    let c = LloydMaxCentroids::new(2).unwrap();
    assert_eq!(c.quantize(coded(0.0)), 1);
    assert_eq!(c.quantize(coded(0.001)), 2);
    assert_eq!(c.quantize(coded(f32::NAN)), 0);
}

#[test]
fn test_centroid_lookup() {
    let c = LloydMaxCentroids::new(2).unwrap();
    for i in 0..4 {
        assert_eq!(c.centroid(i), c.centroids()[i as usize]);
        assert_eq!(
            num(c.centroid_scaled(&ops(), i, coded(0.25))),
            num(c.centroids()[i as usize]) * 0.25
        );
    }
}

#[test]
fn test_mse_distortion_matches_paper() {
    let expected_mse = [0.3634, 0.1175, 0.03454, 0.009497];
    for nbits in 1..=4usize {
        let c = LloydMaxCentroids::new(nbits).unwrap();
        let n = 1_000_000;
        let dx = 12.0 / n as f64;
        let mut mse = 0.0f64;
        for i in 0..n {
            let x = -6.0 + (i as f64 + 0.5) * dx;
            let pdf = normal_pdf(x);
            let code = c.quantize(coded(x as f32));
            let recon = num(c.centroid(code)) as f64;
            mse += (x - recon) * (x - recon) * pdf * dx;
        }
        assert!(
            (mse - expected_mse[nbits - 1] as f64).abs() < 0.002,
            "nbits={nbits}: MSE {mse:.6} vs expected {:.6}",
            expected_mse[nbits - 1]
        );
    }
}

#[test]
fn tables_of_other_widths_are_handed_in() {
    assert!(LloydMaxCentroids::new(0).is_none());
    assert!(LloydMaxCentroids::new(5).is_none());
    assert!(LloydMaxCentroids::from_tables(reals(&[1.0]), reals(&[1.0]), 1).is_none());
    let c = compute(6);
    assert_eq!((c.nbits(), c.num_levels(), c.boundaries().len()), (6, 64, 63));
    let mut last = 0;
    for i in -400..400 {
        let code = c.quantize(coded(i as f32 * 0.01));
        assert!(code >= last, "codes keep order");
        last = code;
    }
    assert_eq!(last, 63);
}

#[test]
fn test_rotation_is_orthogonal() {
    let q = make_quantizer(16, 2, 42);
    let m = nums(q.rotation_matrix());
    let dim = q.dim();
    for i in 0..dim {
        for j in 0..dim {
            let mut dot = 0.0f32;
            for k in 0..dim {
                dot += m[i * dim + k] * m[j * dim + k];
            }
            let expected = if i == j { 1.0 } else { 0.0 };
            assert!(
                (dot - expected).abs() < 1e-4,
                "M·Mᵀ[{i},{j}] = {dot}, expected {expected}"
            );
        }
    }
}

#[test]
fn test_rotation_preserves_norms() {
    let q = make_quantizer(32, 2, 123);
    let x: Vec<f32> = (0..32).map(|i| (i as f32 + 1.0) / 32.0).collect();
    let norm_x: f32 = x.iter().map(|v| v * v).sum::<f32>().sqrt();
    let y = nums(&q.rotate_query(&ops(), &reals(&x)));
    let norm_y: f32 = y.iter().map(|v| v * v).sum::<f32>().sqrt();
    assert!(
        (norm_x - norm_y).abs() < 1e-4,
        "Rotation changed norm: {norm_x} -> {norm_y}"
    );
}

#[test]
fn test_encode_decode_roundtrip() {
    let q = make_quantizer(64, 4, 456);
    let x: Vec<f32> = (0..64).map(|i| ((i as f32) * 0.1).sin()).collect();
    let norm: f32 = x.iter().map(|v| v * v).sum::<f32>().sqrt();
    let encoded = q.encode(&ops(), &reals(&x));
    assert_eq!(encoded.codes.len(), 64);
    assert!((num(encoded.norm) - norm).abs() < 1e-5);
    let decoded = nums(&q.decode(&ops(), &encoded));
    assert_eq!(decoded.len(), 64);
    let l2_error: f32 = x.iter().zip(decoded.iter()).map(|(a, b)| (a - b) * (a - b)).sum();
    let relative_error = l2_error / (norm * norm);
    assert!(
        relative_error < 0.1,
        "Reconstruction error too high: relative_error={relative_error}"
    );
}

fn unit_vec(rng: &mut StdRng, dim: usize) -> Vec<f32> {
    let v: Vec<f32> = (0..dim).map(|_| rng.random::<f32>() - 0.5).collect();
    let norm: f32 = v.iter().map(|x| x * x).sum::<f32>().sqrt();
    v.iter().map(|x| x / norm).collect()
}

#[test]
fn test_distance_accuracy() {
    let q = make_quantizer(128, 4, 789);
    let mut rng = StdRng::seed_from_u64(789);
    let x = unit_vec(&mut rng, 128);
    let y = unit_vec(&mut rng, 128);
    let true_l2 = plain_distance(&x, &y);
    let encoded_x = q.encode(&ops(), &reals(&x));
    let rotated_y = q.rotate_query(&ops(), &reals(&y));
    let y_norm_sq: f32 = y.iter().map(|v| v * v).sum();
    let approx_l2 =
        num(q.distance_l2_squared(&ops(), &rotated_y, coded(y_norm_sq), &encoded_x));
    let relative_error = (approx_l2 - true_l2).abs() / true_l2;
    assert!(
        relative_error < 0.3,
        "Distance error too high: true={true_l2}, approx={approx_l2}, rel_err={relative_error}"
    );
}

#[test]
fn test_encode_zero_vector() {
    let q = make_quantizer(16, 2, 42);
    let encoded = q.encode(&ops(), &reals(&[0.0f32; 16]));
    assert!(num(encoded.norm) < 1e-8);
}

#[test]
fn test_inner_product_accuracy() {
    let q = make_quantizer(64, 4, 555);
    let mut rng = StdRng::seed_from_u64(555);
    let x = unit_vec(&mut rng, 64);
    let y = unit_vec(&mut rng, 64);
    let true_ip: f32 = x.iter().zip(y.iter()).map(|(a, b)| a * b).sum();
    let encoded_x = q.encode(&ops(), &reals(&x));
    let rotated_y = q.rotate_query(&ops(), &reals(&y));
    let approx_ip = num(q.inner_product(&ops(), &rotated_y, &encoded_x));
    let error = (approx_ip - true_ip).abs();
    assert!(
        error < 0.2,
        "IP error too high: true={true_ip}, approx={approx_ip}, error={error}"
    );
}

#[test]
fn quantizer_test_distance_preserves_ordering() {
    let q = make_quantizer(64, 4, 999);
    let mut rng = StdRng::seed_from_u64(999);
    let query = unit_vec(&mut rng, 64);
    let mut pairs: Vec<(f32, f32)> = Vec::new();
    for _ in 0..50 {
        let x = unit_vec(&mut rng, 64);
        let true_l2 = plain_distance(&query, &x);
        let encoded = q.encode(&ops(), &reals(&x));
        let rotated_q = q.rotate_query(&ops(), &reals(&query));
        let q_norm_sq: f32 = query.iter().map(|v| v * v).sum();
        let approx_l2 =
            num(q.distance_l2_squared(&ops(), &rotated_q, coded(q_norm_sq), &encoded));
        pairs.push((true_l2, approx_l2));
    }
    pairs.sort_by(|a, b| a.0.partial_cmp(&b.0).unwrap());
    let mut concordant = 0;
    let mut discordant = 0;
    for i in 0..pairs.len() {
        for j in (i + 1)..pairs.len() {
            let true_order = pairs[i].0 < pairs[j].0;
            let approx_order = pairs[i].1 < pairs[j].1;
            if true_order == approx_order {
                concordant += 1;
            } else {
                discordant += 1;
            }
        }
    }
    let tau = (concordant as f64 - discordant as f64) / (concordant + discordant) as f64;
    assert!(tau > 0.7, "Distance ordering poorly preserved: Kendall tau = {tau}");
}

#[test]
fn test_different_bit_widths() {
    for nbits in 1..=4 {
        let q = make_quantizer(32, nbits, 42);
        let x: Vec<f32> = (0..32).map(|i| (i as f32 * 0.3).sin()).collect();
        let encoded = q.encode(&ops(), &reals(&x));
        assert_eq!(encoded.codes.len(), 32);
        let max_code = (1u16 << nbits) - 1;
        for &c in &encoded.codes {
            assert!(
                (c as u16) <= max_code,
                "Code {c} exceeds max {max_code} for {nbits} bits"
            );
        }
        assert_eq!(q.code_bytes_per_vector(), 32);
        assert_eq!(q.total_bytes_per_vector(), 40);
    }
}

#[test]
fn test_turbo_quant_data_roundtrip() {
    let codes = vec![0, 1, 2, 3, 2, 1, 0, 3];
    let mut data = TurboQuantData::new(codes.clone(), coded(1.5), coded(2.25));
    assert_eq!(data.codes(), &codes);
    assert_eq!(num(data.meta().norm), 1.5);
    assert_eq!(num(data.meta().quant_norm_sq), 2.25);
    let r = data.as_ref();
    assert_eq!(r.codes, &codes);
    assert_eq!(num(r.meta.norm), 1.5);
    data.as_mut().codes[0] = 9;
    assert_eq!(data.codes()[0], 9);
}

#[test]
fn test_turbo_quant_l2_zero_distance() {
    let centroids = LloydMaxCentroids::new(2).unwrap();
    let l2 = TurboQuantL2::new(&ops(), LloydMaxCentroids::new(2).unwrap(), 4);
    let codes = vec![0, 1, 2, 3];
    let inv_sqrt_d = 1.0 / 2.0;
    let recon: Vec<f32> =
        codes.iter().map(|&c| num(centroids.centroid(c)) * inv_sqrt_d).collect();
    let norm = 1.0;
    let recon_scaled: Vec<f32> = recon.iter().map(|&v| v * norm).collect();
    let quant_norm_sq: f32 = recon_scaled.iter().map(|v| v * v).sum();
    let query_norm_sq: f32 = recon_scaled.iter().map(|v| v * v).sum();
    let meta = TurboQuantMeta { norm: coded(norm), quant_norm_sq: coded(quant_norm_sq) };
    let dist =
        num(l2.evaluate(&ops(), &reals(&recon_scaled), coded(query_norm_sq), &codes, &meta));
    assert!(dist < 1e-4, "Distance to self should be ~0, got {dist}");
}

#[test]
fn compressed_rows_hold_codes_and_numbers() {
    let stage =
        TQGeneration::new_at_stage(TQGenerationContext { quantizer: make_quantizer(6, 2, 3) });
    assert_eq!(stage.compressed_bytes(), 2 + 8);
    let rows: Vec<f32> = (0..12).map(|i| (i as f32 * 0.9).sin()).collect();
    let out = stage.compress(&ops(), &reals(&rows), 2);
    assert_eq!(out.len(), 20);
    let q = make_quantizer(6, 2, 3);
    for r in 0..2 {
        let e = q.encode(&ops(), &reals(&rows[r * 6..(r + 1) * 6]));
        let record = &out[r * 10..(r + 1) * 10];
        assert_eq!(&record[..2], pack_codes(&e.codes, 2).as_slice());
        assert_eq!(&record[2..6], &num(e.norm).to_le_bytes());
        assert_eq!(&record[6..10], &num(e.quant_norm_sq).to_le_bytes());
    }
    assert_eq!(TQGeneration::packed_code_bytes(9, 3), 4);
    assert_eq!(TQGeneration::total_bytes(9, 3), 12);
    // 1 + 2 * 8 + 3 * 64, in two bytes.
    assert_eq!(TQGeneration::pack_codes(&[1, 2, 3], 3), [209, 0]);
    assert_eq!(TQGeneration::pack_codes(&[1, 2, 3], 8), [1, 2, 3]);
    assert_eq!(TQGeneration::pack_codes(&[], 3), [0u8; 0]);
}

#[test]
fn compressed_codes_leave_no_gap_at_any_width() {
    for (dim, nbits) in [(8, 3), (1, 3), (5, 3), (7, 1), (6, 2), (3, 4)] {
        let q = make_quantizer(dim, nbits, 3);
        let stage = TQGeneration::new_at_stage(TQGenerationContext {
            quantizer: make_quantizer(dim, nbits, 3),
        });
        let code_bytes = (dim * nbits + 7) / 8;
        assert_eq!(stage.compressed_bytes(), code_bytes + 8);
        let v: Vec<f32> = (0..dim).map(|i| (i as f32 * 1.7 + 0.4).sin()).collect();
        let out = stage.compress(&ops(), &reals(&v), 1);
        assert_eq!(out.len(), code_bytes + 8);
        let e = q.encode(&ops(), &reals(&v));
        let bit = |b: usize| (out[b / 8] >> (b % 8)) & 1;
        for (i, &code) in e.codes.iter().enumerate() {
            let stored = (0..nbits).map(|t| bit(i * nbits + t) << t).sum::<u8>();
            assert_eq!(stored, code, "code {i} of width {nbits}");
        }
        for b in dim * nbits..code_bytes * 8 {
            assert_eq!(bit(b), 0, "a bit past the last code");
        }
        assert_eq!(&out[code_bytes..code_bytes + 4], &num(e.norm).to_le_bytes());
        assert_eq!(&out[code_bytes + 4..], &num(e.quant_norm_sq).to_le_bytes());
    }
}

#[test]
fn rotated_rows_are_compressed_like_those_a_matrix_rotates() {
    let dim = 5;
    let mut identity = vec![0.0f32; dim * dim];
    for i in 0..dim {
        identity[i * dim + i] = 1.0;
    }
    let tables = || LloydMaxCentroids::new(3).unwrap();
    let dense = TQGeneration::new_at_stage(TQGenerationContext {
        quantizer: TurboQuantQuantizer::with_rotation(&ops(), dim, reals(&identity), tables()),
    });
    let fast = TQGeneration::new_at_stage(TQGenerationContext {
        quantizer: TurboQuantQuantizer::new_hadamard(&ops(), dim, tables()),
    });
    let rows = reals(&[0.3, -0.1, 0.7, 0.2, -0.9, 1.4, 0.0, -0.6, 0.5, 0.1]);
    let want = dense.compress(&ops(), &rows, 2);
    assert_eq!(fast.compress_rotated(&ops(), &rows, &rows, 2), want);
    assert_eq!(want.len(), 2 * (2 + 8));
}

#[test]
fn codes_belong_to_the_nearest_centroid() {
    for nbits in 1..=4usize {
        let c = LloydMaxCentroids::new(nbits).unwrap();
        let values: Vec<f64> = c.centroids().iter().map(|&x| num(x) as f64).collect();
        for i in -5000..=5000 {
            let x = i as f32 * 0.001;
            let code = c.quantize(coded(x)) as usize;
            let gap = (x as f64 - values[code]).abs();
            assert!(values.iter().all(|v| gap <= (x as f64 - v).abs()), "{nbits} bits, {x}");
        }
    }
    // A boundary gets the lower code, also where it was rounded up beyond the midpoint.
    for nbits in 1..=4usize {
        let c = LloydMaxCentroids::new(nbits).unwrap();
        let values: Vec<f64> = c.centroids().iter().map(|&x| num(x) as f64).collect();
        for (i, &b) in c.boundaries().iter().enumerate() {
            assert_eq!(c.quantize(b) as usize, i);
            let gap = (num(b) as f64 - values[i]).abs();
            assert!(values.iter().all(|v| gap <= (num(b) as f64 - v).abs() + 1e-6));
        }
    }
    let c = LloydMaxCentroids::new(2).unwrap();
    let b = c.boundaries()[0];
    assert_eq!(b.to_bits(), 0xbf7b_4a0f);
    assert_eq!(c.quantize(b), 0);
    let gap = |i: usize| (num(b) as f64 - num(c.centroids()[i]) as f64).abs();
    assert!(gap(1) < gap(0) && gap(0) - gap(1) < 1e-7);
}

#[test]
fn stores_read_back_what_they_saved() {
    let mut store = make_store(Metric::L2);
    for i in 0..NPTS {
        store.set_vector(&ops(), i, &random_vector(i as u64));
    }
    let file = store.save();
    assert_eq!(&file[..4], &(NPTS as u32).to_le_bytes());
    assert_eq!(&file[4..8], &(bytes_per_vector(DIM, NBITS) as u32).to_le_bytes());
    let quantizer = || make_quantizer(DIM, NBITS, 42);
    let back = TQStore::load(&file, quantizer(), Metric::L2, Some(2)).unwrap();
    assert_eq!((back.total(), back.dim(), back.prefetch_lookahead()), (NPTS, DIM, 2));
    for i in 0..NPTS {
        assert_eq!(back.get_data(i), store.get_data(i));
    }
    let short = TQStore::load(&file[..file.len() - 1], quantizer(), Metric::L2, None);
    assert_eq!(short.err(), Some(TQLoadError::Truncated));
    let none = TQStore::load(&file[..7], quantizer(), Metric::L2, None);
    assert_eq!(none.err(), Some(TQLoadError::Truncated));
    let other = TQStore::load(&file, make_quantizer(DIM, 2, 42), Metric::L2, None);
    assert_eq!(other.err(), Some(TQLoadError::RecordSize { expected: 16, actual: 24 }));
}

#[test]
fn vectors_come_in_the_order_asked_for() {
    let mut store = make_store(Metric::L2);
    for i in 0..NPTS {
        store.set_vector(&ops(), i, &random_vector(i as u64));
    }
    let got = store.get_vectors(&[7, 0, 7]);
    assert_eq!(got.len(), 3);
    for (r, i) in got.iter().zip([7, 0, 7]) {
        let alone = store.get_vector(i);
        assert_eq!((r.codes, r.meta), (alone.codes, alone.meta));
    }
}

#[test]
fn rotated_vectors_can_be_handed_in() {
    let dim = 6;
    let mut identity = vec![0.0f32; dim * dim];
    for i in 0..dim {
        identity[i * dim + i] = 1.0;
    }
    let tables = || LloydMaxCentroids::new(4).unwrap();
    let dense = TurboQuantQuantizer::with_rotation(&ops(), dim, reals(&identity), tables());
    let fast = TurboQuantQuantizer::new_hadamard(&ops(), dim, tables());
    assert!(matches!(dense.rotation(), RotationMode::DenseMatrix(_)));
    assert!(matches!(fast.rotation(), RotationMode::Hadamard));
    let x = reals(&[0.3, -0.1, 0.7, 0.2, -0.9, 0.4]);
    let a = dense.encode(&ops(), &x);
    let b = fast.encode_rotated(&ops(), &x, &x);
    assert_eq!(a.codes, b.codes);
    assert_eq!((a.norm, a.quant_norm_sq), (b.norm, b.quant_norm_sq));
    let reconstruction = nums(&fast.decode_rotated(&ops(), &b));
    assert_eq!(nums(&dense.decode(&ops(), &a)), reconstruction);
    for (value, code) in reconstruction.iter().zip(&b.codes) {
        let want = num(tables().centroid(*code)) * (1.0 / 6.0f32.sqrt()) * num(b.norm);
        assert_eq!(*value, want);
    }
    // A rotation that turns the components round is undone by turning them round again.
    let turn = |y: &[Real]| -> Vec<Real> { y.iter().rev().copied().collect() };
    let turned = fast.encode_rotated(&ops(), &x, &turn(&x));
    assert_eq!(
        nums(&fast.decode_with(&ops(), &turned, &turn)),
        nums(&dense.decode(&ops(), &a))
    );
    let mut one = TQStore::new(dense, 2, Metric::L2, None);
    let mut two = TQStore::new(fast, 2, Metric::L2, None);
    one.set_vector(&ops(), 1, &x);
    two.set_rotated_vector(&ops(), 1, &x, &x);
    assert_eq!(one.get_data(1), two.get_data(1));
    let q = reals(&[0.1, 0.2, 0.3, 0.4, 0.5, 0.6]);
    let d1 = one.query_computer(&ops(), &q).evaluate_similarity(&ops(), one.get_vector(1));
    let d2 = two
        .rotated_query_computer(&ops(), q.clone())
        .evaluate_similarity(&ops(), two.get_vector(1));
    assert_eq!(d1, d2);
}
