use pipnn::arith::{Arithmetic, Operations};
use pipnn::gemm::{
    bf16_aat_full, bf16_abt, dot, sgemm_aat, sgemm_abt, squared_l2, ssyrk_aat_lower, SgemmPackedB,
};
use pipnn::linalg::{
    aligned_start, column_major_plan, gram_u8_aat_lower, gram_u8_abt, padded_len, sgemm_impl,
    u8_center_to_s8, u8_row_sums, u8s8s32_abt_raw, GemmPlan, Transpose,
};
use pipnn::number::{from_count, Real};
use rand::rngs::StdRng;
use rand::{Rng, SeedableRng};

fn coded(x: f32) -> Real {
    Real::from_bits(x.to_bits())
}

fn num(x: Real) -> f32 {
    f32::from_bits(x.to_bits())
}

fn ops() -> impl Arithmetic {
    Operations::new(
        |a: Real, b: Real| coded(num(a) + num(b)),
        |a: Real, b: Real| coded(num(a) - num(b)),
        |a: Real, b: Real| coded(num(a) * num(b)),
        |a: Real, b: Real| coded(num(a) / num(b)),
        |a: Real| coded(num(a).sqrt()),
    )
}

fn reals(xs: &[f32]) -> Vec<Real> {
    xs.iter().map(|&x| coded(x)).collect()
}

fn ref_gram_u8_full(a: &[u8], m: usize, k: usize, b: &[u8], n: usize) -> Vec<i64> {
    let mut c = vec![0i64; m * n];
    for i in 0..m {
        for j in 0..n {
            let mut s = 0i64;
            for l in 0..k {
                s += a[i * k + l] as i64 * b[j * k + l] as i64;
            }
            c[i * n + j] = s;
        }
    }
    c
}

fn rand_u8(rng: &mut StdRng, n: usize) -> Vec<u8> {
    (0..n).map(|_| rng.random::<u8>()).collect()
}

fn check_u8_syrk(m: usize, k: usize, seed: u64) {
    let mut rng = StdRng::seed_from_u64(seed);
    let a_u8 = rand_u8(&mut rng, m * k);
    let mut a_s8 = vec![0i8; m * k];
    u8_center_to_s8(&a_u8, &mut a_s8);
    let mut rowsum = vec![0i64; m];
    u8_row_sums(&a_u8, m, k, &mut rowsum);
    let mut s32 = vec![0i32; m * m];
    let mut got = vec![coded(0.0); m * m];
    gram_u8_aat_lower(&a_u8, &a_s8, m, k, &rowsum, &mut s32, &mut got);
    let reference = ref_gram_u8_full(&a_u8, m, k, &a_u8, m);
    for i in 0..m {
        for j in 0..=i {
            let exp = reference[i * m + j];
            let got_int = num(got[i * m + j]) as i64;
            assert_eq!(got_int, exp, "u8 SYRK mismatch at ({i},{j}) m={m} k={k}");
        }
    }
    for i in 0..m {
        assert_eq!(num(got[i * m + i]) as i64, reference[i * m + i], "u8 SYRK diagonal at {i}");
    }
}

#[test]
fn u8_syrk_bit_exact_full_range() {
    check_u8_syrk(64, 96, 1);
    check_u8_syrk(64, 128, 2);
    check_u8_syrk(256, 96, 3);
    check_u8_syrk(256, 128, 4);
    check_u8_syrk(512, 128, 5);
}

#[test]
fn u8_raw_s32_matches_c_harness() {
    let a_u8: [u8; 8] = [200, 10, 255, 0, 128, 128, 128, 128];
    let b_u8: [u8; 8] = [50, 60, 70, 80, 1, 2, 3, 4];
    let mut b_s8 = [0i8; 8];
    u8_center_to_s8(&b_u8, &mut b_s8);
    let mut s32 = [0i32; 4];
    u8s8s32_abt_raw(&a_u8, 2, 4, &b_s8, 2, &mut s32);
    assert_eq!(s32[0], -31070);
    assert_eq!(s32, [-31070, -58535, -32256, -64256]);
}

#[test]
fn u8_abt_bit_exact_full_range() {
    let (m, n, k) = (512usize, 256usize, 128usize);
    let mut rng = StdRng::seed_from_u64(42);
    let a_u8 = rand_u8(&mut rng, m * k);
    let b_u8 = rand_u8(&mut rng, n * k);
    let mut b_s8 = vec![0i8; n * k];
    u8_center_to_s8(&b_u8, &mut b_s8);
    let mut rowsum_a = vec![0i64; m];
    u8_row_sums(&a_u8, m, k, &mut rowsum_a);
    let mut s32 = vec![0i32; m * n];
    let mut got = vec![coded(0.0); m * n];
    gram_u8_abt(&a_u8, m, k, &b_s8, n, &rowsum_a, &mut s32, &mut got);
    let reference = ref_gram_u8_full(&a_u8, m, k, &b_u8, n);
    for i in 0..m {
        for j in 0..n {
            let exp = reference[i * n + j];
            assert_eq!(num(got[i * n + j]) as i64, exp, "u8 mismatch at ({i},{j})");
        }
    }
}

#[test]
fn u8_syrk_boundary_values() {
    let (m, k) = (8usize, 16usize);
    let pattern: [u8; 16] =
        [0, 1, 127, 128, 129, 254, 255, 200, 64, 192, 255, 0, 128, 100, 50, 255];
    let mut a_u8 = vec![0u8; m * k];
    for i in 0..m {
        for l in 0..k {
            a_u8[i * k + l] = pattern[(i + l) % 16];
        }
    }
    let mut a_s8 = vec![0i8; m * k];
    u8_center_to_s8(&a_u8, &mut a_s8);
    let mut rowsum = vec![0i64; m];
    u8_row_sums(&a_u8, m, k, &mut rowsum);
    let mut s32 = vec![0i32; m * m];
    let mut got = vec![coded(-1.0); m * m];
    gram_u8_aat_lower(&a_u8, &a_s8, m, k, &rowsum, &mut s32, &mut got);
    let reference = ref_gram_u8_full(&a_u8, m, k, &a_u8, m);
    for i in 0..m {
        for j in 0..m {
            if j <= i {
                assert_eq!(num(got[i * m + j]) as i64, reference[i * m + j], "boundary ({i},{j})");
            } else {
                assert_eq!(num(got[i * m + j]), -1.0, "the upper triangle stays");
            }
        }
    }
}

#[test]
fn row_sums_and_centering() {
    let mut sums = [0i64; 2];
    u8_row_sums(&[1, 2, 3, 255, 255, 0], 2, 3, &mut sums);
    assert_eq!(sums, [6, 510]);
    let mut s = [0i8; 4];
    u8_center_to_s8(&[0, 127, 128, 255], &mut s);
    assert_eq!(s, [-128, -1, 0, 127]);
}

#[test]
fn sgemm_matches_reference_small() {
    let a = reals(&[1.0, 2.0, 3.0, 4.0, 5.0, 6.0, 7.0, 8.0]);
    let b = reals(&[1.0, 0.0, 0.0, 0.0, 1.0, 0.0, 0.0, 0.0, 1.0, 1.0, 1.0, 1.0]);
    let mut c = reals(&[0.0; 6]);
    sgemm_impl(
        &ops(),
        Transpose::AsStored,
        Transpose::AsStored,
        2,
        3,
        4,
        coded(1.0),
        &a,
        &b,
        None,
        &mut c,
    );
    let expected = [5.0, 6.0, 7.0, 13.0, 14.0, 15.0];
    for (got, want) in c.iter().zip(expected.iter()) {
        assert!((num(*got) - want).abs() < 1e-5, "got {got:?} want {want}");
    }
}

#[test]
fn sgemm_abt_matches_reference() {
    let a = reals(&[1.0, 2.0, 3.0, 4.0, 5.0, 6.0]);
    let b = reals(&[1.0, 0.0, 0.0, 0.0, 1.0, 0.0, 0.0, 0.0, 1.0, 1.0, 1.0, 1.0]);
    let mut c = reals(&[0.0; 8]);
    sgemm_impl(
        &ops(),
        Transpose::AsStored,
        Transpose::Ordinary,
        2,
        4,
        3,
        coded(1.0),
        &a,
        &b,
        None,
        &mut c,
    );
    let expected = [1.0, 2.0, 3.0, 6.0, 4.0, 5.0, 6.0, 15.0];
    for (got, want) in c.iter().zip(expected.iter()) {
        assert!((num(*got) - want).abs() < 1e-5, "got {got:?} want {want}");
    }
}

#[test]
fn products_scale_and_accumulate() {
    let a = reals(&[1.0, 3.0, 2.0, 4.0]);
    let b = reals(&[5.0, 6.0, 7.0, 8.0]);
    let mut c = reals(&[1.0, 1.0, 1.0, 1.0]);
    // The first factor is stored transposed: rows (1, 2) and (3, 4).
    sgemm_impl(
        &ops(),
        Transpose::Ordinary,
        Transpose::AsStored,
        2,
        2,
        2,
        coded(2.0),
        &a,
        &b,
        Some(coded(10.0)),
        &mut c,
    );
    let got: Vec<f32> = c.into_iter().map(num).collect();
    assert_eq!(got, [48.0, 54.0, 96.0, 110.0]);
}

#[test]
fn column_major_plans_swap_the_factors() {
    let p = column_major_plan(Transpose::AsStored, Transpose::AsStored, 2, 3, 4, true);
    assert_eq!(p, GemmPlan { m: 3, n: 2, k: 4, lda: 3, ldb: 4, ldc: 3, flags: 16 });
    let p = column_major_plan(Transpose::Ordinary, Transpose::Ordinary, 2, 3, 4, false);
    assert_eq!(p, GemmPlan { m: 3, n: 2, k: 4, lda: 4, ldb: 2, ldc: 3, flags: 3 });
    // Read as a column-major routine would, the plan gives the row-major product.
    let (m, n, k) = (2usize, 3usize, 4usize);
    let a: Vec<i64> = (1..=8).collect();
    let b: Vec<i64> = (1..=12).map(|x| x * x).collect();
    for (at, bt) in [(false, false), (false, true), (true, false), (true, true)] {
        let t = |x: bool| if x { Transpose::Ordinary } else { Transpose::AsStored };
        let p = column_major_plan(t(at), t(bt), m, n, k, true);
        let first = |i: usize, l: usize| {
            if p.flags & 1 != 0 { b[l + i * p.lda as usize] } else { b[i + l * p.lda as usize] }
        };
        let second = |l: usize, j: usize| {
            if p.flags & 2 != 0 { a[j + l * p.ldb as usize] } else { a[l + j * p.ldb as usize] }
        };
        for r in 0..m {
            for c in 0..n {
                let got: i64 = (0..k).map(|l| first(c, l) * second(l, r)).sum();
                let want: i64 = (0..k)
                    .map(|l| {
                        let x = if at { a[l * m + r] } else { a[r * k + l] };
                        let y = if bt { b[c * k + l] } else { b[l * n + c] };
                        x * y
                    })
                    .sum();
                assert_eq!(got, want);
            }
        }
    }
}

#[test]
fn test_gemm_aat() {
    let a = reals(&[1.0, 2.0, 3.0, 4.0, 5.0, 6.0]);
    let mut result = reals(&[0.0; 4]);
    sgemm_aat(&ops(), &a, 2, 3, &mut result);
    let result: Vec<f32> = result.into_iter().map(num).collect();
    assert!((result[0] - 14.0).abs() < 1e-6);
    assert!((result[1] - 32.0).abs() < 1e-6);
    assert!((result[2] - 32.0).abs() < 1e-6);
    assert!((result[3] - 77.0).abs() < 1e-6);
}

fn row_dot(a: &[f32], b: &[f32], k: usize, i: usize, j: usize) -> f32 {
    let mut s = 0.0f32;
    for l in 0..k {
        s += a[i * k + l] * b[j * k + l];
    }
    s
}

fn rand_f32(rng: &mut StdRng, n: usize) -> Vec<f32> {
    (0..n).map(|_| rng.random::<f32>() * 2.0 - 1.0).collect()
}

#[test]
fn f32_ssyrk_matches_reference() {
    let (m, k) = (128usize, 96usize);
    let mut rng = StdRng::seed_from_u64(7);
    let a = rand_f32(&mut rng, m * k);
    let mut got = reals(&vec![0.0; m * m]);
    ssyrk_aat_lower(&ops(), &reals(&a), m, k, &mut got);
    for i in 0..m {
        for j in 0..=i {
            let s = row_dot(&a, &a, k, i, j);
            let diff = (num(got[i * m + j]) - s).abs();
            assert!(diff < 1e-3, "f32 ssyrk ({i},{j}) exp {s}");
        }
        for j in i + 1..m {
            assert_eq!(num(got[i * m + j]), 0.0, "the upper triangle stays");
        }
    }
}

#[test]
fn f32_sgemm_abt_matches_reference() {
    let (m, n, k) = (96usize, 64usize, 80usize);
    let mut rng = StdRng::seed_from_u64(11);
    let a = rand_f32(&mut rng, m * k);
    let b = rand_f32(&mut rng, n * k);
    let mut got = reals(&vec![0.0; m * n]);
    sgemm_abt(&ops(), &reals(&a), m, k, &reals(&b), n, &mut got);
    for i in 0..m {
        for j in 0..n {
            let s = row_dot(&a, &b, k, i, j);
            let diff = (num(got[i * n + j]) - s).abs();
            assert!(diff < 1e-3, "f32 sgemm ({i},{j})");
        }
    }
}

#[test]
fn sgemm_packed_b_matches_sgemm_abt() {
    let (n, k, max_m) = (256usize, 96usize, 512usize);
    let mut rng = StdRng::seed_from_u64(101);
    let b = reals(&rand_f32(&mut rng, n * k));
    let packed = SgemmPackedB::pack(&b, n, k, max_m);
    for m in [max_m, 64usize, 1usize] {
        let a = reals(&rand_f32(&mut rng, m * k));
        let mut got = reals(&vec![0.0; m * n]);
        packed.compute(&ops(), &a, m, &mut got);
        let mut reference = reals(&vec![0.0; m * n]);
        sgemm_abt(&ops(), &a, m, k, &b, n, &mut reference);
        for i in 0..m * n {
            let (x, y) = (num(got[i]), num(reference[i]));
            let diff = (x - y).abs();
            let tol = 1e-3 * (y.abs() + 1.0);
            assert!(diff < tol, "packed vs sgemm_abt at {i} m={m}: got {x} exp {y} diff {diff}");
        }
    }
}

fn f32_to_bf16(x: f32) -> u16 {
    let bits = x.to_bits();
    let lsb = (bits >> 16) & 1;
    let round = 0x7fff + lsb;
    ((bits.wrapping_add(round)) >> 16) as u16
}

fn bf16_to_f32(x: u16) -> f32 {
    f32::from_bits((x as u32) << 16)
}

#[test]
fn bf16_aat_matches_reference() {
    let (m, k) = (64usize, 128usize);
    let mut rng = StdRng::seed_from_u64(13);
    let abf: Vec<u16> = rand_f32(&mut rng, m * k).iter().map(|&v| f32_to_bf16(v)).collect();
    let arec: Vec<f32> = abf.iter().map(|&v| bf16_to_f32(v)).collect();
    let mut got = reals(&vec![0.0; m * m]);
    bf16_aat_full(&ops(), &abf, m, k, &mut got);
    for i in 0..m {
        for j in 0..=i {
            let s = row_dot(&arec, &arec, k, i, j);
            let tol = 1e-1 * (s.abs() + 1.0);
            let diff = (num(got[i * m + j]) - s).abs();
            assert!(diff < tol, "bf16 aat ({i},{j}) exp {s} diff {diff}");
            assert_eq!(got[i * m + j], got[j * m + i]);
        }
    }
}

#[test]
fn bf16_abt_matches_reference() {
    let (m, n, k) = (64usize, 48usize, 128usize);
    let mut rng = StdRng::seed_from_u64(17);
    let af = rand_f32(&mut rng, m * k);
    let bf = rand_f32(&mut rng, n * k);
    let abf: Vec<u16> = af.iter().map(|&v| f32_to_bf16(v)).collect();
    let bbf: Vec<u16> = bf.iter().map(|&v| f32_to_bf16(v)).collect();
    let arec: Vec<f32> = abf.iter().map(|&v| bf16_to_f32(v)).collect();
    let brec: Vec<f32> = bbf.iter().map(|&v| bf16_to_f32(v)).collect();
    let mut got = reals(&vec![0.0; m * n]);
    bf16_abt(&ops(), &abf, m, k, &bbf, n, &mut got);
    for i in 0..m {
        for j in 0..n {
            let s = row_dot(&arec, &brec, k, i, j);
            let tol = 1e-1 * (s.abs() + 1.0);
            let diff = (num(got[i * n + j]) - s).abs();
            assert!(diff < tol, "bf16 abt ({i},{j}) diff {diff}");
        }
    }
}

#[test]
fn dots_and_distances() {
    let o = ops();
    let a = reals(&[1.0, 2.0, 3.0]);
    let b = reals(&[4.0, 0.0, -1.0]);
    assert_eq!(num(dot(&o, &a, &b)), 1.0);
    assert_eq!(num(squared_l2(&o, &a, &b)), 29.0);
    assert_eq!(num(squared_l2(&o, &a, &a)), 0.0);
}

#[test]
fn buffers_reach_past_a_line_boundary() {
    assert_eq!(padded_len(0), 16);
    assert_eq!(padded_len(5), 18);
    assert_eq!(aligned_start(64), 0);
    assert_eq!(aligned_start(68), 15);
    assert_eq!(aligned_start(124), 1);
}

#[test]
fn counts_become_numbers() {
    for h in [0u32, 1, 2, 3, 255, 65_025, 16_777_215, 16_777_216, 16_777_217, 16_777_219, 33_554_435,
        u32::MAX - 127, u32::MAX]
    {
        assert_eq!(num(from_count(h)), h as f32, "{h}");
    }
}

#[test]
fn comparisons_are_those_of_the_format() {
    let xs = [
        f32::NEG_INFINITY,
        f32::MIN,
        -1.5,
        -f32::MIN_POSITIVE,
        -0.0,
        0.0,
        1.0e-40,
        1.0,
        f32::MAX,
        f32::INFINITY,
        f32::NAN,
        -f32::NAN,
    ];
    for x in xs {
        for y in xs {
            assert_eq!(coded(x).is_less(coded(y)), x < y, "{x} < {y}");
            assert_eq!(coded(x).is_at_most(coded(y)), x <= y, "{x} <= {y}");
        }
        assert_eq!(coded(x).is_nan(), x.is_nan());
        assert_eq!(coded(x).is_finite(), x.is_finite());
        assert_eq!(coded(x).is_zero(), x == 0.0);
        assert_eq!(coded(x).negated().to_bits(), (-x).to_bits());
        assert_eq!(coded(x).to_coarse(), (x.to_bits() >> 16) as u16);
    }
    assert_eq!(num(Real::one()), 1.0);
    assert_eq!(num(Real::zero()), 0.0);
    assert_eq!(num(Real::max_finite()), f32::MAX);
    assert_eq!(num(Real::neg_infinity()), f32::NEG_INFINITY);
    assert_eq!(num(Real::from_coarse(0x3f80)), 1.0);
}

#[test]
fn the_integer_products_stay_in_the_scratch_matrix() {
    let a_u8 = [200u8, 10, 255, 0, 128, 128, 128, 128];
    let b_s8 = [-78i8, -68, -58, -48, -127, -126, -125, -124];
    let mut s32 = [0i32; 4];
    let mut c = vec![coded(0.0); 4];
    gram_u8_abt(&a_u8, 2, 4, &b_s8, 2, &[465, 512], &mut s32, &mut c);
    assert_eq!(s32, [-31070, -58535, -32256, -64256]);
    let products: Vec<f32> = c.iter().map(|&x| num(x)).collect();
    assert_eq!(products, [28450.0, 985.0, 33280.0, 1280.0]);
    let a_s8 = [72i8, -118, 127, -128, 0, 0, 0, 0];
    let mut lower = [7i32; 4];
    let mut g = vec![coded(-1.0); 4];
    gram_u8_aat_lower(&a_u8, &a_s8, 2, 4, &[465, 512], &mut lower, &mut g);
    assert_eq!(lower, [45605, 0, -6016, 0]);
    let products: Vec<f32> = g.iter().map(|&x| num(x)).collect();
    assert_eq!(products, [105125.0, -1.0, 59520.0, 65536.0]);
}
