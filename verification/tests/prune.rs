use pipnn::arith::{Arithmetic, Operations};
use pipnn::ladder::alpha_ladder;
use pipnn::number::Real;
use pipnn::prune::{
    final_prune_from_candidates, final_robust_prune, robust_prune_candidates, robust_prune_occlude,
    single_pass_prune,
};

fn coded(x: f32) -> Real {
    Real::from_bits(x.to_bits())
}

fn num(x: Real) -> f32 {
    f32::from_bits(x.to_bits())
}

fn ops() -> impl Arithmetic {
    Operations::new(
        |a: Real, b: Real| coded(num(a) + num(b)),
        |a: Real, b: Real| coded(num(a) - num(b)),
        |a: Real, b: Real| coded(num(a) * num(b)),
        |a: Real, b: Real| coded(num(a) / num(b)),
        |a: Real| coded(num(a).sqrt()),
    )
}

fn reals(xs: &[f32]) -> Vec<Real> {
    xs.iter().map(|&x| coded(x)).collect()
}

fn l2(a: &[Real], b: &[Real]) -> Real {
    coded(a.iter().zip(b).map(|(x, y)| (num(*x) - num(*y)) * (num(*x) - num(*y))).sum())
}

fn candidates(
    cand_vecs: &[f32],
    node_dists: &[f32],
    nc: usize,
    ndims: usize,
    max_degree: usize,
    alpha: f32,
    saturate: bool,
) -> Vec<u32> {
    robust_prune_candidates(
        &reals(cand_vecs),
        &reals(node_dists),
        nc,
        ndims,
        &l2,
        max_degree,
        coded(alpha),
        saturate,
        &ops(),
    )
}

#[test]
fn test_robust_prune_occludes_near_duplicate_keeps_orthogonal() {
    let sel = candidates(&[1.0, 0.0, 1.05, 0.0, 0.0, 3.0], &[1.0, 1.1025, 9.0], 3, 2, 64, 1.0, false);
    assert!(sel.contains(&0), "closest should be selected");
    assert!(!sel.contains(&1), "near-duplicate of A should be occluded at alpha=1.0");
    assert!(sel.contains(&2), "orthogonal candidate (closer to node than to A) should survive");
}

#[test]
fn test_robust_prune_respects_max_degree() {
    let sel = candidates(
        &[1.0, 5.0, 9.0, 13.0, 17.0],
        &[1.0, 25.0, 81.0, 169.0, 289.0],
        5,
        1,
        3,
        1.2,
        true,
    );
    assert_eq!(sel.len(), 3, "saturation fills exactly max_degree, never exceeds");
    assert_eq!(sel[0], 0, "closest selected first");
    let mut s = sel.clone();
    s.sort_unstable();
    s.dedup();
    assert_eq!(s.len(), sel.len(), "selected indices must be unique");
}

#[test]
fn test_robust_prune_saturation_fills_degree() {
    let sel = candidates(&[1.0, 2.0, 3.0, 4.0], &[1.0, 4.0, 9.0, 16.0], 4, 1, 4, 1.2, true);
    assert_eq!(sel.len(), 4, "saturation should fill all 4 slots");
}

#[test]
fn test_robust_prune_empty() {
    let sel = candidates(&[], &[], 0, 4, 8, 1.2, true);
    assert!(sel.is_empty());
}

#[test]
fn selection_follows_distance_and_thresholds() {
    // On a line from the node at 0: 4 at 1, 3 at 2, 2 at 10. The ratio of the second over the
    // first is 4 / 1, so it comes in only once the threshold reaches 4.
    let dists = reals(&[100.0, 4.0, 1.0]);
    let points = [10.0f32, 2.0, 1.0];
    let pair = |i: usize, j: usize| coded((points[i] - points[j]) * (points[i] - points[j]));
    assert_eq!(robust_prune_occlude(3, &dists, 3, coded(1.0), false, pair, &ops()), [2]);
    assert_eq!(robust_prune_occlude(3, &dists, 3, coded(1.3), false, pair, &ops()), [2, 0]);
    assert_eq!(robust_prune_occlude(3, &dists, 3, coded(5.0), false, pair, &ops()), [2, 0, 1]);
    assert_eq!(robust_prune_occlude(3, &dists, 2, coded(1.0), true, pair, &ops()), [2, 1]);
}

#[test]
fn coinciding_candidates_are_occluded_below_the_largest_ratio() {
    let dists = reals(&[1.0, 1.0]);
    let pair = |_: usize, _: usize| coded(0.0);
    assert_eq!(robust_prune_occlude(2, &dists, 2, coded(2.0), false, pair, &ops()), [0]);
}

#[test]
fn ladder_climbs_to_alpha() {
    let rungs: Vec<f32> = alpha_ladder(&ops(), coded(1.5)).into_iter().map(num).collect();
    assert_eq!(rungs, [1.0, 1.2, 1.2 * 1.2, 1.5]);
    let rungs: Vec<f32> = alpha_ladder(&ops(), coded(1.1)).into_iter().map(num).collect();
    assert_eq!(rungs, [1.0, 1.1]);
    let rungs: Vec<f32> = alpha_ladder(&ops(), coded(1.0)).into_iter().map(num).collect();
    assert_eq!(rungs, [1.0]);
}

fn distance(data: &'static [f32], ndims: usize) -> impl Fn(usize, usize) -> Real {
    move |a: usize, b: usize| {
        let x = &data[a * ndims..(a + 1) * ndims];
        let y = &data[b * ndims..(b + 1) * ndims];
        coded(x.iter().zip(y).map(|(p, q)| (p - q) * (p - q)).sum())
    }
}

fn lists(xs: &[&[(u32, f32)]]) -> Vec<Vec<(u32, Real)>> {
    xs.iter().map(|l| l.iter().map(|&(i, d)| (i, coded(d))).collect()).collect()
}

#[test]
fn test_final_prune_from_candidates_diversity() {
    static DATA: [f32; 8] = [0.0, 0.0, 1.0, 0.0, 0.0, 1.0, 0.1, 0.0];
    let candidates = lists(&[&[(3, 0.01), (1, 1.0), (2, 1.0)], &[], &[], &[]]);
    let result = final_prune_from_candidates(
        4,
        &candidates,
        2,
        coded(1.2),
        true,
        distance(&DATA, 2),
        &ops(),
    );
    let node0 = &result[0];
    assert!(!node0.is_empty());
    assert!(node0.len() <= 2, "should respect max_degree=2");
    assert!(node0.contains(&3), "closest candidate should always be selected");
}

#[test]
fn test_final_prune_from_candidates_empty() {
    static DATA: [f32; 8] = [0.0; 8];
    let candidates = lists(&[&[], &[], &[], &[]]);
    let result = final_prune_from_candidates(
        4,
        &candidates,
        10,
        coded(1.2),
        true,
        distance(&DATA, 2),
        &ops(),
    );
    assert!(result.iter().all(|adj| adj.is_empty()));
}

#[test]
fn test_final_prune_from_candidates_single_candidate() {
    static DATA: [f32; 4] = [0.0, 0.0, 1.0, 0.0];
    let candidates = lists(&[&[(1, 1.0)], &[(0, 1.0)]]);
    let result = final_prune_from_candidates(
        2,
        &candidates,
        10,
        coded(1.2),
        true,
        distance(&DATA, 2),
        &ops(),
    );
    assert_eq!(result[0], vec![1]);
    assert_eq!(result[1], vec![0]);
}

#[test]
fn final_prune_ignores_stored_distances() {
    static DATA: [f32; 6] = [0.0, 0.0, 1.0, 0.0, 0.0, 3.0];
    let a = lists(&[&[(1, 50.0), (2, 0.5)]]);
    let b = lists(&[&[(1, 1.0), (2, 9.0)]]);
    let run = |l: &Vec<Vec<(u32, Real)>>| {
        final_robust_prune(3, l, 4, coded(1.0), false, distance(&DATA, 2), &ops())
    };
    assert_eq!(run(&a), run(&b));
    assert_eq!(run(&a), vec![vec![1, 2]]);
}

#[test]
fn a_single_pass_uses_one_threshold() {
    let dists = reals(&[1.0, 4.0, 100.0]);
    let points = [1.0f32, 2.0, 10.0];
    let pair = |i: usize, j: usize| coded((points[i] - points[j]) * (points[i] - points[j]));
    assert_eq!(single_pass_prune(3, &dists, 3, coded(1.0), false, pair, &ops()), [0]);
    assert_eq!(single_pass_prune(3, &dists, 3, coded(1.3), false, pair, &ops()), [0, 2]);
    assert_eq!(single_pass_prune(3, &dists, 3, coded(1.0), true, pair, &ops()), [0, 1, 2]);
}
