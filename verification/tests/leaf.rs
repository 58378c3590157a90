use pipnn::arith::{Arithmetic, Operations};
use pipnn::leaf::{
    check_length, checked_area, nearest_leaf_neighbors, resize, select_neighbors, LeafKernelError,
    LeafNeighbor, LeafTopK, LeafTopKWorkspace,
};
use pipnn::metric::{norm, pair_distance, Metric};
use pipnn::number::Real;
use std::cmp::Ordering;

fn coded(x: f32) -> Real {
    Real::from_bits(x.to_bits())
}

fn num(x: Real) -> f32 {
    f32::from_bits(x.to_bits())
}

fn ops() -> impl Arithmetic {
    Operations::new(
        |a: Real, b: Real| coded(num(a) + num(b)),
        |a: Real, b: Real| coded(num(a) - num(b)),
        |a: Real, b: Real| coded(num(a) * num(b)),
        |a: Real, b: Real| coded(num(a) / num(b)),
        |a: Real| coded(num(a).sqrt()),
    )
}

fn reals(xs: &[f32]) -> Vec<Real> {
    xs.iter().map(|&x| coded(x)).collect()
}

fn neighbor(position: u32, distance: f32) -> LeafNeighbor {
    LeafNeighbor::new(position, coded(distance))
}

fn run(dots: &[f32], points: usize, k: usize, metric: Metric) -> (usize, Vec<LeafNeighbor>) {
    let actual_k = k.min(points.saturating_sub(1));
    let mut output = vec![LeafNeighbor::default(); points * actual_k];
    let mut workspace = LeafTopKWorkspace::new();
    let dots = reals(dots);
    let returned_k = nearest_leaf_neighbors(
        &ops(),
        LeafTopK { dots: &dots, points, metric },
        k,
        &mut output,
        &mut workspace,
    )
    .unwrap();
    assert_eq!(returned_k, actual_k);
    (returned_k, output)
}

#[test]
fn l2_scans_only_the_lower_triangle_and_breaks_ties_by_position() {
    let dots = [
        0.0, 999.0, 999.0, 999.0, //
        0.0, 1.0, 999.0, 999.0, //
        0.0, 0.0, 1.0, 999.0, //
        0.0, 1.0, 1.0, 2.0,
    ];
    let (_, output) = run(&dots, 4, 2, Metric::L2);
    assert_eq!(
        output,
        [
            neighbor(1, 1.0),
            neighbor(2, 1.0),
            neighbor(0, 1.0),
            neighbor(3, 1.0),
            neighbor(0, 1.0),
            neighbor(3, 1.0),
            neighbor(1, 1.0),
            neighbor(2, 1.0),
        ]
    );
}

#[test]
fn supports_every_leaf_metric() {
    let dots = [
        1.0, 77.0, 77.0, //
        0.0, 1.0, 77.0, //
        -1.0, 0.5, 1.0,
    ];
    let cases = [
        (Metric::L2, [1, 2, 1]),
        (Metric::Cosine, [1, 2, 1]),
        (Metric::CosineNormalized, [1, 2, 1]),
        (Metric::InnerProduct, [1, 2, 1]),
    ];
    for (metric, expected) in cases {
        let (_, output) = run(&dots, 3, 1, metric);
        let positions: Vec<_> = output.iter().map(|neighbor| neighbor.position).collect();
        assert_eq!(positions, expected, "metric {metric:?}");
    }
}

#[test]
fn cosine_treats_zero_norm_as_zero_similarity() {
    let dots = [
        0.0, 11.0, 11.0, //
        0.0, 1.0, 11.0, //
        0.0, 0.0, 1.0,
    ];
    let (_, output) = run(&dots, 3, 2, Metric::Cosine);
    assert_eq!(output[0], neighbor(1, 1.0));
    assert_eq!(output[1], neighbor(2, 1.0));
}

#[test]
fn preserves_pipnn_metric_edge_semantics() {
    let out_of_range = [1.0, 0.0, 2.0, 1.0];
    assert_eq!(num(run(&out_of_range, 2, 1, Metric::L2).1[0].distance), 0.0);
    assert_eq!(num(run(&out_of_range, 2, 1, Metric::CosineNormalized).1[0].distance), 0.0);
    assert_eq!(num(run(&out_of_range, 2, 1, Metric::Cosine).1[0].distance), 0.0);

    let opposite = [1.0, 0.0, -2.0, 1.0];
    assert_eq!(num(run(&opposite, 2, 1, Metric::Cosine).1[0].distance), 3.0);

    let subnormal_squared_norm = f32::MIN_POSITIVE / 2.0;
    let subnormal = [subnormal_squared_norm, 0.0, 1.0, 1.0];
    assert_eq!(num(run(&subnormal, 2, 1, Metric::Cosine).1[0].distance), 1.0);

    let minimum_normal_squared_norm = f32::MIN_POSITIVE;
    let minimum_normal =
        [minimum_normal_squared_norm, 0.0, minimum_normal_squared_norm.sqrt(), 1.0];
    assert_eq!(num(run(&minimum_normal, 2, 1, Metric::Cosine).1[0].distance), 0.0);
}

#[test]
fn every_metric_ignores_nan_pairs() {
    let dots = [
        1.0, 0.0, 0.0, //
        f32::NAN, 1.0, 0.0, //
        0.5, 0.25, 1.0,
    ];
    for metric in
        [Metric::L2, Metric::Cosine, Metric::CosineNormalized, Metric::InnerProduct]
    {
        let (_, output) = run(&dots, 3, 1, metric);
        assert_eq!(output[0].position, 2, "metric {metric:?}");
        assert_eq!(output[1].position, 2, "metric {metric:?}");
    }
}

#[test]
fn rejects_incomplete_neighbor_rows() {
    let dots = reals(&[1.0, 0.0, f32::NAN, 1.0]);
    let mut output = [LeafNeighbor::default(); 2];
    let mut workspace = LeafTopKWorkspace::new();
    let error = nearest_leaf_neighbors(
        &ops(),
        LeafTopK { dots: &dots, points: 2, metric: Metric::L2 },
        1,
        &mut output,
        &mut workspace,
    )
    .unwrap_err();
    assert_eq!(error, LeafKernelError::InsufficientRankableNeighbors { row: 0, neighbors: 1 });
}

#[test]
fn clamps_k_to_available_non_self_neighbors() {
    let dots = [
        1.0, 3.0, 3.0, //
        0.0, 1.0, 3.0, //
        0.0, 0.0, 1.0,
    ];
    let (actual_k, output) = run(&dots, 3, 99, Metric::L2);
    assert_eq!(actual_k, 2);
    assert_eq!(output.len(), 6);
    for (row, neighbors) in output.chunks_exact(actual_k).enumerate() {
        assert!(neighbors.iter().all(|neighbor| neighbor.position as usize != row));
    }
}

#[test]
fn accepts_empty_singleton_and_zero_k_inputs() {
    let mut workspace = LeafTopKWorkspace::new();
    let empty = LeafTopK { dots: &[], points: 0, metric: Metric::L2 };
    assert_eq!(nearest_leaf_neighbors(&ops(), empty, 2, &mut [], &mut workspace).unwrap(), 0);

    let one = reals(&[4.0]);
    let singleton = LeafTopK { dots: &one, points: 1, metric: Metric::Cosine };
    assert_eq!(nearest_leaf_neighbors(&ops(), singleton, 2, &mut [], &mut workspace).unwrap(), 0);

    let two = reals(&[1.0, 0.0, 0.0, 1.0]);
    let pair = LeafTopK { dots: &two, points: 2, metric: Metric::InnerProduct };
    assert_eq!(nearest_leaf_neighbors(&ops(), pair, 0, &mut [], &mut workspace).unwrap(), 0);
}

#[test]
fn rejects_invalid_shapes_before_dispatch() {
    let mut workspace = LeafTopKWorkspace::new();
    let eight = reals(&[0.0; 8]);
    let error = nearest_leaf_neighbors(
        &ops(),
        LeafTopK { dots: &eight, points: 3, metric: Metric::L2 },
        1,
        &mut [LeafNeighbor::default(); 3],
        &mut workspace,
    )
    .unwrap_err();
    assert_eq!(
        error,
        LeafKernelError::InvalidBufferLength {
            buffer: "lower dot-product matrix",
            expected: 9,
            actual: 8,
        }
    );

    let nine = reals(&[0.0; 9]);
    let error = nearest_leaf_neighbors(
        &ops(),
        LeafTopK { dots: &nine, points: 3, metric: Metric::L2 },
        2,
        &mut [LeafNeighbor::default(); 5],
        &mut workspace,
    )
    .unwrap_err();
    assert_eq!(
        error,
        LeafKernelError::InvalidBufferLength { buffer: "output", expected: 6, actual: 5 }
    );
}

#[test]
fn leaf_rejects_shape_overflow_before_reading_buffers() {
    let mut workspace = LeafTopKWorkspace::new();
    let error = nearest_leaf_neighbors(
        &ops(),
        LeafTopK { dots: &[], points: usize::MAX, metric: Metric::L2 },
        1,
        &mut [],
        &mut workspace,
    )
    .unwrap_err();
    assert_eq!(error, LeafKernelError::TooManyPoints(usize::MAX));
}

#[test]
fn accepts_the_largest_representable_point_count_before_shape_validation() {
    let points = u32::MAX as usize;
    let expected = points.checked_mul(points).unwrap();
    let mut workspace = LeafTopKWorkspace::new();
    let error = nearest_leaf_neighbors(
        &ops(),
        LeafTopK { dots: &[], points, metric: Metric::InnerProduct },
        0,
        &mut [],
        &mut workspace,
    )
    .unwrap_err();
    assert_eq!(
        error,
        LeafKernelError::InvalidBufferLength {
            buffer: "lower dot-product matrix",
            expected,
            actual: 0,
        }
    );
}

fn make_input(metric: Metric, points: usize) -> Vec<f32> {
    let mut dots = vec![f32::NAN; points * points];
    for row in 0..points {
        dots[row * points + row] = if metric == Metric::Cosine && row == 0 {
            0.0
        } else if row == 2 {
            2.0
        } else {
            1.0 + (row % 5) as f32
        };
        for column in 0..row {
            let pair = ((row * 17 + column * 11) % 23) as f32 - 11.0;
            dots[row * points + column] = if row == points - 1 && column == 0 {
                f32::NAN
            } else if column == 1 || column == 2 {
                0.5
            } else {
                pair * 0.03125
            };
        }
    }
    dots
}

fn reference(dots: &[f32], points: usize, metric: Metric, k: usize) -> Vec<LeafNeighbor> {
    let k = k.min(points.saturating_sub(1));
    let mut output = vec![LeafNeighbor::default(); points * k];
    let norms: Vec<f32> = (0..points)
        .map(|row| {
            let diagonal = dots[row * points + row];
            if metric == Metric::Cosine {
                if diagonal < f32::MIN_POSITIVE {
                    0.0
                } else {
                    diagonal.sqrt()
                }
            } else {
                diagonal
            }
        })
        .collect();
    for row in 0..points {
        let mut candidates = Vec::with_capacity(points - 1);
        for position in 0..points {
            if position == row {
                continue;
            }
            let (lower_row, lower_column) =
                if row > position { (row, position) } else { (position, row) };
            let dot = dots[lower_row * points + lower_column];
            let clamp = |d: f32| if d < 0.0 { 0.0 } else { d };
            let distance = match metric {
                Metric::L2 => clamp(norms[row] + norms[position] - 2.0 * dot),
                Metric::CosineNormalized => clamp(1.0 - dot),
                Metric::InnerProduct => -dot,
                Metric::Cosine => {
                    let similarity = if norms[row] != 0.0 && norms[position] != 0.0 {
                        dot / (norms[row] * norms[position])
                    } else {
                        0.0
                    };
                    clamp(1.0 - similarity)
                }
            };
            if distance.partial_cmp(&f32::MAX) == Some(Ordering::Less) {
                candidates.push((position as u32, distance));
            }
        }
        candidates.sort_by(|left, right| left.1.partial_cmp(&right.1).unwrap());
        let count = candidates.len().min(k);
        for t in 0..count {
            output[row * k + t] = neighbor(candidates[t].0, candidates[t].1);
        }
    }
    output
}

#[test]
fn every_available_architecture_matches_independent_reference() {
    for metric in
        [Metric::L2, Metric::Cosine, Metric::CosineNormalized, Metric::InnerProduct]
    {
        let mut cases: Vec<(usize, usize)> = Vec::new();
        for points in [7, 8, 9, 15, 16, 17, 64] {
            for k in [1, 2, 4, usize::MAX] {
                cases.push((points, k));
            }
        }
        for points in [256, 512] {
            for k in [1, 2, 4] {
                cases.push((points, k));
            }
        }
        for (points, k) in cases {
            let dots = make_input(metric, points);
            let expected = reference(&dots, points, metric, k);
            let actual_k = k.min(points - 1);
            let mut output = vec![LeafNeighbor::default(); points * actual_k];
            let mut workspace = LeafTopKWorkspace::default();
            let dots = reals(&dots);
            // The first row misses one rankable pair, unless its norm is zero: then every pair
            // ranks. The rows are filled either way.
            let result = nearest_leaf_neighbors(
                &ops(),
                LeafTopK { dots: &dots, points, metric },
                k,
                &mut output,
                &mut workspace,
            );
            if k == usize::MAX && metric != Metric::Cosine {
                assert_eq!(
                    result,
                    Err(LeafKernelError::InsufficientRankableNeighbors {
                        row: 0,
                        neighbors: points - 1,
                    })
                );
            } else {
                assert_eq!(result, Ok(actual_k));
            }
            let same = output.iter().zip(&expected).all(|(a, b)| {
                a.position == b.position && num(a.distance) == num(b.distance)
            });
            assert!(same, "{metric:?}, n={points}, k={k}");
        }
    }
}

#[test]
fn pair_distances_by_formula() {
    let o = ops();
    let d = |m, dot, a, b| num(pair_distance(&o, m, coded(dot), coded(a), coded(b)));
    assert_eq!(d(Metric::L2, 3.0, 9.0, 4.0), 7.0);
    assert_eq!(d(Metric::CosineNormalized, 0.25, 9.0, 4.0), 0.75);
    assert_eq!(d(Metric::InnerProduct, 3.0, 9.0, 4.0), -3.0);
    assert_eq!(d(Metric::Cosine, 3.0, 2.0, 3.0), 0.5);
    assert_eq!(num(norm(&o, Metric::Cosine, coded(9.0))), 3.0);
    assert_eq!(num(norm(&o, Metric::L2, coded(9.0))), 9.0);
}

#[test]
fn storage_that_is_there_is_used() {
    let dots = reals(&[0.0, 0.0, 0.0, 1.0]);
    let mut workspace = LeafTopKWorkspace::new();
    workspace.norms = reals(&[7.0; 2]);
    workspace.worst = reals(&[7.0; 2]);
    let mut output = [LeafNeighbor::default(); 2];
    let input = LeafTopK { dots: &dots, points: 2, metric: Metric::L2 };
    assert_eq!(select_neighbors(&ops(), input, 1, &mut output, &mut workspace), Ok(1));
    assert_eq!(output, [neighbor(1, 1.0), neighbor(0, 1.0)]);
}

#[test]
fn shapes_and_buffers() {
    assert_eq!(checked_area("x", 3, 5), Ok(15));
    assert_eq!(
        checked_area("x", usize::MAX, 2),
        Err(LeafKernelError::ShapeOverflow { buffer: "x", rows: usize::MAX, cols: 2 })
    );
    assert_eq!(check_length("x", 3, 3), Ok(()));
    let mut v = vec![1u32, 2];
    assert_eq!(resize("x", &mut v, 4, 9), Ok(()));
    assert_eq!(v, [1, 2, 9, 9]);
    assert_eq!(resize("x", &mut v, 1, 9), Ok(()));
    assert_eq!(v, [1]);
    assert_eq!(
        resize("x", &mut v, usize::MAX, 9),
        Err(LeafKernelError::Allocation { buffer: "x", additional: usize::MAX - 1 })
    );
    assert_eq!(v, [1]);
}

#[test]
fn refused_and_empty_requests_leave_the_workspace() {
    let mut workspace = LeafTopKWorkspace::new();
    workspace.norms = reals(&[1.0, 2.0]);
    workspace.worst = reals(&[3.0]);
    let four = reals(&[0.0; 4]);
    let calls: [(&[Real], usize, usize, usize); 4] = [
        (&four, usize::MAX, 1, 0),
        (&four[..3], 2, 1, 2),
        (&four, 2, 1, 1),
        (&four, 2, 0, 0),
    ];
    for (dots, points, k, len) in calls {
        let mut output = vec![neighbor(9, 9.0); len];
        let input = LeafTopK { dots, points, metric: Metric::L2 };
        let result = nearest_leaf_neighbors(&ops(), input, k, &mut output, &mut workspace);
        assert_eq!(result.is_ok(), k == 0);
        assert_eq!(output, vec![neighbor(9, 9.0); len]);
        assert_eq!(workspace.norms, reals(&[1.0, 2.0]));
        assert_eq!(workspace.worst, reals(&[3.0]));
    }
    // A request that is met leaves the norms and the last distance of every row.
    let dots = reals(&[1.0, 0.0, 2.0, 5.0]);
    let mut output = vec![neighbor(9, 9.0); 2];
    let input = LeafTopK { dots: &dots, points: 2, metric: Metric::L2 };
    nearest_leaf_neighbors(&ops(), input, 1, &mut output, &mut workspace).unwrap();
    let norm_at = |x: f32| norm(&ops(), Metric::L2, coded(x));
    assert_eq!(workspace.norms, [norm_at(1.0), norm_at(5.0)]);
    assert_eq!(workspace.worst, reals(&[2.0, 2.0]));
    assert_eq!(output, [neighbor(1, 2.0), neighbor(0, 2.0)]);
}
