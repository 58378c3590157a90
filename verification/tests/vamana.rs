use pipnn::arith::{Arithmetic, Operations};
use pipnn::number::Real;
use pipnn::vamana::{
    reservations, robust_prune, robust_prune_parts, FailedVectorRetrieval, ListError, Neighbor,
    Policy, RankedError, RobustPruneError, Scratch,
};
use std::convert::Infallible;

fn coded(x: f32) -> Real {
    Real::from_bits(x.to_bits())
}

fn num(x: Real) -> f32 {
    f32::from_bits(x.to_bits())
}

fn ops() -> impl Arithmetic {
    Operations::new(
        |a: Real, b: Real| coded(num(a) + num(b)),
        |a: Real, b: Real| coded(num(a) - num(b)),
        |a: Real, b: Real| coded(num(a) * num(b)),
        |a: Real, b: Real| coded(num(a) / num(b)),
        |a: Real| coded(num(a).sqrt()),
    )
}

/// The greatest ratio of the distance to the node over the distance to a taken candidate.
fn triangle(dist: Real, pair: Real, factor: Real, _alpha: Real) -> Real {
    let ratio = if num(pair) > 0.0 { num(dist) / num(pair) } else { f32::MAX };
    coded(num(factor).max(ratio))
}

fn scratch_with_candidates(count: usize) -> Scratch {
    let mut scratch = Scratch::new();
    scratch.candidates_mut().extend(
        (0..count).map(|id| Neighbor::new(u32::try_from(id).unwrap_or(u32::MAX), coded(id as f32))),
    );
    scratch
}

#[derive(Debug, PartialEq)]
struct DistanceFailure;

#[test]
fn rejects_invalid_alpha() {
    let mut scratch = Scratch::new();
    let error = robust_prune(
        &mut scratch,
        Policy::new(1, coded(f32::NAN), false),
        &ops(),
        |_, _| Ok::<_, Infallible>(coded(0.0)),
        |_| true,
        |_| false,
        triangle,
    )
    .unwrap_err();
    assert!(matches!(error, RobustPruneError::InvalidAlpha(value) if num(value).is_nan()));
    for alpha in [f32::INFINITY, 0.5, -2.0] {
        let error = robust_prune(
            &mut scratch,
            Policy::new(1, coded(alpha), false),
            &ops(),
            |_, _| Ok::<_, Infallible>(coded(0.0)),
            |_| true,
            |_| false,
            triangle,
        )
        .unwrap_err();
        assert!(matches!(error, RobustPruneError::InvalidAlpha(value) if num(value) == alpha));
    }
}

#[test]
fn rejects_too_many_candidates() {
    let mut scratch = scratch_with_candidates(u16::MAX as usize + 1);
    let error = robust_prune(
        &mut scratch,
        Policy::new(1, coded(1.2), false),
        &ops(),
        |_, _| Ok::<_, Infallible>(coded(0.0)),
        |_| true,
        |_| false,
        triangle,
    )
    .unwrap_err();
    assert!(matches!(
        error,
        RobustPruneError::TooManyCandidates { actual: 65_536, max: 65_535 }
    ));
}

#[test]
fn propagates_distance_failure() {
    let mut scratch = scratch_with_candidates(2);
    scratch.neighbors.push(7);
    let error = robust_prune(
        &mut scratch,
        Policy::new(2, coded(1.2), false),
        &ops(),
        |_, _| Err(DistanceFailure),
        |_| true,
        |_| false,
        triangle,
    )
    .unwrap_err();
    assert!(matches!(error, RobustPruneError::Distance(DistanceFailure)));
    assert_eq!(scratch.neighbors(), &[7], "a failed call leaves the previous result");
}

#[test]
fn empty_candidates_clear_previous_output() {
    let mut scratch = Scratch::new();
    scratch.neighbors.push(7);
    robust_prune(
        &mut scratch,
        Policy::new(1, coded(1.2), false),
        &ops(),
        |_, _| Ok::<_, Infallible>(coded(0.0)),
        |_| true,
        |_| false,
        triangle,
    )
    .unwrap();
    assert!(scratch.neighbors().is_empty());
}

#[test]
fn excludes_candidate_even_when_its_vector_is_cached() {
    let mut scratch = scratch_with_candidates(2);
    robust_prune(
        &mut scratch,
        Policy::new(1, coded(1.2), false),
        &ops(),
        |_, _| Ok::<_, Infallible>(coded(0.0)),
        |_| true,
        |id| id == 0,
        triangle,
    )
    .unwrap();
    assert_eq!(scratch.neighbors(), &[1]);
}

#[test]
fn saturation_excludes_unavailable_candidates() {
    let mut scratch = scratch_with_candidates(3);
    robust_prune(
        &mut scratch,
        Policy::new(3, coded(1.2), true),
        &ops(),
        |_, _| Ok::<_, Infallible>(coded(0.0)),
        |id| id != 1,
        |_| false,
        triangle,
    )
    .unwrap();
    assert_eq!(scratch.neighbors(), &[0, 2]);
}

#[test]
fn reuses_positional_workspace() {
    let mut scratch = scratch_with_candidates(3);
    let policy = Policy::new(2, coded(1.2), false);
    let capacities = |s: &Scratch| {
        (
            s.pool.capacity(),
            s.available.capacity(),
            s.states.capacity(),
            s.neighbors.capacity(),
        )
    };
    robust_prune(
        &mut scratch,
        policy,
        &ops(),
        |_, _| Ok::<_, Infallible>(coded(1.0)),
        |_| true,
        |_| false,
        triangle,
    )
    .unwrap();
    let first = capacities(&scratch);
    robust_prune(
        &mut scratch,
        policy,
        &ops(),
        |_, _| Ok::<_, Infallible>(coded(1.0)),
        |_| true,
        |_| false,
        triangle,
    )
    .unwrap();
    assert_eq!(capacities(&scratch), first);
}

#[test]
fn reports_a_failed_reservation() {
    let failure = Vec::<u64>::new().try_reserve(usize::MAX).unwrap_err();
    let candidates = vec![Neighbor::new(0, coded(1.0))];
    let mut available = Vec::new();
    let mut states = Vec::new();
    let mut neighbors = vec![9];
    let error = robust_prune_parts(
        &candidates,
        &mut available,
        &mut states,
        &mut neighbors,
        Policy::new(2, coded(1.2), false),
        &ops(),
        &|_, _| Ok::<_, Infallible>(coded(1.0)),
        &|_| true,
        &|_| false,
        &triangle,
        Err(failure),
    )
    .unwrap_err();
    assert!(matches!(error, RobustPruneError::Allocation(_)));
    assert_eq!(neighbors, [9]);
}

#[test]
fn agrees_with_pruning_of_a_sorted_list() {
    let points = [1.0f32, 2.0, 3.5, -4.0, 7.0, -9.0];
    let dists: Vec<Real> = points.iter().map(|p| coded(p * p)).collect();
    let pair = |i: usize, j: usize| coded((points[i] - points[j]) * (points[i] - points[j]));
    for alpha in [1.0, 1.3, 2.0, 6.0] {
        for degree in 1..7 {
            let mut scratch = Scratch::default();
            for (i, d) in dists.iter().enumerate() {
                scratch.candidates_mut().push(Neighbor::new(i as u32, *d));
            }
            robust_prune(
                &mut scratch,
                Policy::new(degree, coded(alpha), false),
                &ops(),
                |a, b| Ok::<_, Infallible>(pair(a as usize, b as usize)),
                |_| true,
                |_| false,
                triangle,
            )
            .unwrap();
            let listed = pipnn::prune::robust_prune_occlude(
                dists.len(),
                &dists,
                degree,
                coded(alpha),
                false,
                pair,
                &ops(),
            );
            assert_eq!(scratch.neighbors(), &listed, "alpha {alpha}, degree {degree}");
        }
    }
}

#[test]
fn list_errors_are_ranked() {
    let missing: ListError<&str> = ListError::failed_retrieval(5);
    assert!(matches!(
        missing.to_ranked(),
        RankedError::Transient(FailedVectorRetrieval { id: 5 })
    ));
    let critical = ListError::from_error("broken");
    assert!(matches!(critical.to_ranked(), RankedError::Error("broken")));
    let passing: ListError<&str> = ListError::from_transient(FailedVectorRetrieval { id: 3 });
    assert!(matches!(passing, ListError::FailedVectorRetrieval(FailedVectorRetrieval { id: 3 })));
}

#[test]
fn the_bookkeeping_tells_which_candidates_were_taken() {
    let mut scratch = scratch_with_candidates(3);
    robust_prune(
        &mut scratch,
        Policy::new(3, coded(1.2), false),
        &ops(),
        |_, _| Ok::<_, Infallible>(coded(100.0)),
        |id| id != 1,
        |_| false,
        triangle,
    )
    .unwrap();
    assert_eq!(scratch.neighbors(), &[0, 2]);
    assert_eq!(scratch.available, [true, false, true]);
    let taken: Vec<u16> = scratch.states[..2].iter().map(|s| s.neighbor).collect();
    assert_eq!(taken, [0, 2]);
    assert!(scratch.states.iter().all(|s| num(s.occlude_factor) == f32::MAX));
    let refused = robust_prune(
        &mut scratch,
        Policy::new(3, coded(0.5), false),
        &ops(),
        |_, _| Ok::<_, Infallible>(coded(100.0)),
        |_| true,
        |_| false,
        triangle,
    );
    assert!(refused.is_err());
    assert_eq!(scratch.available, [true, false, true]);
}

#[test]
fn what_is_missing_is_reserved() {
    assert_eq!(reservations(5, 3, 2, 5, 1), (3, 0, 2));
    assert_eq!(reservations(5, 9, 0, 0, 0), (5, 5, 5));
    assert_eq!(reservations(2, 1, 8, 8, 8), (0, 0, 0));
}

#[test]
fn saturation_appends_the_others_in_candidate_order() {
    let run = |degree: usize, saturate: bool| -> Vec<u32> {
        let mut scratch = scratch_with_candidates(5);
        robust_prune(
            &mut scratch,
            Policy::new(degree, coded(1.2), saturate),
            &ops(),
            |a, b| Ok::<_, Infallible>(coded(if a + b == 6 { 100.0 } else { 0.0 })),
            |id| id != 0,
            |id| id == 3,
            triangle,
        )
        .unwrap();
        scratch.neighbors().clone()
    };
    // Candidates 1, 2 and 4 may be taken; 2 and 4 are far from each other, but not from 1.
    assert_eq!(run(3, false), [1]);
    assert_eq!(run(2, true), [1, 2]);
    assert_eq!(run(3, true), [1, 2, 4]);
    assert_eq!(run(9, true), [1, 2, 4]);
    assert_eq!(run(0, true), [0u32; 0]);
}

#[test]
fn only_candidates_that_may_be_taken_are_asked_about() {
    // Candidate 1 is excluded and candidate 3 not available.
    let mut scratch = scratch_with_candidates(6);
    robust_prune(
        &mut scratch,
        Policy::new(6, coded(1.2), true),
        &ops(),
        |a, b| {
            assert!(b < a && [a, b].iter().all(|id| *id != 1 && *id != 3));
            Ok::<_, Infallible>(coded(100.0))
        },
        |id| {
            assert_ne!(id, 1, "an excluded candidate is not asked about");
            id != 3
        },
        |id| id == 1,
        triangle,
    )
    .unwrap();
    assert_eq!(scratch.neighbors(), &[0, 2, 4, 5]);
    // Nothing has to be reserved for a second run.
    let failing = robust_prune(
        &mut scratch,
        Policy::new(6, coded(1.2), true),
        &ops(),
        |a, b| if (a, b) == (4, 2) { Err(DistanceFailure) } else { Ok(coded(100.0)) },
        |id| id != 3,
        |id| id == 1,
        triangle,
    );
    assert!(matches!(failing, Err(RobustPruneError::Distance(DistanceFailure))));
}
