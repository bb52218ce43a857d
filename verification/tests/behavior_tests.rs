//! Tests of the construction errors, the remaining-point view, the
//! adaptive search and the reproducibility guarantees.

use wsp::{adaptive_wsp, adaptive_wsp_from, wsp_loop_fast, DistanceMetric, PointSet, WspError};

#[test]
fn test_empty_input_rejected() {
    let r = PointSet::init_from_preset(Vec::new());
    assert_eq!(r.err(), Some(WspError::EmptyInput));
}

#[test]
fn test_inconsistent_dims_rejected() {
    let r = PointSet::init_from_preset(vec![vec![0, 0], vec![1, 2, 3]]);
    assert_eq!(r.err(), Some(WspError::DimensionMismatch));
}

#[test]
fn test_oversized_dimension_rejected() {
    let flat: Vec<i64> = vec![0; wsp::MAX_DIMENSION + 1];
    let r = PointSet::init_from_preset(vec![flat]);
    assert_eq!(r.err(), Some(WspError::DimensionTooLarge));
}

#[test]
fn test_out_of_range_coordinate_rejected() {
    let r = PointSet::init_from_preset(vec![vec![0, 0], vec![wsp::COORD_LIMIT + 1, 0]]);
    assert_eq!(r.err(), Some(WspError::CoordinateOutOfRange));
}

#[test]
fn test_empty_random_rejected() {
    let r = PointSet::init_from_random(0, 3, 1);
    assert_eq!(r.err(), Some(WspError::EmptyInput));
}

#[test]
fn test_get_remaining_keeps_active_order() {
    let p1: Vec<i64> = vec![0, 0];
    let p2: Vec<i64> = vec![10, 1];
    let p3: Vec<i64> = vec![10, 10];
    let p4: Vec<i64> = vec![20, 10];
    let mut pointset = PointSet::init_from_preset(vec![p1, p2, p3, p4]).unwrap();
    wsp_loop_fast(&mut pointset, 10, 1);

    // the walk killed point 2; the others stay in index order
    let remaining = pointset.get_remaining();
    assert_eq!(remaining, vec![vec![0, 0], vec![10, 1], vec![20, 10]]);
}

#[test]
fn test_random_generation_reproducible() {
    let a = PointSet::init_from_random(50, 4, 51).unwrap();
    let b = PointSet::init_from_random(50, 4, 51).unwrap();
    assert_eq!(a.points, b.points);
    assert_eq!(a.distance_matrix, b.distance_matrix);
    assert_eq!(a.d_min, b.d_min);
    assert_eq!(a.d_max, b.d_max);
}

#[test]
fn test_adaptive_reaches_reachable_target() {
    let points: Vec<Vec<i64>> = vec![vec![0, 0], vec![10, 1], vec![10, 10], vec![20, 10]];
    let mut pointset = PointSet::init_from_preset(points).unwrap();

    let log = adaptive_wsp_from(&mut pointset, 3, 1);

    // bounds are [9, 30]; the midpoints explored are 19, 14 and 11,
    // and the pass at 11 leaves exactly the 3 requested points
    assert_eq!(pointset.nb_active, 3);
    assert_eq!(pointset.active, vec![true, true, false, true]);
    assert_eq!(log, vec![(19, 2), (14, 2), (11, 3)]);
}

#[test]
fn test_adaptive_single_point() {
    let mut pointset = PointSet::init_from_preset(vec![vec![5, 5]]).unwrap();
    adaptive_wsp_from(&mut pointset, 1, 0);
    assert_eq!(pointset.nb_active, 1);
    assert_eq!(pointset.active, vec![true]);
}

#[test]
fn test_adaptive_unreachable_target_best_approximation() {
    // two points 11 apart: any threshold leaves either 1 or 2 points,
    // so a target of 2 on a tighter pair is matched by the extreme
    let mut pointset = PointSet::init_from_preset(vec![vec![0, 0], vec![10, 1]]).unwrap();
    adaptive_wsp_from(&mut pointset, 5, 0);
    // the closest achievable count to 5 is 2: everything survives
    assert_eq!(pointset.nb_active, 2);
}

#[test]
fn test_adaptive_rerun_reproduces_result() {
    let mk = || {
        PointSet::init_from_random(60, 3, 7).unwrap()
    };
    let mut a = mk();
    let mut b = mk();
    let log_a = adaptive_wsp(&mut a, 20, true);
    let log_b = adaptive_wsp(&mut b, 20, true);
    assert_eq!(log_a, log_b);
    assert_eq!(a.active, b.active);
    assert_eq!(a.nb_active, b.nb_active);
}

#[test]
fn test_adaptive_quiet_returns_no_log() {
    let mut a = PointSet::init_from_random(30, 2, 9).unwrap();
    let log = adaptive_wsp(&mut a, 10, false);
    assert!(log.is_empty());
}

#[test]
fn test_reset_twice_then_walk_matches_reset_once() {
    let points: Vec<Vec<i64>> = vec![vec![0, 0], vec![10, 1], vec![10, 10], vec![20, 10]];
    let mut once = PointSet::init_from_preset(points.clone()).unwrap();
    let mut twice = PointSet::init_from_preset(points).unwrap();

    wsp_loop_fast(&mut once, 10, 1);
    once.reset_search_params();
    wsp_loop_fast(&mut twice, 10, 1);
    twice.reset_search_params();
    twice.reset_search_params();

    assert_eq!(once.active, twice.active);
    assert_eq!(once.visited, twice.visited);

    wsp_loop_fast(&mut once, 10, 1);
    wsp_loop_fast(&mut twice, 10, 1);
    assert_eq!(once.active, twice.active);
    assert_eq!(once.visited, twice.visited);
    assert_eq!(once.nb_active, twice.nb_active);
}

#[test]
fn test_metric_changes_matrix() {
    let points: Vec<Vec<i64>> = vec![vec![0, 0], vec![3, 4]];
    let manhattan = PointSet::init_with_metric(points.clone(), DistanceMetric::Manhattan).unwrap();
    let squared =
        PointSet::init_with_metric(points, DistanceMetric::SquaredEuclidean).unwrap();
    assert_eq!(manhattan.distance_matrix[0][1], 7);
    assert_eq!(squared.distance_matrix[0][1], 25);
    assert_eq!(manhattan.distance_matrix[1][0], 7);
    assert_eq!(squared.distance_matrix[1][0], 25);
}
