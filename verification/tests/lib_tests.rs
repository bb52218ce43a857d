//! Tests of the distance functions, matrix builder, neighbour index
//! and elimination walk, on fixed-point integer coordinates: a
//! unit-square geometry expressed on an integer grid.

use wsp::{distance_sq, manhattan_distance, wsp_loop_fast, DistanceMetric, PointSet};

#[test]
fn lib_test_distance_sq() {
    let mut p1: Vec<i64> = vec![1, 0];
    let mut p2: Vec<i64> = vec![0, 0];
    assert_eq!(distance_sq(&p1, &p2), 1);

    p1 = vec![2, 2];
    p2 = vec![2, 9];
    assert_eq!(distance_sq(&p1, &p2), 49);
}

#[test]
fn test_manhattan_distance() {
    // a unit-square geometry on a half-unit integer grid
    let p1: Vec<i64> = vec![0, 0, 0];
    let p2: Vec<i64> = vec![1, 1, 2];
    let p3: Vec<i64> = vec![2, 0, 1];
    assert_eq!(manhattan_distance(&p1, &p2), 4);
    assert_eq!(manhattan_distance(&p1, &p3), 3);
    assert_eq!(manhattan_distance(&p2, &p3), 3);
    assert_eq!(manhattan_distance(&p1, &p1), 0);
}

#[test]
fn lib_test_distance_matrix() {
    let p1: Vec<i64> = vec![0, 0];
    let p2: Vec<i64> = vec![4, 0];
    let p3: Vec<i64> = vec![4, 3];
    let (distance_matrix, d_min, d_max) = wsp::compute_distance_matrix(
        &vec![p1, p2, p3],
        DistanceMetric::SquaredEuclidean,
    );

    let true_distance: Vec<Vec<u64>> = vec![
        vec![0, 16, 25],
        vec![16, 0, 9],
        vec![25, 9, 0],
    ];

    for i in 0..3 {
        for j in 0..3 {
            assert_eq!(distance_matrix[i][j], true_distance[i][j]);
        }
    }

    assert_eq!(d_min, 9);
    assert_eq!(d_max, 25);
}

#[test]
fn lib_test_closest_idx() {
    // a unit-square geometry on a tenth-unit integer grid
    let p1: Vec<i64> = vec![0, 0];
    let p2: Vec<i64> = vec![10, 1];
    let p3: Vec<i64> = vec![10, 10];
    let p4: Vec<i64> = vec![20, 10];
    let pointset = PointSet::init_from_preset(vec![p1, p2, p3, p4]).unwrap();

    let true_idxs: Vec<Vec<usize>> = vec![
        vec![0, 1, 2, 3],
        vec![1, 2, 0, 3],
        vec![2, 1, 3, 0],
        vec![3, 2, 1, 0],
    ];

    for i in 0..4 {
        for j in 0..4 {
            assert_eq!(pointset.idx_sort[i][j], true_idxs[i][j]);
        }
    }
}

#[test]
fn lib_test_iterative_fast_1() {
    let p1: Vec<i64> = vec![0, 0];
    let p2: Vec<i64> = vec![10, 1];
    let p3: Vec<i64> = vec![10, 10];
    let p4: Vec<i64> = vec![20, 10];
    let mut pointset = PointSet::init_from_preset(vec![p1, p2, p3, p4]).unwrap();

    wsp_loop_fast(&mut pointset, 10, 1);

    // The expected behaviour is
    // 1) * p3 too close => becomes inactive
    //    * p1 far enough => becomes new origin
    // 2) * p1 far from p2 => p2 becomes origin
    //    * no change in the set => stop iteration
    assert_eq!(pointset.active[0], true);
    assert_eq!(pointset.active[1], true);
    assert_eq!(pointset.active[2], false);
    assert_eq!(pointset.active[3], true);

    assert_eq!(pointset.nb_active, 3);
}

#[test]
fn lib_test_all_points_visited() {
    // 0.04 of a unit axis, in fixed-point steps
    let d_min: u64 = 40_000;
    let mut points = PointSet::init_from_random(1000, 3, 51).unwrap();
    wsp::wsp(&mut points, d_min);

    // All points are either visited or inactive
    for i in 0..1000 {
        assert!(points.visited[i] || !points.active[i]);
    }
}

#[test]
fn lib_test_min_dist_ok() {
    let d_min: u64 = 40_000;
    let mut points = PointSet::init_from_random(1000, 3, 51).unwrap();
    wsp::wsp(&mut points, d_min);

    // All active points have a distance higher or equal to d_min
    for i in 0..999 {
        if !points.active[i] {
            continue;
        }
        for j in i + 1..1000 {
            if !points.active[j] {
                continue;
            }
            assert!(points.distance_matrix[i][j] >= d_min);
        }
    }
}
