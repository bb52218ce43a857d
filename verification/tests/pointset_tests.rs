//! Tests mirroring the squared-Euclidean variant of the point set:
//! matrix, neighbour index and walk under the squared metric.

use wsp::{distance_sq, wsp_loop_fast, DistanceMetric, PointSet};

#[test]
fn pointset_test_distance_sq() {
    let mut p1: Vec<i64> = vec![1, 0];
    let mut p2: Vec<i64> = vec![0, 0];
    assert_eq!(distance_sq(&p1, &p2), 1);

    p1 = vec![2, 2];
    p2 = vec![2, 9];
    assert_eq!(distance_sq(&p1, &p2), 49);
}

#[test]
fn pointset_test_distance_matrix() {
    let p1: Vec<i64> = vec![0, 0];
    let p2: Vec<i64> = vec![4, 0];
    let p3: Vec<i64> = vec![4, 3];
    let (distance_matrix, _, _) = wsp::compute_distance_matrix(
        &vec![p1, p2, p3],
        DistanceMetric::SquaredEuclidean,
    );

    let true_distance: Vec<Vec<u64>> = vec![
        vec![0, 16, 25],
        vec![16, 0, 9],
        vec![25, 9, 0],
    ];

    for i in 0..3 {
        for j in 0..3 {
            assert_eq!(distance_matrix[i][j], true_distance[i][j]);
        }
    }
}

#[test]
fn pointset_test_closest_idx() {
    // a unit-square geometry on a tenth-unit integer grid
    let p1: Vec<i64> = vec![0, 0];
    let p2: Vec<i64> = vec![10, 1];
    let p3: Vec<i64> = vec![10, 10];
    let p4: Vec<i64> = vec![20, 10];
    let pointset =
        PointSet::init_with_metric(vec![p1, p2, p3, p4], DistanceMetric::SquaredEuclidean)
            .unwrap();

    let true_idxs: Vec<Vec<usize>> = vec![
        vec![0, 1, 2, 3],
        vec![1, 2, 0, 3],
        vec![2, 1, 3, 0],
        vec![3, 2, 1, 0],
    ];

    for i in 0..4 {
        for j in 0..4 {
            assert_eq!(pointset.idx_sort[i][j], true_idxs[i][j]);
        }
    }
}

#[test]
fn pointset_test_iterative_fast_1() {
    let p1: Vec<i64> = vec![0, 0];
    let p2: Vec<i64> = vec![10, 1];
    let p3: Vec<i64> = vec![10, 10];
    let p4: Vec<i64> = vec![20, 10];
    let mut pointset =
        PointSet::init_with_metric(vec![p1, p2, p3, p4], DistanceMetric::SquaredEuclidean)
            .unwrap();

    // squared distances scale by 100 when coordinates scale by 10
    wsp_loop_fast(&mut pointset, 100, 1);

    // The expected behaviour is
    // 1) * p3 too close => becomes inactive
    //    * p1 far enough => becomes new origin
    // 2) * p1 far from p2 => p2 becomes origin
    //    * no change in the set => stop iteration
    assert_eq!(pointset.active[0], true);
    assert_eq!(pointset.active[1], true);
    assert_eq!(pointset.active[2], false);
    assert_eq!(pointset.active[3], true);

    assert_eq!(pointset.nb_active, 3);
}

#[test]
fn pointset_test_all_points_visited() {
    // squared distances scale by COORD_SCALE^2: 0.04 becomes 4e10
    let d_min: u64 = 40_000_000_000;
    let base = PointSet::init_from_random(1000, 3, 51).unwrap();
    let mut points =
        PointSet::init_with_metric(base.get_remaining(), DistanceMetric::SquaredEuclidean)
            .unwrap();
    wsp::wsp(&mut points, d_min);

    // All points are either visited or inactive
    for i in 0..1000 {
        assert!(points.visited[i] || !points.active[i]);
    }
}

#[test]
fn pointset_test_min_dist_ok() {
    let d_min: u64 = 40_000_000_000;
    let base = PointSet::init_from_random(1000, 3, 51).unwrap();
    let mut points =
        PointSet::init_with_metric(base.get_remaining(), DistanceMetric::SquaredEuclidean)
            .unwrap();
    wsp::wsp(&mut points, d_min);

    // All active points have a distance higher or equal to d_min
    for i in 0..999 {
        if !points.active[i] {
            continue;
        }
        for j in i + 1..1000 {
            if !points.active[j] {
                continue;
            }
            if points.distance_matrix[i][j] < d_min {
                println!("{} {} {}", i, j, points.distance_matrix[i][j]);
            }
            assert!(points.distance_matrix[i][j] >= d_min);
        }
    }
}
