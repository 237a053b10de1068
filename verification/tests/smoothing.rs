//! Smoothing behavior: self-inclusive neighborhood averages, degenerate
//! inputs left alone, and the grid-size guard.

use voxel_tools::point::Point;
use voxel_tools::smoothing::{point_cloud_smooth_internal, SmoothError};

fn pt(x: i64, y: i64, z: i64) -> Point {
    Point { x, y, z }
}

#[test]
fn smoothing_zero_iterations_returns_input_unchanged() {
    let points = vec![pt(1, 2, 3), pt(4, 5, 6)];
    let out = point_cloud_smooth_internal(&points, 1000, 0).unwrap();
    assert_eq!(out, points);
}

#[test]
fn smoothing_negative_iterations_returns_input_unchanged() {
    let points = vec![pt(1, 2, 3)];
    let out = point_cloud_smooth_internal(&points, 1000, -3).unwrap();
    assert_eq!(out, points);
}

#[test]
fn smoothing_nonpositive_radius_returns_input_unchanged() {
    let points = vec![pt(1, 2, 3), pt(4, 5, 6)];
    let out = point_cloud_smooth_internal(&points, 0, 5).unwrap();
    assert_eq!(out, points);
    let out2 = point_cloud_smooth_internal(&points, -9, 5).unwrap();
    assert_eq!(out2, points);
}

#[test]
fn smoothing_empty_input_returns_empty() {
    let points: Vec<Point> = vec![];
    let out = point_cloud_smooth_internal(&points, 1000, 5).unwrap();
    assert_eq!(out.len(), 0);
}

#[test]
fn smoothing_pair_converges_to_midpoint() {
    // Two points 1.0 apart with radius 1.0: each sees the other, and both
    // move to the self-inclusive average — the midpoint.
    let points = vec![pt(0, 0, 0), pt(1000, 0, 0)];
    let out = point_cloud_smooth_internal(&points, 1000, 1).unwrap();
    assert_eq!(out, vec![pt(500, 0, 0), pt(500, 0, 0)]);
}

#[test]
fn smoothing_lone_point_stays_put() {
    let points = vec![pt(123, 456, 789)];
    let out = point_cloud_smooth_internal(&points, 1000, 4).unwrap();
    assert_eq!(out, points);
}

#[test]
fn smoothing_out_of_radius_points_do_not_interact() {
    // 5.0 apart, radius 1.0: no neighbors, nothing moves, any number of
    // rounds.
    let points = vec![pt(0, 0, 0), pt(5000, 0, 0)];
    let out = point_cloud_smooth_internal(&points, 1000, 3).unwrap();
    assert_eq!(out, points);
}

#[test]
fn smoothing_radius_test_uses_squared_distance() {
    // Distance sqrt(2) * 1000 > 1000: excluded even though each axis gap
    // is within the radius.
    let points = vec![pt(0, 0, 0), pt(1000, 1000, 0)];
    let out = point_cloud_smooth_internal(&points, 1000, 1).unwrap();
    assert_eq!(out, points);
    // Distance exactly the radius is included.
    let touching = vec![pt(0, 0, 0), pt(1000, 0, 0)];
    let out2 = point_cloud_smooth_internal(&touching, 1000, 1).unwrap();
    assert_eq!(out2, vec![pt(500, 0, 0), pt(500, 0, 0)]);
}

#[test]
fn smoothing_triple_averages_neighborhood() {
    // Three collinear points 1.0 apart, radius 1.0. The middle point sees
    // both ends: (1000 + 0 + 2000) / 3 = 1000. The ends see only the
    // middle: (0 + 1000) / 2 = 500 and (2000 + 1000) / 2 = 1500.
    let points = vec![pt(0, 0, 0), pt(1000, 0, 0), pt(2000, 0, 0)];
    let out = point_cloud_smooth_internal(&points, 1000, 1).unwrap();
    assert_eq!(out, vec![pt(500, 0, 0), pt(1000, 0, 0), pt(1500, 0, 0)]);
}

#[test]
fn smoothing_two_rounds_read_only_previous_round() {
    // Second round starts from the first round's output.
    let points = vec![pt(0, 0, 0), pt(1000, 0, 0)];
    let out = point_cloud_smooth_internal(&points, 1000, 2).unwrap();
    // After round one both sit at 500; round two keeps them there.
    assert_eq!(out, vec![pt(500, 0, 0), pt(500, 0, 0)]);
}

#[test]
fn smoothing_works_below_the_origin() {
    // Both points negative: the grid origin is the bounding-box corner, and
    // floor-based cells keep the pair neighbors across cell boundaries.
    let points = vec![pt(-1500, 0, 0), pt(-500, 0, 0)];
    let out = point_cloud_smooth_internal(&points, 1000, 1).unwrap();
    assert_eq!(out, vec![pt(-1000, 0, 0), pt(-1000, 0, 0)]);
}

#[test]
fn smoothing_rejects_oversized_grid() {
    // Points a trillion units apart with radius 1 would need a grid far
    // beyond the allocation cap.
    let points = vec![pt(0, 0, 0), pt(1_000_000_000_000, 1_000_000_000_000, 0)];
    let out = point_cloud_smooth_internal(&points, 1, 1);
    assert_eq!(out, Err(SmoothError::GridTooLarge));
}
