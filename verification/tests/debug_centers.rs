//! Debug-center behavior: cell centers in half-units, grid geometry rather
//! than point centroids, and agreement with downsampling on cell counts.

use voxel_tools::point::Point;
use voxel_tools::downsample::voxel_downsample_internal;
use voxel_tools::debug_centers::generate_voxel_centers_internal;

fn pt(x: i64, y: i64, z: i64) -> Point {
    Point { x, y, z }
}

const ORIGIN: Point = Point { x: 0, y: 0, z: 0 };

#[test]
fn debug_center_is_grid_center_not_centroid() {
    // The square of four points from the downsample test: its centroid is
    // (0.5, 0.5, 0.0), but the cell center of the 2.0-sized voxel is
    // (1.0, 1.0, 1.0) — reported doubled, so (2000, 2000, 2000) here.
    let points = vec![pt(0, 0, 0), pt(1000, 0, 0), pt(0, 1000, 0), pt(1000, 1000, 0)];
    let centers = generate_voxel_centers_internal(&points, 2000, ORIGIN);
    assert_eq!(centers.len(), 1);
    assert_eq!(centers[0], pt(2000, 2000, 2000));
    let reduced = voxel_downsample_internal(&points, 2000, ORIGIN);
    assert_eq!(reduced[0], pt(500, 500, 0));
}

#[test]
fn debug_count_matches_downsample_count() {
    let points = vec![
        pt(0, 0, 0),
        pt(100, 100, 100),
        pt(2500, 0, 0),
        pt(0, 2500, 0),
        pt(2600, 0, 0),
    ];
    let centers = generate_voxel_centers_internal(&points, 1000, ORIGIN);
    let reduced = voxel_downsample_internal(&points, 1000, ORIGIN);
    assert_eq!(centers.len(), reduced.len());
    assert_eq!(centers.len(), 3);
}

#[test]
fn debug_centers_empty_input() {
    let points: Vec<Point> = vec![];
    assert_eq!(generate_voxel_centers_internal(&points, 1000, ORIGIN).len(), 0);
}

#[test]
fn debug_centers_nonpositive_size_is_empty() {
    let points = vec![pt(1, 2, 3)];
    assert_eq!(generate_voxel_centers_internal(&points, 0, ORIGIN).len(), 0);
    assert_eq!(generate_voxel_centers_internal(&points, -7, ORIGIN).len(), 0);
}

#[test]
fn debug_centers_floor_negative_cells() {
    // A point just below the origin sits in cell -1 of a 2-unit grid: that
    // cell's center is -1, reported as -2 in half-units; on the other axes
    // cell 0's center is +1, reported as 2.
    let points = vec![pt(-1, 0, 0)];
    let centers = generate_voxel_centers_internal(&points, 2, ORIGIN);
    assert_eq!(centers.len(), 1);
    assert_eq!(centers[0].x, -2);
    assert_eq!(centers[0].y, 2);
    assert_eq!(centers[0].z, 2);
}

#[test]
fn debug_centers_exact_half_unit_formula() {
    // Cell index 3 of a 5-unit grid from origin 10: center is
    // 10 + 3.5 * 5 = 27.5, doubled 55.
    let min = pt(10, 10, 10);
    let points = vec![pt(28, 12, 12)];
    let centers = generate_voxel_centers_internal(&points, 5, min);
    assert_eq!(centers.len(), 1);
    assert_eq!(centers[0].x, 55);
    assert_eq!(centers[0].y, 25);
    assert_eq!(centers[0].z, 25);
}
