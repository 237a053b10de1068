//! Downsampling behavior: centroids, attribute averaging, classification
//! tie-breaks, degenerate input. Coordinates are fixed-point: these tests
//! use one thousandth of a unit, so `1.0` is written `1000`.

use voxel_tools::point::{Color, Point};
use voxel_tools::downsample::{voxel_downsample_internal, voxel_downsample_with_attributes};

fn pt(x: i64, y: i64, z: i64) -> Point {
    Point { x, y, z }
}

const ORIGIN: Point = Point { x: 0, y: 0, z: 0 };

#[test]
fn test_voxel_downsample_simple() {
    // Four points forming a unit square inside one 2.0-sized voxel.
    let points = vec![pt(0, 0, 0), pt(1000, 0, 0), pt(0, 1000, 0), pt(1000, 1000, 0)];
    let result = voxel_downsample_internal(&points, 2000, ORIGIN);
    assert_eq!(result.len(), 1);
    // The centroid is (0.5, 0.5, 0.0).
    assert_eq!(result[0].x, 500);
    assert_eq!(result[0].y, 500);
    assert_eq!(result[0].z, 0);
}

#[test]
fn test_voxel_downsample_empty() {
    let points: Vec<Point> = vec![];
    let result = voxel_downsample_internal(&points, 1000, ORIGIN);
    assert_eq!(result.len(), 0);
}

#[test]
fn test_voxel_downsample_single_point() {
    let points = vec![pt(1000, 2000, 3000)];
    let result = voxel_downsample_internal(&points, 1000, ORIGIN);
    assert_eq!(result.len(), 1);
    assert_eq!(result[0], pt(1000, 2000, 3000));
}

#[test]
fn test_voxel_downsample_separate_voxels() {
    // Two points at 0.0 and 2.0 with voxel size 1.0 land in distinct cells.
    let points = vec![pt(0, 0, 0), pt(2000, 0, 0)];
    let result = voxel_downsample_internal(&points, 1000, ORIGIN);
    assert_eq!(result.len(), 2);
}

#[test]
fn downsample_output_never_exceeds_input() {
    let points = vec![pt(0, 0, 0), pt(1, 1, 1), pt(5000, 0, 0), pt(5001, 0, 0), pt(2, 2, 2)];
    let result = voxel_downsample_internal(&points, 1000, ORIGIN);
    assert!(result.len() <= points.len());
    assert_eq!(result.len(), 2);
}

#[test]
fn downsample_is_idempotent() {
    let points = vec![
        pt(100, 200, 300),
        pt(900, 800, 700),
        pt(-100, -200, -300),
        pt(2500, 2500, 2500),
    ];
    let once = voxel_downsample_internal(&points, 1000, ORIGIN);
    let twice = voxel_downsample_internal(&once, 1000, ORIGIN);
    assert_eq!(once, twice);
}

#[test]
fn downsample_nonpositive_voxel_size_is_empty() {
    let points = vec![pt(1, 2, 3)];
    assert_eq!(voxel_downsample_internal(&points, 0, ORIGIN).len(), 0);
    assert_eq!(voxel_downsample_internal(&points, -5, ORIGIN).len(), 0);
}

#[test]
fn downsample_floors_negative_coordinates() {
    // -0.5 and +0.5 with voxel size 1.0 straddle the origin: two cells,
    // because the cell index truncates toward negative infinity.
    let points = vec![pt(-500, 0, 0), pt(500, 0, 0)];
    let result = voxel_downsample_internal(&points, 1000, ORIGIN);
    assert_eq!(result.len(), 2);
}

#[test]
fn downsample_averages_colors_and_intensity() {
    let points = vec![pt(0, 0, 0), pt(10, 0, 0)];
    let colors = vec![Color { r: 100, g: 20, b: 0 }, Color { r: 200, g: 40, b: 1 }];
    let intensities = vec![70i64, 30i64];
    let (out_pts, out_cols, out_ints, out_cls) = voxel_downsample_with_attributes(
        &points,
        Some(&colors),
        Some(&intensities),
        None,
        1000,
        ORIGIN,
    );
    assert_eq!(out_pts.len(), 1);
    assert_eq!(out_pts[0], pt(5, 0, 0));
    assert_eq!(out_cols, vec![Color { r: 150, g: 30, b: 0 }]);
    assert_eq!(out_ints, vec![50i64]);
    assert_eq!(out_cls.len(), 0);
}

#[test]
fn downsample_mismatched_attribute_buffer_is_ignored() {
    let points = vec![pt(0, 0, 0), pt(10, 0, 0)];
    // One intensity for two points: treated as absent.
    let intensities = vec![70i64];
    let (out_pts, out_cols, out_ints, out_cls) = voxel_downsample_with_attributes(
        &points,
        None,
        Some(&intensities),
        None,
        1000,
        ORIGIN,
    );
    assert_eq!(out_pts.len(), 1);
    assert_eq!(out_cols.len(), 0);
    assert_eq!(out_ints.len(), 0);
    assert_eq!(out_cls.len(), 0);
}

#[test]
fn classification_mode_prefers_majority_label() {
    // Two points labeled 1 and one labeled 2, inserted 1, 2, 1.
    let points = vec![pt(0, 0, 0), pt(1, 0, 0), pt(2, 0, 0)];
    let labels = vec![1u8, 2u8, 1u8];
    let (out_pts, _c, _i, out_cls) = voxel_downsample_with_attributes(
        &points,
        None,
        None,
        Some(&labels),
        1000,
        ORIGIN,
    );
    assert_eq!(out_pts.len(), 1);
    assert_eq!(out_cls, vec![1u8]);
}

#[test]
fn classification_tie_resolves_to_first_seen_label() {
    let points = vec![pt(0, 0, 0), pt(1, 0, 0)];
    let labels = vec![5u8, 7u8];
    let (_p, _c, _i, out_cls) = voxel_downsample_with_attributes(
        &points,
        None,
        None,
        Some(&labels),
        1000,
        ORIGIN,
    );
    assert_eq!(out_cls, vec![5u8]);
    // The same pair seen in the other order resolves the other way.
    let labels2 = vec![7u8, 5u8];
    let (_p2, _c2, _i2, out_cls2) = voxel_downsample_with_attributes(
        &points,
        None,
        None,
        Some(&labels2),
        1000,
        ORIGIN,
    );
    assert_eq!(out_cls2, vec![7u8]);
}

#[test]
fn downsample_keeps_first_seen_cell_order() {
    let points = vec![pt(5000, 0, 0), pt(0, 0, 0), pt(5100, 0, 0)];
    let result = voxel_downsample_internal(&points, 1000, ORIGIN);
    assert_eq!(result.len(), 2);
    // The cell of the first point comes first: its centroid is 5.05.
    assert_eq!(result[0], pt(5050, 0, 0));
    assert_eq!(result[1], pt(0, 0, 0));
}

#[test]
fn downsample_respects_caller_bounds() {
    // A min corner of -10.0 shifts the grid: 0.5 and -0.5 now share a cell.
    let min = pt(-10000, -10000, -10000);
    let points = vec![pt(-500, 0, 0), pt(500, 0, 0)];
    let result = voxel_downsample_internal(&points, 1000, min);
    assert_eq!(result.len(), 2);
    let coarse = voxel_downsample_internal(&points, 20000, min);
    assert_eq!(coarse.len(), 1);
    assert_eq!(coarse[0], pt(0, 0, 0));
}
