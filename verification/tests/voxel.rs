//! The per-voxel accumulator on its own: running sums and floored means.

use voxel_tools::point::Point;
use voxel_tools::voxel::Voxel;

#[test]
fn voxel_average_of_nothing_is_origin() {
    let v = Voxel::new();
    assert_eq!(v.get_average(), Point { x: 0, y: 0, z: 0 });
}

#[test]
fn voxel_running_average_floors() {
    let mut v = Voxel::new();
    v.add_point(Point { x: 1, y: 10, z: -1 });
    v.add_point(Point { x: 2, y: 11, z: -2 });
    assert_eq!(v.count, 2);
    assert_eq!(v.sum_x, 3);
    // 3 / 2 floors to 1; 21 / 2 floors to 10; -3 / 2 floors to -2, toward
    // negative infinity rather than zero.
    assert_eq!(v.get_average(), Point { x: 1, y: 10, z: -2 });
}

#[test]
fn voxel_single_point_average_is_the_point() {
    let mut v = Voxel::new();
    v.add_point(Point { x: -7, y: 0, z: 9 });
    assert_eq!(v.get_average(), Point { x: -7, y: 0, z: 9 });
}
