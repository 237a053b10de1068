//! Fixed-point 3D points and the coordinate range the library works in.

use vstd::prelude::*;

verus! {

/// Largest coordinate magnitude accepted by the library.
///
/// Every coordinate, attribute value, bound and cell size is kept within
/// `[-COORD_LIMIT, COORD_LIMIT]` so that running sums over a whole buffer and
/// squared distances both fit in `i128` intermediates.
pub const COORD_LIMIT: i64 = 0x1000_0000_0000_0000;

/// One point of a cloud, with fixed-point integer coordinates.
#[derive(Clone, Copy, PartialEq, Eq, Structural, Debug)]
pub struct Point {
    pub x: i64,
    pub y: i64,
    pub z: i64,
}

/// One RGB color sample, in the caller's fixed-point unit.
#[derive(Clone, Copy, PartialEq, Eq, Structural, Debug)]
pub struct Color {
    pub r: i64,
    pub g: i64,
    pub b: i64,
}

/// A single scalar lies within the library's coordinate range.
pub open spec fn coord_in_range(c: int) -> bool {
    -(COORD_LIMIT as int) <= c <= COORD_LIMIT as int
}

/// All three coordinates of a point lie within the coordinate range.
pub open spec fn point_in_range(p: Point) -> bool {
    coord_in_range(p.x as int) && coord_in_range(p.y as int) && coord_in_range(p.z as int)
}

/// Every point of a buffer lies within the coordinate range.
pub open spec fn points_in_range(pts: Seq<Point>) -> bool {
    forall|i: int| 0 <= i < pts.len() ==> point_in_range(#[trigger] pts[i])
}

/// All three channels of a color lie within the coordinate range.
pub open spec fn color_in_range(c: Color) -> bool {
    coord_in_range(c.r as int) && coord_in_range(c.g as int) && coord_in_range(c.b as int)
}

/// Every color of a buffer lies within the coordinate range.
pub open spec fn colors_in_range(cs: Seq<Color>) -> bool {
    forall|i: int| 0 <= i < cs.len() ==> color_in_range(#[trigger] cs[i])
}

/// Every intensity of a buffer lies within the coordinate range.
pub open spec fn intensities_in_range(vs: Seq<i64>) -> bool {
    forall|i: int| 0 <= i < vs.len() ==> coord_in_range(#[trigger] vs[i] as int)
}

} // verus!
