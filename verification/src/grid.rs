//! The uniform spatial grid: mapping a coordinate to its cell.
//!
//! A grid is given by a per-axis origin (`min`) and a positive cell size.
//! A coordinate `c` falls in cell `(c - min) / size`, truncated toward
//! negative infinity, so coordinates below the origin land in negative cells
//! rather than all collapsing into cell zero.

use vstd::prelude::*;
use vstd::arithmetic::div_mod::{
    lemma_fundamental_div_mod, lemma_fundamental_div_mod_converse_div, lemma_div_is_ordered,
    lemma_div_plus_one, lemma_div_minus_one,
};
use crate::point::{Point, coord_in_range, COORD_LIMIT};

verus! {

/// Discrete cell coordinates of one grid cell.
#[derive(Clone, Copy, PartialEq, Eq, Hash, Structural, Debug)]
pub struct Cell {
    pub x: i64,
    pub y: i64,
    pub z: i64,
}

/// The cell coordinate of scalar `c` on an axis with origin `min` and the
/// given cell size: `(c - min) / size` rounded toward negative infinity
/// (Euclidean division, since `size > 0`).
pub open spec fn cell_coord_spec(c: int, min: int, size: int) -> int {
    (c - min) / size
}

/// The cell a point falls in.
pub open spec fn cell_of(p: Point, min: Point, size: int) -> Cell {
    Cell {
        x: cell_coord_spec(p.x as int, min.x as int, size) as i64,
        y: cell_coord_spec(p.y as int, min.y as int, size) as i64,
        z: cell_coord_spec(p.z as int, min.z as int, size) as i64,
    }
}

/// Quotients of a division by `size >= 1` stay between the dividend and zero.
pub proof fn lemma_div_bounds(a: int, b: int)
    requires
        b >= 1,
    ensures
        a >= 0 ==> 0 <= a / b <= a,
        a < 0 ==> a <= a / b <= 0,
{
    lemma_fundamental_div_mod(a, b);
    let q = a / b;
    let r = a % b;
    assert(a == b * q + r && 0 <= r < b);
    if a >= 0 {
        assert(0 <= q && q <= a) by (nonlinear_arith)
            requires
                a == b * q + r,
                0 <= r < b,
                b >= 1,
                a >= 0,
        ;
    } else {
        assert(a <= q && q <= 0) by (nonlinear_arith)
            requires
                a == b * q + r,
                0 <= r < b,
                b >= 1,
                a < 0,
        ;
    }
}

/// With coordinates within range and `size >= 1`, a cell coordinate stays
/// strictly inside the `i64` range, so casting it to `i64` is exact.
pub proof fn lemma_cell_coord_in_range(c: int, min: int, size: int)
    requires
        coord_in_range(c),
        coord_in_range(min),
        size >= 1,
    ensures
        -2 * (COORD_LIMIT as int) <= cell_coord_spec(c, min, size) <= 2 * (COORD_LIMIT as int),
        cell_coord_spec(c, min, size) as i64 == cell_coord_spec(c, min, size),
{
    lemma_div_bounds(c - min, size);
}

/// Floor division of `a` by a positive divisor, computed through unsigned
/// division so that negative dividends round toward negative infinity, as
/// the grid needs, rather than toward zero as `/` on signed integers would.
pub fn floor_div_i128(a: i128, b: i128) -> (q: i128)
    requires
        b >= 1,
        a > i128::MIN,
    ensures
        q as int == a as int / b as int,
{
    proof {
        lemma_div_bounds(a as int, b as int);
    }
    if a >= 0 {
        ((a as u128) / (b as u128)) as i128
    } else {
        let m = (-a) as u128;
        let q1 = (m - 1) / (b as u128);
        proof {
            lemma_fundamental_div_mod(m as int - 1, b as int);
            let s = (m as int - 1) % (b as int);
            assert(m as int - 1 == (b as int) * (q1 as int) + s && 0 <= s < b as int);
            assert(a as int == (b as int) * (-(q1 as int) - 1) + (b as int - s - 1)) by (nonlinear_arith)
                requires
                    m as int == -(a as int),
                    m as int - 1 == (b as int) * (q1 as int) + s,
            ;
            lemma_fundamental_div_mod_converse_div(
                a as int,
                b as int,
                -(q1 as int) - 1,
                b as int - s - 1,
            );
            assert(q1 as int <= m as int - 1) by {
                lemma_div_bounds(m as int - 1, b as int);
            }
        }
        -((q1 as i128) + 1)
    }
}

/// The cell coordinate of `c` on one axis: `(c - min) / size`, floored.
pub fn cell_coord(c: i64, min: i64, size: i64) -> (g: i64)
    requires
        coord_in_range(c as int),
        coord_in_range(min as int),
        size >= 1,
    ensures
        g as int == cell_coord_spec(c as int, min as int, size as int),
{
    let diff: i128 = (c as i128) - (min as i128);
    let q = floor_div_i128(diff, size as i128);
    proof {
        lemma_cell_coord_in_range(c as int, min as int, size as int);
    }
    q as i64
}

/// The cell a point falls in; the shared primitive of downsampling, debug
/// centers and smoothing.
pub fn cell_index(p: &Point, min: &Point, size: i64) -> (k: Cell)
    requires
        crate::point::point_in_range(*p),
        crate::point::point_in_range(*min),
        size >= 1,
    ensures
        k == cell_of(*p, *min, size as int),
{
    Cell {
        x: cell_coord(p.x, min.x, size),
        y: cell_coord(p.y, min.y, size),
        z: cell_coord(p.z, min.z, size),
    }
}

/// Scalars within `size` of each other land in the same cell or in adjacent
/// cells: the coordinate distance bounds the cell distance by one.
pub proof fn lemma_close_coords_adjacent_cells(a: int, b: int, min: int, size: int)
    requires
        size >= 1,
        -size <= a - b <= size,
    ensures
        cell_coord_spec(a, min, size) - 1 <= cell_coord_spec(b, min, size)
            <= cell_coord_spec(a, min, size) + 1,
{
    lemma_div_is_ordered(a - min - size, b - min, size);
    lemma_div_is_ordered(b - min, a - min + size, size);
    lemma_div_plus_one(a - min, size);
    lemma_div_minus_one(a - min, size);
    assert(a - min + size == size + (a - min));
    assert(a - min - size == -size + (a - min));
}

} // verus!
