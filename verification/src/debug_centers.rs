//! Debug centers: the geometric center of every occupied cell.
//!
//! Unlike downsampling, which emits the centroid of the points inside a
//! cell, this pass emits the center of the cell itself — grid geometry, not
//! data. A cell center sits half a cell size past the cell's low corner, so
//! it lands on a half-unit boundary of the fixed-point coordinate space; to
//! stay exact, the centers are reported in half-units: every returned
//! coordinate is twice the center, `2·min + (2·index + 1)·size` per axis.

use vstd::prelude::*;
use vstd::arithmetic::div_mod::lemma_fundamental_div_mod;
use crate::point::{Point, point_in_range, points_in_range, coord_in_range, COORD_LIMIT};
use crate::grid::{Cell, cell_of, cell_index, cell_coord_spec, lemma_cell_coord_in_range};
use crate::cell_table::{CellTable, cell_table_contents};
use crate::aggregate::{
    lift_points, seen_cells, downsample_positions, lemma_seen_cells_complete,
};

verus! {

/// The center of cell `c`, in half-units: twice `min + (index + 1/2)·size`
/// per axis.
pub open spec fn center2_of(c: Cell, min: Point, size: int) -> Point {
    Point {
        x: (2 * min.x + (2 * c.x + 1) * size) as i64,
        y: (2 * min.y + (2 * c.y + 1) * size) as i64,
        z: (2 * min.z + (2 * c.z + 1) * size) as i64,
    }
}

/// What the debug pass yields: the half-unit center of every occupied cell,
/// in first-seen cell order.
pub open spec fn debug_centers_spec(pts: Seq<Point>, min: Point, size: int) -> Seq<Point> {
    let cells = seen_cells(lift_points(pts), min, size);
    Seq::new(cells.len(), |k: int| center2_of(cells[k], min, size))
}

/// The doubled center of an occupied cell stays within four coordinate
/// limits, so it fits an `i64` exactly.
pub proof fn lemma_center2_bounds(x: int, min: int, size: int)
    requires
        coord_in_range(x),
        coord_in_range(min),
        1 <= size <= COORD_LIMIT as int,
    ensures
        -(4 * (COORD_LIMIT as int)) <= 2 * min + (2 * cell_coord_spec(x, min, size) + 1) * size
            <= 4 * (COORD_LIMIT as int),
{
    let c = cell_coord_spec(x, min, size);
    lemma_fundamental_div_mod(x - min, size);
    let r = (x - min) % size;
    assert(x - min == size * c + r && 0 <= r < size);
    assert(2 * min + (2 * c + 1) * size == 2 * x - 2 * r + size) by (nonlinear_arith)
        requires
            x - min == size * c + r,
    ;
}

/// Enumerate the occupied cells of the grid and emit each cell's geometric
/// center (in half-units), one per distinct cell, in first-seen order.
/// Degenerate input — no points, or a non-positive voxel size — yields an
/// empty result.
pub fn generate_voxel_centers_internal(points: &Vec<Point>, voxel_size: i64, min: Point) -> (out:
    Vec<Point>)
    requires
        points_in_range(points@),
        point_in_range(min),
        voxel_size <= COORD_LIMIT,
    ensures
        voxel_size <= 0 ==> out@.len() == 0,
        voxel_size >= 1 ==> out@ == debug_centers_spec(points@, min, voxel_size as int),
{
    let n = points.len();
    if voxel_size <= 0 {
        return Vec::new();
    }
    let ghost size = voxel_size as int;
    let ghost s = lift_points(points@);

    let mut table = CellTable::new();
    let mut cells: Vec<Cell> = Vec::new();

    let mut i: usize = 0;
    while i < n
        invariant
            n == points@.len(),
            0 <= i <= n,
            voxel_size >= 1,
            size == voxel_size as int,
            s == lift_points(points@),
            s.len() == n,
            points_in_range(points@),
            point_in_range(min),
            cells@ == seen_cells(s.take(i as int), min, size),
            forall|c: Cell| #[trigger]
                cell_table_contents(table).contains_key(c) ==> seen_cells(
                    s.take(i as int),
                    min,
                    size,
                ).contains(c),
            forall|c: Cell| #[trigger]
                seen_cells(s.take(i as int), min, size).contains(c) ==> cell_table_contents(
                    table,
                ).contains_key(c),
        decreases n - i,
    {
        let ghost pre = s.take(i as int);
        let ghost post = s.take(i as int + 1);
        proof {
            assert(post.drop_last() =~= pre);
            assert(post.last() == s[i as int]);
        }
        let p = points[i];
        proof {
            assert(s[i as int].pos == p);
            assert(point_in_range(p));
        }
        let k = cell_index(&p, &min, voxel_size);
        proof {
            assert(cell_of(post.last().pos, min, size) == k);
        }
        match table.get(k) {
            Some(_slot) => {
                proof {
                    assert(seen_cells(pre, min, size).contains(k));
                    assert(seen_cells(post, min, size) == seen_cells(pre, min, size));
                }
            },
            None => {
                table.insert(k, 0);
                cells.push(k);
                proof {
                    assert(!seen_cells(pre, min, size).contains(k));
                    assert(seen_cells(post, min, size) =~= seen_cells(pre, min, size).push(k));
                    assert forall|c: Cell| #[trigger]
                        cell_table_contents(table).contains_key(c) implies seen_cells(
                        post,
                        min,
                        size,
                    ).contains(c) by {
                        let cur = seen_cells(post, min, size);
                        if c == k {
                            assert(cur[cur.len() - 1] == k);
                        } else {
                            assert(seen_cells(pre, min, size).contains(c));
                            let j = choose|j: int|
                                0 <= j < seen_cells(pre, min, size).len() && seen_cells(
                                    pre,
                                    min,
                                    size,
                                )[j] == c;
                            assert(cur[j] == c);
                        }
                    }
                    assert forall|c: Cell| #[trigger]
                        seen_cells(post, min, size).contains(c) implies cell_table_contents(
                        table,
                    ).contains_key(c) by {
                        let cur = seen_cells(post, min, size);
                        let j = choose|j: int| 0 <= j < cur.len() && cur[j] == c;
                        if j < cur.len() - 1 {
                            assert(seen_cells(pre, min, size)[j] == c);
                            assert(seen_cells(pre, min, size).contains(c));
                        } else {
                            assert(c == k);
                        }
                    }
                }
            },
        }
        i = i + 1;
    }
    proof {
        assert(s.take(n as int) =~= s);
        lemma_seen_cells_complete(s, min, size);
    }

    let m = cells.len();
    let mut out: Vec<Point> = Vec::new();
    let mut k: usize = 0;
    while k < m
        invariant
            m == cells@.len(),
            0 <= k <= m,
            voxel_size >= 1,
            1 <= voxel_size <= COORD_LIMIT,
            size == voxel_size as int,
            s == lift_points(points@),
            points_in_range(points@),
            point_in_range(min),
            cells@ == seen_cells(s, min, size),
            forall|c: Cell| #[trigger]
                seen_cells(s, min, size).contains(c) ==> exists|j: int|
                    0 <= j < s.len() && cell_of(#[trigger] s[j].pos, min, size) == c,
            out@.len() == k as int,
            forall|k2: int|
                0 <= k2 < k ==> (#[trigger] out@[k2]) == center2_of(cells@[k2], min, size),
        decreases m - k,
    {
        let c = cells[k];
        proof {
            assert(seen_cells(s, min, size).contains(c)) by {
                assert(seen_cells(s, min, size)[k as int] == c);
            }
            let j = choose|j: int| 0 <= j < s.len() && cell_of(#[trigger] s[j].pos, min, size)
                == c;
            let w = s[j].pos;
            assert(point_in_range(w));
            lemma_cell_coord_in_range(w.x as int, min.x as int, size);
            lemma_cell_coord_in_range(w.y as int, min.y as int, size);
            lemma_cell_coord_in_range(w.z as int, min.z as int, size);
            assert(c.x as int == cell_coord_spec(w.x as int, min.x as int, size));
            assert(c.y as int == cell_coord_spec(w.y as int, min.y as int, size));
            assert(c.z as int == cell_coord_spec(w.z as int, min.z as int, size));
            lemma_center2_bounds(w.x as int, min.x as int, size);
            lemma_center2_bounds(w.y as int, min.y as int, size);
            lemma_center2_bounds(w.z as int, min.z as int, size);
        }
        let cx = 2 * (min.x as i128) + (2 * (c.x as i128) + 1) * (voxel_size as i128);
        let cy = 2 * (min.y as i128) + (2 * (c.y as i128) + 1) * (voxel_size as i128);
        let cz = 2 * (min.z as i128) + (2 * (c.z as i128) + 1) * (voxel_size as i128);
        let center = Point { x: cx as i64, y: cy as i64, z: cz as i64 };
        proof {
            assert(center == center2_of(c, min, size));
        }
        out.push(center);
        k = k + 1;
    }
    proof {
        assert(out@ =~= debug_centers_spec(points@, min, size));
    }
    out
}

/// Law: a debug pass and a downsample over the same buffer, bounds and
/// voxel size see exactly the same occupied cells — their output counts are
/// equal — and each debug value is, exactly, twice the cell's geometric
/// center `min + (index + 1/2)·size` per axis, not the centroid of the
/// cell's points.
pub proof fn lemma_debug_matches_downsample(pts: Seq<Point>, min: Point, size: int)
    requires
        1 <= size <= COORD_LIMIT as int,
        points_in_range(pts),
        point_in_range(min),
    ensures
        debug_centers_spec(pts, min, size).len() == downsample_positions(pts, min, size).len(),
        forall|k: int|
            0 <= k < debug_centers_spec(pts, min, size).len() ==> ({
                let c = seen_cells(lift_points(pts), min, size)[k];
                &&& (#[trigger] debug_centers_spec(pts, min, size)[k]).x as int == 2 * min.x + (2
                    * c.x + 1) * size
                &&& debug_centers_spec(pts, min, size)[k].y as int == 2 * min.y + (2 * c.y + 1)
                    * size
                &&& debug_centers_spec(pts, min, size)[k].z as int == 2 * min.z + (2 * c.z + 1)
                    * size
            }),
{
    let s = lift_points(pts);
    lemma_seen_cells_complete(s, min, size);
    assert forall|k: int| 0 <= k < debug_centers_spec(pts, min, size).len() implies ({
        let c = seen_cells(s, min, size)[k];
        &&& (#[trigger] debug_centers_spec(pts, min, size)[k]).x as int == 2 * min.x + (2 * c.x
            + 1) * size
        &&& debug_centers_spec(pts, min, size)[k].y as int == 2 * min.y + (2 * c.y + 1) * size
        &&& debug_centers_spec(pts, min, size)[k].z as int == 2 * min.z + (2 * c.z + 1) * size
    }) by {
        let c = seen_cells(s, min, size)[k];
        assert(seen_cells(s, min, size).contains(c));
        let j = choose|j: int| 0 <= j < s.len() && cell_of(#[trigger] s[j].pos, min, size) == c;
        let w = s[j].pos;
        assert(point_in_range(w));
        lemma_cell_coord_in_range(w.x as int, min.x as int, size);
        lemma_cell_coord_in_range(w.y as int, min.y as int, size);
        lemma_cell_coord_in_range(w.z as int, min.z as int, size);
        lemma_center2_bounds(w.x as int, min.x as int, size);
        lemma_center2_bounds(w.y as int, min.y as int, size);
        lemma_center2_bounds(w.z as int, min.z as int, size);
    }
}

} // verus!
