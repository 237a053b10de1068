//! Neighborhood smoothing: iterative relaxation toward local averages.
//!
//! Each round snapshots the current positions, rebuilds a bounded grid over
//! their bounding box with the smoothing radius as cell size, buckets every
//! point, and then moves each point to the self-inclusive average of itself
//! and every point within the radius — comparing squared distances, never
//! taking a root. Scanning the 3×3×3 block of cells around a point's own
//! cell reaches every candidate, because points within one radius lie at
//! most one cell away on each axis. Each round writes a fresh buffer, so a
//! round reads only positions produced by the round before it.

use vstd::prelude::*;
use vstd::arithmetic::div_mod::{
    lemma_fundamental_div_mod, lemma_div_pos_is_pos, lemma_div_is_ordered,
    lemma_fundamental_div_mod_converse_div, lemma_fundamental_div_mod_converse_mod,
};
use crate::point::{Point, point_in_range, points_in_range, coord_in_range, COORD_LIMIT};
use crate::grid::{Cell, cell_of, lemma_cell_coord_in_range, lemma_close_coords_adjacent_cells};

verus! {

/// Most grid cells one smoothing round may allocate; a larger grid is
/// rejected before allocation rather than allowed to exhaust memory.
pub const MAX_GRID_CELLS: i64 = 0x100_0000;

/// The failure a smoothing call can report: the bounding box of the points,
/// measured in radius-sized cells, exceeds the allocation cap.
#[derive(Clone, Copy, PartialEq, Eq, Structural, Debug)]
pub enum SmoothError {
    GridTooLarge,
}

/// Selector for a point's x coordinate.
pub open spec fn pt_x() -> spec_fn(Point) -> int {
    |p: Point| p.x as int
}

/// Selector for a point's y coordinate.
pub open spec fn pt_y() -> spec_fn(Point) -> int {
    |p: Point| p.y as int
}

/// Selector for a point's z coordinate.
pub open spec fn pt_z() -> spec_fn(Point) -> int {
    |p: Point| p.z as int
}

/// The squared Euclidean distance between two points.
pub open spec fn dist2(a: Point, b: Point) -> int {
    (a.x - b.x) * (a.x - b.x) + (a.y - b.y) * (a.y - b.y) + (a.z - b.z) * (a.z - b.z)
}

/// `j` is an in-radius neighbor of `i`: a different point within squared
/// distance `r²`.
pub open spec fn is_nbr(q: Seq<Point>, i: int, j: int, r: int) -> bool {
    0 <= j < q.len() && j != i && dist2(q[i], q[j]) <= r * r
}

/// How many of the first `n` points are in-radius neighbors of `i`.
pub open spec fn nbr_count(q: Seq<Point>, i: int, r: int, n: int) -> int
    decreases n,
{
    if n <= 0 {
        0
    } else {
        nbr_count(q, i, r, n - 1) + if is_nbr(q, i, n - 1, r) {
            1int
        } else {
            0int
        }
    }
}

/// Sum of `f` over the in-radius neighbors of `i` among the first `n`
/// points.
pub open spec fn nbr_sum(q: Seq<Point>, i: int, r: int, n: int, f: spec_fn(Point) -> int) -> int
    decreases n,
{
    if n <= 0 {
        0
    } else {
        nbr_sum(q, i, r, n - 1, f) + if is_nbr(q, i, n - 1, r) {
            f(q[n - 1])
        } else {
            0int
        }
    }
}

/// Neighbor count restricted to the points whose grid cell lies in `cs`.
pub open spec fn scan_count(
    q: Seq<Point>,
    i: int,
    r: int,
    min: Point,
    cs: Set<Cell>,
    n: int,
) -> int
    decreases n,
{
    if n <= 0 {
        0
    } else {
        scan_count(q, i, r, min, cs, n - 1) + if is_nbr(q, i, n - 1, r) && cs.contains(
            cell_of(q[n - 1], min, r),
        ) {
            1int
        } else {
            0int
        }
    }
}

/// Neighbor sum of `f` restricted to the points whose grid cell lies in
/// `cs`.
pub open spec fn scan_sum(
    q: Seq<Point>,
    i: int,
    r: int,
    min: Point,
    cs: Set<Cell>,
    n: int,
    f: spec_fn(Point) -> int,
) -> int
    decreases n,
{
    if n <= 0 {
        0
    } else {
        scan_sum(q, i, r, min, cs, n - 1, f) + if is_nbr(q, i, n - 1, r) && cs.contains(
            cell_of(q[n - 1], min, r),
        ) {
            f(q[n - 1])
        } else {
            0int
        }
    }
}

/// Where one smoothing round moves point `i`: the floored self-inclusive
/// average of its own position and every in-radius neighbor. A point with
/// no neighbors divides itself by one and stays unchanged.
pub open spec fn smooth_point_spec(q: Seq<Point>, i: int, r: int) -> Point {
    let n = q.len() as int;
    let cnt = nbr_count(q, i, r, n);
    Point {
        x: ((q[i].x + nbr_sum(q, i, r, n, pt_x())) / (cnt + 1)) as i64,
        y: ((q[i].y + nbr_sum(q, i, r, n, pt_y())) / (cnt + 1)) as i64,
        z: ((q[i].z + nbr_sum(q, i, r, n, pt_z())) / (cnt + 1)) as i64,
    }
}

/// One full smoothing round over a snapshot of the positions.
pub open spec fn smooth_round_spec(q: Seq<Point>, r: int) -> Seq<Point> {
    Seq::new(q.len(), |i: int| smooth_point_spec(q, i, r))
}

/// `k` smoothing rounds, each over the output of the one before.
pub open spec fn smooth_iter_spec(q: Seq<Point>, r: int, k: int) -> Seq<Point>
    decreases k,
{
    if k <= 0 {
        q
    } else {
        smooth_round_spec(smooth_iter_spec(q, r, k - 1), r)
    }
}

/// Least value of `f` over the first `n` points (`n >= 1`).
pub open spec fn axis_min(q: Seq<Point>, n: int, f: spec_fn(Point) -> int) -> int
    decreases n,
{
    if n <= 1 {
        f(q[0])
    } else {
        let m = axis_min(q, n - 1, f);
        if f(q[n - 1]) < m {
            f(q[n - 1])
        } else {
            m
        }
    }
}

/// Greatest value of `f` over the first `n` points (`n >= 1`).
pub open spec fn axis_max(q: Seq<Point>, n: int, f: spec_fn(Point) -> int) -> int
    decreases n,
{
    if n <= 1 {
        f(q[0])
    } else {
        let m = axis_max(q, n - 1, f);
        if f(q[n - 1]) > m {
            f(q[n - 1])
        } else {
            m
        }
    }
}

/// The grid dimensions one round derives from the bounding box: extent in
/// radius-sized cells plus one, per axis.
pub open spec fn grid_w(q: Seq<Point>, r: int) -> int {
    (axis_max(q, q.len() as int, pt_x()) - axis_min(q, q.len() as int, pt_x())) / r + 1
}

/// Grid height, as `grid_w` for the y axis.
pub open spec fn grid_h(q: Seq<Point>, r: int) -> int {
    (axis_max(q, q.len() as int, pt_y()) - axis_min(q, q.len() as int, pt_y())) / r + 1
}

/// Grid depth, as `grid_w` for the z axis.
pub open spec fn grid_d(q: Seq<Point>, r: int) -> int {
    (axis_max(q, q.len() as int, pt_z()) - axis_min(q, q.len() as int, pt_z())) / r + 1
}

/// One round's grid fits under the allocation cap.
pub open spec fn round_feasible(q: Seq<Point>, r: int) -> bool {
    q.len() == 0 || grid_w(q, r) * grid_h(q, r) * grid_d(q, r) <= MAX_GRID_CELLS as int
}

/// Every round up to the `k`-th fits under the allocation cap.
pub open spec fn rounds_feasible(q: Seq<Point>, r: int, k: int) -> bool
    decreases k,
{
    if k <= 0 {
        true
    } else {
        rounds_feasible(q, r, k - 1) && round_feasible(smooth_iter_spec(q, r, k - 1), r)
    }
}

/// Feasibility of `k2` rounds implies feasibility of any shorter run.
pub proof fn lemma_rounds_feasible_mono(q: Seq<Point>, r: int, k: int, k2: int)
    requires
        k <= k2,
        rounds_feasible(q, r, k2),
    ensures
        rounds_feasible(q, r, k),
    decreases k2 - k,
{
    if k < k2 {
        lemma_rounds_feasible_mono(q, r, k, k2 - 1);
    }
}

/// The extrema really bound every point, and they are attained.
pub proof fn lemma_axis_extrema(q: Seq<Point>, n: int, f: spec_fn(Point) -> int)
    requires
        1 <= n <= q.len(),
    ensures
        forall|j: int| 0 <= j < n ==> axis_min(q, n, f) <= #[trigger] f(q[j]) <= axis_max(q, n, f),
        exists|j: int| 0 <= j < n && #[trigger] f(q[j]) == axis_min(q, n, f),
        exists|j: int| 0 <= j < n && #[trigger] f(q[j]) == axis_max(q, n, f),
    decreases n,
{
    if n > 1 {
        lemma_axis_extrema(q, n - 1, f);
    } else {
        assert(f(q[0]) == axis_min(q, n, f));
    }
}

/// A scan over a cell set that no point's cell belongs to adds nothing.
pub proof fn lemma_scan_absent(
    q: Seq<Point>,
    i: int,
    r: int,
    min: Point,
    cs: Set<Cell>,
    n: int,
    f: spec_fn(Point) -> int,
)
    requires
        forall|j: int| 0 <= j < n ==> !cs.contains(cell_of(#[trigger] q[j], min, r)),
    ensures
        scan_count(q, i, r, min, cs, n) == 0,
        scan_sum(q, i, r, min, cs, n, f) == 0,
    decreases n,
{
    if n > 0 {
        lemma_scan_absent(q, i, r, min, cs, n - 1, f);
    }
}

/// Scanning one more cell adds exactly that cell's own contribution.
pub proof fn lemma_scan_insert(
    q: Seq<Point>,
    i: int,
    r: int,
    min: Point,
    cs: Set<Cell>,
    c: Cell,
    n: int,
    f: spec_fn(Point) -> int,
)
    requires
        !cs.contains(c),
    ensures
        scan_count(q, i, r, min, cs.insert(c), n) == scan_count(q, i, r, min, cs, n)
            + scan_count(q, i, r, min, Set::empty().insert(c), n),
        scan_sum(q, i, r, min, cs.insert(c), n, f) == scan_sum(q, i, r, min, cs, n, f)
            + scan_sum(q, i, r, min, Set::empty().insert(c), n, f),
    decreases n,
{
    if n > 0 {
        lemma_scan_insert(q, i, r, min, cs, c, n - 1, f);
    }
}

/// A scan over a cell set that covers every neighbor's cell is the full
/// neighbor aggregate.
pub proof fn lemma_scan_covers_all(
    q: Seq<Point>,
    i: int,
    r: int,
    min: Point,
    cs: Set<Cell>,
    n: int,
    f: spec_fn(Point) -> int,
)
    requires
        forall|j: int|
            0 <= j < n && is_nbr(q, i, j, r) ==> cs.contains(cell_of(#[trigger] q[j], min, r)),
    ensures
        scan_count(q, i, r, min, cs, n) == nbr_count(q, i, r, n),
        scan_sum(q, i, r, min, cs, n, f) == nbr_sum(q, i, r, n, f),
    decreases n,
{
    if n > 0 {
        lemma_scan_covers_all(q, i, r, min, cs, n - 1, f);
    }
}

/// Neighbor counts are nonnegative and never exceed the prefix length.
pub proof fn lemma_scan_count_bounds(
    q: Seq<Point>,
    i: int,
    r: int,
    min: Point,
    cs: Set<Cell>,
    n: int,
)
    requires
        n >= 0,
    ensures
        0 <= scan_count(q, i, r, min, cs, n) <= n,
    decreases n,
{
    if n > 0 {
        lemma_scan_count_bounds(q, i, r, min, cs, n - 1);
    }
}

/// Points within one radius of each other sit at most one cell apart on
/// every axis.
pub proof fn lemma_nbr_cell_adjacent(q: Seq<Point>, i: int, j: int, r: int, min: Point)
    requires
        is_nbr(q, i, j, r),
        r >= 1,
        0 <= i < q.len(),
        point_in_range(q[i]),
        point_in_range(q[j]),
        point_in_range(min),
    ensures
        cell_of(q[i], min, r).x - 1 <= cell_of(q[j], min, r).x <= cell_of(q[i], min, r).x + 1,
        cell_of(q[i], min, r).y - 1 <= cell_of(q[j], min, r).y <= cell_of(q[i], min, r).y + 1,
        cell_of(q[i], min, r).z - 1 <= cell_of(q[j], min, r).z <= cell_of(q[i], min, r).z + 1,
{
    let a = q[i];
    let b = q[j];
    assert(-r <= a.x - b.x <= r && -r <= a.y - b.y <= r && -r <= a.z - b.z <= r)
        by (nonlinear_arith)
        requires
            (a.x - b.x) * (a.x - b.x) + (a.y - b.y) * (a.y - b.y) + (a.z - b.z) * (a.z - b.z)
                <= r * r,
            r >= 1,
    ;
    lemma_close_coords_adjacent_cells(a.x as int, b.x as int, min.x as int, r);
    lemma_close_coords_adjacent_cells(a.y as int, b.y as int, min.y as int, r);
    lemma_close_coords_adjacent_cells(a.z as int, b.z as int, min.z as int, r);
    lemma_cell_coord_in_range(a.x as int, min.x as int, r);
    lemma_cell_coord_in_range(a.y as int, min.y as int, r);
    lemma_cell_coord_in_range(a.z as int, min.z as int, r);
    lemma_cell_coord_in_range(b.x as int, min.x as int, r);
    lemma_cell_coord_in_range(b.y as int, min.y as int, r);
    lemma_cell_coord_in_range(b.z as int, min.z as int, r);
}

/// Cell coordinates lie inside a `w × h × d` grid.
pub open spec fn in_bounds(c: Cell, w: int, h: int, d: int) -> bool {
    0 <= c.x < w && 0 <= c.y < h && 0 <= c.z < d
}

/// The linear index of a cell in a `w × h × d` grid laid out x-fastest.
pub open spec fn lin_of(c: Cell, w: int, h: int) -> int {
    c.x + w * (c.y + h * c.z)
}

/// The linear index of an in-bounds cell addresses a valid grid slot.
pub proof fn lemma_lin_bounds(c: Cell, w: int, h: int, d: int)
    requires
        in_bounds(c, w, h, d),
        w >= 1,
        h >= 1,
        d >= 1,
    ensures
        0 <= lin_of(c, w, h) < w * h * d,
{
    assert(0 <= c.x + w * (c.y + h * c.z) < w * h * d) by (nonlinear_arith)
        requires
            0 <= c.x < w,
            0 <= c.y < h,
            0 <= c.z < d,
    ;
}

/// Within the grid bounds, distinct cells have distinct linear indices.
pub proof fn lemma_lin_injective(c1: Cell, c2: Cell, w: int, h: int, d: int)
    requires
        in_bounds(c1, w, h, d),
        in_bounds(c2, w, h, d),
        lin_of(c1, w, h) == lin_of(c2, w, h),
        w >= 1,
        h >= 1,
        d >= 1,
    ensures
        c1 == c2,
{
    let g = lin_of(c1, w, h);
    assert(g == (c1.y + h * c1.z) * w + c1.x) by (nonlinear_arith)
        requires
            g == c1.x + w * (c1.y + h * c1.z),
    ;
    assert(g == (c2.y + h * c2.z) * w + c2.x) by (nonlinear_arith)
        requires
            g == c2.x + w * (c2.y + h * c2.z),
    ;
    lemma_fundamental_div_mod_converse_div(g, w, c1.y + h * c1.z, c1.x as int);
    lemma_fundamental_div_mod_converse_mod(g, w, c1.y + h * c1.z, c1.x as int);
    lemma_fundamental_div_mod_converse_div(g, w, c2.y + h * c2.z, c2.x as int);
    lemma_fundamental_div_mod_converse_mod(g, w, c2.y + h * c2.z, c2.x as int);
    assert(c1.x == c2.x && c1.y + h * c1.z == c2.y + h * c2.z);
    let e = c1.y + h * c1.z;
    assert(e == c1.z * h + c1.y) by (nonlinear_arith)
        requires
            e == c1.y + h * c1.z,
    ;
    assert(e == c2.z * h + c2.y) by (nonlinear_arith)
        requires
            e == c2.y + h * c2.z,
    ;
    lemma_fundamental_div_mod_converse_div(e, h, c1.z as int, c1.y as int);
    lemma_fundamental_div_mod_converse_div(e, h, c2.z as int, c2.y as int);
    lemma_fundamental_div_mod_converse_mod(e, h, c1.z as int, c1.y as int);
    lemma_fundamental_div_mod_converse_mod(e, h, c2.z as int, c2.y as int);
}

/// The indices (in increasing order) of the first `n` points that fall in
/// cell `c`: the contents of `c`'s grid bucket after `n` points were
/// bucketed.
pub open spec fn idxs_in_cell(q: Seq<Point>, min: Point, r: int, c: Cell, n: int) -> Seq<usize>
    decreases n,
{
    if n <= 0 {
        Seq::empty()
    } else {
        let prev = idxs_in_cell(q, min, r, c, n - 1);
        if cell_of(q[n - 1], min, r) == c {
            prev.push((n - 1) as usize)
        } else {
            prev
        }
    }
}

/// Bucket entries are valid indices of points that fall in the bucket's
/// cell.
pub proof fn lemma_idxs_elements(q: Seq<Point>, min: Point, r: int, c: Cell, n: int)
    requires
        0 <= n <= usize::MAX,
    ensures
        forall|b: int|
            0 <= b < idxs_in_cell(q, min, r, c, n).len() ==> (
            #[trigger] idxs_in_cell(q, min, r, c, n)[b]) < n && cell_of(
                q[idxs_in_cell(q, min, r, c, n)[b] as int],
                min,
                r,
            ) == c,
    decreases n,
{
    if n > 0 {
        lemma_idxs_elements(q, min, r, c, n - 1);
        let prev = idxs_in_cell(q, min, r, c, n - 1);
        let cur = idxs_in_cell(q, min, r, c, n);
        assert forall|b: int| 0 <= b < cur.len() implies (#[trigger] cur[b]) < n && cell_of(
            q[cur[b] as int],
            min,
            r,
        ) == c by {
            if cell_of(q[n - 1], min, r) == c {
                if b < cur.len() - 1 {
                    assert(cur[b] == prev[b]);
                } else {
                    assert(cur[b] == (n - 1) as usize);
                }
            } else {
                assert(cur[b] == prev[b]);
            }
        }
    }
}

/// Neighbor count over the prefix of one bucket's entries.
pub open spec fn bseq_count(q: Seq<Point>, i: int, r: int, b: Seq<usize>) -> int
    decreases b.len(),
{
    if b.len() == 0 {
        0
    } else {
        bseq_count(q, i, r, b.drop_last()) + if is_nbr(q, i, b.last() as int, r) {
            1int
        } else {
            0int
        }
    }
}

/// Neighbor sum of `f` over the prefix of one bucket's entries.
pub open spec fn bseq_sum(
    q: Seq<Point>,
    i: int,
    r: int,
    b: Seq<usize>,
    f: spec_fn(Point) -> int,
) -> int
    decreases b.len(),
{
    if b.len() == 0 {
        0
    } else {
        bseq_sum(q, i, r, b.drop_last(), f) + if is_nbr(q, i, b.last() as int, r) {
            f(q[b.last() as int])
        } else {
            0int
        }
    }
}

/// Walking one cell's full bucket contributes exactly the scan of that one
/// cell.
pub proof fn lemma_bucket_scan(
    q: Seq<Point>,
    i: int,
    r: int,
    min: Point,
    c: Cell,
    n: int,
    f: spec_fn(Point) -> int,
)
    requires
        0 <= n <= usize::MAX,
    ensures
        bseq_count(q, i, r, idxs_in_cell(q, min, r, c, n)) == scan_count(
            q,
            i,
            r,
            min,
            Set::empty().insert(c),
            n,
        ),
        bseq_sum(q, i, r, idxs_in_cell(q, min, r, c, n), f) == scan_sum(
            q,
            i,
            r,
            min,
            Set::empty().insert(c),
            n,
            f,
        ),
    decreases n,
{
    if n > 0 {
        lemma_bucket_scan(q, i, r, min, c, n - 1, f);
        let prev = idxs_in_cell(q, min, r, c, n - 1);
        if cell_of(q[n - 1], min, r) == c {
            assert(prev.push((n - 1) as usize).drop_last() =~= prev);
            assert(prev.push((n - 1) as usize).last() == (n - 1) as usize);
        }
    }
}

/// The 3×3×3 offset with index `t` (`0 <= t < 27`), applied to `base`:
/// each axis shifts by `-1`, `0` or `+1`.
pub open spec fn offset_cell(base: Cell, t: int) -> Cell {
    Cell {
        x: (base.x + t / 9 - 1) as i64,
        y: (base.y + (t % 9) / 3 - 1) as i64,
        z: (base.z + t % 3 - 1) as i64,
    }
}

/// The cells reached by the offsets before index `t`.
pub open spec fn offsets_set(base: Cell, t: int) -> Set<Cell> {
    Set::new(|c: Cell| exists|t2: int| 0 <= t2 < t && c == offset_cell(base, t2))
}

/// Decompose an offset index into its three axis shifts.
pub proof fn lemma_offset_decompose(t: int)
    requires
        0 <= t < 27,
    ensures
        0 <= t / 9 < 3,
        0 <= (t % 9) / 3 < 3,
        0 <= t % 3 < 3,
        t == 9 * (t / 9) + 3 * ((t % 9) / 3) + t % 3,
        t % 9 == 3 * ((t % 9) / 3) + t % 3,
{
    lemma_fundamental_div_mod(t, 9);
    lemma_fundamental_div_mod(t % 9, 3);
    lemma_fundamental_div_mod(t, 3);
    assert(t % 9 < 9);
    assert((t % 9) / 3 < 3 && (t % 9) / 3 >= 0) by {
        lemma_div_pos_is_pos(t % 9, 3);
        lemma_div_is_ordered(t % 9, 8, 3);
    }
    assert(t / 9 >= 0) by {
        lemma_div_pos_is_pos(t, 9);
    }
    assert(t / 9 < 3) by {
        lemma_div_is_ordered(t, 26, 9);
    }
    assert((t % 9) % 3 == t % 3) by (nonlinear_arith)
        requires
            t == 9 * (t / 9) + t % 9,
            0 <= t % 9 < 9,
            t % 9 == 3 * ((t % 9) / 3) + (t % 9) % 3,
            0 <= (t % 9) % 3 < 3,
            t == 3 * (t / 3) + t % 3,
            0 <= t % 3 < 3,
    ;
}

/// A base cell with small nonnegative coordinates keeps its offset cells'
/// coordinates exact in `i64`.
pub open spec fn base_small(base: Cell) -> bool {
    0 <= base.x <= MAX_GRID_CELLS as int && 0 <= base.y <= MAX_GRID_CELLS as int && 0 <= base.z
        <= MAX_GRID_CELLS as int
}

/// The 27 offsets of one base cell are pairwise distinct cells.
pub proof fn lemma_offset_injective(base: Cell, t1: int, t2: int)
    requires
        base_small(base),
        0 <= t1 < 27,
        0 <= t2 < 27,
        offset_cell(base, t1) == offset_cell(base, t2),
    ensures
        t1 == t2,
{
    lemma_offset_decompose(t1);
    lemma_offset_decompose(t2);
    assert(base.x + t1 / 9 - 1 == base.x + t2 / 9 - 1);
    assert(base.y + (t1 % 9) / 3 - 1 == base.y + (t2 % 9) / 3 - 1);
    assert(base.z + t1 % 3 - 1 == base.z + t2 % 3 - 1);
}

/// Every cell adjacent to `base` (within one on each axis) is among its 27
/// offsets.
pub proof fn lemma_offsets_cover(base: Cell, c: Cell)
    requires
        base_small(base),
        base.x - 1 <= c.x <= base.x + 1,
        base.y - 1 <= c.y <= base.y + 1,
        base.z - 1 <= c.z <= base.z + 1,
    ensures
        offsets_set(base, 27).contains(c),
{
    let ax = c.x - base.x + 1;
    let ay = c.y - base.y + 1;
    let az = c.z - base.z + 1;
    let t = 9 * ax + 3 * ay + az;
    assert(0 <= t < 27);
    lemma_fundamental_div_mod_converse_div(t, 9, ax, 3 * ay + az);
    lemma_fundamental_div_mod_converse_mod(t, 9, ax, 3 * ay + az);
    lemma_fundamental_div_mod_converse_div(3 * ay + az, 3, ay, az);
    lemma_fundamental_div_mod_converse_mod(3 * ay + az, 3, ay, az);
    assert(t % 3 == az) by (nonlinear_arith)
        requires
            t == 9 * ax + 3 * ay + az,
            0 <= az < 3,
    ;
    assert(offset_cell(base, t) == c);
}

/// The offset sets grow one distinct cell at a time.
pub proof fn lemma_offsets_step(base: Cell, t: int)
    requires
        base_small(base),
        0 <= t < 27,
    ensures
        !offsets_set(base, t).contains(offset_cell(base, t)),
        offsets_set(base, t + 1) =~= offsets_set(base, t).insert(offset_cell(base, t)),
{
    let ct = offset_cell(base, t);
    if offsets_set(base, t).contains(ct) {
        let t2 = choose|t2: int| 0 <= t2 < t && ct == offset_cell(base, t2);
        lemma_offset_injective(base, t2, t);
    }
    assert forall|c: Cell| offsets_set(base, t + 1).contains(c) implies offsets_set(
        base,
        t,
    ).insert(ct).contains(c) by {
        let t2 = choose|t2: int| 0 <= t2 < t + 1 && c == offset_cell(base, t2);
        if t2 < t {
            assert(offsets_set(base, t).contains(c));
        }
    }
    assert forall|c: Cell| offsets_set(base, t).insert(ct).contains(c) implies offsets_set(
        base,
        t + 1,
    ).contains(c) by {
        if offsets_set(base, t).contains(c) {
            let t2 = choose|t2: int| 0 <= t2 < t && c == offset_cell(base, t2);
            assert(0 <= t2 < t + 1 && c == offset_cell(base, t2));
        } else {
            assert(c == offset_cell(base, t));
        }
    }
}

/// The grid really is the bucketing of `q`: one slot per cell of a
/// `w × h × d` box, and the slot of every in-bounds cell holds exactly the
/// indices of the points falling in that cell, in increasing order.
pub open spec fn grid_wf(
    grid: Seq<Vec<usize>>,
    q: Seq<Point>,
    min: Point,
    r: int,
    w: int,
    h: int,
    d: int,
) -> bool {
    &&& grid.len() == w * h * d
    &&& forall|c: Cell|
        in_bounds(c, w, h, d) ==> grid[#[trigger] lin_of(c, w, h)]@ == idxs_in_cell(
            q,
            min,
            r,
            c,
            q.len() as int,
        )
}

/// Walking more of a bucket never lowers the neighbor count.
pub proof fn lemma_bseq_count_mono(q: Seq<Point>, i: int, r: int, b: Seq<usize>, m1: int, m2: int)
    requires
        0 <= m1 <= m2 <= b.len(),
    ensures
        bseq_count(q, i, r, b.take(m1)) <= bseq_count(q, i, r, b.take(m2)),
    decreases m2 - m1,
{
    if m1 < m2 {
        lemma_bseq_count_mono(q, i, r, b, m1, m2 - 1);
        assert(b.take(m2).drop_last() =~= b.take(m2 - 1));
        assert(bseq_count(q, i, r, b.take(m2 - 1)) <= bseq_count(q, i, r, b.take(m2)));
    }
}

/// Move one point: scan the 27 cells around its own cell through the grid
/// buckets and return the self-inclusive average of everything in radius.
fn smooth_one(
    q: &Vec<Point>,
    i: usize,
    grid: &Vec<Vec<usize>>,
    min: Point,
    radius: i64,
    w: i64,
    h: i64,
    d: i64,
) -> (np: Point)
    requires
        points_in_range(q@),
        point_in_range(min),
        1 <= radius <= COORD_LIMIT,
        i < q@.len(),
        1 <= w && 1 <= h && 1 <= d,
        w as int * (h as int) * (d as int) <= MAX_GRID_CELLS as int,
        grid_wf(grid@, q@, min, radius as int, w as int, h as int, d as int),
        forall|j: int|
            0 <= j < q@.len() ==> in_bounds(
                cell_of(#[trigger] q@[j], min, radius as int),
                w as int,
                h as int,
                d as int,
            ),
    ensures
        np == smooth_point_spec(q@, i as int, radius as int),
        point_in_range(np),
{
    let ghost r = radius as int;
    let ghost n = q@.len() as int;
    let ghost lim = COORD_LIMIT as int;
    let qlen = q.len();
    proof {
        assert(n == qlen as int);
    }
    let p = q[i];
    let base = crate::grid::cell_index(&p, &min, radius);
    proof {
        assert(in_bounds(base, w as int, h as int, d as int));
        assert(w as int <= MAX_GRID_CELLS as int && h as int <= MAX_GRID_CELLS as int && d as int
            <= MAX_GRID_CELLS as int) by (nonlinear_arith)
            requires
                w >= 1,
                h >= 1,
                d >= 1,
                w as int * (h as int) * (d as int) <= MAX_GRID_CELLS as int,
        ;
        assert(base_small(base));
        assert((radius as int) * (radius as int) <= (COORD_LIMIT as int) * (COORD_LIMIT as int))
            by (nonlinear_arith)
            requires
                1 <= radius as int <= COORD_LIMIT as int,
        ;
    }
    let r2: i128 = (radius as i128) * (radius as i128);
    proof {
        assert(offsets_set(base, 0) =~= Set::<Cell>::empty());
        lemma_scan_absent(q@, i as int, radius as int, min, offsets_set(base, 0), q@.len() as int, pt_x());
        lemma_scan_absent(q@, i as int, radius as int, min, offsets_set(base, 0), q@.len() as int, pt_y());
        lemma_scan_absent(q@, i as int, radius as int, min, offsets_set(base, 0), q@.len() as int, pt_z());
    }
    let mut sx: i128 = 0;
    let mut sy: i128 = 0;
    let mut sz: i128 = 0;
    let mut cnt: usize = 0;
    let mut t: usize = 0;
    while t < 27
        invariant
            points_in_range(q@),
            point_in_range(min),
            1 <= radius <= COORD_LIMIT,
            r == radius as int,
            n == q@.len() as int,
            n <= usize::MAX,
            lim == COORD_LIMIT as int,
            i < q@.len(),
            p == q@[i as int],
            base == cell_of(q@[i as int], min, r),
            base_small(base),
            in_bounds(base, w as int, h as int, d as int),
            1 <= w && 1 <= h && 1 <= d,
            w as int * (h as int) * (d as int) <= MAX_GRID_CELLS as int,
            w as int <= MAX_GRID_CELLS as int,
            h as int <= MAX_GRID_CELLS as int,
            d as int <= MAX_GRID_CELLS as int,
            grid_wf(grid@, q@, min, r, w as int, h as int, d as int),
            forall|j: int|
                0 <= j < q@.len() ==> in_bounds(
                    cell_of(#[trigger] q@[j], min, r),
                    w as int,
                    h as int,
                    d as int,
                ),
            r2 == r * r,
            0 <= t <= 27,
            cnt as int == scan_count(q@, i as int, r, min, offsets_set(base, t as int), n),
            sx as int == scan_sum(q@, i as int, r, min, offsets_set(base, t as int), n, pt_x()),
            sy as int == scan_sum(q@, i as int, r, min, offsets_set(base, t as int), n, pt_y()),
            sz as int == scan_sum(q@, i as int, r, min, offsets_set(base, t as int), n, pt_z()),
            cnt as int <= n,
            -(cnt as int * lim) <= sx as int <= cnt as int * lim,
            -(cnt as int * lim) <= sy as int <= cnt as int * lim,
            -(cnt as int * lim) <= sz as int <= cnt as int * lim,
        decreases 27 - t,
    {
        let ghost pre_set = offsets_set(base, t as int);
        let ghost post_set = offsets_set(base, t as int + 1);
        let ghost ct = offset_cell(base, t as int);
        proof {
            lemma_offsets_step(base, t as int);
            lemma_offset_decompose(t as int);
        }
        let dx = (t / 9) as i64 - 1;
        let dy = ((t % 9) / 3) as i64 - 1;
        let dz = (t % 3) as i64 - 1;
        let nx = base.x + dx;
        let ny = base.y + dy;
        let nz = base.z + dz;
        proof {
            assert(ct == (Cell { x: nx, y: ny, z: nz }));
        }
        if nx >= 0 && nx < w && ny >= 0 && ny < h && nz >= 0 && nz < d {
            proof {
                assert(in_bounds(ct, w as int, h as int, d as int));
                lemma_lin_bounds(ct, w as int, h as int, d as int);
                let cap = MAX_GRID_CELLS as int;
                assert(0 <= (h as int) * (nz as int) <= cap * cap) by (nonlinear_arith)
                    requires
                        0 <= nz as int,
                        (nz as int) < (d as int),
                        1 <= h as int,
                        h as int <= cap,
                        d as int <= cap,
                ;
                assert(0 <= (w as int) * ((ny as int) + (h as int) * (nz as int)) <= cap * (cap
                    + cap * cap)) by (nonlinear_arith)
                    requires
                        0 <= ny as int,
                        (ny as int) < (h as int),
                        0 <= (h as int) * (nz as int) <= cap * cap,
                        1 <= w as int,
                        w as int <= cap,
                        h as int <= cap,
                ;
            }
            let g_idx_wide: i128 = (nx as i128) + (w as i128) * ((ny as i128) + (h as i128) * (
            nz as i128));
            let g_idx: usize = g_idx_wide as usize;
            proof {
                assert(g_idx as int == lin_of(ct, w as int, h as int));
                assert(grid@[g_idx as int]@ == idxs_in_cell(q@, min, r, ct, n));
                lemma_idxs_elements(q@, min, r, ct, n);
                lemma_bucket_scan(q@, i as int, r, min, ct, n, pt_x());
                lemma_bucket_scan(q@, i as int, r, min, ct, n, pt_y());
                lemma_bucket_scan(q@, i as int, r, min, ct, n, pt_z());
                lemma_scan_insert(q@, i as int, r, min, pre_set, ct, n, pt_x());
                lemma_scan_insert(q@, i as int, r, min, pre_set, ct, n, pt_y());
                lemma_scan_insert(q@, i as int, r, min, pre_set, ct, n, pt_z());
                lemma_scan_count_bounds(q@, i as int, r, min, post_set, n);
            }
            let bucket = &grid[g_idx];
            let bl = bucket.len();
            let ghost bk = bucket@;
            let ghost pre_cnt = cnt as int;
            let ghost pre_sx = sx as int;
            let ghost pre_sy = sy as int;
            let ghost pre_sz = sz as int;
            let mut b: usize = 0;
            proof {
                assert(bk.take(0) =~= Seq::empty());
            }
            while b < bl
                invariant
                    points_in_range(q@),
                    1 <= radius <= COORD_LIMIT,
                    r == radius as int,
                    n == q@.len() as int,
                    n <= usize::MAX,
                    lim == COORD_LIMIT as int,
                    i < q@.len(),
                    p == q@[i as int],
                    r2 == r * r,
                    0 <= b <= bl,
                    bl == bk.len(),
                    bucket@ == bk,
                    bk == idxs_in_cell(q@, min, r, ct, n),
                    forall|bb: int|
                        0 <= bb < bk.len() ==> (#[trigger] bk[bb]) < n && cell_of(
                            q@[bk[bb] as int],
                            min,
                            r,
                        ) == ct,
                    bseq_count(q@, i as int, r, bk) == scan_count(
                        q@,
                        i as int,
                        r,
                        min,
                        Set::empty().insert(ct),
                        n,
                    ),
                    pre_cnt + bseq_count(q@, i as int, r, bk) == scan_count(
                        q@,
                        i as int,
                        r,
                        min,
                        post_set,
                        n,
                    ),
                    pre_sx + bseq_sum(q@, i as int, r, bk, pt_x()) == scan_sum(
                        q@,
                        i as int,
                        r,
                        min,
                        post_set,
                        n,
                        pt_x(),
                    ),
                    pre_sy + bseq_sum(q@, i as int, r, bk, pt_y()) == scan_sum(
                        q@,
                        i as int,
                        r,
                        min,
                        post_set,
                        n,
                        pt_y(),
                    ),
                    pre_sz + bseq_sum(q@, i as int, r, bk, pt_z()) == scan_sum(
                        q@,
                        i as int,
                        r,
                        min,
                        post_set,
                        n,
                        pt_z(),
                    ),
                    scan_count(q@, i as int, r, min, post_set, n) <= n,
                    cnt as int == pre_cnt + bseq_count(q@, i as int, r, bk.take(b as int)),
                    sx as int == pre_sx + bseq_sum(q@, i as int, r, bk.take(b as int), pt_x()),
                    sy as int == pre_sy + bseq_sum(q@, i as int, r, bk.take(b as int), pt_y()),
                    sz as int == pre_sz + bseq_sum(q@, i as int, r, bk.take(b as int), pt_z()),
                    -(cnt as int * lim) <= sx as int <= cnt as int * lim,
                    -(cnt as int * lim) <= sy as int <= cnt as int * lim,
                    -(cnt as int * lim) <= sz as int <= cnt as int * lim,
                    0 <= cnt as int,
                decreases bl - b,
            {
                let e = bucket[b];
                proof {
                    assert(bk.take(b as int + 1).drop_last() =~= bk.take(b as int));
                    assert(bk.take(b as int + 1).last() == bk[b as int]);
                    assert((bk[b as int] as int) < n);
                    assert(point_in_range(q@[e as int]));
                }
                let ep = q[e];
                let mut take_it = false;
                if e != i {
                    let ddx = ep.x - p.x;
                    let ddy = ep.y - p.y;
                    let ddz = ep.z - p.z;
                    proof {
                        let lim2 = 2 * lim;
                        assert(0 <= (ddx as int) * (ddx as int) <= lim2 * lim2)
                            by (nonlinear_arith)
                            requires
                                -lim2 <= ddx as int,
                                ddx as int <= lim2,
                        ;
                        assert(0 <= (ddy as int) * (ddy as int) <= lim2 * lim2)
                            by (nonlinear_arith)
                            requires
                                -lim2 <= ddy as int,
                                ddy as int <= lim2,
                        ;
                        assert(0 <= (ddz as int) * (ddz as int) <= lim2 * lim2)
                            by (nonlinear_arith)
                            requires
                                -lim2 <= ddz as int,
                                ddz as int <= lim2,
                        ;
                    }
                    let dd: i128 = (ddx as i128) * (ddx as i128) + (ddy as i128) * (ddy as i128)
                        + (ddz as i128) * (ddz as i128);
                    proof {
                        let pa = q@[i as int];
                        let pb = q@[e as int];
                        assert(dd as int == dist2(pa, pb)) by (nonlinear_arith)
                            requires
                                dd as int == (ddx as int) * (ddx as int) + (ddy as int) * (
                                ddy as int) + (ddz as int) * (ddz as int),
                                ddx as int == pb.x - pa.x,
                                ddy as int == pb.y - pa.y,
                                ddz as int == pb.z - pa.z,
                                dist2(pa, pb) == (pa.x - pb.x) * (pa.x - pb.x) + (pa.y - pb.y)
                                    * (pa.y - pb.y) + (pa.z - pb.z) * (pa.z - pb.z),
                        ;
                    }
                    if dd <= r2 {
                        take_it = true;
                    }
                }
                if take_it {
                    proof {
                        assert(is_nbr(q@, i as int, e as int, r));
                        assert(bseq_count(q@, i as int, r, bk.take(b as int + 1)) == bseq_count(
                            q@,
                            i as int,
                            r,
                            bk.take(b as int),
                        ) + 1);
                        lemma_bseq_count_mono(q@, i as int, r, bk, b as int + 1, bl as int);
                        assert(bk.take(bl as int) =~= bk);
                        assert(pre_cnt + bseq_count(q@, i as int, r, bk.take(b as int + 1))
                            <= scan_count(q@, i as int, r, min, post_set, n));
                        assert(cnt as int + 1 <= n);
                        crate::voxel::lemma_sum_headroom(cnt as int);
                    }
                    sx = sx + ep.x as i128;
                    sy = sy + ep.y as i128;
                    sz = sz + ep.z as i128;
                    cnt = cnt + 1;
                } else {
                    proof {
                        assert(!is_nbr(q@, i as int, e as int, r));
                        assert(bseq_count(q@, i as int, r, bk.take(b as int + 1)) == bseq_count(
                            q@,
                            i as int,
                            r,
                            bk.take(b as int),
                        ));
                    }
                }
                b = b + 1;
            }
            proof {
                assert(bk.take(bl as int) =~= bk);
            }
        } else {
            proof {
                let single = Set::empty().insert(ct);
                assert forall|j: int| 0 <= j < n implies !single.contains(
                    cell_of(#[trigger] q@[j], min, r),
                ) by {
                    assert(in_bounds(cell_of(q@[j], min, r), w as int, h as int, d as int));
                    assert(!in_bounds(ct, w as int, h as int, d as int));
                }
                lemma_scan_absent(q@, i as int, r, min, single, n, pt_x());
                lemma_scan_absent(q@, i as int, r, min, single, n, pt_y());
                lemma_scan_absent(q@, i as int, r, min, single, n, pt_z());
                lemma_scan_insert(q@, i as int, r, min, pre_set, ct, n, pt_x());
                lemma_scan_insert(q@, i as int, r, min, pre_set, ct, n, pt_y());
                lemma_scan_insert(q@, i as int, r, min, pre_set, ct, n, pt_z());
                lemma_scan_count_bounds(q@, i as int, r, min, post_set, n);
            }
        }
        t = t + 1;
    }
    proof {
        assert forall|j: int| 0 <= j < n && is_nbr(q@, i as int, j, r) implies offsets_set(
            base,
            27,
        ).contains(cell_of(#[trigger] q@[j], min, r)) by {
            lemma_nbr_cell_adjacent(q@, i as int, j, r, min);
            lemma_offsets_cover(base, cell_of(q@[j], min, r));
        }
        lemma_scan_covers_all(q@, i as int, r, min, offsets_set(base, 27), n, pt_x());
        lemma_scan_covers_all(q@, i as int, r, min, offsets_set(base, 27), n, pt_y());
        lemma_scan_covers_all(q@, i as int, r, min, offsets_set(base, 27), n, pt_z());
        crate::voxel::lemma_sum_headroom(cnt as int);
        crate::voxel::lemma_avg_in_range(p.x as int + sx as int, cnt as int + 1);
        crate::voxel::lemma_avg_in_range(p.y as int + sy as int, cnt as int + 1);
        crate::voxel::lemma_avg_in_range(p.z as int + sz as int, cnt as int + 1);
    }
    let c1: i128 = (cnt as i128) + 1;
    let np = Point {
        x: crate::grid::floor_div_i128((p.x as i128) + sx, c1) as i64,
        y: crate::grid::floor_div_i128((p.y as i128) + sy, c1) as i64,
        z: crate::grid::floor_div_i128((p.z as i128) + sz, c1) as i64,
    };
    np
}

/// One smoothing round: bound the snapshot, size the grid to the radius,
/// reject an oversized grid before allocating it, bucket every point, and
/// move each point to the average of its in-radius neighborhood.
fn smooth_round(points: &Vec<Point>, radius: i64) -> (out: Result<Vec<Point>, SmoothError>)
    requires
        points_in_range(points@),
        1 <= radius <= COORD_LIMIT,
        points@.len() >= 1,
    ensures
        out matches Ok(v) ==> round_feasible(points@, radius as int) && v@ == smooth_round_spec(
            points@,
            radius as int,
        ) && points_in_range(v@) && v@.len() == points@.len(),
        out matches Err(_) ==> !round_feasible(points@, radius as int),
{
    let ghost q = points@;
    let ghost r = radius as int;
    let n = points.len();

    let first = points[0];
    let mut min_x = first.x;
    let mut max_x = first.x;
    let mut min_y = first.y;
    let mut max_y = first.y;
    let mut min_z = first.z;
    let mut max_z = first.z;
    let mut j: usize = 1;
    while j < n
        invariant
            n == q.len(),
            q == points@,
            1 <= j <= n,
            min_x as int == axis_min(q, j as int, pt_x()),
            max_x as int == axis_max(q, j as int, pt_x()),
            min_y as int == axis_min(q, j as int, pt_y()),
            max_y as int == axis_max(q, j as int, pt_y()),
            min_z as int == axis_min(q, j as int, pt_z()),
            max_z as int == axis_max(q, j as int, pt_z()),
        decreases n - j,
    {
        let p = points[j];
        proof {
            assert(pt_x()(q[j as int]) == p.x as int);
            assert(pt_y()(q[j as int]) == p.y as int);
            assert(pt_z()(q[j as int]) == p.z as int);
        }
        if p.x < min_x {
            min_x = p.x;
        }
        if p.x > max_x {
            max_x = p.x;
        }
        if p.y < min_y {
            min_y = p.y;
        }
        if p.y > max_y {
            max_y = p.y;
        }
        if p.z < min_z {
            min_z = p.z;
        }
        if p.z > max_z {
            max_z = p.z;
        }
        j = j + 1;
    }
    proof {
        lemma_axis_extrema(q, n as int, pt_x());
        lemma_axis_extrema(q, n as int, pt_y());
        lemma_axis_extrema(q, n as int, pt_z());
        assert(pt_x()(q[0]) == q[0].x as int);
        assert(point_in_range(q[0]));
        assert(coord_in_range(min_x as int) && coord_in_range(max_x as int)) by {
            let jm = choose|jm: int| 0 <= jm < n && pt_x()(q[jm]) == axis_min(q, n as int, pt_x());
            assert(point_in_range(q[jm]));
            let jx = choose|jx: int| 0 <= jx < n && pt_x()(q[jx]) == axis_max(q, n as int, pt_x());
            assert(point_in_range(q[jx]));
        }
        assert(coord_in_range(min_y as int) && coord_in_range(max_y as int)) by {
            let jm = choose|jm: int| 0 <= jm < n && pt_y()(q[jm]) == axis_min(q, n as int, pt_y());
            assert(point_in_range(q[jm]));
            let jx = choose|jx: int| 0 <= jx < n && pt_y()(q[jx]) == axis_max(q, n as int, pt_y());
            assert(point_in_range(q[jx]));
        }
        assert(coord_in_range(min_z as int) && coord_in_range(max_z as int)) by {
            let jm = choose|jm: int| 0 <= jm < n && pt_z()(q[jm]) == axis_min(q, n as int, pt_z());
            assert(point_in_range(q[jm]));
            let jx = choose|jx: int| 0 <= jx < n && pt_z()(q[jx]) == axis_max(q, n as int, pt_z());
            assert(point_in_range(q[jx]));
        }
    }
    let min = Point { x: min_x, y: min_y, z: min_z };

    proof {
        crate::grid::lemma_div_bounds(max_x as int - min_x as int, r);
        crate::grid::lemma_div_bounds(max_y as int - min_y as int, r);
        crate::grid::lemma_div_bounds(max_z as int - min_z as int, r);
        lemma_div_pos_is_pos(max_x as int - min_x as int, r);
        lemma_div_pos_is_pos(max_y as int - min_y as int, r);
        lemma_div_pos_is_pos(max_z as int - min_z as int, r);
    }
    let wd: i128 = crate::grid::floor_div_i128(
        (max_x as i128) - (min_x as i128),
        radius as i128,
    ) + 1;
    let hd: i128 = crate::grid::floor_div_i128(
        (max_y as i128) - (min_y as i128),
        radius as i128,
    ) + 1;
    let dd: i128 = crate::grid::floor_div_i128(
        (max_z as i128) - (min_z as i128),
        radius as i128,
    ) + 1;
    proof {
        assert(wd as int == grid_w(q, r));
        assert(hd as int == grid_h(q, r));
        assert(dd as int == grid_d(q, r));
        assert(1 <= wd && 1 <= hd && 1 <= dd);
    }
    let cap: i128 = MAX_GRID_CELLS as i128;
    if wd > cap || hd > cap || dd > cap {
        proof {
            assert(wd as int * (hd as int) * (dd as int) >= wd as int && wd as int * (hd as int)
                * (dd as int) >= hd as int && wd as int * (hd as int) * (dd as int) >= dd as int)
                by (nonlinear_arith)
                requires
                    wd >= 1,
                    hd >= 1,
                    dd >= 1,
            ;
        }
        return Err(SmoothError::GridTooLarge);
    }
    proof {
        assert(0 <= (wd as int) * (hd as int) <= (cap as int) * (cap as int))
            by (nonlinear_arith)
            requires
                1 <= wd,
                wd <= cap,
                1 <= hd,
                hd <= cap,
        ;
    }
    let wh: i128 = wd * hd;
    proof {
        assert(0 <= (wh as int) * (dd as int) <= ((cap as int) * (cap as int)) * (cap as int))
            by (nonlinear_arith)
            requires
                0 <= wh as int <= (cap as int) * (cap as int),
                1 <= dd,
                dd <= cap,
        ;
    }
    let whd: i128 = wh * dd;
    if whd > cap {
        return Err(SmoothError::GridTooLarge);
    }
    let w = wd as i64;
    let h = hd as i64;
    let d = dd as i64;
    let grid_size = whd as usize;
    proof {
        assert(grid_size as int == w as int * (h as int) * (d as int));
        assert(round_feasible(q, r));
        assert forall|j2: int| 0 <= j2 < q.len() implies in_bounds(
            cell_of(#[trigger] q[j2], min, r),
            w as int,
            h as int,
            d as int,
        ) by {
            let p2 = q[j2];
            assert(pt_x()(p2) == p2.x as int && pt_y()(p2) == p2.y as int && pt_z()(p2) == p2.z
                as int);
            assert(min_x as int <= p2.x as int <= max_x as int);
            assert(min_y as int <= p2.y as int <= max_y as int);
            assert(min_z as int <= p2.z as int <= max_z as int);
            lemma_div_pos_is_pos(p2.x - min_x, r);
            lemma_div_pos_is_pos(p2.y - min_y, r);
            lemma_div_pos_is_pos(p2.z - min_z, r);
            lemma_div_is_ordered(p2.x - min_x, max_x - min_x, r);
            lemma_div_is_ordered(p2.y - min_y, max_y - min_y, r);
            lemma_div_is_ordered(p2.z - min_z, max_z - min_z, r);
            assert(point_in_range(p2));
            lemma_cell_coord_in_range(p2.x as int, min_x as int, r);
            lemma_cell_coord_in_range(p2.y as int, min_y as int, r);
            lemma_cell_coord_in_range(p2.z as int, min_z as int, r);
        }
    }

    let mut grid: Vec<Vec<usize>> = Vec::new();
    let mut g: usize = 0;
    while g < grid_size
        invariant
            0 <= g <= grid_size,
            grid@.len() == g as int,
            forall|gi: int| 0 <= gi < g ==> (#[trigger] grid@[gi])@.len() == 0,
        decreases grid_size - g,
    {
        grid.push(Vec::new());
        g = g + 1;
    }
    proof {
        assert forall|c: Cell| in_bounds(c, w as int, h as int, d as int) implies grid@[
            #[trigger] lin_of(c, w as int, h as int)]@ == idxs_in_cell(q, min, r, c, 0) by {
            lemma_lin_bounds(c, w as int, h as int, d as int);
            assert(grid@[lin_of(c, w as int, h as int)]@ =~= Seq::<usize>::empty());
        }
    }

    let mut j: usize = 0;
    while j < n
        invariant
            n == q.len(),
            q == points@,
            points_in_range(q),
            point_in_range(min),
            1 <= radius <= COORD_LIMIT,
            r == radius as int,
            0 <= j <= n,
            1 <= w && 1 <= h && 1 <= d,
            grid_size as int == w as int * (h as int) * (d as int),
            grid_size as int <= MAX_GRID_CELLS as int,
            grid@.len() == grid_size,
            forall|j2: int|
                0 <= j2 < q.len() ==> in_bounds(
                    cell_of(#[trigger] q[j2], min, r),
                    w as int,
                    h as int,
                    d as int,
                ),
            forall|c: Cell|
                in_bounds(c, w as int, h as int, d as int) ==> grid@[#[trigger] lin_of(
                    c,
                    w as int,
                    h as int,
                )]@ == idxs_in_cell(q, min, r, c, j as int),
        decreases n - j,
    {
        let p = points[j];
        let cj = crate::grid::cell_index(&p, &min, radius);
        proof {
            assert(cj == cell_of(q[j as int], min, r));
            assert(in_bounds(cj, w as int, h as int, d as int));
            lemma_lin_bounds(cj, w as int, h as int, d as int);
            let capc = MAX_GRID_CELLS as int;
            assert(w as int <= capc && h as int <= capc && d as int <= capc)
                by (nonlinear_arith)
                requires
                    w >= 1,
                    h >= 1,
                    d >= 1,
                    w as int * (h as int) * (d as int) <= capc,
            ;
            assert(0 <= (h as int) * (cj.z as int) <= capc * capc) by (nonlinear_arith)
                requires
                    0 <= cj.z as int,
                    (cj.z as int) < (d as int),
                    1 <= h as int,
                    h as int <= capc,
                    d as int <= capc,
            ;
            assert(0 <= (w as int) * ((cj.y as int) + (h as int) * (cj.z as int)) <= capc * (
            capc + capc * capc)) by (nonlinear_arith)
                requires
                    0 <= cj.y as int,
                    (cj.y as int) < (h as int),
                    0 <= (h as int) * (cj.z as int) <= capc * capc,
                    1 <= w as int,
                    w as int <= capc,
                    h as int <= capc,
            ;
        }
        let g_wide: i128 = (cj.x as i128) + (w as i128) * ((cj.y as i128) + (h as i128) * (
        cj.z as i128));
        let g_idx: usize = g_wide as usize;
        proof {
            assert(g_idx as int == lin_of(cj, w as int, h as int));
        }
        grid[g_idx].push(j);
        proof {
            assert forall|c: Cell| in_bounds(c, w as int, h as int, d as int) implies grid@[
                #[trigger] lin_of(c, w as int, h as int)]@ == idxs_in_cell(
                q,
                min,
                r,
                c,
                j as int + 1,
            ) by {
                lemma_lin_bounds(c, w as int, h as int, d as int);
                if c == cj {
                } else {
                    if lin_of(c, w as int, h as int) == lin_of(cj, w as int, h as int) {
                        lemma_lin_injective(c, cj, w as int, h as int, d as int);
                    }
                    assert(lin_of(c, w as int, h as int) != lin_of(cj, w as int, h as int));
                }
            }
        }
        j = j + 1;
    }

    let mut out: Vec<Point> = Vec::new();
    let mut i: usize = 0;
    while i < n
        invariant
            n == q.len(),
            q == points@,
            points_in_range(q),
            point_in_range(min),
            1 <= radius <= COORD_LIMIT,
            r == radius as int,
            0 <= i <= n,
            1 <= w && 1 <= h && 1 <= d,
            w as int * (h as int) * (d as int) <= MAX_GRID_CELLS as int,
            grid_wf(grid@, q, min, r, w as int, h as int, d as int),
            forall|j2: int|
                0 <= j2 < q.len() ==> in_bounds(
                    cell_of(#[trigger] q[j2], min, r),
                    w as int,
                    h as int,
                    d as int,
                ),
            out@.len() == i as int,
            forall|k: int|
                0 <= k < i ==> (#[trigger] out@[k]) == smooth_point_spec(q, k, r)
                    && point_in_range(out@[k]),
        decreases n - i,
    {
        let np = smooth_one(points, i, &grid, min, radius, w, h, d);
        out.push(np);
        i = i + 1;
    }
    proof {
        assert(out@ =~= smooth_round_spec(q, r));
    }
    Ok(out)
}

/// Relax the cloud toward local neighborhood averages: `iterations` rounds
/// of self-inclusive averaging over each point's in-radius neighbors, each
/// round reading only the round before it. Zero (or negative) iterations or
/// a non-positive radius return the input unchanged; an empty buffer stays
/// empty; and a round whose grid would exceed the allocation cap reports
/// `GridTooLarge` instead of allocating it — otherwise the call succeeds.
pub fn point_cloud_smooth_internal(
    points: &Vec<Point>,
    smoothing_radius: i64,
    iterations: i32,
) -> (out: Result<Vec<Point>, SmoothError>)
    requires
        points_in_range(points@),
        smoothing_radius <= COORD_LIMIT,
    ensures
        iterations <= 0 ==> (out matches Ok(v) && v@ == points@),
        smoothing_radius <= 0 ==> (out matches Ok(v) && v@ == points@),
        points@.len() == 0 ==> (out matches Ok(v) && v@.len() == 0),
        iterations > 0 && smoothing_radius >= 1 && points@.len() > 0 ==> ({
            let r = smoothing_radius as int;
            &&& (out matches Ok(v) ==> v@ == smooth_iter_spec(points@, r, iterations as int)
                && rounds_feasible(points@, r, iterations as int))
            &&& (out matches Err(e) ==> !rounds_feasible(points@, r, iterations as int) && e
                == SmoothError::GridTooLarge)
        }),
{
    let n = points.len();
    let mut cur: Vec<Point> = Vec::new();
    let mut j: usize = 0;
    while j < n
        invariant
            n == points@.len(),
            0 <= j <= n,
            cur@ == points@.take(j as int),
        decreases n - j,
    {
        cur.push(points[j]);
        proof {
            assert(cur@ =~= points@.take(j as int + 1));
        }
        j = j + 1;
    }
    proof {
        assert(cur@ =~= points@);
    }
    if iterations <= 0 || smoothing_radius <= 0 || n == 0 {
        return Ok(cur);
    }
    let ghost r = smoothing_radius as int;
    let mut it: i32 = 0;
    while it < iterations
        invariant
            points_in_range(points@),
            1 <= smoothing_radius <= COORD_LIMIT,
            r == smoothing_radius as int,
            n == points@.len(),
            n >= 1,
            iterations > 0,
            0 <= it <= iterations,
            cur@ == smooth_iter_spec(points@, r, it as int),
            cur@.len() == n,
            points_in_range(cur@),
            rounds_feasible(points@, r, it as int),
        decreases iterations - it,
    {
        match smooth_round(&cur, smoothing_radius) {
            Ok(next) => {
                proof {
                    assert(rounds_feasible(points@, r, it as int + 1));
                }
                cur = next;
            },
            Err(e) => {
                proof {
                    assert(!rounds_feasible(points@, r, it as int + 1));
                    lemma_rounds_feasible_mono_neg(points@, r, it as int + 1, iterations as int);
                }
                return Err(e);
            },
        }
        it = it + 1;
    }
    Ok(cur)
}

/// Infeasibility at some round count persists for any longer run.
proof fn lemma_rounds_feasible_mono_neg(q: Seq<Point>, r: int, k: int, k2: int)
    requires
        k <= k2,
        !rounds_feasible(q, r, k),
    ensures
        !rounds_feasible(q, r, k2),
{
    if rounds_feasible(q, r, k2) {
        lemma_rounds_feasible_mono(q, r, k, k2);
    }
}

} // verus!
