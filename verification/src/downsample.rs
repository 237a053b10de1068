//! Voxel downsampling: one aggregation pass over the buffer.
//!
//! Every point is assigned to its grid cell; per occupied cell the pass
//! keeps running sums (and, when attribute buffers are present, color and
//! intensity sums and a classification table), then emits one reduced record
//! per cell, in first-seen cell order. Degenerate input — no points, or a
//! non-positive voxel size — yields an empty result, never an error.

use vstd::prelude::*;
use crate::point::{
    Point, Color, point_in_range, points_in_range, coord_in_range, color_in_range,
    colors_in_range, intensities_in_range,
};
use crate::grid::{Cell, cell_of, cell_index};
use crate::cell_table::{CellTable, cell_table_contents};
use crate::voxel::VoxelFull;
use crate::aggregate::{
    Sample, samples_of, lift_points, seen_cells, cell_count, cell_sum, cell_labels, sel_x, sel_y,
    sel_z, sel_r, sel_g, sel_b, sel_i, centroid_of, color_avg_of, intensity_avg_of, label_mode_of,
    downsample_positions, lemma_seen_cells_distinct, lemma_cell_count_bounds,
    lemma_cell_labels_len, lemma_cell_not_seen_empty, lemma_seen_cells_len_le,
    lemma_seen_cells_complete, samples_in_range,
};

verus! {

/// The color buffer counts as present: supplied and of matching length.
pub open spec fn has_colors(colors: Option<&Vec<Color>>, n: int) -> bool {
    match colors {
        Some(cv) => cv@.len() == n,
        None => false,
    }
}

/// The intensity buffer counts as present: supplied and of matching length.
pub open spec fn has_intensities(intensities: Option<&Vec<i64>>, n: int) -> bool {
    match intensities {
        Some(iv) => iv@.len() == n,
        None => false,
    }
}

/// The classification buffer counts as present: supplied and of matching
/// length.
pub open spec fn has_classifications(classifications: Option<&Vec<u8>>, n: int) -> bool {
    match classifications {
        Some(lv) => lv@.len() == n,
        None => false,
    }
}

/// An optional color buffer, viewed as a sequence.
pub open spec fn opt_colors_view(colors: Option<&Vec<Color>>) -> Option<Seq<Color>> {
    match colors {
        Some(cv) => Some(cv@),
        None => None,
    }
}

/// An optional intensity buffer, viewed as a sequence.
pub open spec fn opt_intensities_view(intensities: Option<&Vec<i64>>) -> Option<Seq<i64>> {
    match intensities {
        Some(iv) => Some(iv@),
        None => None,
    }
}

/// An optional classification buffer, viewed as a sequence.
pub open spec fn opt_labels_view(classifications: Option<&Vec<u8>>) -> Option<Seq<u8>> {
    match classifications {
        Some(lv) => Some(lv@),
        None => None,
    }
}

/// The accumulator in one slot holds exactly the aggregates of cell `c`
/// over the samples processed so far.
pub open spec fn accum_ok(v: VoxelFull, s: Seq<Sample>, min: Point, size: int, c: Cell) -> bool {
    &&& v.wf(cell_labels(s, min, size, c))
    &&& v.pos.count as int == cell_count(s, min, size, c)
    &&& v.pos.sum_x as int == cell_sum(s, min, size, c, sel_x())
    &&& v.pos.sum_y as int == cell_sum(s, min, size, c, sel_y())
    &&& v.pos.sum_z as int == cell_sum(s, min, size, c, sel_z())
    &&& v.sum_r as int == cell_sum(s, min, size, c, sel_r())
    &&& v.sum_g as int == cell_sum(s, min, size, c, sel_g())
    &&& v.sum_b as int == cell_sum(s, min, size, c, sel_b())
    &&& v.sum_intensity as int == cell_sum(s, min, size, c, sel_i())
}

/// Downsample a point buffer together with whatever attribute buffers are
/// present. Output, per occupied cell in first-seen order: the centroid of
/// the cell's points; the mean color and mean intensity when those buffers
/// are present; and the most frequent classification label, earliest
/// first-seen label winning ties, when that buffer is present. An attribute
/// buffer whose length does not match the point count is treated as absent.
pub fn voxel_downsample_with_attributes(
    points: &Vec<Point>,
    colors: Option<&Vec<Color>>,
    intensities: Option<&Vec<i64>>,
    classifications: Option<&Vec<u8>>,
    voxel_size: i64,
    min: Point,
) -> (out: (Vec<Point>, Vec<Color>, Vec<i64>, Vec<u8>))
    requires
        points_in_range(points@),
        point_in_range(min),
        colors matches Some(cv) ==> colors_in_range(cv@),
        intensities matches Some(iv) ==> intensities_in_range(iv@),
    ensures
        voxel_size <= 0 ==> out.0@.len() == 0 && out.1@.len() == 0 && out.2@.len() == 0
            && out.3@.len() == 0,
        voxel_size >= 1 ==> ({
            let s = samples_of(
                points@,
                opt_colors_view(colors),
                opt_intensities_view(intensities),
                opt_labels_view(classifications),
            );
            let size = voxel_size as int;
            let cells = seen_cells(s, min, size);
            let n = points@.len() as int;
            &&& out.0@.len() == cells.len()
            &&& forall|j: int|
                0 <= j < cells.len() ==> (#[trigger] out.0@[j]) == centroid_of(
                    s,
                    min,
                    size,
                    cells[j],
                )
            &&& has_colors(colors, n) ==> out.1@.len() == cells.len() && forall|j: int|
                0 <= j < cells.len() ==> (#[trigger] out.1@[j]) == color_avg_of(
                    s,
                    min,
                    size,
                    cells[j],
                )
            &&& !has_colors(colors, n) ==> out.1@.len() == 0
            &&& has_intensities(intensities, n) ==> out.2@.len() == cells.len() && forall|j: int|
                0 <= j < cells.len() ==> (#[trigger] out.2@[j]) == intensity_avg_of(
                    s,
                    min,
                    size,
                    cells[j],
                )
            &&& !has_intensities(intensities, n) ==> out.2@.len() == 0
            &&& has_classifications(classifications, n) ==> out.3@.len() == cells.len()
                && forall|j: int|
                0 <= j < cells.len() ==> (#[trigger] out.3@[j]) == label_mode_of(
                    s,
                    min,
                    size,
                    cells[j],
                )
            &&& !has_classifications(classifications, n) ==> out.3@.len() == 0
        }),
{
    let n = points.len();
    if voxel_size <= 0 {
        return (Vec::new(), Vec::new(), Vec::new(), Vec::new());
    }
    let ghost size = voxel_size as int;
    let ghost s = samples_of(
        points@,
        opt_colors_view(colors),
        opt_intensities_view(intensities),
        opt_labels_view(classifications),
    );

    let use_colors = match colors {
        Some(cv) => cv.len() == n,
        None => false,
    };
    let use_intensity = match intensities {
        Some(iv) => iv.len() == n,
        None => false,
    };
    let use_classification = match classifications {
        Some(lv) => lv.len() == n,
        None => false,
    };

    let mut table = CellTable::new();
    let mut cells: Vec<Cell> = Vec::new();
    let mut accums: Vec<VoxelFull> = Vec::new();

    let mut i: usize = 0;
    while i < n
        invariant
            n == points@.len(),
            0 <= i <= n,
            voxel_size >= 1,
            size == voxel_size as int,
            s == samples_of(
                points@,
                opt_colors_view(colors),
                opt_intensities_view(intensities),
                opt_labels_view(classifications),
            ),
            s.len() == n,
            points_in_range(points@),
            point_in_range(min),
            colors matches Some(cv) ==> colors_in_range(cv@),
            intensities matches Some(iv) ==> intensities_in_range(iv@),
            cells@ == seen_cells(s.take(i as int), min, size),
            accums@.len() == cells@.len(),
            forall|c: Cell| #[trigger]
                cell_table_contents(table).contains_key(c) ==> seen_cells(
                    s.take(i as int),
                    min,
                    size,
                ).contains(c),
            forall|c: Cell| #[trigger]
                seen_cells(s.take(i as int), min, size).contains(c) ==> cell_table_contents(
                    table,
                ).contains_key(c),
            forall|c: Cell| #[trigger]
                cell_table_contents(table).contains_key(c) ==> cell_table_contents(table)[c]
                    < cells@.len() && cells@[cell_table_contents(table)[c] as int] == c,
            forall|k2: int|
                0 <= k2 < cells@.len() ==> accum_ok(
                    #[trigger] accums@[k2],
                    s.take(i as int),
                    min,
                    size,
                    cells@[k2],
                ),
        decreases n - i,
    {
        let ghost pre = s.take(i as int);
        let ghost post = s.take(i as int + 1);
        proof {
            assert(post.drop_last() =~= pre);
            assert(post.last() == s[i as int]);
        }
        let p = points[i];
        let col = match colors {
            Some(cv) => if cv.len() == n {
                cv[i]
            } else {
                Color { r: 0, g: 0, b: 0 }
            },
            None => Color { r: 0, g: 0, b: 0 },
        };
        let inten = match intensities {
            Some(iv) => if iv.len() == n {
                iv[i]
            } else {
                0
            },
            None => 0,
        };
        let lab = match classifications {
            Some(lv) => if lv.len() == n {
                lv[i]
            } else {
                0
            },
            None => 0,
        };
        proof {
            assert(s[i as int].pos == p);
            assert(s[i as int].color == col);
            assert(s[i as int].intensity == inten);
            assert(s[i as int].label == lab);
            assert(point_in_range(p));
            assert(color_in_range(col));
            assert(coord_in_range(inten as int));
            lemma_seen_cells_distinct(pre, min, size);
        }
        let k = cell_index(&p, &min, voxel_size);
        proof {
            assert(cell_of(post.last().pos, min, size) == k);
            assert(sel_x()(s[i as int]) == p.x as int);
            assert(sel_y()(s[i as int]) == p.y as int);
            assert(sel_z()(s[i as int]) == p.z as int);
            assert(sel_r()(s[i as int]) == col.r as int);
            assert(sel_g()(s[i as int]) == col.g as int);
            assert(sel_b()(s[i as int]) == col.b as int);
            assert(sel_i()(s[i as int]) == inten as int);
        }
        match table.get(k) {
            Some(idx) => {
                proof {
                    assert(seen_cells(pre, min, size).contains(k));
                    assert(seen_cells(post, min, size) == seen_cells(pre, min, size));
                    lemma_cell_count_bounds(pre, min, size, k);
                    lemma_cell_labels_len(pre, min, size, k);
                    assert(cells@[idx as int] == k);
                    assert(accum_ok(accums@[idx as int], pre, min, size, k));
                }
                let ghost ls = cell_labels(pre, min, size, k);
                accums[idx].add_sample(p, col, inten, lab, Ghost(ls));
                proof {
                    assert(cell_labels(post, min, size, k) == ls.push(lab));
                    assert forall|k2: int| 0 <= k2 < cells@.len() implies accum_ok(
                        #[trigger] accums@[k2],
                        post,
                        min,
                        size,
                        cells@[k2],
                    ) by {
                        if k2 == idx as int {
                            assert(accum_ok(accums@[k2], post, min, size, k));
                        } else {
                            assert(cells@[k2] != k);
                            assert(cell_count(post, min, size, cells@[k2]) == cell_count(
                                pre,
                                min,
                                size,
                                cells@[k2],
                            ));
                            assert(cell_labels(post, min, size, cells@[k2]) == cell_labels(
                                pre,
                                min,
                                size,
                                cells@[k2],
                            ));
                            assert(accum_ok(accums@[k2], post, min, size, cells@[k2]));
                        }
                    }
                }
            },
            None => {
                proof {
                    assert(!seen_cells(pre, min, size).contains(k));
                    lemma_cell_not_seen_empty(pre, min, size, k, sel_x());
                    lemma_cell_not_seen_empty(pre, min, size, k, sel_y());
                    lemma_cell_not_seen_empty(pre, min, size, k, sel_z());
                    lemma_cell_not_seen_empty(pre, min, size, k, sel_r());
                    lemma_cell_not_seen_empty(pre, min, size, k, sel_g());
                    lemma_cell_not_seen_empty(pre, min, size, k, sel_b());
                    lemma_cell_not_seen_empty(pre, min, size, k, sel_i());
                }
                let slot = accums.len();
                table.insert(k, slot);
                let mut v = VoxelFull::new();
                v.add_sample(p, col, inten, lab, Ghost(Seq::empty()));
                cells.push(k);
                accums.push(v);
                proof {
                    assert(seen_cells(post, min, size) =~= seen_cells(pre, min, size).push(k));
                    assert(cell_labels(post, min, size, k) =~= Seq::<u8>::empty().push(lab));
                    assert forall|k2: int| 0 <= k2 < cells@.len() implies accum_ok(
                        #[trigger] accums@[k2],
                        post,
                        min,
                        size,
                        cells@[k2],
                    ) by {
                        if k2 < cells@.len() - 1 {
                            assert(cells@[k2] == seen_cells(pre, min, size)[k2]);
                            assert(cells@[k2] != k) by {
                                if cells@[k2] == k {
                                    assert(seen_cells(pre, min, size).contains(k));
                                }
                            }
                            assert(cell_count(post, min, size, cells@[k2]) == cell_count(
                                pre,
                                min,
                                size,
                                cells@[k2],
                            ));
                            assert(cell_labels(post, min, size, cells@[k2]) == cell_labels(
                                pre,
                                min,
                                size,
                                cells@[k2],
                            ));
                            assert(accums@[k2] == accums@.drop_last()[k2]);
                            assert(accum_ok(accums@[k2], post, min, size, cells@[k2]));
                        } else {
                            assert(cells@[k2] == k);
                            assert(accums@[k2] == v);
                            assert(accum_ok(v, post, min, size, k));
                        }
                    }
                    assert forall|c: Cell| #[trigger]
                        cell_table_contents(table).contains_key(c) implies seen_cells(
                        post,
                        min,
                        size,
                    ).contains(c) by {
                        let cur = seen_cells(post, min, size);
                        if c == k {
                            assert(cur[cur.len() - 1] == k);
                        } else {
                            assert(seen_cells(pre, min, size).contains(c));
                            let j = choose|j: int|
                                0 <= j < seen_cells(pre, min, size).len() && seen_cells(
                                    pre,
                                    min,
                                    size,
                                )[j] == c;
                            assert(cur[j] == c);
                        }
                    }
                    assert forall|c: Cell| #[trigger]
                        seen_cells(post, min, size).contains(c) implies cell_table_contents(
                        table,
                    ).contains_key(c) by {
                        let cur = seen_cells(post, min, size);
                        let j = choose|j: int| 0 <= j < cur.len() && cur[j] == c;
                        if j < cur.len() - 1 {
                            assert(seen_cells(pre, min, size)[j] == c);
                            assert(seen_cells(pre, min, size).contains(c));
                        } else {
                            assert(c == k);
                        }
                    }
                }
            },
        }
        i = i + 1;
    }
    proof {
        assert(s.take(n as int) =~= s);
    }

    let m = cells.len();
    let mut out_pts: Vec<Point> = Vec::new();
    let mut out_cols: Vec<Color> = Vec::new();
    let mut out_ints: Vec<i64> = Vec::new();
    let mut out_cls: Vec<u8> = Vec::new();
    let mut k: usize = 0;
    while k < m
        invariant
            m == cells@.len(),
            accums@.len() == m,
            0 <= k <= m,
            cells@ == seen_cells(s, min, size),
            forall|k2: int|
                0 <= k2 < m ==> accum_ok(#[trigger] accums@[k2], s, min, size, cells@[k2]),
            out_pts@.len() == k as int,
            forall|k2: int|
                0 <= k2 < k ==> (#[trigger] out_pts@[k2]) == centroid_of(
                    s,
                    min,
                    size,
                    cells@[k2],
                ),
            use_colors ==> out_cols@.len() == k as int && forall|k2: int|
                0 <= k2 < k ==> (#[trigger] out_cols@[k2]) == color_avg_of(
                    s,
                    min,
                    size,
                    cells@[k2],
                ),
            !use_colors ==> out_cols@.len() == 0,
            use_intensity ==> out_ints@.len() == k as int && forall|k2: int|
                0 <= k2 < k ==> (#[trigger] out_ints@[k2]) == intensity_avg_of(
                    s,
                    min,
                    size,
                    cells@[k2],
                ),
            !use_intensity ==> out_ints@.len() == 0,
            use_classification ==> out_cls@.len() == k as int && forall|k2: int|
                0 <= k2 < k ==> (#[trigger] out_cls@[k2]) == label_mode_of(
                    s,
                    min,
                    size,
                    cells@[k2],
                ),
            !use_classification ==> out_cls@.len() == 0,
        decreases m - k,
    {
        let ghost c = cells@[k as int];
        proof {
            assert(seen_cells(s, min, size).contains(c)) by {
                assert(seen_cells(s, min, size)[k as int] == c);
            }
            lemma_cell_count_bounds(s, min, size, c);
            lemma_cell_labels_len(s, min, size, c);
            assert(accum_ok(accums@[k as int], s, min, size, c));
        }
        let avg = accums[k].pos.get_average();
        proof {
            assert(avg == centroid_of(s, min, size, c));
        }
        out_pts.push(avg);
        if use_colors {
            let ca = accums[k].get_color_average();
            proof {
                assert(ca == color_avg_of(s, min, size, c));
            }
            out_cols.push(ca);
        }
        if use_intensity {
            let ia = accums[k].get_intensity_average();
            proof {
                assert(ia == intensity_avg_of(s, min, size, c));
            }
            out_ints.push(ia);
        }
        if use_classification {
            let ghost ls = cell_labels(s, min, size, c);
            let lm = accums[k].get_mode(Ghost(ls));
            out_cls.push(lm);
        }
        k = k + 1;
    }
    (out_pts, out_cols, out_ints, out_cls)
}

/// Downsample a bare position buffer: one centroid per occupied cell, in
/// first-seen cell order.
pub fn voxel_downsample_internal(points: &Vec<Point>, voxel_size: i64, min: Point) -> (out: Vec<
    Point,
>)
    requires
        points_in_range(points@),
        point_in_range(min),
    ensures
        voxel_size <= 0 ==> out@.len() == 0,
        voxel_size >= 1 ==> out@ == downsample_positions(points@, min, voxel_size as int),
{
    let (out_pts, _out_cols, _out_ints, _out_cls) = voxel_downsample_with_attributes(
        points,
        None,
        None,
        None,
        voxel_size,
        min,
    );
    proof {
        if voxel_size >= 1 {
            let s = lift_points(points@);
            assert(s == samples_of(points@, opt_colors_view(None), opt_intensities_view(None),
                opt_labels_view(None)));
            assert(out_pts@ =~= downsample_positions(points@, min, voxel_size as int));
        }
    }
    out_pts
}

/// The indices of the first `n` points that fall in cell `c`.
pub open spec fn cell_index_set(pts: Seq<Point>, min: Point, size: int, c: Cell, n: int) -> Set<
    int,
> {
    Set::new(|i: int| 0 <= i < n && cell_of(pts[i], min, size) == c)
}

/// A cell's member count is the cardinality of its member index set.
proof fn lemma_cell_count_is_card(pts: Seq<Point>, min: Point, size: int, c: Cell, n: int)
    requires
        0 <= n <= pts.len(),
    ensures
        cell_index_set(pts, min, size, c, n).finite(),
        cell_count(lift_points(pts).take(n), min, size, c) == cell_index_set(
            pts,
            min,
            size,
            c,
            n,
        ).len(),
    decreases n,
{
    let s = lift_points(pts);
    if n == 0 {
        assert(cell_index_set(pts, min, size, c, 0) =~= Set::empty());
        broadcast use vstd::set::axiom_set_empty_finite, vstd::set::axiom_set_empty_len;
    } else {
        lemma_cell_count_is_card(pts, min, size, c, n - 1);
        let prev = cell_index_set(pts, min, size, c, n - 1);
        assert(s.take(n).drop_last() =~= s.take(n - 1));
        assert(s.take(n).last() == s[n - 1]);
        assert(s[n - 1].pos == pts[n - 1]);
        if cell_of(pts[n - 1], min, size) == c {
            assert(cell_index_set(pts, min, size, c, n) =~= prev.insert(n - 1));
            assert(!prev.contains(n - 1));
            vstd::set::axiom_set_insert_finite(prev, n - 1);
            vstd::set::axiom_set_insert_len(prev, n - 1);
        } else {
            assert(cell_index_set(pts, min, size, c, n) =~= prev);
        }
    }
}

/// Law: downsampling assigns every point to exactly one voxel and loses
/// none. The output never has more voxels than input points; every input
/// point's floored per-axis cell is one of the output's occupied cells; a
/// cell is occupied exactly when at least one point falls in it; and the
/// voxel for cell `c` aggregates exactly the points whose floored
/// `(coordinate - min) / size` per axis equals `c`'s coordinates.
pub proof fn lemma_downsample_cell_assignment(pts: Seq<Point>, min: Point, size: int)
    requires
        size >= 1,
    ensures
        downsample_positions(pts, min, size).len() <= pts.len(),
        forall|i: int|
            0 <= i < pts.len() ==> seen_cells(lift_points(pts), min, size).contains(
                cell_of(#[trigger] pts[i], min, size),
            ),
        forall|c: Cell|
            #[trigger] cell_count(lift_points(pts), min, size, c) == cell_index_set(
                pts,
                min,
                size,
                c,
                pts.len() as int,
            ).len(),
        forall|c: Cell|
            #[trigger] seen_cells(lift_points(pts), min, size).contains(c) <==> cell_count(
                lift_points(pts),
                min,
                size,
                c,
            ) >= 1,
{
    let s = lift_points(pts);
    lemma_seen_cells_len_le(s, min, size);
    lemma_seen_cells_complete(s, min, size);
    assert forall|i: int| 0 <= i < pts.len() implies seen_cells(s, min, size).contains(
        cell_of(#[trigger] pts[i], min, size),
    ) by {
        assert(s[i].pos == pts[i]);
    }
    assert forall|c: Cell| #[trigger]
        cell_count(s, min, size, c) == cell_index_set(
        pts,
        min,
        size,
        c,
        pts.len() as int,
    ).len() by {
        lemma_cell_count_is_card(pts, min, size, c, pts.len() as int);
        assert(s.take(pts.len() as int) =~= s);
    }
    assert forall|c: Cell|
        #[trigger] seen_cells(s, min, size).contains(c) <==> cell_count(s, min, size, c)
            >= 1 by {
        lemma_cell_count_bounds(s, min, size, c);
    }
}

/// Per-cell sums are bounded by the member count times any bound that holds
/// of the members themselves.
proof fn lemma_cell_sum_member_bounds(
    s: Seq<Sample>,
    min: Point,
    size: int,
    c: Cell,
    f: spec_fn(Sample) -> int,
    lo: int,
    hi: int,
)
    requires
        forall|i: int|
            0 <= i < s.len() && cell_of(s[i].pos, min, size) == c ==> lo <= #[trigger] f(s[i])
                <= hi,
    ensures
        cell_count(s, min, size, c) * lo <= cell_sum(s, min, size, c, f) <= cell_count(
            s,
            min,
            size,
            c,
        ) * hi,
    decreases s.len(),
{
    if s.len() > 0 {
        let t = s.drop_last();
        assert forall|i: int|
            0 <= i < t.len() && cell_of(t[i].pos, min, size) == c implies lo <= #[trigger] f(
            t[i],
        ) <= hi by {
            assert(t[i] == s[i]);
            assert(cell_of(s[i].pos, min, size) == c ==> lo <= f(s[i]) <= hi);
        }
        lemma_cell_sum_member_bounds(t, min, size, c, f, lo, hi);
        let n0 = cell_count(t, min, size, c);
        let n1 = cell_count(s, min, size, c);
        if cell_of(s.last().pos, min, size) == c {
            assert(s.last() == s[s.len() - 1]);
            assert(lo <= f(s[s.len() - 1]) <= hi);
            assert(n1 * lo == n0 * lo + lo && n1 * hi == n0 * hi + hi) by (nonlinear_arith)
                requires
                    n1 == n0 + 1,
            ;
        } else {
            assert(n1 * lo == n0 * lo && n1 * hi == n0 * hi);
        }
    }
}

/// The centroid of an occupied cell lands back in that very cell, and
/// within the coordinate range: an average of members stays between the
/// members' own bounds.
proof fn lemma_centroid_in_cell(s: Seq<Sample>, min: Point, size: int, c: Cell)
    requires
        size >= 1,
        samples_in_range(s),
        crate::point::point_in_range(min),
        seen_cells(s, min, size).contains(c),
    ensures
        cell_of(centroid_of(s, min, size, c), min, size) == c,
        crate::point::point_in_range(centroid_of(s, min, size, c)),
{
    lemma_cell_count_bounds(s, min, size, c);
    let lim = crate::point::COORD_LIMIT as int;
    assert forall|i: int|
        0 <= i < s.len() && cell_of(s[i].pos, min, size) == c implies (
    crate::grid::cell_coord_spec(#[trigger] sel_x()(s[i]), min.x as int, size) == c.x as int
        && -lim <= sel_x()(s[i]) <= lim) by {
        assert(crate::point::point_in_range(s[i].pos));
        crate::grid::lemma_cell_coord_in_range(s[i].pos.x as int, min.x as int, size);
    }
    assert forall|i: int|
        0 <= i < s.len() && cell_of(s[i].pos, min, size) == c implies (
    crate::grid::cell_coord_spec(#[trigger] sel_y()(s[i]), min.y as int, size) == c.y as int
        && -lim <= sel_y()(s[i]) <= lim) by {
        assert(crate::point::point_in_range(s[i].pos));
        crate::grid::lemma_cell_coord_in_range(s[i].pos.y as int, min.y as int, size);
    }
    assert forall|i: int|
        0 <= i < s.len() && cell_of(s[i].pos, min, size) == c implies (
    crate::grid::cell_coord_spec(#[trigger] sel_z()(s[i]), min.z as int, size) == c.z as int
        && -lim <= sel_z()(s[i]) <= lim) by {
        assert(crate::point::point_in_range(s[i].pos));
        crate::grid::lemma_cell_coord_in_range(s[i].pos.z as int, min.z as int, size);
    }
    lemma_centroid_axis(s, min, size, c, sel_x(), c.x as int, min.x as int);
    lemma_centroid_axis(s, min, size, c, sel_y(), c.y as int, min.y as int);
    lemma_centroid_axis(s, min, size, c, sel_z(), c.z as int, min.z as int);
    let cnt = cell_count(s, min, size, c);
    let ctr = centroid_of(s, min, size, c);
    assert(ctr.x as int == cell_sum(s, min, size, c, sel_x()) / cnt);
    assert(ctr.y as int == cell_sum(s, min, size, c, sel_y()) / cnt);
    assert(ctr.z as int == cell_sum(s, min, size, c, sel_z()) / cnt);
    crate::grid::lemma_cell_coord_in_range(ctr.x as int, min.x as int, size);
    crate::grid::lemma_cell_coord_in_range(ctr.y as int, min.y as int, size);
    crate::grid::lemma_cell_coord_in_range(ctr.z as int, min.z as int, size);
}

/// One axis of `lemma_centroid_in_cell`: with `f` selecting that axis,
/// `cc` the cell coordinate and `m` the grid origin on it, the floored
/// mean of the members' values falls in `[cc·size + m, (cc+1)·size - 1 + m]`
/// and in the coordinate range, so its own cell coordinate is `cc` again.
proof fn lemma_centroid_axis(
    s: Seq<Sample>,
    min: Point,
    size: int,
    c: Cell,
    f: spec_fn(Sample) -> int,
    cc: int,
    m: int,
)
    requires
        size >= 1,
        samples_in_range(s),
        crate::point::point_in_range(min),
        seen_cells(s, min, size).contains(c),
        -(crate::point::COORD_LIMIT as int) <= m <= crate::point::COORD_LIMIT as int,
        forall|i: int|
            0 <= i < s.len() && cell_of(s[i].pos, min, size) == c ==> crate::grid::cell_coord_spec(
                #[trigger] f(s[i]),
                m,
                size,
            ) == cc && -(crate::point::COORD_LIMIT as int) <= f(s[i]) <= crate::point::COORD_LIMIT
                as int,
    ensures
        crate::grid::cell_coord_spec(
            cell_sum(s, min, size, c, f) / cell_count(s, min, size, c),
            m,
            size,
        ) == cc,
        -(crate::point::COORD_LIMIT as int) <= cell_sum(s, min, size, c, f) / cell_count(
            s,
            min,
            size,
            c,
        ) <= crate::point::COORD_LIMIT as int,
{
    lemma_cell_count_bounds(s, min, size, c);
    let cnt = cell_count(s, min, size, c);
    let sum = cell_sum(s, min, size, c, f);
    let lim = crate::point::COORD_LIMIT as int;
    let lo = cc * size + m;
    let hi = cc * size + m + size - 1;
    assert forall|i: int|
        0 <= i < s.len() && cell_of(s[i].pos, min, size) == c implies lo <= #[trigger] f(s[i])
        <= hi by {
        vstd::arithmetic::div_mod::lemma_fundamental_div_mod(f(s[i]) - m, size);
        assert(0 <= (f(s[i]) - m) % size < size);
        assert(size * cc == cc * size) by (nonlinear_arith);
    }
    lemma_cell_sum_member_bounds(s, min, size, c, f, lo, hi);
    lemma_cell_sum_member_bounds(s, min, size, c, f, -lim, lim);
    assert(cnt * lo <= sum <= cnt * hi);
    vstd::arithmetic::div_mod::lemma_div_is_ordered(cnt * lo, sum, cnt);
    vstd::arithmetic::div_mod::lemma_div_is_ordered(sum, cnt * hi, cnt);
    vstd::arithmetic::div_mod::lemma_div_multiples_vanish(lo, cnt);
    vstd::arithmetic::div_mod::lemma_div_multiples_vanish(hi, cnt);
    assert(lo <= sum / cnt <= hi);
    assert(cnt * (-lim) == -(cnt * lim)) by (nonlinear_arith);
    vstd::arithmetic::div_mod::lemma_div_is_ordered(cnt * (-lim), sum, cnt);
    vstd::arithmetic::div_mod::lemma_div_is_ordered(sum, cnt * lim, cnt);
    vstd::arithmetic::div_mod::lemma_div_multiples_vanish(-lim, cnt);
    vstd::arithmetic::div_mod::lemma_div_multiples_vanish(lim, cnt);
    let avg = sum / cnt;
    assert(avg - m == cc * size + (avg - lo)) by {
        assert(avg - m == (lo - m) + (avg - lo));
    }
    assert(avg - m == size * cc + (avg - lo)) by (nonlinear_arith)
        requires
            avg - m == cc * size + (avg - lo),
    ;
    vstd::arithmetic::div_mod::lemma_fundamental_div_mod_converse_div(
        avg - m,
        size,
        cc,
        avg - lo,
    );
}

/// Aggregation over samples whose cells are pairwise distinct: every cell
/// holds exactly its own sample and nothing else.
proof fn lemma_aggregate_of_distinct(s: Seq<Sample>, min: Point, size: int, f: spec_fn(
    Sample,
) -> int)
    requires
        forall|i: int, j: int|
            0 <= i < j < s.len() ==> cell_of(#[trigger] s[i].pos, min, size) != cell_of(
                #[trigger] s[j].pos,
                min,
                size,
            ),
    ensures
        seen_cells(s, min, size) =~= Seq::new(
            s.len(),
            |k: int| cell_of(s[k].pos, min, size),
        ),
        forall|k: int|
            0 <= k < s.len() ==> cell_count(s, min, size, cell_of(#[trigger] s[k].pos, min, size))
                == 1,
        forall|k: int|
            0 <= k < s.len() ==> cell_sum(
                s,
                min,
                size,
                cell_of(#[trigger] s[k].pos, min, size),
                f,
            ) == f(s[k]),
    decreases s.len(),
{
    if s.len() > 0 {
        let t = s.drop_last();
        assert forall|i: int, j: int| 0 <= i < j < t.len() implies cell_of(
            #[trigger] t[i].pos,
            min,
            size,
        ) != cell_of(#[trigger] t[j].pos, min, size) by {
            assert(t[i] == s[i] && t[j] == s[j]);
            assert(cell_of(s[i].pos, min, size) != cell_of(s[j].pos, min, size));
        }
        lemma_aggregate_of_distinct(t, min, size, f);
        let cl = cell_of(s.last().pos, min, size);
        assert(s.last() == s[s.len() - 1]);
        assert(!seen_cells(t, min, size).contains(cl)) by {
            if seen_cells(t, min, size).contains(cl) {
                lemma_seen_cells_complete(t, min, size);
                let i = choose|i: int|
                    0 <= i < t.len() && cell_of(#[trigger] t[i].pos, min, size) == cl;
                assert(t[i] == s[i]);
                assert(cell_of(s[i].pos, min, size) == cell_of(s[s.len() - 1].pos, min, size));
            }
        }
        lemma_cell_count_bounds(t, min, size, cl);
        lemma_cell_not_seen_empty(t, min, size, cl, f);
        assert forall|k: int| 0 <= k < s.len() implies cell_count(
            s,
            min,
            size,
            cell_of(#[trigger] s[k].pos, min, size),
        ) == 1 && cell_sum(s, min, size, cell_of(s[k].pos, min, size), f) == f(s[k]) by {
            let ck = cell_of(s[k].pos, min, size);
            if k < s.len() - 1 {
                assert(t[k] == s[k]);
                assert(cell_count(t, min, size, ck) == 1);
                assert(ck != cl);
                assert(cell_count(s, min, size, ck) == cell_count(t, min, size, ck));
                assert(cell_sum(s, min, size, ck, f) == cell_sum(t, min, size, ck, f));
            } else {
                assert(ck == cl);
                assert(cell_count(s, min, size, cl) == cell_count(t, min, size, cl) + 1);
                assert(cell_sum(s, min, size, cl, f) == cell_sum(t, min, size, cl, f) + f(
                    s.last(),
                ));
            }
        }
    }
}

/// Law: downsampling is idempotent. Each emitted centroid lands back in the
/// very cell it came from, so feeding a downsampled cloud through the same
/// grid — same voxel size, same bounds — reproduces it exactly: every cell
/// now holds a single point, which averages to itself.
pub proof fn lemma_downsample_idempotent(pts: Seq<Point>, min: Point, size: int)
    requires
        size >= 1,
        crate::point::points_in_range(pts),
        crate::point::point_in_range(min),
    ensures
        downsample_positions(downsample_positions(pts, min, size), min, size)
            == downsample_positions(pts, min, size),
{
    let s = lift_points(pts);
    let cells = seen_cells(s, min, size);
    let out = downsample_positions(pts, min, size);
    assert(samples_in_range(s)) by {
        assert forall|i: int| 0 <= i < s.len() implies crate::point::point_in_range(
            #[trigger] s[i].pos,
        ) by {
            assert(s[i].pos == pts[i]);
        }
    }
    lemma_seen_cells_distinct(s, min, size);
    assert forall|k: int| 0 <= k < out.len() implies cell_of(#[trigger] out[k], min, size)
        == cells[k] && crate::point::point_in_range(out[k]) by {
        assert(out[k] == centroid_of(s, min, size, cells[k]));
        assert(cells.contains(cells[k])) by {
            assert(cells[k] == cells[k]);
        }
        lemma_centroid_in_cell(s, min, size, cells[k]);
    }
    let s2 = lift_points(out);
    assert(s2.len() == out.len());
    assert forall|i: int, j: int| 0 <= i < j < s2.len() implies cell_of(
        #[trigger] s2[i].pos,
        min,
        size,
    ) != cell_of(#[trigger] s2[j].pos, min, size) by {
        assert(s2[i].pos == out[i] && s2[j].pos == out[j]);
        assert(cell_of(out[i], min, size) == cells[i]);
        assert(cell_of(out[j], min, size) == cells[j]);
        assert(cells[i] != cells[j]);
    }
    lemma_aggregate_of_distinct(s2, min, size, sel_x());
    lemma_aggregate_of_distinct(s2, min, size, sel_y());
    lemma_aggregate_of_distinct(s2, min, size, sel_z());
    let cells2 = seen_cells(s2, min, size);
    assert(cells2 =~= cells) by {
        assert(cells2 =~= Seq::new(s2.len(), |k: int| cell_of(s2[k].pos, min, size)));
        assert forall|k: int| 0 <= k < cells.len() implies cells2[k] == cells[k] by {
            assert(s2[k].pos == out[k]);
            assert(cell_of(out[k], min, size) == cells[k]);
        }
    }
    let out2 = downsample_positions(out, min, size);
    assert forall|k: int| 0 <= k < out2.len() implies out2[k] == out[k] by {
        assert(out2[k] == centroid_of(s2, min, size, cells2[k]));
        assert(cells2[k] == cells[k]);
        assert(s2[k].pos == out[k]);
        assert(cell_of(s2[k].pos, min, size) == cells[k]);
        assert(cell_count(s2, min, size, cells[k]) == 1);
        assert(cell_sum(s2, min, size, cells[k], sel_x()) == sel_x()(s2[k]));
        assert(cell_sum(s2, min, size, cells[k], sel_y()) == sel_y()(s2[k]));
        assert(cell_sum(s2, min, size, cells[k], sel_z()) == sel_z()(s2[k]));
        assert(sel_x()(s2[k]) == out[k].x as int);
        assert(sel_y()(s2[k]) == out[k].y as int);
        assert(sel_z()(s2[k]) == out[k].z as int);
        assert(out[k].x as int / 1 == out[k].x as int) by {
            vstd::arithmetic::div_mod::lemma_div_multiples_vanish(out[k].x as int, 1);
        }
        assert(out[k].y as int / 1 == out[k].y as int) by {
            vstd::arithmetic::div_mod::lemma_div_multiples_vanish(out[k].y as int, 1);
        }
        assert(out[k].z as int / 1 == out[k].z as int) by {
            vstd::arithmetic::div_mod::lemma_div_multiples_vanish(out[k].z as int, 1);
        }
    }
    assert(out2 =~= out);
}

} // verus!
