//! The mathematical model of per-cell aggregation.
//!
//! Downsampling and debug-center generation are both one aggregation pass:
//! walk the buffer, assign every point to its grid cell, and reduce per
//! occupied cell. The model here fixes what that pass computes: the distinct
//! occupied cells in first-seen order, the per-cell point count, per-cell
//! running sums of any per-point value, and the per-cell classification mode
//! with its first-seen tie-break.

use vstd::prelude::*;
use crate::point::{Point, Color, point_in_range};
use crate::grid::{Cell, cell_of};

verus! {

/// One input record: a position together with its optional attributes
/// (absent attributes are carried as zeros and ignored by the output).
#[derive(Clone, Copy, PartialEq, Eq, Structural, Debug)]
pub struct Sample {
    pub pos: Point,
    pub color: Color,
    pub intensity: i64,
    pub label: u8,
}

/// The sample sequence an attribute-aware aggregation pass works over: the
/// positions zipped with each attribute buffer, where an attribute counts as
/// present only when its buffer matches the point count exactly.
pub open spec fn samples_of(
    pts: Seq<Point>,
    colors: Option<Seq<Color>>,
    intensities: Option<Seq<i64>>,
    labels: Option<Seq<u8>>,
) -> Seq<Sample> {
    Seq::new(
        pts.len(),
        |i: int| Sample {
            pos: pts[i],
            color: match colors {
                Some(cs) => if cs.len() == pts.len() {
                    cs[i]
                } else {
                    Color { r: 0, g: 0, b: 0 }
                },
                None => Color { r: 0, g: 0, b: 0 },
            },
            intensity: match intensities {
                Some(vs) => if vs.len() == pts.len() {
                    vs[i]
                } else {
                    0
                },
                None => 0,
            },
            label: match labels {
                Some(ls) => if ls.len() == pts.len() {
                    ls[i]
                } else {
                    0
                },
                None => 0,
            },
        },
    )
}

/// Positions alone, viewed as samples with every attribute absent.
pub open spec fn lift_points(pts: Seq<Point>) -> Seq<Sample> {
    samples_of(pts, None, None, None)
}

/// Every sample position lies within the library's coordinate range.
pub open spec fn samples_in_range(s: Seq<Sample>) -> bool {
    forall|i: int| 0 <= i < s.len() ==> point_in_range(#[trigger] s[i].pos)
}

/// The distinct occupied cells of `s`, in order of first occurrence.
pub open spec fn seen_cells(s: Seq<Sample>, min: Point, size: int) -> Seq<Cell>
    decreases s.len(),
{
    if s.len() == 0 {
        Seq::empty()
    } else {
        let prev = seen_cells(s.drop_last(), min, size);
        let c = cell_of(s.last().pos, min, size);
        if prev.contains(c) {
            prev
        } else {
            prev.push(c)
        }
    }
}

/// How many samples of `s` fall in cell `c`.
pub open spec fn cell_count(s: Seq<Sample>, min: Point, size: int, c: Cell) -> int
    decreases s.len(),
{
    if s.len() == 0 {
        0
    } else {
        cell_count(s.drop_last(), min, size, c) + if cell_of(s.last().pos, min, size) == c {
            1int
        } else {
            0int
        }
    }
}

/// Sum of `f` over the samples of `s` that fall in cell `c`.
pub open spec fn cell_sum(
    s: Seq<Sample>,
    min: Point,
    size: int,
    c: Cell,
    f: spec_fn(Sample) -> int,
) -> int
    decreases s.len(),
{
    if s.len() == 0 {
        0
    } else {
        cell_sum(s.drop_last(), min, size, c, f) + if cell_of(s.last().pos, min, size) == c {
            f(s.last())
        } else {
            0int
        }
    }
}

/// The classification labels of the samples falling in cell `c`, in input
/// order.
pub open spec fn cell_labels(s: Seq<Sample>, min: Point, size: int, c: Cell) -> Seq<u8>
    decreases s.len(),
{
    if s.len() == 0 {
        Seq::empty()
    } else {
        let prev = cell_labels(s.drop_last(), min, size, c);
        if cell_of(s.last().pos, min, size) == c {
            prev.push(s.last().label)
        } else {
            prev
        }
    }
}

/// Selector for the x coordinate of a sample's position.
pub open spec fn sel_x() -> spec_fn(Sample) -> int {
    |smp: Sample| smp.pos.x as int
}

/// Selector for the y coordinate of a sample's position.
pub open spec fn sel_y() -> spec_fn(Sample) -> int {
    |smp: Sample| smp.pos.y as int
}

/// Selector for the z coordinate of a sample's position.
pub open spec fn sel_z() -> spec_fn(Sample) -> int {
    |smp: Sample| smp.pos.z as int
}

/// Selector for the red channel of a sample's color.
pub open spec fn sel_r() -> spec_fn(Sample) -> int {
    |smp: Sample| smp.color.r as int
}

/// Selector for the green channel of a sample's color.
pub open spec fn sel_g() -> spec_fn(Sample) -> int {
    |smp: Sample| smp.color.g as int
}

/// Selector for the blue channel of a sample's color.
pub open spec fn sel_b() -> spec_fn(Sample) -> int {
    |smp: Sample| smp.color.b as int
}

/// Selector for a sample's intensity.
pub open spec fn sel_i() -> spec_fn(Sample) -> int {
    |smp: Sample| smp.intensity as int
}

/// The centroid of the samples in cell `c`: per-axis arithmetic mean of the
/// member positions, floored.
pub open spec fn centroid_of(s: Seq<Sample>, min: Point, size: int, c: Cell) -> Point {
    let n = cell_count(s, min, size, c);
    Point {
        x: (cell_sum(s, min, size, c, sel_x()) / n) as i64,
        y: (cell_sum(s, min, size, c, sel_y()) / n) as i64,
        z: (cell_sum(s, min, size, c, sel_z()) / n) as i64,
    }
}

/// What downsampling a bare position buffer yields: the centroid of every
/// occupied cell, in first-seen cell order.
pub open spec fn downsample_positions(pts: Seq<Point>, min: Point, size: int) -> Seq<Point> {
    let s = lift_points(pts);
    Seq::new(
        seen_cells(s, min, size).len(),
        |k: int| centroid_of(s, min, size, seen_cells(s, min, size)[k]),
    )
}

/// The per-channel mean color of the samples in cell `c`, floored.
pub open spec fn color_avg_of(s: Seq<Sample>, min: Point, size: int, c: Cell) -> Color {
    let n = cell_count(s, min, size, c);
    Color {
        r: (cell_sum(s, min, size, c, sel_r()) / n) as i64,
        g: (cell_sum(s, min, size, c, sel_g()) / n) as i64,
        b: (cell_sum(s, min, size, c, sel_b()) / n) as i64,
    }
}

/// The mean intensity of the samples in cell `c`, floored.
pub open spec fn intensity_avg_of(s: Seq<Sample>, min: Point, size: int, c: Cell) -> i64 {
    (cell_sum(s, min, size, c, sel_i()) / cell_count(s, min, size, c)) as i64
}

/// The classification of cell `c`: the mode of its members' labels, ties
/// resolving to the label seen first.
pub open spec fn label_mode_of(s: Seq<Sample>, min: Point, size: int, c: Cell) -> u8 {
    mode_spec(cell_labels(s, min, size, c))
}

/// Number of occurrences of `l` in `ls`.
pub open spec fn label_count(ls: Seq<u8>, l: u8) -> int
    decreases ls.len(),
{
    if ls.len() == 0 {
        0
    } else {
        label_count(ls.drop_last(), l) + if ls.last() == l {
            1int
        } else {
            0int
        }
    }
}

/// The distinct labels of `ls`, in order of first occurrence.
pub open spec fn seen_labels(ls: Seq<u8>) -> Seq<u8>
    decreases ls.len(),
{
    if ls.len() == 0 {
        Seq::empty()
    } else {
        let prev = seen_labels(ls.drop_last());
        if prev.contains(ls.last()) {
            prev
        } else {
            prev.push(ls.last())
        }
    }
}

/// Walks the distinct labels from position `i` keeping the best candidate so
/// far; a later label replaces the best only with a strictly greater count,
/// which is what makes the earliest first-seen label win ties.
pub open spec fn mode_from(seen: Seq<u8>, ls: Seq<u8>, i: int, best: u8) -> u8
    decreases seen.len() - i,
{
    if i < 0 || i >= seen.len() {
        best
    } else {
        let next = if label_count(ls, seen[i]) > label_count(ls, best) {
            seen[i]
        } else {
            best
        };
        mode_from(seen, ls, i + 1, next)
    }
}

/// The most frequent label of `ls`; ties resolve to the label seen first.
/// Meaningful only for a non-empty `ls`.
pub open spec fn mode_spec(ls: Seq<u8>) -> u8 {
    mode_from(seen_labels(ls), ls, 1, seen_labels(ls)[0])
}

/// There are never more occupied cells than samples.
pub proof fn lemma_seen_cells_len_le(s: Seq<Sample>, min: Point, size: int)
    ensures
        seen_cells(s, min, size).len() <= s.len(),
    decreases s.len(),
{
    if s.len() > 0 {
        lemma_seen_cells_len_le(s.drop_last(), min, size);
    }
}

/// The first-seen cell sequence lists each occupied cell exactly once.
pub proof fn lemma_seen_cells_distinct(s: Seq<Sample>, min: Point, size: int)
    ensures
        seen_cells(s, min, size).no_duplicates(),
    decreases s.len(),
{
    if s.len() > 0 {
        lemma_seen_cells_distinct(s.drop_last(), min, size);
    }
}

/// Every sample's cell occurs in the first-seen cell sequence, and the cells
/// listed there are exactly the cells some sample occupies.
pub proof fn lemma_seen_cells_complete(s: Seq<Sample>, min: Point, size: int)
    ensures
        forall|i: int|
            0 <= i < s.len() ==> seen_cells(s, min, size).contains(
                cell_of(#[trigger] s[i].pos, min, size),
            ),
        forall|c: Cell|
            #[trigger] seen_cells(s, min, size).contains(c) ==> exists|i: int|
                0 <= i < s.len() && cell_of(#[trigger] s[i].pos, min, size) == c,
    decreases s.len(),
{
    if s.len() > 0 {
        lemma_seen_cells_complete(s.drop_last(), min, size);
        assert forall|i: int| 0 <= i < s.len() implies seen_cells(s, min, size).contains(
            cell_of(#[trigger] s[i].pos, min, size),
        ) by {
            let prev = seen_cells(s.drop_last(), min, size);
            let c = cell_of(s[i].pos, min, size);
            if i < s.len() - 1 {
                assert(s.drop_last()[i] == s[i]);
                assert(prev.contains(c));
                if !prev.contains(cell_of(s.last().pos, min, size)) {
                    let j = choose|j: int| 0 <= j < prev.len() && prev[j] == c;
                    assert(seen_cells(s, min, size)[j] == c);
                }
            } else {
                if prev.contains(c) {
                } else {
                    assert(seen_cells(s, min, size).last() == c);
                }
            }
        }
        assert forall|c: Cell| #[trigger] seen_cells(s, min, size).contains(c) implies exists|i: int|
            0 <= i < s.len() && cell_of(#[trigger] s[i].pos, min, size) == c by {
            let prev = seen_cells(s.drop_last(), min, size);
            if prev.contains(c) {
                let i = choose|i: int|
                    0 <= i < s.drop_last().len() && cell_of(s.drop_last()[i].pos, min, size) == c;
                assert(s.drop_last()[i] == s[i]);
                assert(cell_of(s[i].pos, min, size) == c);
            } else {
                assert(c == cell_of(s.last().pos, min, size));
                assert(cell_of(s[s.len() - 1].pos, min, size) == c);
            }
        }
    }
}

/// A cell's member count is nonnegative, bounded by the sample count, and
/// positive exactly for the cells listed as occupied.
pub proof fn lemma_cell_count_bounds(s: Seq<Sample>, min: Point, size: int, c: Cell)
    ensures
        0 <= cell_count(s, min, size, c) <= s.len(),
        seen_cells(s, min, size).contains(c) <==> cell_count(s, min, size, c) >= 1,
    decreases s.len(),
{
    if s.len() > 0 {
        lemma_cell_count_bounds(s.drop_last(), min, size, c);
        let prev = seen_cells(s.drop_last(), min, size);
        let last_c = cell_of(s.last().pos, min, size);
        if prev.contains(c) || (!prev.contains(last_c) && last_c == c) {
            assert(seen_cells(s, min, size).contains(c)) by {
                if prev.contains(c) {
                    let j = choose|j: int| 0 <= j < prev.len() && prev[j] == c;
                    assert(seen_cells(s, min, size)[j] == c);
                } else {
                    assert(seen_cells(s, min, size).last() == c);
                }
            }
        } else {
            assert(!seen_cells(s, min, size).contains(c)) by {
                if seen_cells(s, min, size).contains(c) {
                    let j = choose|j: int|
                        0 <= j < seen_cells(s, min, size).len() && seen_cells(s, min, size)[j]
                            == c;
                    if j < prev.len() {
                        assert(prev[j] == c);
                    }
                }
            }
        }
    }
}

/// A cell that is not listed as occupied has no members: its count, any
/// per-cell sum, and its label sequence are all empty.
pub proof fn lemma_cell_not_seen_empty(
    s: Seq<Sample>,
    min: Point,
    size: int,
    c: Cell,
    f: spec_fn(Sample) -> int,
)
    requires
        !seen_cells(s, min, size).contains(c),
    ensures
        cell_count(s, min, size, c) == 0,
        cell_sum(s, min, size, c, f) == 0,
        cell_labels(s, min, size, c) =~= Seq::empty(),
    decreases s.len(),
{
    if s.len() > 0 {
        let prev = seen_cells(s.drop_last(), min, size);
        let last_c = cell_of(s.last().pos, min, size);
        assert(!prev.contains(c)) by {
            if prev.contains(c) {
                let j = choose|j: int| 0 <= j < prev.len() && prev[j] == c;
                assert(seen_cells(s, min, size)[j] == c);
                assert(seen_cells(s, min, size).contains(c));
            }
        }
        assert(last_c != c) by {
            if last_c == c {
                if !prev.contains(last_c) {
                    let cur = seen_cells(s, min, size);
                    assert(cur[cur.len() - 1] == c);
                    assert(cur.contains(c));
                }
            }
        }
        lemma_cell_not_seen_empty(s.drop_last(), min, size, c, f);
    }
}

/// The per-cell label sequence has exactly one entry per member point.
pub proof fn lemma_cell_labels_len(s: Seq<Sample>, min: Point, size: int, c: Cell)
    ensures
        cell_labels(s, min, size, c).len() == cell_count(s, min, size, c),
    decreases s.len(),
{
    if s.len() > 0 {
        lemma_cell_labels_len(s.drop_last(), min, size, c);
    }
}

/// A per-cell sum of values drawn from `[-bound, bound]` is bounded by the
/// member count times the bound.
pub proof fn lemma_cell_sum_bound(
    s: Seq<Sample>,
    min: Point,
    size: int,
    c: Cell,
    f: spec_fn(Sample) -> int,
    bound: int,
)
    requires
        bound >= 0,
        forall|i: int| 0 <= i < s.len() ==> -bound <= #[trigger] f(s[i]) <= bound,
    ensures
        -(cell_count(s, min, size, c) * bound) <= cell_sum(s, min, size, c, f) <= cell_count(
            s,
            min,
            size,
            c,
        ) * bound,
    decreases s.len(),
{
    if s.len() > 0 {
        let t = s.drop_last();
        assert forall|i: int| 0 <= i < t.len() implies -bound <= #[trigger] f(t[i]) <= bound by {
            assert(t[i] == s[i]);
            assert(-bound <= f(s[i]) <= bound);
        }
        lemma_cell_sum_bound(t, min, size, c, f, bound);
        let n0 = cell_count(t, min, size, c);
        let n1 = cell_count(s, min, size, c);
        lemma_cell_count_bounds(t, min, size, c);
        assert(s.last() == s[s.len() - 1]);
        assert(-bound <= f(s[s.len() - 1]) <= bound);
        if cell_of(s.last().pos, min, size) == c {
            assert(n1 * bound == n0 * bound + bound) by (nonlinear_arith)
                requires
                    n1 == n0 + 1,
            ;
        } else {
            assert(n1 == n0);
            assert(n1 * bound == n0 * bound);
        }
    }
}

/// Distinct labels are never more numerous than the labels themselves, each
/// appears once, an unlisted label has count zero, and no label outnumbers
/// the whole sequence.
pub proof fn lemma_seen_labels(ls: Seq<u8>)
    ensures
        seen_labels(ls).len() <= ls.len(),
        seen_labels(ls).no_duplicates(),
        forall|l: u8|
            !seen_labels(ls).contains(l) ==> #[trigger] label_count(ls, l) == 0,
        forall|l: u8| 0 <= #[trigger] label_count(ls, l) <= ls.len(),
        ls.len() > 0 ==> seen_labels(ls).len() > 0,
    decreases ls.len(),
{
    if ls.len() > 0 {
        lemma_seen_labels(ls.drop_last());
        let prev = seen_labels(ls.drop_last());
        let cur = seen_labels(ls);
        assert forall|l: u8| !cur.contains(l) implies #[trigger] label_count(ls, l) == 0 by {
            if prev.contains(l) {
                let j = choose|j: int| 0 <= j < prev.len() && prev[j] == l;
                assert(cur[j] == l);
                assert(cur.contains(l));
            }
            if ls.last() == l {
                if !prev.contains(l) {
                    assert(cur[cur.len() - 1] == l);
                    assert(cur.contains(l));
                }
            }
            assert(label_count(ls.drop_last(), l) == 0);
        }
        assert forall|l: u8| 0 <= #[trigger] label_count(ls, l) <= ls.len() by {
            assert(0 <= label_count(ls.drop_last(), l) <= ls.len() - 1);
        }
    }
}

} // verus!
