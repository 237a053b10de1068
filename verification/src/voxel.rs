//! Per-cell accumulators: running sums for one occupied voxel.

use vstd::prelude::*;
use vstd::arithmetic::div_mod::{lemma_div_is_ordered, lemma_div_multiples_vanish};
use vstd::arithmetic::mul::lemma_mul_inequality;
use crate::point::{Point, Color, point_in_range, coord_in_range, color_in_range, COORD_LIMIT};
use crate::aggregate::{seen_labels, label_count, lemma_seen_labels, mode_from, mode_spec};
use crate::grid::floor_div_i128;

verus! {

/// Running position totals of one voxel: how many points fell in it and the
/// per-axis coordinate sums, from which the centroid is one division away.
pub struct Voxel {
    pub count: usize,
    pub sum_x: i128,
    pub sum_y: i128,
    pub sum_z: i128,
}

/// One row of a voxel's classification table: a label and how often it has
/// been seen in that voxel.
#[derive(Clone, Copy, PartialEq, Eq, Structural, Debug)]
pub struct LabelCount {
    pub label: u8,
    pub count: usize,
}

/// A sum stays within `n` times the coordinate limit.
pub open spec fn sum_bounded(sum: int, n: int) -> bool {
    -(n * (COORD_LIMIT as int)) <= sum <= n * (COORD_LIMIT as int)
}

/// The quotient of a bounded sum by its count stays within the coordinate
/// range.
pub proof fn lemma_avg_in_range(sum: int, n: int)
    requires
        n >= 1,
        sum_bounded(sum, n),
    ensures
        -(COORD_LIMIT as int) <= sum / n <= COORD_LIMIT as int,
{
    let lim = COORD_LIMIT as int;
    lemma_div_is_ordered(sum, n * lim, n);
    lemma_div_multiples_vanish(lim, n);
    assert(n * (-lim) == -(n * lim)) by (nonlinear_arith);
    lemma_div_is_ordered(n * (-lim), sum, n);
    lemma_div_multiples_vanish(-lim, n);
}

/// A count below `usize::MAX` times the coordinate limit leaves room in an
/// `i128` for one more in-range addend.
pub proof fn lemma_sum_headroom(n: int)
    requires
        0 <= n <= usize::MAX,
    ensures
        n * (COORD_LIMIT as int) + COORD_LIMIT as int == (n + 1) * (COORD_LIMIT as int),
        (n + 1) * (COORD_LIMIT as int) <= 0x10000000000000000 * (COORD_LIMIT as int),
        0x10000000000000000 * (COORD_LIMIT as int) < i128::MAX,
{
    let lim = COORD_LIMIT as int;
    assert(n * lim + lim == (n + 1) * lim) by (nonlinear_arith);
    lemma_mul_inequality(n + 1, 0x10000000000000000, lim);
}

impl Voxel {
    /// The running sums are consistent with the count: each is at most
    /// `count` in-range coordinates' worth.
    pub open spec fn wf(self) -> bool {
        sum_bounded(self.sum_x as int, self.count as int) && sum_bounded(
            self.sum_y as int,
            self.count as int,
        ) && sum_bounded(self.sum_z as int, self.count as int)
    }

    /// A fresh, empty accumulator.
    pub fn new() -> (v: Voxel)
        ensures
            v == (Voxel { count: 0, sum_x: 0i128, sum_y: 0i128, sum_z: 0i128 }),
            v.wf(),
    {
        Voxel { count: 0, sum_x: 0, sum_y: 0, sum_z: 0 }
    }

    /// Fold one point into the totals.
    pub fn add_point(&mut self, p: Point)
        requires
            old(self).wf(),
            point_in_range(p),
            old(self).count < usize::MAX,
        ensures
            final(self).count == old(self).count + 1,
            final(self).sum_x as int == old(self).sum_x as int + p.x as int,
            final(self).sum_y as int == old(self).sum_y as int + p.y as int,
            final(self).sum_z as int == old(self).sum_z as int + p.z as int,
            final(self).wf(),
    {
        proof {
            lemma_sum_headroom(self.count as int);
        }
        self.count = self.count + 1;
        self.sum_x = self.sum_x + p.x as i128;
        self.sum_y = self.sum_y + p.y as i128;
        self.sum_z = self.sum_z + p.z as i128;
    }

    /// The reduced point of the voxel: the floored per-axis mean of its
    /// members, or the origin for an accumulator nothing was folded into.
    pub fn get_average(&self) -> (avg: Point)
        requires
            self.wf(),
        ensures
            self.count == 0 ==> avg == (Point { x: 0, y: 0, z: 0 }),
            self.count > 0 ==> avg.x as int == self.sum_x as int / self.count as int,
            self.count > 0 ==> avg.y as int == self.sum_y as int / self.count as int,
            self.count > 0 ==> avg.z as int == self.sum_z as int / self.count as int,
            point_in_range(avg),
    {
        if self.count == 0 {
            Point { x: 0, y: 0, z: 0 }
        } else {
            proof {
                lemma_sum_headroom(self.count as int);
                lemma_avg_in_range(self.sum_x as int, self.count as int);
                lemma_avg_in_range(self.sum_y as int, self.count as int);
                lemma_avg_in_range(self.sum_z as int, self.count as int);
            }
            let n = self.count as i128;
            Point {
                x: floor_div_i128(self.sum_x, n) as i64,
                y: floor_div_i128(self.sum_y, n) as i64,
                z: floor_div_i128(self.sum_z, n) as i64,
            }
        }
    }
}

/// The classification table rows are the distinct labels of `ls` in
/// first-seen order, each with its occurrence count.
pub open spec fn hist_matches(hist: Seq<LabelCount>, ls: Seq<u8>) -> bool {
    hist.map_values(|lc: LabelCount| lc.label) == seen_labels(ls) && forall|j: int|
        0 <= j < hist.len() ==> (#[trigger] hist[j]).count as int == label_count(
            ls,
            hist[j].label,
        )
}

/// Record one more occurrence of `label` in a classification table that so
/// far reflects the label sequence `ls`.
pub fn bump_label(hist: &mut Vec<LabelCount>, label: u8, Ghost(ls): Ghost<Seq<u8>>)
    requires
        hist_matches(old(hist)@, ls),
        ls.len() < usize::MAX,
    ensures
        hist_matches(final(hist)@, ls.push(label)),
        final(hist)@.len() >= 1,
{
    proof {
        lemma_seen_labels(ls);
        lemma_seen_labels(ls.push(label));
        assert(ls.push(label).drop_last() =~= ls);
    }
    let ghost ls1 = ls.push(label);
    let n = hist.len();
    let mut j: usize = 0;
    while j < n
        invariant
            hist_matches(hist@, ls),
            ls.len() < usize::MAX,
            n == hist@.len(),
            0 <= j <= n,
            forall|j2: int| 0 <= j2 < j ==> (#[trigger] hist@[j2]).label != label,
            seen_labels(ls).no_duplicates(),
            forall|l: u8| 0 <= #[trigger] label_count(ls, l) <= ls.len(),
            ls1 == ls.push(label),
            ls1.drop_last() =~= ls,
        decreases n - j,
    {
        if hist[j].label == label {
            proof {
                assert(seen_labels(ls).contains(label)) by {
                    assert(hist@.map_values(|lc: LabelCount| lc.label)[j as int] == label);
                }
            }
            let c = hist[j].count;
            assert(c < usize::MAX);
            hist[j].count = c + 1;
            proof {
                assert(seen_labels(ls1) =~= seen_labels(ls));
                assert(hist@.map_values(|lc: LabelCount| lc.label) =~= seen_labels(ls1));
                assert forall|j2: int| 0 <= j2 < hist@.len() implies (#[trigger] hist@[j2]).count
                    as int == label_count(ls1, hist@[j2].label) by {
                    if j2 != j as int {
                        assert(hist@[j2].label != label) by {
                            let labels_seq = hist@.map_values(|lc: LabelCount| lc.label);
                            assert(labels_seq[j2] == hist@[j2].label);
                            assert(labels_seq[j as int] == label);
                        }
                        assert(label_count(ls1, hist@[j2].label) == label_count(
                            ls,
                            hist@[j2].label,
                        ));
                    } else {
                        assert(label_count(ls1, label) == label_count(ls, label) + 1);
                    }
                }
            }
            return;
        }
        j = j + 1;
    }
    proof {
        assert(!seen_labels(ls).contains(label)) by {
            if seen_labels(ls).contains(label) {
                let j2 = choose|j2: int|
                    0 <= j2 < seen_labels(ls).len() && seen_labels(ls)[j2] == label;
                assert(hist@.map_values(|lc: LabelCount| lc.label)[j2] == label);
                assert(hist@[j2].label == label);
            }
        }
        assert(label_count(ls, label) == 0);
    }
    hist.push(LabelCount { label, count: 1 });
    proof {
        assert(seen_labels(ls1) =~= seen_labels(ls).push(label));
        assert(hist@.map_values(|lc: LabelCount| lc.label) =~= seen_labels(ls1));
        assert forall|j2: int| 0 <= j2 < hist@.len() implies (#[trigger] hist@[j2]).count as int
            == label_count(ls1, hist@[j2].label) by {
            if j2 < hist@.len() - 1 {
                assert(hist@[j2].label != label);
                assert(label_count(ls1, hist@[j2].label) == label_count(ls, hist@[j2].label));
            } else {
                assert(hist@[j2] == (LabelCount { label, count: 1 }));
                assert(label_count(ls1, label) == label_count(ls, label) + 1);
            }
        }
    }
}

/// Per-cell running totals for the attribute-aware downsampling pass:
/// position sums plus color, intensity and classification aggregation.
pub struct VoxelFull {
    pub pos: Voxel,
    pub sum_r: i128,
    pub sum_g: i128,
    pub sum_b: i128,
    pub sum_intensity: i128,
    pub class_counts: Vec<LabelCount>,
}

impl VoxelFull {
    /// All sums are consistent with the member count and the classification
    /// table reflects the member label sequence `ls`.
    pub open spec fn wf(self, ls: Seq<u8>) -> bool {
        self.pos.wf() && sum_bounded(self.sum_r as int, self.pos.count as int) && sum_bounded(
            self.sum_g as int,
            self.pos.count as int,
        ) && sum_bounded(self.sum_b as int, self.pos.count as int) && sum_bounded(
            self.sum_intensity as int,
            self.pos.count as int,
        ) && hist_matches(self.class_counts@, ls) && ls.len() == self.pos.count
    }

    /// A fresh, empty accumulator.
    pub fn new() -> (v: VoxelFull)
        ensures
            v.wf(Seq::empty()),
            v.pos.count == 0,
            v.sum_r == 0i128 && v.sum_g == 0i128 && v.sum_b == 0i128,
            v.sum_intensity == 0i128,
    {
        proof {
            assert(Seq::<LabelCount>::empty().map_values(|lc: LabelCount| lc.label)
                =~= seen_labels(Seq::<u8>::empty()));
        }
        VoxelFull {
            pos: Voxel::new(),
            sum_r: 0,
            sum_g: 0,
            sum_b: 0,
            sum_intensity: 0,
            class_counts: Vec::new(),
        }
    }

    /// Fold one sample (position and attributes) into the totals.
    pub fn add_sample(
        &mut self,
        p: Point,
        color: Color,
        intensity: i64,
        label: u8,
        Ghost(ls): Ghost<Seq<u8>>,
    )
        requires
            old(self).wf(ls),
            point_in_range(p),
            color_in_range(color),
            coord_in_range(intensity as int),
            old(self).pos.count < usize::MAX,
        ensures
            final(self).wf(ls.push(label)),
            final(self).pos.count == old(self).pos.count + 1,
            final(self).pos.sum_x as int == old(self).pos.sum_x as int + p.x as int,
            final(self).pos.sum_y as int == old(self).pos.sum_y as int + p.y as int,
            final(self).pos.sum_z as int == old(self).pos.sum_z as int + p.z as int,
            final(self).sum_r as int == old(self).sum_r as int + color.r as int,
            final(self).sum_g as int == old(self).sum_g as int + color.g as int,
            final(self).sum_b as int == old(self).sum_b as int + color.b as int,
            final(self).sum_intensity as int == old(self).sum_intensity as int
                + intensity as int,
    {
        proof {
            lemma_sum_headroom(self.pos.count as int);
        }
        self.pos.add_point(p);
        self.sum_r = self.sum_r + color.r as i128;
        self.sum_g = self.sum_g + color.g as i128;
        self.sum_b = self.sum_b + color.b as i128;
        self.sum_intensity = self.sum_intensity + intensity as i128;
        bump_label(&mut self.class_counts, label, Ghost(ls));
    }

    /// The per-channel mean color of the voxel's members, floored.
    pub fn get_color_average(&self) -> (c: Color)
        requires
            self.pos.count > 0,
            sum_bounded(self.sum_r as int, self.pos.count as int),
            sum_bounded(self.sum_g as int, self.pos.count as int),
            sum_bounded(self.sum_b as int, self.pos.count as int),
        ensures
            c.r as int == self.sum_r as int / self.pos.count as int,
            c.g as int == self.sum_g as int / self.pos.count as int,
            c.b as int == self.sum_b as int / self.pos.count as int,
            color_in_range(c),
    {
        proof {
            lemma_sum_headroom(self.pos.count as int);
            lemma_avg_in_range(self.sum_r as int, self.pos.count as int);
            lemma_avg_in_range(self.sum_g as int, self.pos.count as int);
            lemma_avg_in_range(self.sum_b as int, self.pos.count as int);
        }
        let n = self.pos.count as i128;
        Color {
            r: floor_div_i128(self.sum_r, n) as i64,
            g: floor_div_i128(self.sum_g, n) as i64,
            b: floor_div_i128(self.sum_b, n) as i64,
        }
    }

    /// The mean intensity of the voxel's members, floored.
    pub fn get_intensity_average(&self) -> (v: i64)
        requires
            self.pos.count > 0,
            sum_bounded(self.sum_intensity as int, self.pos.count as int),
        ensures
            v as int == self.sum_intensity as int / self.pos.count as int,
            coord_in_range(v as int),
    {
        proof {
            lemma_sum_headroom(self.pos.count as int);
            lemma_avg_in_range(self.sum_intensity as int, self.pos.count as int);
        }
        floor_div_i128(self.sum_intensity, self.pos.count as i128) as i64
    }

    /// The voxel's classification: the most frequent label of its members,
    /// walking the table in first-seen order and replacing the running best
    /// only on a strictly greater count, so the earliest label wins ties.
    pub fn get_mode(&self, Ghost(ls): Ghost<Seq<u8>>) -> (l: u8)
        requires
            hist_matches(self.class_counts@, ls),
            ls.len() > 0,
        ensures
            l == mode_spec(ls),
    {
        proof {
            lemma_seen_labels(ls);
        }
        let ghost seen = seen_labels(ls);
        let hist = &self.class_counts;
        let n = hist.len();
        assert(hist@.map_values(|lc: LabelCount| lc.label).len() == n);
        let mut best = hist[0];
        assert(best.label == seen[0]) by {
            assert(hist@.map_values(|lc: LabelCount| lc.label)[0] == hist@[0].label);
        }
        let mut j: usize = 1;
        while j < n
            invariant
                hist_matches(hist@, ls),
                seen == seen_labels(ls),
                n == hist@.len(),
                n >= 1,
                1 <= j <= n,
                best.count as int == label_count(ls, best.label),
                mode_from(seen, ls, j as int, best.label) == mode_spec(ls),
            decreases n - j,
        {
            let ghost b0 = best.label;
            assert(hist@[j as int].label == seen[j as int]) by {
                assert(hist@.map_values(|lc: LabelCount| lc.label)[j as int]
                    == hist@[j as int].label);
            }
            if hist[j].count > best.count {
                best = hist[j];
            }
            proof {
                assert(mode_from(seen, ls, j as int, b0) == mode_from(
                    seen,
                    ls,
                    j as int + 1,
                    best.label,
                ));
            }
            j = j + 1;
        }
        best.label
    }
}

} // verus!
