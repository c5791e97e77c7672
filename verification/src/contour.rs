//! The contour driver: for each requested level, scan every cell of the
//! grid, reject cells the level cannot cross, intersect the surviving cells,
//! and stitch the collected segments into that level's contour.
//!
//! The grid is given as ascending `x` coordinates, ascending `y` coordinates,
//! and a row-major flattened field `z` with `z[row * x.len() + col]` the
//! sample at `(x[col], y[row])`.  The result is one contour per level, in
//! level order; the whole computation is a pure function of its inputs.

use vstd::prelude::*;

verus! {

use crate::frac::{
    Frac, spec_lt, spec_le, spec_ge, spec_sub, spec_div, lemma_sum_bounds, lemma_div_bounds,
    CMP_BOUND,
};
use crate::point::Point;
use crate::interpolate::IN_BOUND;
use crate::intersect::{Segment, spec_cell_segments, compute_block_intersection};
use crate::group::{spec_group, group_segments, views_of};
use vstd::arithmetic::div_mod::{
    lemma_div_multiples_vanish_fancy, lemma_mod_multiples_vanish, lemma_small_mod,
};

/// A single contour line: an ordered sequence of points, open or closed.
pub type ContourLine = Vec<Point>;

/// A collection of contour lines making up the contour of one level.
pub type Contour = Vec<ContourLine>;

/// The four corner points of the cell at column `i`, row `j`, in cyclic
/// order: `(i, j)`, `(i+1, j)`, `(i+1, j+1)`, `(i, j+1)`.
pub open spec fn spec_corners(x: Seq<Frac>, y: Seq<Frac>, z: Seq<Frac>, i: int, j: int)
    -> Seq<Point> {
    let nx = x.len() as int;
    seq![
        Point { x: x[i], y: y[j], z: z[j * nx + i] },
        Point { x: x[i + 1], y: y[j], z: z[j * nx + i + 1] },
        Point { x: x[i + 1], y: y[j + 1], z: z[(j + 1) * nx + i + 1] },
        Point { x: x[i], y: y[j + 1], z: z[(j + 1) * nx + i] },
    ]
}

/// The cheap range filter: a cell survives when at least one corner is
/// at-or-below the level and at least one is at-or-above it (that is,
/// `min(corners) <= level <= max(corners)`).
pub open spec fn spec_cell_kept(x: Seq<Frac>, y: Seq<Frac>, z: Seq<Frac>, level: Frac, i: int,
    j: int) -> bool {
    let c = spec_corners(x, y, z, i, j);
    (spec_le(c[0].z, level) || spec_le(c[1].z, level) || spec_le(c[2].z, level) || spec_le(
        c[3].z, level)) && (spec_ge(c[0].z, level) || spec_ge(c[1].z, level) || spec_ge(
        c[2].z, level) || spec_ge(c[3].z, level))
}

/// The segments the cell at `(i, j)` contributes: none when the range filter
/// rejects it.
pub open spec fn spec_cell_segs(x: Seq<Frac>, y: Seq<Frac>, z: Seq<Frac>, level: Frac,
    x_eps: Frac, z_eps: Frac, i: int, j: int) -> Seq<Segment> {
    if spec_cell_kept(x, y, z, level, i, j) {
        spec_cell_segments(spec_corners(x, y, z, i, j), level, x_eps, z_eps)
    } else {
        Seq::empty()
    }
}

/// The segments of the first `k` cells, cells being ordered column-major:
/// cell `k` is at column `k / (ny - 1)`, row `k % (ny - 1)`.
pub open spec fn spec_segments_prefix(x: Seq<Frac>, y: Seq<Frac>, z: Seq<Frac>, level: Frac,
    x_eps: Frac, z_eps: Frac, k: int) -> Seq<Segment>
    decreases k,
{
    if k <= 0 {
        Seq::empty()
    } else {
        let rows = y.len() - 1;
        spec_segments_prefix(x, y, z, level, x_eps, z_eps, k - 1) + spec_cell_segs(x, y, z,
            level, x_eps, z_eps, (k - 1) / rows as int, (k - 1) % rows as int)
    }
}

/// All segments of one level, over the whole grid.
pub open spec fn spec_level_segments(x: Seq<Frac>, y: Seq<Frac>, z: Seq<Frac>, level: Frac,
    x_eps: Frac, z_eps: Frac) -> Seq<Segment> {
    spec_segments_prefix(x, y, z, level, x_eps, z_eps, (x.len() - 1) * (y.len() - 1))
}

/// The flat-saddle tolerance: one millionth of the field's value range.
pub open spec fn spec_z_eps(z_range: Frac) -> Frac {
    spec_div(z_range, Frac { num: 1000000, den: 1 })
}

/// The positional offset separating a flat saddle's two sub-centers.  It is
/// far below the coordinate resolution, which in exact arithmetic is the
/// exact zero: the two sub-centers coincide.
pub open spec fn spec_x_eps() -> Frac {
    Frac { num: 0, den: 1 }
}

/// The contour of one level: the grid's surviving cells intersected and the
/// collected segments stitched into polylines.
pub open spec fn spec_single_contour(x: Seq<Frac>, y: Seq<Frac>, z: Seq<Frac>, level: Frac,
    z_range: Frac) -> Seq<Seq<Point>> {
    spec_group(spec_level_segments(x, y, z, level, spec_x_eps(), spec_z_eps(z_range)))
}

/// The smallest value of a nonempty sequence (ties keep the earlier value).
pub open spec fn spec_seq_min(s: Seq<Frac>) -> Frac
    decreases s.len(),
{
    if s.len() <= 1 {
        s[0]
    } else {
        let m = spec_seq_min(s.drop_last());
        if spec_lt(s.last(), m) {
            s.last()
        } else {
            m
        }
    }
}

/// The largest value of a nonempty sequence (ties keep the earlier value).
pub open spec fn spec_seq_max(s: Seq<Frac>) -> Frac
    decreases s.len(),
{
    if s.len() <= 1 {
        s[0]
    } else {
        let m = spec_seq_max(s.drop_last());
        if spec_lt(m, s.last()) {
            s.last()
        } else {
            m
        }
    }
}

/// One contour per requested level, in level order.
pub open spec fn spec_contour(x: Seq<Frac>, y: Seq<Frac>, z: Seq<Frac>, levels: Seq<Frac>)
    -> Seq<Seq<Seq<Point>>> {
    let z_range = spec_sub(spec_seq_max(z), spec_seq_min(z));
    Seq::new(levels.len(), |k: int| spec_single_contour(x, y, z, levels[k], z_range))
}

/// The views of a collection of contours.
pub open spec fn contour_views(result: Seq<Vec<Vec<Point>>>) -> Seq<Seq<Seq<Point>>> {
    result.map_values(|c: Vec<Vec<Point>>| views_of(c@))
}

/// All elements are bounded by `bn` / `bd`.
pub open spec fn all_bounded(s: Seq<Frac>, bn: int, bd: int) -> bool {
    forall|k: int| 0 <= k < s.len() ==> (#[trigger] s[k]).bounded(bn, bd)
}

/// The smallest element of a nonempty vector.
fn seq_min(values: &Vec<Frac>) -> (m: Frac)
    requires
        values@.len() >= 1,
        all_bounded(values@, CMP_BOUND as int, CMP_BOUND as int),
    ensures
        m == spec_seq_min(values@),
        exists|k: int| 0 <= k < values@.len() && m == values@[k],
{
    let mut m = values[0];
    let mut k: usize = 1;
    while k < values.len()
        invariant
            1 <= k <= values@.len(),
            all_bounded(values@, CMP_BOUND as int, CMP_BOUND as int),
            m == spec_seq_min(values@.take(k as int)),
            exists|t: int| 0 <= t < k && m == values@[t],
        decreases values@.len() - k,
    {
        proof {
            assert(values@.take(k as int + 1).drop_last() =~= values@.take(k as int));
        }
        if values[k].lt(m) {
            m = values[k];
        }
        k = k + 1;
    }
    proof {
        assert(values@.take(values@.len() as int) =~= values@);
    }
    m
}

/// The largest element of a nonempty vector.
fn seq_max(values: &Vec<Frac>) -> (m: Frac)
    requires
        values@.len() >= 1,
        all_bounded(values@, CMP_BOUND as int, CMP_BOUND as int),
    ensures
        m == spec_seq_max(values@),
        exists|k: int| 0 <= k < values@.len() && m == values@[k],
{
    let mut m = values[0];
    let mut k: usize = 1;
    while k < values.len()
        invariant
            1 <= k <= values@.len(),
            all_bounded(values@, CMP_BOUND as int, CMP_BOUND as int),
            m == spec_seq_max(values@.take(k as int)),
            exists|t: int| 0 <= t < k && m == values@[t],
        decreases values@.len() - k,
    {
        proof {
            assert(values@.take(k as int + 1).drop_last() =~= values@.take(k as int));
        }
        if m.lt(values[k]) {
            m = values[k];
        }
        k = k + 1;
    }
    proof {
        assert(values@.take(values@.len() as int) =~= values@);
    }
    m
}

/// The contour of a single level.  `z_range` is the spread `max(z) - min(z)`
/// of the whole field, from which the flat-saddle tolerance is derived.
pub fn single_contour(x: &Vec<Frac>, y: &Vec<Frac>, z: &Vec<Frac>, level: Frac, z_range: Frac)
    -> (contour: Contour)
    requires
        x@.len() >= 1,
        y@.len() >= 1,
        x@.len() * y@.len() == z@.len(),
        all_bounded(x@, IN_BOUND as int, IN_BOUND as int),
        all_bounded(y@, IN_BOUND as int, IN_BOUND as int),
        all_bounded(z@, IN_BOUND as int, IN_BOUND as int),
        level.bounded(IN_BOUND as int, IN_BOUND as int),
        z_range.bounded(0x80_0000, 0x40_0000),
    ensures
        views_of(contour@) == spec_single_contour(x@, y@, z@, level, z_range),
{
    let nx = x.len();
    let ny = y.len();
    let zlen = z.len();
    proof {
        lemma_div_bounds(z_range, Frac { num: 1000000, den: 1 }, 0x80_0000, 0x40_0000,
            1000000, 1);
    }
    let z_eps = z_range.div(Frac { num: 1000000, den: 1 });
    let x_eps = Frac { num: 0, den: 1 };
    let mut segments: Vec<Segment> = Vec::new();
    let mut i: usize = 0;
    while i < nx - 1
        invariant
            nx == x@.len(),
            ny == y@.len(),
            x@.len() * y@.len() == z@.len(),
            zlen == z@.len(),
            nx >= 1,
            ny >= 1,
            all_bounded(x@, IN_BOUND as int, IN_BOUND as int),
            all_bounded(y@, IN_BOUND as int, IN_BOUND as int),
            all_bounded(z@, IN_BOUND as int, IN_BOUND as int),
            level.bounded(IN_BOUND as int, IN_BOUND as int),
            z_eps == spec_z_eps(z_range),
            z_eps.bounded(0x80_0000, 0x400_0000_0000),
            x_eps == spec_x_eps(),
            i <= nx - 1,
            segments@ == spec_segments_prefix(x@, y@, z@, level, x_eps, z_eps, i * (ny - 1)),
        decreases nx - 1 - i,
    {
        let mut j: usize = 0;
        while j < ny - 1
            invariant
                nx == x@.len(),
                ny == y@.len(),
                x@.len() * y@.len() == z@.len(),
                zlen == z@.len(),
                nx >= 1,
                ny >= 1,
                all_bounded(x@, IN_BOUND as int, IN_BOUND as int),
                all_bounded(y@, IN_BOUND as int, IN_BOUND as int),
                all_bounded(z@, IN_BOUND as int, IN_BOUND as int),
                level.bounded(IN_BOUND as int, IN_BOUND as int),
                z_eps == spec_z_eps(z_range),
                z_eps.bounded(0x80_0000, 0x400_0000_0000),
                x_eps == spec_x_eps(),
                i < nx - 1,
                j <= ny - 1,
                segments@ == spec_segments_prefix(x@, y@, z@, level, x_eps, z_eps, i as int
                    * (ny as int - 1) + j as int),
            decreases ny - 1 - j,
        {
            proof {
                assert((j as int + 1) * nx as int <= (ny as int - 1) * nx as int)
                    by (nonlinear_arith)
                    requires j as int + 1 <= ny as int - 1, nx as int >= 0,
                ;
                assert((ny as int - 1) * nx as int == ny as int * nx as int - nx as int)
                    by (nonlinear_arith);
                assert((j as int + 1) * nx as int == j as int * nx as int + nx as int)
                    by (nonlinear_arith);
                assert(ny as int * nx as int == x@.len() * y@.len()) by (nonlinear_arith)
                    requires nx as int == x@.len(), ny as int == y@.len(),
                ;
                assert((j as int + 1) * nx as int <= z@.len() - nx as int);
                assert((j as int * nx as int + i as int) < z@.len());
                assert(((j as int + 1) * nx as int + i as int + 1) < z@.len());
            }
            let c00 = z[j * nx + i];
            let c10 = z[j * nx + i + 1];
            let c11 = z[(j + 1) * nx + i + 1];
            let c01 = z[(j + 1) * nx + i];
            let keep = (c00.le(level) || c10.le(level) || c11.le(level) || c01.le(level))
                && (c00.ge(level) || c10.ge(level) || c11.ge(level) || c01.ge(level));
            let ghost pre = segments@;
            if keep {
                let corners: [Point; 4] = [
                    Point::new(x[i], y[j], c00),
                    Point::new(x[i + 1], y[j], c10),
                    Point::new(x[i + 1], y[j + 1], c11),
                    Point::new(x[i], y[j + 1], c01),
                ];
                proof {
                    assert(corners@ =~= spec_corners(x@, y@, z@, i as int, j as int));
                }
                let segs = compute_block_intersection(&corners, level, x_eps, z_eps);
                let mut t: usize = 0;
                while t < segs.len()
                    invariant
                        t <= segs@.len(),
                        segments@ == pre + segs@.take(t as int),
                    decreases segs@.len() - t,
                {
                    proof {
                        assert(pre + segs@.take(t as int + 1) =~= (pre + segs@.take(
                            t as int)).push(segs@[t as int]));
                    }
                    segments.push(segs[t]);
                    t = t + 1;
                }
                proof {
                    assert(segs@.take(segs@.len() as int) =~= segs@);
                    assert(segments@ == pre + spec_cell_segs(x@, y@, z@, level, x_eps, z_eps,
                        i as int, j as int));
                }
            } else {
                proof {
                    assert(!spec_cell_kept(x@, y@, z@, level, i as int, j as int));
                    assert(pre + spec_cell_segs(x@, y@, z@, level, x_eps, z_eps, i as int,
                        j as int) =~= pre);
                }
            }
            proof {
                let rows = ny as int - 1;
                let k = i as int * rows + j as int;
                assert(0 <= k && rows * i as int + j as int == k) by (nonlinear_arith)
                    requires
                        0 <= i as int,
                        0 <= j as int,
                        0 <= rows,
                        k == i as int * rows + j as int,
                ;
                lemma_div_multiples_vanish_fancy(i as int, j as int, rows);
                lemma_mod_multiples_vanish(i as int, j as int, rows);
                lemma_small_mod(j as nat, rows as nat);
                assert(k / rows == i as int && k % rows == j as int);
                assert(spec_segments_prefix(x@, y@, z@, level, x_eps, z_eps, k + 1)
                    == spec_segments_prefix(x@, y@, z@, level, x_eps, z_eps, k)
                    + spec_cell_segs(x@, y@, z@, level, x_eps, z_eps, i as int, j as int));
            }
            j = j + 1;
        }
        proof {
            assert(i as int * (ny as int - 1) + (ny as int - 1) == (i as int + 1) * (ny as int
                - 1)) by (nonlinear_arith);
        }
        i = i + 1;
    }
    proof {
        assert(i as int * (ny as int - 1) == (x@.len() - 1) * (y@.len() - 1));
    }
    group_segments(segments)
}

/// Generate the contours of a grid-sampled scalar field at the given levels:
/// one contour per level, in input order.
///
/// The `z` values are arranged row-major:
/// `z(x0, y0), z(x1, y0), ..., z(x0, y1), z(x1, y1), ...`
pub fn contour(x: &Vec<Frac>, y: &Vec<Frac>, z: &Vec<Frac>, levels: &Vec<Frac>)
    -> (result: Vec<Contour>)
    requires
        x@.len() >= 1,
        y@.len() >= 1,
        x@.len() * y@.len() == z@.len(),
        all_bounded(x@, IN_BOUND as int, IN_BOUND as int),
        all_bounded(y@, IN_BOUND as int, IN_BOUND as int),
        all_bounded(z@, IN_BOUND as int, IN_BOUND as int),
        all_bounded(levels@, IN_BOUND as int, IN_BOUND as int),
    ensures
        contour_views(result@) == spec_contour(x@, y@, z@, levels@),
{
    proof {
        assert(z@.len() >= 1) by (nonlinear_arith)
            requires x@.len() >= 1, y@.len() >= 1, x@.len() * y@.len() == z@.len(),
        ;
    }
    let zmax = seq_max(z);
    let zmin = seq_min(z);
    proof {
        lemma_sum_bounds(zmax, zmin, 2048, 2048, 2048, 2048);
    }
    let z_range = zmax.sub(zmin);
    let mut result: Vec<Contour> = Vec::new();
    let mut k: usize = 0;
    while k < levels.len()
        invariant
            x@.len() >= 1,
            y@.len() >= 1,
            x@.len() * y@.len() == z@.len(),
            all_bounded(x@, IN_BOUND as int, IN_BOUND as int),
            all_bounded(y@, IN_BOUND as int, IN_BOUND as int),
            all_bounded(z@, IN_BOUND as int, IN_BOUND as int),
            all_bounded(levels@, IN_BOUND as int, IN_BOUND as int),
            z_range == spec_sub(spec_seq_max(z@), spec_seq_min(z@)),
            z_range.bounded(0x80_0000, 0x40_0000),
            k <= levels@.len(),
            result@.len() == k,
            forall|t: int| 0 <= t < k ==> #[trigger] contour_views(result@)[t]
                == spec_single_contour(x@, y@, z@, levels@[t], z_range),
        decreases levels@.len() - k,
    {
        let ghost pre_result = result@;
        let c = single_contour(x, y, z, levels[k], z_range);
        result.push(c);
        proof {
            assert(contour_views(result@) =~= contour_views(pre_result).push(views_of(c@)));
        }
        k = k + 1;
    }
    proof {
        assert(contour_views(result@) =~= spec_contour(x@, y@, z@, levels@));
    }
    result
}

} // verus!
