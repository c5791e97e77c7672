//! The block intersector: one cell's four corners and a level give zero, one,
//! two, or four directed line segments.
//!
//! Cells are classified by [`crate::classify::compute_case`]; each non-saddle
//! case connects a fixed pair of edges (the table is symmetric: case `c` and
//! case `15 - c` connect the same pair in reversed direction).  The two
//! ambiguous saddle cases compare the cell's average value to the level: a
//! numerically flat saddle emits an X of four segments through a center point
//! split by `x_eps`, the other saddles pick the pairing that matches the side
//! the average falls on.

use vstd::prelude::*;

verus! {

use crate::frac::{
    Frac, spec_add, spec_sub, spec_div, spec_gt, spec_ge, spec_lt, spec_le, spec_eq_val,
    lemma_sum_bounds, lemma_div_bounds, lemma_cmp_transfer,
};
use crate::point::Point;
use crate::classify::{spec_case, compute_case};
use crate::interpolate::{
    spec_cross, intersect_z_plane, lemma_cross_exists, IN_BOUND, CROSS_NUM_BOUND,
    CROSS_DEN_BOUND,
};

/// A directed line segment produced by one cell.
pub type Segment = (Point, Point);

/// Bound on the numerator of an `x_eps` / `z_eps` tolerance argument.
pub const EPS_NUM_BOUND: i128 = 0x80_0000;

/// Bound on the denominator of an `x_eps` / `z_eps` tolerance argument.
pub const EPS_DEN_BOUND: i128 = 0x400_0000_0000;

/// The first endpoint of a cell edge (edges 0 to 3, cyclic; the orientation
/// is fixed so that the two cells sharing a grid edge name the same ordered
/// endpoint pair).
pub open spec fn edge_p1(corners: Seq<Point>, e: int) -> Point {
    if e == 0 {
        corners[1]
    } else if e == 1 {
        corners[2]
    } else if e == 2 {
        corners[2]
    } else {
        corners[3]
    }
}

/// The second endpoint of a cell edge.
pub open spec fn edge_p2(corners: Seq<Point>, e: int) -> Point {
    if e == 0 {
        corners[0]
    } else if e == 1 {
        corners[1]
    } else if e == 2 {
        corners[3]
    } else {
        corners[0]
    }
}

/// The crossing of one cell edge with the level plane.
pub open spec fn edge_cross(corners: Seq<Point>, level: Frac, e: int) -> Option<Point> {
    spec_cross(edge_p1(corners, e), edge_p2(corners, e), level)
}

/// The directed segment from the crossing on `e2` to the crossing on `e1`.
pub open spec fn spec_seg(corners: Seq<Point>, level: Frac, e1: int, e2: int) -> Segment {
    (edge_cross(corners, level, e2).unwrap(), edge_cross(corners, level, e1).unwrap())
}

/// The z values of the cell's corners, in cyclic order.
pub open spec fn corner_zs(corners: Seq<Point>) -> Seq<Frac> {
    seq![corners[0].z, corners[1].z, corners[2].z, corners[3].z]
}

/// The average of the four corner values.
pub open spec fn spec_cell_avg(corners: Seq<Point>) -> Frac {
    spec_div(
        spec_add(spec_add(spec_add(corners[0].z, corners[1].z), corners[2].z), corners[3].z),
        Frac { num: 4, den: 1 },
    )
}

/// The four segments of a numerically flat saddle: an X through the center,
/// split along x by `x_eps` into the two sub-centers `lo` (at `-x_eps`) and
/// `hi` (at `+x_eps`).  `swap` distinguishes the two saddle cases, which pair
/// the crossings in mirrored ways.
pub open spec fn spec_flat_saddle(corners: Seq<Point>, level: Frac, x_eps: Frac, swap: bool)
    -> Seq<Segment> {
    let i0 = edge_cross(corners, level, 0).unwrap();
    let i1 = edge_cross(corners, level, 1).unwrap();
    let i2 = edge_cross(corners, level, 2).unwrap();
    let i3 = edge_cross(corners, level, 3).unwrap();
    let hi = Point { x: spec_add(i0.x, x_eps), y: i1.y, z: Frac { num: 0, den: 1 } };
    let lo = Point { x: spec_sub(i0.x, x_eps), y: i1.y, z: Frac { num: 0, den: 1 } };
    if !swap {
        seq![(i0, lo), (lo, i3), (i2, hi), (hi, i1)]
    } else {
        seq![(i1, hi), (hi, i0), (i3, lo), (lo, i2)]
    }
}

/// The segments one cell contributes for one level.
pub open spec fn spec_cell_segments(corners: Seq<Point>, level: Frac, x_eps: Frac, z_eps: Frac)
    -> Seq<Segment> {
    let c = spec_case(corner_zs(corners), level);
    if c == 0 || c == 15 {
        Seq::empty()
    } else if c == 1 {
        seq![spec_seg(corners, level, 3, 2)]
    } else if c == 2 {
        seq![spec_seg(corners, level, 2, 1)]
    } else if c == 3 {
        seq![spec_seg(corners, level, 3, 1)]
    } else if c == 4 {
        seq![spec_seg(corners, level, 1, 0)]
    } else if c == 5 {
        let d = spec_sub(spec_cell_avg(corners), level);
        if spec_lt(d.spec_abs(), z_eps) {
            spec_flat_saddle(corners, level, x_eps, false)
        } else if spec_gt(spec_cell_avg(corners), level) {
            seq![spec_seg(corners, level, 3, 0), spec_seg(corners, level, 1, 2)]
        } else {
            seq![spec_seg(corners, level, 1, 0), spec_seg(corners, level, 3, 2)]
        }
    } else if c == 6 {
        seq![spec_seg(corners, level, 2, 0)]
    } else if c == 7 {
        seq![spec_seg(corners, level, 3, 0)]
    } else if c == 8 {
        seq![spec_seg(corners, level, 0, 3)]
    } else if c == 9 {
        seq![spec_seg(corners, level, 0, 2)]
    } else if c == 10 {
        let d = spec_sub(spec_cell_avg(corners), level);
        if spec_lt(d.spec_abs(), z_eps) {
            spec_flat_saddle(corners, level, x_eps, true)
        } else if spec_gt(spec_cell_avg(corners), level) {
            seq![spec_seg(corners, level, 0, 1), spec_seg(corners, level, 2, 3)]
        } else {
            seq![spec_seg(corners, level, 0, 3), spec_seg(corners, level, 2, 1)]
        }
    } else if c == 11 {
        seq![spec_seg(corners, level, 0, 1)]
    } else if c == 12 {
        seq![spec_seg(corners, level, 1, 3)]
    } else if c == 13 {
        seq![spec_seg(corners, level, 1, 2)]
    } else {
        seq![spec_seg(corners, level, 2, 3)]
    }
}

/// `hi` is at-or-above the level and `lo` at-or-below it, with one of the
/// two strict.
pub open spec fn opposite_sides(hi: Frac, lo: Frac, l: Frac) -> bool {
    (spec_gt(hi, l) && spec_le(lo, l)) || (spec_ge(hi, l) && spec_lt(lo, l))
}

/// Values on opposite sides of the level are not equal to each other, and
/// straddle it.
pub proof fn lemma_opposite_sides(hi: Frac, lo: Frac, l: Frac)
    requires
        hi.wf(),
        lo.wf(),
        l.wf(),
        opposite_sides(hi, lo, l),
    ensures
        spec_ge(hi, l),
        spec_le(lo, l),
        !spec_eq_val(hi, lo),
{
    if spec_eq_val(hi, lo) {
        lemma_cmp_transfer(hi, lo.num as int, lo.den as int, l, l.num as int, l.den as int);
    }
}

/// An edge whose endpoint values straddle the level has a crossing.
pub proof fn lemma_edge_has_cross(corners: Seq<Point>, level: Frac, e: int)
    requires
        0 <= e < 4,
        corners.len() == 4,
        forall|i: int| 0 <= i < 4 ==> (#[trigger] corners[i]).bounded(IN_BOUND as int,
            IN_BOUND as int),
        level.bounded(IN_BOUND as int, IN_BOUND as int),
        opposite_sides(edge_p1(corners, e).z, edge_p2(corners, e).z, level) || opposite_sides(
            edge_p2(corners, e).z, edge_p1(corners, e).z, level),
    ensures
        edge_cross(corners, level, e) is Some,
{
    let a = edge_p1(corners, e);
    let b = edge_p2(corners, e);
    if opposite_sides(a.z, b.z, level) {
        lemma_opposite_sides(a.z, b.z, level);
    } else {
        lemma_opposite_sides(b.z, a.z, level);
    }
    lemma_cross_exists(a, b, level);
}

/// The crossing point of one cell edge (the edge must have one).
fn get_edge_intersection(corners: &[Point; 4], level: Frac, edge: usize) -> (r: Point)
    requires
        edge < 4,
        forall|i: int| 0 <= i < 4 ==> (#[trigger] corners@[i]).bounded(IN_BOUND as int,
            IN_BOUND as int),
        level.bounded(IN_BOUND as int, IN_BOUND as int),
        edge_cross(corners@, level, edge as int) is Some,
    ensures
        r == edge_cross(corners@, level, edge as int).unwrap(),
        r.wf(),
        r.x.bounded(CROSS_NUM_BOUND as int, CROSS_DEN_BOUND as int),
        r.y.bounded(CROSS_NUM_BOUND as int, CROSS_DEN_BOUND as int),
        r.z == level,
{
    let o: Point;
    let p: Point;
    if edge == 0 {
        o = corners[1];
        p = corners[0];
    } else if edge == 1 {
        o = corners[2];
        p = corners[1];
    } else if edge == 2 {
        o = corners[2];
        p = corners[3];
    } else {
        o = corners[3];
        p = corners[0];
    }
    let r = intersect_z_plane(&o, &p, level);
    r.unwrap()
}

/// The directed segment from the crossing on `edge2` to the crossing on
/// `edge1` (both edges must have crossings).
fn get_line_segment(corners: &[Point; 4], level: Frac, edge1: usize, edge2: usize) -> (s: Segment)
    requires
        edge1 < 4,
        edge2 < 4,
        forall|i: int| 0 <= i < 4 ==> (#[trigger] corners@[i]).bounded(IN_BOUND as int,
            IN_BOUND as int),
        level.bounded(IN_BOUND as int, IN_BOUND as int),
        edge_cross(corners@, level, edge1 as int) is Some,
        edge_cross(corners@, level, edge2 as int) is Some,
    ensures
        s == spec_seg(corners@, level, edge1 as int, edge2 as int),
{
    (get_edge_intersection(corners, level, edge2), get_edge_intersection(corners, level, edge1))
}

/// The segments one cell contributes: none for cases 0 and 15, one for the
/// twelve single-segment cases, two or four for the saddle cases 5 and 10.
pub fn compute_block_intersection(corners: &[Point; 4], level: Frac, x_eps: Frac, z_eps: Frac)
    -> (segs: Vec<Segment>)
    requires
        forall|i: int| 0 <= i < 4 ==> (#[trigger] corners@[i]).bounded(IN_BOUND as int,
            IN_BOUND as int),
        level.bounded(IN_BOUND as int, IN_BOUND as int),
        x_eps.bounded(EPS_NUM_BOUND as int, EPS_DEN_BOUND as int),
        z_eps.bounded(EPS_NUM_BOUND as int, EPS_DEN_BOUND as int),
    ensures
        segs@ == spec_cell_segments(corners@, level, x_eps, z_eps),
{
    let zs: [Frac; 4] = [corners[0].z, corners[1].z, corners[2].z, corners[3].z];
    proof {
        assert(zs@ =~= corner_zs(corners@));
    }
    let case = compute_case(&zs, level);
    let mut out: Vec<Segment> = Vec::new();
    if case == 0 || case == 15 {
        proof {
            assert(out@ =~= spec_cell_segments(corners@, level, x_eps, z_eps));
        }
    } else if case == 1 {
        proof {
            lemma_edge_has_cross(corners@, level, 3);
            lemma_edge_has_cross(corners@, level, 2);
        }
        out.push(get_line_segment(corners, level, 3, 2));
        proof {
            assert(out@ =~= spec_cell_segments(corners@, level, x_eps, z_eps));
        }
    } else if case == 2 {
        proof {
            lemma_edge_has_cross(corners@, level, 2);
            lemma_edge_has_cross(corners@, level, 1);
        }
        out.push(get_line_segment(corners, level, 2, 1));
        proof {
            assert(out@ =~= spec_cell_segments(corners@, level, x_eps, z_eps));
        }
    } else if case == 3 {
        proof {
            lemma_edge_has_cross(corners@, level, 3);
            lemma_edge_has_cross(corners@, level, 1);
        }
        out.push(get_line_segment(corners, level, 3, 1));
        proof {
            assert(out@ =~= spec_cell_segments(corners@, level, x_eps, z_eps));
        }
    } else if case == 4 {
        proof {
            lemma_edge_has_cross(corners@, level, 1);
            lemma_edge_has_cross(corners@, level, 0);
        }
        out.push(get_line_segment(corners, level, 1, 0));
        proof {
            assert(out@ =~= spec_cell_segments(corners@, level, x_eps, z_eps));
        }
    } else if case == 6 {
        proof {
            lemma_edge_has_cross(corners@, level, 2);
            lemma_edge_has_cross(corners@, level, 0);
        }
        out.push(get_line_segment(corners, level, 2, 0));
        proof {
            assert(out@ =~= spec_cell_segments(corners@, level, x_eps, z_eps));
        }
    } else if case == 7 {
        proof {
            lemma_edge_has_cross(corners@, level, 3);
            lemma_edge_has_cross(corners@, level, 0);
        }
        out.push(get_line_segment(corners, level, 3, 0));
        proof {
            assert(out@ =~= spec_cell_segments(corners@, level, x_eps, z_eps));
        }
    } else if case == 8 {
        proof {
            lemma_edge_has_cross(corners@, level, 0);
            lemma_edge_has_cross(corners@, level, 3);
        }
        out.push(get_line_segment(corners, level, 0, 3));
        proof {
            assert(out@ =~= spec_cell_segments(corners@, level, x_eps, z_eps));
        }
    } else if case == 9 {
        proof {
            lemma_edge_has_cross(corners@, level, 0);
            lemma_edge_has_cross(corners@, level, 2);
        }
        out.push(get_line_segment(corners, level, 0, 2));
        proof {
            assert(out@ =~= spec_cell_segments(corners@, level, x_eps, z_eps));
        }
    } else if case == 11 {
        proof {
            lemma_edge_has_cross(corners@, level, 0);
            lemma_edge_has_cross(corners@, level, 1);
        }
        out.push(get_line_segment(corners, level, 0, 1));
        proof {
            assert(out@ =~= spec_cell_segments(corners@, level, x_eps, z_eps));
        }
    } else if case == 12 {
        proof {
            lemma_edge_has_cross(corners@, level, 1);
            lemma_edge_has_cross(corners@, level, 3);
        }
        out.push(get_line_segment(corners, level, 1, 3));
        proof {
            assert(out@ =~= spec_cell_segments(corners@, level, x_eps, z_eps));
        }
    } else if case == 13 {
        proof {
            lemma_edge_has_cross(corners@, level, 1);
            lemma_edge_has_cross(corners@, level, 2);
        }
        out.push(get_line_segment(corners, level, 1, 2));
        proof {
            assert(out@ =~= spec_cell_segments(corners@, level, x_eps, z_eps));
        }
    } else if case == 14 {
        proof {
            lemma_edge_has_cross(corners@, level, 2);
            lemma_edge_has_cross(corners@, level, 3);
        }
        out.push(get_line_segment(corners, level, 2, 3));
        proof {
            assert(out@ =~= spec_cell_segments(corners@, level, x_eps, z_eps));
        }
    } else {
        // A saddle: case 5 or case 10.  All four edges have crossings.
        proof {
            lemma_edge_has_cross(corners@, level, 0);
            lemma_edge_has_cross(corners@, level, 1);
            lemma_edge_has_cross(corners@, level, 2);
            lemma_edge_has_cross(corners@, level, 3);
            lemma_sum_bounds(zs@[0], zs@[1], 2048, 2048, 2048, 2048);
        }
        let sum01 = zs[0].add(zs[1]);
        proof {
            lemma_sum_bounds(sum01, zs@[2], 0x80_0000, 0x40_0000, 2048, 2048);
        }
        let sum012 = sum01.add(zs[2]);
        proof {
            lemma_sum_bounds(sum012, zs@[3], 0x8_0000_0000, 0x2_0000_0000, 2048, 2048);
        }
        let sum = sum012.add(zs[3]);
        let four = Frac { num: 4, den: 1 };
        proof {
            lemma_div_bounds(sum, four, 0x8000_0000_0000, 0x1000_0000_0000, 4, 1);
        }
        let avg = sum.div(four);
        proof {
            lemma_sum_bounds(avg, level, 0x8000_0000_0000, 0x4000_0000_0000, 2048, 2048);
            assert(avg == spec_cell_avg(corners@));
        }
        let d = avg.sub(level);
        let flat = d.abs_val().lt(z_eps);
        if flat {
            let i0 = get_edge_intersection(corners, level, 0);
            let i1 = get_edge_intersection(corners, level, 1);
            let i2 = get_edge_intersection(corners, level, 2);
            let i3 = get_edge_intersection(corners, level, 3);
            proof {
                lemma_sum_bounds(i0.x, x_eps, CROSS_NUM_BOUND as int, CROSS_DEN_BOUND as int,
                    EPS_NUM_BOUND as int, EPS_DEN_BOUND as int);
            }
            let hi = Point { x: i0.x.add(x_eps), y: i1.y, z: Frac { num: 0, den: 1 } };
            let lo = Point { x: i0.x.sub(x_eps), y: i1.y, z: Frac { num: 0, den: 1 } };
            if case == 5 {
                out.push((i0, lo));
                out.push((lo, i3));
                out.push((i2, hi));
                out.push((hi, i1));
            } else {
                out.push((i1, hi));
                out.push((hi, i0));
                out.push((i3, lo));
                out.push((lo, i2));
            }
            proof {
                assert(out@ =~= spec_cell_segments(corners@, level, x_eps, z_eps));
            }
        } else if avg.gt(level) {
            if case == 5 {
                out.push(get_line_segment(corners, level, 3, 0));
                out.push(get_line_segment(corners, level, 1, 2));
            } else {
                out.push(get_line_segment(corners, level, 0, 1));
                out.push(get_line_segment(corners, level, 2, 3));
            }
            proof {
                assert(out@ =~= spec_cell_segments(corners@, level, x_eps, z_eps));
            }
        } else {
            if case == 5 {
                out.push(get_line_segment(corners, level, 1, 0));
                out.push(get_line_segment(corners, level, 3, 2));
            } else {
                out.push(get_line_segment(corners, level, 0, 3));
                out.push(get_line_segment(corners, level, 2, 1));
            }
            proof {
                assert(out@ =~= spec_cell_segments(corners@, level, x_eps, z_eps));
            }
        }
    }
    out
}

} // verus!
