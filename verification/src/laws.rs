//! Laws of the contour core, stated and proved against the same spec
//! functions that the executable functions' contracts use.

use vstd::prelude::*;

verus! {

use vstd::math::abs;
use crate::frac::{
    Frac, spec_gt, spec_lt, spec_eq_val, spec_neg, spec_sub, spec_add, spec_div, spec_norm,
    lemma_neg_cmp, lemma_norm_neg, lemma_norm_props, lemma_mul_abs_bound, lemma_addsub_neg,
    lemma_sum_bounds, CMP_BOUND,
};
use crate::point::Point;
use crate::classify::{spec_case, naive_case, level_eq_count, bit};
use crate::interpolate::{spec_cross, IN_BOUND};
use crate::intersect::{
    spec_cell_segments, spec_cell_avg, spec_seg, corner_zs, edge_cross, edge_p1, edge_p2,
    lemma_edge_has_cross, Segment,
};
use crate::contour::{spec_corners, spec_contour, contour_views};

/// A cell in which no corner lies strictly above the level, and fewer than
/// two corners equal it exactly, contributes no segments at all.
pub proof fn lemma_quiet_cell(corners: Seq<Point>, level: Frac, x_eps: Frac, z_eps: Frac)
    requires
        corners.len() == 4,
        forall|i: int| 0 <= i < 4 ==> !spec_gt((#[trigger] corners[i]).z, level),
        level_eq_count(corner_zs(corners), level) < 2,
    ensures
        spec_cell_segments(corners, level, x_eps, z_eps) == Seq::<Segment>::empty(),
{
    let zs = corner_zs(corners);
    assert(naive_case(zs, level) == 0);
    assert(spec_case(zs, level) == 0);
    assert(spec_cell_segments(corners, level, x_eps, z_eps) =~= Seq::<Segment>::empty());
}

/// The z values of four corners, each negated.
pub open spec fn neg_zs(zs: Seq<Frac>) -> Seq<Frac> {
    seq![spec_neg(zs[0]), spec_neg(zs[1]), spec_neg(zs[2]), spec_neg(zs[3])]
}

/// Sign/level mirroring of the classifier: when no corner sits exactly on
/// the level, negating every corner value and the level complements the case
/// code — the mirrored cell has the same topological structure with the
/// above/below roles exchanged.
pub proof fn lemma_case_mirror(zs: Seq<Frac>, level: Frac)
    requires
        zs.len() == 4,
        forall|i: int| 0 <= i < 4 ==> (#[trigger] zs[i]).bounded(CMP_BOUND as int,
            CMP_BOUND as int),
        level.bounded(CMP_BOUND as int, CMP_BOUND as int),
        forall|i: int| 0 <= i < 4 ==> !spec_eq_val(#[trigger] zs[i], level),
    ensures
        spec_case(neg_zs(zs), spec_neg(level)) == 15 - spec_case(zs, level),
{
    lemma_neg_cmp(zs[0], level);
    lemma_neg_cmp(zs[1], level);
    lemma_neg_cmp(zs[2], level);
    lemma_neg_cmp(zs[3], level);
    let nz = neg_zs(zs);
    let nl = spec_neg(level);
    assert(level_eq_count(zs, level) == 0);
    assert(level_eq_count(nz, nl) == 0);
    assert forall|i: int| 0 <= i < 4 implies bit(spec_gt(nz[i], nl)) == 1 - bit(spec_gt(
        zs[i], level)) by {
        // With no value equal to the level, "strictly above" after negation
        // is exactly "strictly below" before it.
    }
    assert(naive_case(nz, nl) == 15 - naive_case(zs, level));
    if naive_case(zs, level) != 0 {
        assert(spec_case(zs, level) == naive_case(zs, level));
        assert(naive_case(nz, nl) != 15 ==> spec_case(nz, nl) == naive_case(nz, nl));
    }
}

/// A point with its field value negated.
pub open spec fn mirror_z(p: Point) -> Point {
    Point { x: p.x, y: p.y, z: spec_neg(p.z) }
}

/// Sign/level mirroring of the interpolator: negating both endpoint values
/// and the level leaves the crossing parameter unchanged, so the mirrored
/// edge crosses exactly when the original does, at the same `(x, y)`
/// position, with the point's `z` carrying the mirrored level.
pub proof fn lemma_cross_mirror(p1: Point, p2: Point, level: Frac)
    requires
        p1.z.bounded(IN_BOUND as int, IN_BOUND as int),
        p2.z.bounded(IN_BOUND as int, IN_BOUND as int),
        level.bounded(IN_BOUND as int, IN_BOUND as int),
    ensures
        spec_cross(mirror_z(p1), mirror_z(p2), spec_neg(level)) is Some <==> spec_cross(
            p1, p2, level) is Some,
        spec_cross(p1, p2, level) matches Some(q) ==> spec_cross(mirror_z(p1), mirror_z(p2),
            spec_neg(level)) == Some(Point { x: q.x, y: q.y, z: spec_neg(level) }),
{
    let z1 = p1.z;
    let z2 = p2.z;
    let l = level;
    let tn = l.num * z1.den - z1.num * l.den;
    let td = l.den * z1.den;
    let dzn = z2.num * z1.den - z1.num * z2.den;
    let dzd = z2.den * z1.den;
    lemma_mul_abs_bound(z2.num as int, z1.den as int, 2048, 2048);
    lemma_mul_abs_bound(z1.num as int, z2.den as int, 2048, 2048);
    lemma_mul_abs_bound(l.num as int, z1.den as int, 2048, 2048);
    lemma_mul_abs_bound(z1.num as int, l.den as int, 2048, 2048);
    lemma_mul_abs_bound(z2.den as int, z1.den as int, 2048, 2048);
    lemma_mul_abs_bound(l.den as int, z1.den as int, 2048, 2048);
    assert(0 < dzd && 0 < td) by (nonlinear_arith)
        requires 0 < z1.den, 0 < z2.den, 0 < l.den, dzd == z2.den * z1.den, td == l.den
            * z1.den,
    ;
    lemma_norm_props(tn, td);
    lemma_norm_props(dzn, dzd);
    let t = spec_sub(l, z1);
    let dz = spec_sub(z2, z1);
    // The mirrored differences are the negations of the originals.
    assert((-(l.num as int)) * z1.den == -(l.num * z1.den)) by (nonlinear_arith);
    assert((-(z1.num as int)) * l.den == -(z1.num * l.den)) by (nonlinear_arith);
    assert((-(z2.num as int)) * z1.den == -(z2.num * z1.den)) by (nonlinear_arith);
    assert((-(z1.num as int)) * z2.den == -(z1.num * z2.den)) by (nonlinear_arith);
    let tm = spec_sub(spec_neg(l), spec_neg(z1));
    let dzm = spec_sub(spec_neg(z2), spec_neg(z1));
    assert(tm == spec_norm(-tn, td));
    assert(dzm == spec_norm(-dzn, dzd));
    lemma_norm_neg(tn, td);
    lemma_norm_neg(dzn, dzd);
    assert(tm == spec_neg(t));
    assert(dzm == spec_neg(dz));
    assert(abs(t.num as int) <= 0x80_0000 && 0 < t.den <= 0x40_0000);
    assert(abs(dz.num as int) <= 0x80_0000 && 0 < dz.den <= 0x40_0000);
    assert(tm.num as int == -(t.num as int) && tm.den == t.den);
    assert(dzm.num as int == -(dz.num as int) && dzm.den == dz.den);
    if dz.num != 0 {
        // The crossing parameter is unchanged: both the raw numerator and
        // the raw denominator of the mirrored quotient equal the originals.
        assert((-(t.num as int)) * dz.den == -(t.num * dz.den)) by (nonlinear_arith);
        assert(t.den * (-(dz.num as int)) == -(t.den * dz.num)) by (nonlinear_arith);
        assert(crate::frac::div_raw_num(tm, dzm) == crate::frac::div_raw_num(t, dz));
        assert(crate::frac::div_raw_den(tm, dzm) == crate::frac::div_raw_den(t, dz));
        assert(crate::frac::spec_div(tm, dzm) == crate::frac::spec_div(t, dz));
    }
}

/// A cell's corners with every field value negated.
pub open spec fn neg_corners(corners: Seq<Point>) -> Seq<Point> {
    seq![
        mirror_z(corners[0]),
        mirror_z(corners[1]),
        mirror_z(corners[2]),
        mirror_z(corners[3]),
    ]
}

/// Segments mirrored: each one's endpoints have their field values negated
/// and the traversal direction is reversed.
pub open spec fn mirror_segs(segs: Seq<Segment>) -> Seq<Segment> {
    segs.map_values(|s: Segment| (mirror_z(s.1), mirror_z(s.0)))
}

/// One mirrored table entry: the segment connecting edges `e1` and `e2` of
/// the mirrored cell, taken in the opposite direction, is the mirror of the
/// original cell's segment.
proof fn lemma_single_mirror(corners: Seq<Point>, level: Frac, e1: int, e2: int)
    requires
        corners.len() == 4,
        forall|i: int| 0 <= i < 4 ==> (#[trigger] corners[i]).bounded(IN_BOUND as int,
            IN_BOUND as int),
        level.bounded(IN_BOUND as int, IN_BOUND as int),
        0 <= e1 < 4,
        0 <= e2 < 4,
        edge_cross(corners, level, e1) is Some,
        edge_cross(corners, level, e2) is Some,
    ensures
        edge_cross(neg_corners(corners), spec_neg(level), e1) is Some,
        edge_cross(neg_corners(corners), spec_neg(level), e2) is Some,
        spec_seg(neg_corners(corners), spec_neg(level), e2, e1) == (mirror_z(
            spec_seg(corners, level, e1, e2).1), mirror_z(spec_seg(corners, level, e1, e2).0)),
{
    let nc = neg_corners(corners);
    let lm = spec_neg(level);
    lemma_cross_mirror(edge_p1(corners, e1), edge_p2(corners, e1), level);
    lemma_cross_mirror(edge_p1(corners, e2), edge_p2(corners, e2), level);
    assert(edge_p1(nc, e1) == mirror_z(edge_p1(corners, e1)));
    assert(edge_p2(nc, e1) == mirror_z(edge_p2(corners, e1)));
    assert(edge_p1(nc, e2) == mirror_z(edge_p1(corners, e2)));
    assert(edge_p2(nc, e2) == mirror_z(edge_p2(corners, e2)));
}

/// Sign/level mirroring of a whole cell: away from the two degeneracies (a
/// corner exactly on the level; a saddle whose average is numerically flat
/// against the level), negating every corner value and the level produces
/// the topologically mirrored segments — the same crossing positions, each
/// segment reversed.
pub proof fn lemma_cell_mirror(corners: Seq<Point>, level: Frac, x_eps: Frac, z_eps: Frac)
    requires
        corners.len() == 4,
        forall|i: int| 0 <= i < 4 ==> (#[trigger] corners[i]).bounded(IN_BOUND as int,
            IN_BOUND as int),
        level.bounded(IN_BOUND as int, IN_BOUND as int),
        forall|i: int| 0 <= i < 4 ==> !spec_eq_val((#[trigger] corners[i]).z, level),
        (spec_case(corner_zs(corners), level) == 5 || spec_case(corner_zs(corners), level)
            == 10) ==> !spec_lt(spec_sub(spec_cell_avg(corners), level).spec_abs(), z_eps)
            && !spec_eq_val(spec_cell_avg(corners), level),
    ensures
        spec_cell_segments(neg_corners(corners), spec_neg(level), x_eps, z_eps)
            == mirror_segs(spec_cell_segments(corners, level, x_eps, z_eps)),
{
    let zs = corner_zs(corners);
    let nc = neg_corners(corners);
    let lm = spec_neg(level);
    let c = spec_case(zs, level);
    assert(corner_zs(nc) =~= neg_zs(zs));
    lemma_case_mirror(zs, level);
    let orig = spec_cell_segments(corners, level, x_eps, z_eps);
    let mirrored = spec_cell_segments(nc, lm, x_eps, z_eps);
    if c == 0 || c == 15 {
        assert(mirrored =~= mirror_segs(orig));
    } else if c == 5 || c == 10 {
        // The average of the mirrored cell is the negated average.
        let z0 = corners[0].z;
        let z1 = corners[1].z;
        let z2 = corners[2].z;
        let z3 = corners[3].z;
        let s01 = spec_add(z0, z1);
        let s012 = spec_add(s01, z2);
        let s = spec_add(s012, z3);
        lemma_sum_bounds(z0, z1, 2048, 2048, 2048, 2048);
        lemma_addsub_neg(z0, z1, 2048, 2048, 2048, 2048);
        lemma_sum_bounds(s01, z2, 0x80_0000, 0x40_0000, 2048, 2048);
        lemma_addsub_neg(s01, z2, 0x80_0000, 0x40_0000, 2048, 2048);
        lemma_sum_bounds(s012, z3, 0x8_0000_0000, 0x2_0000_0000, 2048, 2048);
        lemma_addsub_neg(s012, z3, 0x8_0000_0000, 0x2_0000_0000, 2048, 2048);
        assert(spec_cell_avg(nc) == spec_div(spec_neg(s), Frac { num: 4, den: 1 }));
        assert(0 < s.den * 1 && s.den * 4 <= 0x4000_0000_0000) by (nonlinear_arith)
            requires 0 < s.den <= 0x1000_0000_0000,
        ;
        assert(s.num * 1 == s.num && s.den * 1 == s.den) by (nonlinear_arith);
        lemma_norm_neg(s.num as int, s.den * 4);
        lemma_norm_props(s.num as int, s.den * 4);
        let avg = spec_cell_avg(corners);
        assert(avg == spec_norm(s.num as int, s.den * 4));
        assert(spec_cell_avg(nc) == spec_neg(avg));
        assert(avg.bounded(0x8000_0000_0000, 0x4000_0000_0000));
        // The mirrored cell is exactly as far from the flat regime.
        lemma_sum_bounds(avg, level, 0x8000_0000_0000, 0x4000_0000_0000, 2048, 2048);
        lemma_addsub_neg(avg, level, 0x8000_0000_0000, 0x4000_0000_0000, 2048, 2048);
        let d = spec_sub(avg, level);
        assert(spec_sub(spec_cell_avg(nc), lm) == spec_neg(d));
        assert(spec_neg(d).spec_abs() == d.spec_abs());
        lemma_neg_cmp(avg, level);
        // All four edges cross in a saddle.
        lemma_edge_has_cross(corners, level, 0);
        lemma_edge_has_cross(corners, level, 1);
        lemma_edge_has_cross(corners, level, 2);
        lemma_edge_has_cross(corners, level, 3);
        if c == 5 {
            if spec_gt(avg, level) {
                lemma_single_mirror(corners, level, 3, 0);
                lemma_single_mirror(corners, level, 1, 2);
            } else {
                lemma_single_mirror(corners, level, 1, 0);
                lemma_single_mirror(corners, level, 3, 2);
            }
        } else {
            if spec_gt(avg, level) {
                lemma_single_mirror(corners, level, 0, 1);
                lemma_single_mirror(corners, level, 2, 3);
            } else {
                lemma_single_mirror(corners, level, 0, 3);
                lemma_single_mirror(corners, level, 2, 1);
            }
        }
        assert(mirrored =~= mirror_segs(orig));
    } else {
        if c == 1 {
            lemma_edge_has_cross(corners, level, 3);
            lemma_edge_has_cross(corners, level, 2);
            lemma_single_mirror(corners, level, 3, 2);
        } else if c == 2 {
            lemma_edge_has_cross(corners, level, 2);
            lemma_edge_has_cross(corners, level, 1);
            lemma_single_mirror(corners, level, 2, 1);
        } else if c == 3 {
            lemma_edge_has_cross(corners, level, 3);
            lemma_edge_has_cross(corners, level, 1);
            lemma_single_mirror(corners, level, 3, 1);
        } else if c == 4 {
            lemma_edge_has_cross(corners, level, 1);
            lemma_edge_has_cross(corners, level, 0);
            lemma_single_mirror(corners, level, 1, 0);
        } else if c == 6 {
            lemma_edge_has_cross(corners, level, 2);
            lemma_edge_has_cross(corners, level, 0);
            lemma_single_mirror(corners, level, 2, 0);
        } else if c == 7 {
            lemma_edge_has_cross(corners, level, 3);
            lemma_edge_has_cross(corners, level, 0);
            lemma_single_mirror(corners, level, 3, 0);
        } else if c == 8 {
            lemma_edge_has_cross(corners, level, 0);
            lemma_edge_has_cross(corners, level, 3);
            lemma_single_mirror(corners, level, 0, 3);
        } else if c == 9 {
            lemma_edge_has_cross(corners, level, 0);
            lemma_edge_has_cross(corners, level, 2);
            lemma_single_mirror(corners, level, 0, 2);
        } else if c == 11 {
            lemma_edge_has_cross(corners, level, 0);
            lemma_edge_has_cross(corners, level, 1);
            lemma_single_mirror(corners, level, 0, 1);
        } else if c == 12 {
            lemma_edge_has_cross(corners, level, 1);
            lemma_edge_has_cross(corners, level, 3);
            lemma_single_mirror(corners, level, 1, 3);
        } else if c == 13 {
            lemma_edge_has_cross(corners, level, 1);
            lemma_edge_has_cross(corners, level, 2);
            lemma_single_mirror(corners, level, 1, 2);
        } else {
            lemma_edge_has_cross(corners, level, 2);
            lemma_edge_has_cross(corners, level, 3);
            lemma_single_mirror(corners, level, 2, 3);
        }
        assert(mirrored =~= mirror_segs(orig));
    }
}

/// The driver's cheap range filter is semantically transparent: a cell it
/// rejects (every corner strictly above the level, or every corner strictly
/// below it) contributes no segments anyway, so skipping the classifier for
/// such cells cannot change the contour.
pub proof fn lemma_filter_transparent(corners: Seq<Point>, level: Frac, x_eps: Frac,
    z_eps: Frac)
    requires
        corners.len() == 4,
        (forall|i: int| 0 <= i < 4 ==> spec_gt((#[trigger] corners[i]).z, level)) || (forall|
            i: int| 0 <= i < 4 ==> spec_lt((#[trigger] corners[i]).z, level)),
    ensures
        spec_cell_segments(corners, level, x_eps, z_eps) == Seq::<Segment>::empty(),
{
    let zs = corner_zs(corners);
    if forall|i: int| 0 <= i < 4 ==> spec_gt((#[trigger] corners[i]).z, level) {
        assert(naive_case(zs, level) == 15);
    } else {
        assert(naive_case(zs, level) == 0);
        assert(level_eq_count(zs, level) == 0);
    }
    assert(spec_cell_segments(corners, level, x_eps, z_eps) =~= Seq::<Segment>::empty());
}

/// Edge sharing, vertical edges: the right edge of the cell at `(i, j)` and
/// the left edge of the cell at `(i + 1, j)` are the same ordered pair of
/// grid points, so both cells interpolate the identical crossing point.
pub proof fn lemma_shared_edge_vertical(x: Seq<Frac>, y: Seq<Frac>, z: Seq<Frac>, level: Frac,
    i: int, j: int)
    requires
        0 <= i,
        i + 2 < x.len(),
        0 <= j,
        j + 1 < y.len(),
        x.len() * y.len() == z.len(),
    ensures
        edge_cross(spec_corners(x, y, z, i, j), level, 1) == edge_cross(
            spec_corners(x, y, z, i + 1, j), level, 3),
{
}

/// Edge sharing, horizontal edges: the top edge of the cell at `(i, j)` and
/// the bottom edge of the cell at `(i, j + 1)` are the same ordered pair of
/// grid points, so both cells interpolate the identical crossing point.
pub proof fn lemma_shared_edge_horizontal(x: Seq<Frac>, y: Seq<Frac>, z: Seq<Frac>,
    level: Frac, i: int, j: int)
    requires
        0 <= i,
        i + 1 < x.len(),
        0 <= j,
        j + 2 < y.len(),
        x.len() * y.len() == z.len(),
    ensures
        edge_cross(spec_corners(x, y, z, i, j), level, 2) == edge_cross(
            spec_corners(x, y, z, i, j + 1), level, 0),
{
}

/// Determinism: the contract of [`crate::contour::contour`] pins the result
/// to a function of the inputs alone, so any two results of the same inputs
/// are identical — same chains, same point sequences, same order.
pub proof fn lemma_contour_deterministic(x: Seq<Frac>, y: Seq<Frac>, z: Seq<Frac>,
    levels: Seq<Frac>, r1: Seq<Vec<Vec<Point>>>, r2: Seq<Vec<Vec<Point>>>)
    requires
        contour_views(r1) == spec_contour(x, y, z, levels),
        contour_views(r2) == spec_contour(x, y, z, levels),
    ensures
        contour_views(r1) == contour_views(r2),
{
}

} // verus!
