//! The edge interpolator: the single crossing point of a grid edge with the
//! level plane, or "no crossing".
//!
//! For the edge from `p1` to `p2`: if the edge is exactly flat in `z` there
//! is no usable crossing; otherwise the crossing parameter is
//! `ratio = (level - p1.z) / (p2.z - p1.z)`, a crossing exists exactly when
//! `ratio` lies in `[0, 1]`, and the crossing point's `z` is exactly the
//! level.

use vstd::prelude::*;

verus! {

use vstd::math::abs;
use crate::frac::{
    Frac, spec_add, spec_sub, spec_mul, spec_div, spec_ge, spec_le, spec_eq_val,
    div_raw_num, div_raw_den, lemma_norm_props, lemma_sum_bounds, lemma_mul_bounds,
    lemma_div_bounds, lemma_mul_abs_bound, lemma_mul_abs_bound2, lemma_cmp_transfer,
    lemma_le_trans, spec_norm,
};
use crate::point::Point;

/// The largest magnitude accepted for either part of a grid coordinate, a
/// field value, or a level handed to the contour core (so that the whole
/// interpolation chain stays within `i128`).
pub const IN_BOUND: i128 = 2048;

/// Bound on the numerator of an interpolated crossing coordinate.
pub const CROSS_NUM_BOUND: i128 = 0x1_0000_0000_0000_0000_0000;

/// Bound on the denominator of an interpolated crossing coordinate.
pub const CROSS_DEN_BOUND: i128 = 0x4000_0000_0000_0000_0000;

/// The crossing of the edge `p1 -> p2` with the plane `z == level`.
pub open spec fn spec_cross(p1: Point, p2: Point, level: Frac) -> Option<Point> {
    let dz = spec_sub(p2.z, p1.z);
    if dz.num == 0 {
        None
    } else {
        let ratio = spec_div(spec_sub(level, p1.z), dz);
        if ratio.num < 0 || ratio.num > ratio.den {
            None
        } else {
            Some(Point {
                x: spec_add(p1.x, spec_mul(ratio, spec_sub(p2.x, p1.x))),
                y: spec_add(p1.y, spec_mul(ratio, spec_sub(p2.y, p1.y))),
                z: level,
            })
        }
    }
}

/// Compute the intersection of the line between two points with the plane
/// `z == level`.  Returns the point of intersection, or `None` if the edge is
/// flat in `z` or the crossing parameter falls outside the edge.
pub fn intersect_z_plane(p1: &Point, p2: &Point, level: Frac) -> (r: Option<Point>)
    requires
        p1.bounded(IN_BOUND as int, IN_BOUND as int),
        p2.bounded(IN_BOUND as int, IN_BOUND as int),
        level.bounded(IN_BOUND as int, IN_BOUND as int),
    ensures
        r == spec_cross(*p1, *p2, level),
        r matches Some(p) ==> p.wf() && p.x.bounded(CROSS_NUM_BOUND as int,
            CROSS_DEN_BOUND as int) && p.y.bounded(CROSS_NUM_BOUND as int,
            CROSS_DEN_BOUND as int) && p.z == level,
{
    proof {
        lemma_sum_bounds(p2.x, p1.x, 2048, 2048, 2048, 2048);
        lemma_sum_bounds(p2.y, p1.y, 2048, 2048, 2048, 2048);
        lemma_sum_bounds(p2.z, p1.z, 2048, 2048, 2048, 2048);
        lemma_sum_bounds(level, p1.z, 2048, 2048, 2048, 2048);
    }
    let diff = p2.sub(*p1);
    if diff.z.num == 0 {
        None
    } else {
        let t = level.sub(p1.z);
        proof {
            lemma_div_bounds(t, diff.z, 0x80_0000, 0x40_0000, 0x80_0000, 0x40_0000);
        }
        let ratio = t.div(diff.z);
        if ratio.num < 0 || ratio.num > ratio.den {
            None
        } else {
            proof {
                lemma_mul_bounds(ratio, diff.x, 0x2000_0000_0000, 0x2000_0000_0000,
                    0x80_0000, 0x40_0000);
                lemma_mul_bounds(ratio, diff.y, 0x2000_0000_0000, 0x2000_0000_0000,
                    0x80_0000, 0x40_0000);
            }
            let xm = ratio.mul(diff.x);
            let ym = ratio.mul(diff.y);
            proof {
                lemma_sum_bounds(p1.x, xm, 2048, 2048, 0x10_0000_0000_0000_0000,
                    0x8_0000_0000_0000_0000);
                lemma_sum_bounds(p1.y, ym, 2048, 2048, 0x10_0000_0000_0000_0000,
                    0x8_0000_0000_0000_0000);
            }
            let x = p1.x.add(xm);
            let y = p1.y.add(ym);
            Some(Point { x, y, z: level })
        }
    }
}

/// When the two endpoint values of an edge lie on opposite sides of the level
/// (one at-or-above it, the other at-or-below it, and the two values are not
/// equal), the edge has a crossing.
pub proof fn lemma_cross_exists(p1: Point, p2: Point, level: Frac)
    requires
        p1.z.bounded(IN_BOUND as int, IN_BOUND as int),
        p2.z.bounded(IN_BOUND as int, IN_BOUND as int),
        level.bounded(IN_BOUND as int, IN_BOUND as int),
        !spec_eq_val(p1.z, p2.z),
        (spec_ge(p1.z, level) && spec_le(p2.z, level)) || (spec_le(p1.z, level) && spec_ge(
            p2.z, level)),
    ensures
        spec_cross(p1, p2, level) is Some,
{
    let z1 = p1.z;
    let z2 = p2.z;
    let l = level;
    let dzn = z2.num * z1.den - z1.num * z2.den;
    let dzd = z2.den * z1.den;
    let tn = l.num * z1.den - z1.num * l.den;
    let td = l.den * z1.den;
    lemma_mul_abs_bound(z2.num as int, z1.den as int, 2048, 2048);
    lemma_mul_abs_bound(z1.num as int, z2.den as int, 2048, 2048);
    lemma_mul_abs_bound(l.num as int, z1.den as int, 2048, 2048);
    lemma_mul_abs_bound(z1.num as int, l.den as int, 2048, 2048);
    lemma_mul_abs_bound(z2.den as int, z1.den as int, 2048, 2048);
    lemma_mul_abs_bound(l.den as int, z1.den as int, 2048, 2048);
    assert(0 < dzd && 0 < td) by (nonlinear_arith)
        requires 0 < z1.den, 0 < z2.den, 0 < l.den, dzd == z2.den * z1.den, td == l.den * z1.den,
    ;
    lemma_norm_props(dzn, dzd);
    lemma_norm_props(tn, td);
    let dz = spec_sub(z2, z1);
    let t = spec_sub(l, z1);
    assert(dz == spec_norm(dzn, dzd));
    assert(t == spec_norm(tn, td));
    assert(dzn != 0);
    assert(dz.num != 0);
    assert(abs(t.num as int) <= 0x80_0000 && t.den <= 0x40_0000 && 0 < t.den);
    assert(abs(dz.num as int) <= 0x80_0000 && dz.den <= 0x40_0000 && 0 < dz.den);
    lemma_mul_abs_bound2(t.num as int, dz.den as int, 0x80_0000, 0x40_0000);
    lemma_mul_abs_bound2(t.den as int, dz.num as int, 0x40_0000, 0x80_0000);
    lemma_cmp_transfer(t, tn, td, dz, dzn, dzd);
    assert(tn * dzd == (l.num * z1.den) * (z2.den * z1.den) - (z1.num * l.den) * (z2.den
        * z1.den)) by (nonlinear_arith)
        requires tn == l.num * z1.den - z1.num * l.den, dzd == z2.den * z1.den,
    ;
    assert(dzn * td == (z2.num * z1.den) * (l.den * z1.den) - (z1.num * z2.den) * (l.den
        * z1.den)) by (nonlinear_arith)
        requires dzn == z2.num * z1.den - z1.num * z2.den, td == l.den * z1.den,
    ;
    assert((l.num * z1.den) * (z2.den * z1.den) == (z1.den * z1.den) * (l.num * z2.den))
        by (nonlinear_arith);
    assert((z1.num * l.den) * (z2.den * z1.den) == (z1.num * z2.den) * (l.den * z1.den))
        by (nonlinear_arith);
    assert((z2.num * z1.den) * (l.den * z1.den) == (z1.den * z1.den) * (z2.num * l.den))
        by (nonlinear_arith);
    assert((z1.den * z1.den) * (l.num * z2.den) - (z1.den * z1.den) * (z2.num * l.den) == (z1.den
        * z1.den) * (l.num * z2.den - z2.num * l.den)) by (nonlinear_arith);
    assert(tn * dzd - dzn * td == (z1.den * z1.den) * (l.num * z2.den - z2.num * l.den));
    let ratio = spec_div(t, dz);
    if spec_ge(z1, l) && spec_le(z2, l) {
        // The edge falls from at-or-above the level to at-or-below it.
        lemma_le_trans(z2, l, z1);
        assert(dzn < 0);
        assert(dz.num < 0);
        assert(tn <= 0);
        assert(t.num <= 0);
        let rn = -(t.num * dz.den);
        let rd = -(t.den * dz.num);
        assert(div_raw_num(t, dz) == rn && div_raw_den(t, dz) == rd);
        assert(0 <= rn && 0 < rd) by (nonlinear_arith)
            requires
                t.num <= 0,
                0 < t.den,
                dz.num < 0,
                0 < dz.den,
                rn == -(t.num * dz.den),
                rd == -(t.den * dz.num),
        ;
        lemma_norm_props(rn, rd);
        assert(ratio == spec_norm(rn, rd));
        assert(ratio.num >= 0);
        // ratio <= 1: the raw numerator is at most the raw denominator
        // because `t >= dz` as rationals, which follows from `z2 <= level`.
        assert((z1.den * z1.den) * (l.num * z2.den - z2.num * l.den) >= 0) by (nonlinear_arith)
            requires 0 < z1.den, l.num * z2.den - z2.num * l.den >= 0,
        ;
        assert(tn * dzd >= dzn * td);
        assert(t.num * dz.den >= dz.num * t.den);
        assert(rn <= rd);
        assert(ratio.num <= ratio.den);
    } else {
        // The edge rises from at-or-below the level to at-or-above it.
        lemma_le_trans(z1, l, z2);
        assert(dzn > 0);
        assert(dz.num > 0);
        assert(tn >= 0);
        assert(t.num >= 0);
        let rn = t.num * dz.den;
        let rd = t.den * dz.num;
        assert(div_raw_num(t, dz) == rn && div_raw_den(t, dz) == rd);
        assert(0 <= rn && 0 < rd) by (nonlinear_arith)
            requires
                t.num >= 0,
                0 < t.den,
                dz.num > 0,
                0 < dz.den,
                rn == t.num * dz.den,
                rd == t.den * dz.num,
        ;
        lemma_norm_props(rn, rd);
        assert(ratio == spec_norm(rn, rd));
        assert(ratio.num >= 0);
        assert((z1.den * z1.den) * (l.num * z2.den - z2.num * l.den) <= 0) by (nonlinear_arith)
            requires 0 < z1.den, l.num * z2.den - z2.num * l.den <= 0,
        ;
        assert(tn * dzd <= dzn * td);
        assert(t.num * dz.den <= dz.num * t.den);
        assert(rn <= rd);
        assert(ratio.num <= ratio.den);
    }
}

} // verus!
