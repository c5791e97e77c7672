//! The case classifier: four corner values and a level give one of 16
//! topological cases, one bit per corner (most significant bit = corner 0),
//! a bit being set when the corner lies strictly above the level.
//!
//! Tie-break rule: when no corner is strictly above the level but exactly two
//! corners equal it, the code is recomputed with `>=` instead of `>`, so grid
//! lines lying exactly on the contour level are not misclassified as "no
//! crossing".

use vstd::prelude::*;

verus! {

use crate::frac::{Frac, spec_gt, spec_ge, spec_eq_val, CMP_BOUND};

/// 1 for a set bit, 0 for a clear one.
pub open spec fn bit(b: bool) -> int {
    if b {
        1
    } else {
        0
    }
}

/// The naive case code: one bit per corner, set when the corner is strictly
/// above the level.
pub open spec fn naive_case(zs: Seq<Frac>, level: Frac) -> int {
    8 * bit(spec_gt(zs[0], level)) + 4 * bit(spec_gt(zs[1], level)) + 2 * bit(
        spec_gt(zs[2], level)) + bit(spec_gt(zs[3], level))
}

/// The case code computed with `>=` instead of `>`.
pub open spec fn ge_case(zs: Seq<Frac>, level: Frac) -> int {
    8 * bit(spec_ge(zs[0], level)) + 4 * bit(spec_ge(zs[1], level)) + 2 * bit(
        spec_ge(zs[2], level)) + bit(spec_ge(zs[3], level))
}

/// How many corners equal the level exactly.
pub open spec fn level_eq_count(zs: Seq<Frac>, level: Frac) -> int {
    bit(spec_eq_val(zs[0], level)) + bit(spec_eq_val(zs[1], level)) + bit(
        spec_eq_val(zs[2], level)) + bit(spec_eq_val(zs[3], level))
}

/// The case code of a cell: the naive code, unless it is 0 while exactly two
/// corners equal the level, in which case the `>=` code is used instead.
pub open spec fn spec_case(zs: Seq<Frac>, level: Frac) -> int {
    if naive_case(zs, level) != 0 || level_eq_count(zs, level) != 2 {
        naive_case(zs, level)
    } else {
        ge_case(zs, level)
    }
}

/// Classify one cell from its four corner values (in cyclic order) and the
/// level.  Every input yields a defined code in `[0, 15]`.
pub fn compute_case(zs: &[Frac; 4], level: Frac) -> (case: usize)
    requires
        zs@[0].bounded(CMP_BOUND as int, CMP_BOUND as int),
        zs@[1].bounded(CMP_BOUND as int, CMP_BOUND as int),
        zs@[2].bounded(CMP_BOUND as int, CMP_BOUND as int),
        zs@[3].bounded(CMP_BOUND as int, CMP_BOUND as int),
        level.bounded(CMP_BOUND as int, CMP_BOUND as int),
    ensures
        case == spec_case(zs@, level),
        0 <= case <= 15,
{
    let naive: usize = (if zs[0].gt(level) {
        8
    } else {
        0
    }) + (if zs[1].gt(level) {
        4
    } else {
        0
    }) + (if zs[2].gt(level) {
        2
    } else {
        0
    }) + (if zs[3].gt(level) {
        1
    } else {
        0
    });
    let eq_count: usize = (if zs[0].eq_val(level) {
        1
    } else {
        0
    }) + (if zs[1].eq_val(level) {
        1
    } else {
        0
    }) + (if zs[2].eq_val(level) {
        1
    } else {
        0
    }) + (if zs[3].eq_val(level) {
        1
    } else {
        0
    });
    if naive != 0 || eq_count != 2 {
        return naive;
    }
    (if zs[0].ge(level) {
        8
    } else {
        0
    }) + (if zs[1].ge(level) {
        4
    } else {
        0
    }) + (if zs[2].ge(level) {
        2
    } else {
        0
    }) + (if zs[3].ge(level) {
        1
    } else {
        0
    })
}

} // verus!
