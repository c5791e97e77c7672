//! Points of a contour: an `(x, y, z)` triple of exact rational scalars.
//!
//! `z` carries the interpolated level value and is kept through to the
//! output.  Equality is plain field equality, which — because every scalar is
//! kept in canonical form by construction — is the exact-match test the
//! segment grouper depends on.

use vstd::prelude::*;

verus! {

use vstd::math::abs;
use crate::frac::{Frac, spec_add, spec_sub, sum_fits};

/// A point `(x, y, z)` with exact rational components.
#[derive(Clone, Copy, PartialEq, Eq, Structural, Debug)]
pub struct Point {
    pub x: Frac,
    pub y: Frac,
    pub z: Frac,
}

impl Point {
    /// All three components are well-formed fractions.
    pub open spec fn wf(self) -> bool {
        self.x.wf() && self.y.wf() && self.z.wf()
    }

    /// All three components are bounded by `bn` / `bd`.
    pub open spec fn bounded(self, bn: int, bd: int) -> bool {
        self.x.bounded(bn, bd) && self.y.bounded(bn, bd) && self.z.bounded(bn, bd)
    }

    /// Build a point from its components.
    pub fn new(x: Frac, y: Frac, z: Frac) -> (r: Point)
        ensures
            r == (Point { x, y, z }),
    {
        Point { x, y, z }
    }

    /// Component-wise addition.
    pub fn add(self, other: Point) -> (r: Point)
        requires
            sum_fits(self.x, other.x),
            sum_fits(self.y, other.y),
            sum_fits(self.z, other.z),
        ensures
            r == (Point {
                x: spec_add(self.x, other.x),
                y: spec_add(self.y, other.y),
                z: spec_add(self.z, other.z),
            }),
            r.wf(),
    {
        Point { x: self.x.add(other.x), y: self.y.add(other.y), z: self.z.add(other.z) }
    }

    /// Component-wise subtraction.
    pub fn sub(self, other: Point) -> (r: Point)
        requires
            sum_fits(self.x, other.x),
            sum_fits(self.y, other.y),
            sum_fits(self.z, other.z),
        ensures
            r == (Point {
                x: spec_sub(self.x, other.x),
                y: spec_sub(self.y, other.y),
                z: spec_sub(self.z, other.z),
            }),
            r.wf(),
            abs(r.x.num as int) <= abs(self.x.num as int) * other.x.den + abs(other.x.num as int)
                * self.x.den,
            r.x.den <= self.x.den * other.x.den,
            abs(r.y.num as int) <= abs(self.y.num as int) * other.y.den + abs(other.y.num as int)
                * self.y.den,
            r.y.den <= self.y.den * other.y.den,
            abs(r.z.num as int) <= abs(self.z.num as int) * other.z.den + abs(other.z.num as int)
                * self.z.den,
            r.z.den <= self.z.den * other.z.den,
    {
        Point { x: self.x.sub(other.x), y: self.y.sub(other.y), z: self.z.sub(other.z) }
    }
}

} // verus!
