//! Isolines of a scalar field sampled on a rectangular grid: the classic
//! marching-squares algorithm with saddle-point disambiguation, linear edge
//! interpolation, and segment-to-polyline stitching, together with a small
//! bucket-counting histogram.
//!
//! Scalars are exact rationals ([`Frac`]): every coordinate and field value is
//! a fraction of machine integers, all arithmetic is exact, and crossing
//! points computed twice from the same operands are equal bit for bit, which
//! is what the stitching step depends on.

pub mod frac;
pub mod point;
pub mod classify;
pub mod interpolate;
pub mod intersect;
pub mod group;
pub mod contour;
pub mod histogram;
pub mod laws;

pub use frac::Frac;
pub use point::Point;
pub use classify::compute_case;
pub use interpolate::intersect_z_plane;
pub use intersect::compute_block_intersection;
pub use group::group_segments;
pub use contour::{contour, single_contour, Contour, ContourLine};
pub use histogram::histogram;
