//! Integer geometry primitives.

pub mod arith;
pub mod contour;
pub mod contour_laws;
pub mod line;
pub mod point;
pub mod rect;
pub mod x_segment;
