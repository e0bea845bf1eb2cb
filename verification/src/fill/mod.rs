//! Winding state: which sides of a segment lie inside which shape.

pub mod fill_rule;
pub mod segment_fill;
pub mod solver;
