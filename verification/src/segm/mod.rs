//! Segments with winding counts and how paths become segments.

pub mod builder;
pub mod count;
pub mod merge;
pub mod segment;
