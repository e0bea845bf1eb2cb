//! String overlay: cutting shapes along lines and clipping lines by shapes.

pub mod clip;
pub mod count;
pub mod graph;
pub mod overlay;
pub mod rule;
