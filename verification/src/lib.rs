//! Boolean operations on polygons in integer coordinates.
//!
//! Paths are turned into segments, the segments are split at every
//! intersection, each piece gets its winding state, and the resulting planar
//! graph is walked to extract contours.

pub mod fill;
pub mod geom;
pub mod overlay;
pub mod segm;
pub mod sort;
pub mod solver;
pub mod split;
pub mod string;
