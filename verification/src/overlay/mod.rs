//! Boolean overlay: the builder that collects paths, the graph of the
//! split and filled segments, and the extraction of shapes from it.

pub mod builder;
pub mod conserve;
pub mod extract;
pub mod graph;
pub mod graph_laws;
pub mod link;
pub mod nest;
pub mod order;
pub mod rule;
pub mod vector;
pub mod walk_laws;
pub mod winding;
