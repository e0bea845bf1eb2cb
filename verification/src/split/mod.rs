//! Splitting segments at their intersections.

pub mod apply_laws;
pub mod cross_laws;
pub mod cross_solver;
pub mod cut;
pub mod exact_laws;
pub mod fragment;
pub mod grid_laws;
pub mod grid_layout;
pub mod line_mark;
pub mod list_laws;
pub mod pass_laws;
pub mod segment_tree;
pub mod slab_laws;
pub mod solver;
pub mod solver_fragment;
pub mod solver_tree;
pub mod space_layout;
pub mod split_laws;
pub mod sweep_laws;
pub mod tree_laws;
