use vstd::prelude::*;

verus! {

/// What a string overlay extracts as shapes.
#[derive(Clone, Copy, Debug, PartialEq, Eq, Structural)]
pub enum StringRule {
    /// The pieces into which the lines cut the body.
    Slice,
}

/// Which parts of the lines a clip keeps.
#[derive(Clone, Copy, Debug, PartialEq, Eq, Structural)]
pub struct ClipRule {
    /// Keep the parts outside the body in place of those inside.
    pub invert: bool,
    /// Keep the parts that run along the border of the body.
    pub boundary_included: bool,
}

} // verus!
