use vstd::prelude::*;
use crate::geom::point::IntPoint;
use crate::sort::{KeyInts, KeyValue, Keyed};

verus! {

/// A request to cut the segment with the given index at the given point.
#[derive(Clone, Copy, Debug, PartialEq, Eq, Structural)]
pub struct LineMark {
    pub index: usize,
    pub point: IntPoint,
}

impl Keyed for LineMark {
    open spec fn spec_key(&self) -> KeyInts {
        (self.index as int, self.point.x as int, self.point.y as int, 0, 0, 0, 0, 0, 0)
    }

    fn key(&self) -> (k: KeyValue) {
        (self.index as i128, self.point.x as i128, self.point.y as i128, 0, 0, 0, 0, 0, 0)
    }

    proof fn lemma_key_injective(&self, other: &Self) {
    }
}

} // verus!
