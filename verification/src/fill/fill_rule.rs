use vstd::prelude::*;

verus! {

/// How a winding count decides whether a point lies inside a shape.
#[derive(Clone, Copy, Debug, PartialEq, Eq, Structural)]
pub enum FillRule {
    /// Inside where the count is odd.
    EvenOdd,
    /// Inside where the count is not zero.
    NonZero,
}

impl FillRule {
    /// Whether a point with the given winding count lies inside.
    pub open spec fn spec_is_inside(self, count: i32) -> bool {
        match self {
            FillRule::EvenOdd => count as int % 2 != 0,
            FillRule::NonZero => count != 0,
        }
    }

    /// Whether a point with the given winding count lies inside.
    pub fn is_inside(&self, count: i32) -> (r: bool)
        ensures
            r == self.spec_is_inside(count),
    {
        match self {
            FillRule::EvenOdd => {
                let wide: i64 = count as i64 + 0x8000_0000;
                let r: bool = wide % 2 != 0;
                assert(r == (count as int % 2 != 0)) by {
                    assert((count as int + 0x8000_0000) % 2 == count as int % 2) by (nonlinear_arith);
                }
                r
            },
            FillRule::NonZero => count != 0,
        }
    }
}

} // verus!
