use vstd::prelude::*;
use crate::geom::arith::{mul_wide, sign};
use crate::sort::{KeyInts, KeyValue, Keyed};

verus! {

/// A point of the integer lattice.
#[derive(Clone, Copy, Debug, PartialEq, Eq, Structural)]
pub struct IntPoint {
    pub x: i32,
    pub y: i32,
}

impl IntPoint {
    /// The point with the given coordinates.
    pub fn new(x: i32, y: i32) -> (p: IntPoint)
        ensures
            p.x == x,
            p.y == y,
    {
        IntPoint { x, y }
    }

    /// The order of points: by `x`, then by `y`.
    pub open spec fn spec_less(self, other: IntPoint) -> bool {
        self.x < other.x || (self.x == other.x && self.y < other.y)
    }

    /// Whether this point comes before `other` in the order of points.
    pub fn less(&self, other: &IntPoint) -> (r: bool)
        ensures
            r == self.spec_less(*other),
    {
        self.x < other.x || (self.x == other.x && self.y < other.y)
    }

    /// The squared distance between two points.
    pub open spec fn spec_sqr_distance(self, other: IntPoint) -> int {
        (self.x - other.x) * (self.x - other.x) + (self.y - other.y) * (self.y - other.y)
    }

    /// The squared distance between two points.
    pub fn sqr_distance(&self, other: &IntPoint) -> (r: i128)
        ensures
            r == self.spec_sqr_distance(*other),
            r >= 0,
    {
        let dx: i64 = self.x as i64 - other.x as i64;
        let dy: i64 = self.y as i64 - other.y as i64;
        let xx: i128 = mul_wide(dx, dx);
        let yy: i128 = mul_wide(dy, dy);
        proof {
            assert(dx * dx >= 0) by (nonlinear_arith);
            assert(dy * dy >= 0) by (nonlinear_arith);
            assert(dx * dx <= 0x1_0000_0000 * 0x1_0000_0000) by (nonlinear_arith)
                requires
                    -0x1_0000_0000 <= dx <= 0x1_0000_0000,
            ;
            assert(dy * dy <= 0x1_0000_0000 * 0x1_0000_0000) by (nonlinear_arith)
                requires
                    -0x1_0000_0000 <= dy <= 0x1_0000_0000,
            ;
        }
        xx + yy
    }
}

impl Keyed for IntPoint {
    open spec fn spec_key(&self) -> KeyInts {
        (self.x as int, self.y as int, 0, 0, 0, 0, 0, 0, 0)
    }

    fn key(&self) -> (k: KeyValue) {
        (self.x as i128, self.y as i128, 0, 0, 0, 0, 0, 0, 0)
    }

    proof fn lemma_key_injective(&self, other: &Self) {
    }
}

/// Twice the signed area of the triangle `a`, `b`, `c`: the cross product of
/// `b - a` and `c - a`. Positive when `c` lies to the left of the ray from
/// `a` through `b`.
pub open spec fn area_two(a: IntPoint, b: IntPoint, c: IntPoint) -> int {
    (b.x - a.x) * (c.y - a.y) - (b.y - a.y) * (c.x - a.x)
}

/// The side of `c` relative to the ray from `a` through `b`: 1 on the left,
/// -1 on the right, 0 on the line.
pub open spec fn orient(a: IntPoint, b: IntPoint, c: IntPoint) -> int {
    sign(area_two(a, b, c))
}

/// The cross product of two vectors given by their components.
pub open spec fn cross(ux: int, uy: int, vx: int, vy: int) -> int {
    ux * vy - uy * vx
}

/// The dot product of two vectors given by their components.
pub open spec fn dot(ux: int, uy: int, vx: int, vy: int) -> int {
    ux * vx + uy * vy
}

/// Products of coordinate differences stay below 2^64 in absolute value.
pub proof fn lemma_diff_product_bound(a: int, b: int)
    requires
        -0x1_0000_0000 < a < 0x1_0000_0000,
        -0x1_0000_0000 < b < 0x1_0000_0000,
    ensures
        -0x1_0000_0000_0000_0000 < a * b < 0x1_0000_0000_0000_0000,
{
    crate::geom::arith::lemma_mul_fits(a, b, 0xffff_ffff);
    assert(0xffff_ffffint * 0xffff_ffffint < 0x1_0000_0000_0000_0000int) by (nonlinear_arith);
}

/// The doubled area of a triangle of lattice points stays below 2^65 in
/// absolute value.
pub proof fn lemma_area_two_bound(a: IntPoint, b: IntPoint, c: IntPoint)
    ensures
        -0x2_0000_0000_0000_0000 < area_two(a, b, c) < 0x2_0000_0000_0000_0000,
{
    lemma_diff_product_bound(b.x - a.x, c.y - a.y);
    lemma_diff_product_bound(b.y - a.y, c.x - a.x);
}

/// Twice the signed area of the triangle `a`, `b`, `c`.
pub fn area_two_of(a: IntPoint, b: IntPoint, c: IntPoint) -> (r: i128)
    ensures
        r == area_two(a, b, c),
        -0x2_0000_0000_0000_0000 < r < 0x2_0000_0000_0000_0000,
{
    let ux: i64 = b.x as i64 - a.x as i64;
    let uy: i64 = b.y as i64 - a.y as i64;
    let vx: i64 = c.x as i64 - a.x as i64;
    let vy: i64 = c.y as i64 - a.y as i64;
    proof {
        lemma_diff_product_bound(ux as int, vy as int);
        lemma_diff_product_bound(uy as int, vx as int);
    }
    mul_wide(ux, vy) - mul_wide(uy, vx)
}

/// The dot product of the vectors `(ux, uy)` and `(vx, vy)`.
pub fn dot_of(ux: i64, uy: i64, vx: i64, vy: i64) -> (r: i128)
    requires
        -0x1_0000_0000 < ux < 0x1_0000_0000,
        -0x1_0000_0000 < uy < 0x1_0000_0000,
        -0x1_0000_0000 < vx < 0x1_0000_0000,
        -0x1_0000_0000 < vy < 0x1_0000_0000,
    ensures
        r == dot(ux as int, uy as int, vx as int, vy as int),
{
    proof {
        lemma_diff_product_bound(ux as int, vx as int);
        lemma_diff_product_bound(uy as int, vy as int);
    }
    mul_wide(ux, vx) + mul_wide(uy, vy)
}

} // verus!
