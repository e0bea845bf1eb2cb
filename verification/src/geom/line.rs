use vstd::prelude::*;
use crate::geom::arith::sign;
use crate::geom::point::{area_two, cross, orient, IntPoint};
use crate::geom::x_segment::XSegment;

verus! {

/// Whether `p` lies on the line through the ends of `s`.
pub open spec fn on_line(s: XSegment, p: IntPoint) -> bool {
    area_two(s.a, s.b, p) == 0
}

/// Whether `p` lies on the segment `s`, its ends included.
pub open spec fn within(s: XSegment, p: IntPoint) -> bool {
    on_line(s, p) && !p.spec_less(s.a) && !s.b.spec_less(p)
}

/// Whether `p` lies on the segment `s` and is none of its ends.
pub open spec fn strictly_within(s: XSegment, p: IntPoint) -> bool {
    on_line(s, p) && s.a.spec_less(p) && p.spec_less(s.b)
}

/// Whether `p` is a part of `s`: a segment between two points of `s`.
pub open spec fn part_of(p: XSegment, s: XSegment) -> bool {
    p.wf() && within(s, p.a) && within(s, p.b)
}

/// The doubled area grows with its third point by the cross product of the
/// base and the step of the point.
pub proof fn lemma_area_step(a: IntPoint, b: IntPoint, z1: IntPoint, z2: IntPoint)
    ensures
        area_two(a, b, z2) - area_two(a, b, z1) == cross(b.x - a.x, b.y - a.y, z2.x - z1.x, z2.y - z1.y),
{
    let ux = b.x - a.x;
    let uy = b.y - a.y;
    let h1 = z1.x - a.x;
    let v1 = z1.y - a.y;
    let h2 = z2.x - a.x;
    let v2 = z2.y - a.y;
    assert(ux * v2 - ux * v1 == ux * (v2 - v1)) by (nonlinear_arith);
    assert(uy * h2 - uy * h1 == uy * (h2 - h1)) by (nonlinear_arith);
}

/// For parallel vectors `d` and `e`, the cross products of any vector `w`
/// with them are in the ratio of their components.
pub proof fn lemma_parallel(wx: int, wy: int, dx: int, dy: int, ex: int, ey: int)
    requires
        cross(dx, dy, ex, ey) == 0,
    ensures
        cross(wx, wy, ex, ey) * dx == cross(wx, wy, dx, dy) * ex,
        cross(wx, wy, ex, ey) * dy == cross(wx, wy, dx, dy) * ey,
{
    let ce = wx * ey - wy * ex;
    let cd = wx * dy - wy * dx;
    assert(ce * dx == wx * ey * dx - wy * ex * dx) by (nonlinear_arith)
        requires
            ce == wx * ey - wy * ex,
    ;
    assert(cd * ex == wx * dy * ex - wy * dx * ex) by (nonlinear_arith)
        requires
            cd == wx * dy - wy * dx,
    ;
    assert(wy * ex * dx == wy * dx * ex) by (nonlinear_arith);
    assert(wx * ey * dx - wx * dy * ex == wx * (dx * ey - dy * ex)) by (nonlinear_arith);
    assert(wx * (dx * ey - dy * ex) == 0) by (nonlinear_arith)
        requires
            dx * ey - dy * ex == 0,
    ;
    assert(ce * dy == wx * ey * dy - wy * ex * dy) by (nonlinear_arith)
        requires
            ce == wx * ey - wy * ex,
    ;
    assert(cd * ey == wx * dy * ey - wy * dx * ey) by (nonlinear_arith)
        requires
            cd == wx * dy - wy * dx,
    ;
    assert(wx * ey * dy == wx * dy * ey) by (nonlinear_arith);
    assert(wy * dx * ey - wy * ex * dy == wy * (dx * ey - dy * ex)) by (nonlinear_arith);
    assert(wy * (dx * ey - dy * ex) == 0) by (nonlinear_arith)
        requires
            dx * ey - dy * ex == 0,
    ;
}

/// Two products that are equal have factors of the same sign, where the
/// other factors are both positive.
pub proof fn lemma_same_sign(a: int, p: int, b: int, q: int)
    requires
        a * p == b * q,
        p > 0,
        q > 0,
    ensures
        sign(a) == sign(b),
{
    assert(sign(a) == sign(b)) by (nonlinear_arith)
        requires
            a * p == b * q,
            p > 0,
            q > 0,
            sign(a) == (if a > 0 {
                1int
            } else if a < 0 {
                -1int
            } else {
                0int
            }),
            sign(b) == (if b > 0 {
                1int
            } else if b < 0 {
                -1int
            } else {
                0int
            }),
    {
        if a > 0 {
            assert(a * p > 0);
            if b <= 0 {
                assert(b * q <= 0);
            }
        } else if a < 0 {
            assert(a * p < 0);
            if b >= 0 {
                assert(b * q >= 0);
            }
        } else {
            assert(a * p == 0);
            if b > 0 {
                assert(b * q > 0);
            }
            if b < 0 {
                assert(b * q < 0);
            }
        }
    }
}

/// The step between two points of a well-formed segment, the first before
/// the second, is parallel to the segment and points the same way.
pub proof fn lemma_step_along(s: XSegment, p: IntPoint, q: IntPoint)
    requires
        s.wf(),
        on_line(s, p),
        on_line(s, q),
        p.spec_less(q),
    ensures
        cross(s.b.x - s.a.x, s.b.y - s.a.y, q.x - p.x, q.y - p.y) == 0,
        s.a.x < s.b.x ==> p.x < q.x,
        s.a.x == s.b.x ==> p.x == q.x && p.y < q.y && s.a.y < s.b.y,
{
    lemma_area_step(s.a, s.b, p, q);
    let ux = s.b.x - s.a.x;
    let uy = s.b.y - s.a.y;
    let vx = q.x - p.x;
    let vy = q.y - p.y;
    assert(ux * vy - uy * vx == 0);
    if ux > 0 {
        if vx == 0 {
            assert(uy * vx == 0) by (nonlinear_arith)
                requires
                    vx == 0,
            ;
            assert(vy == 0) by (nonlinear_arith)
                requires
                    ux * vy == 0,
                    ux > 0,
            ;
        }
    } else {
        assert(ux == 0);
        assert(ux * vy == 0) by (nonlinear_arith)
            requires
                ux == 0,
        ;
        assert(vx == 0) by (nonlinear_arith)
            requires
                uy * vx == 0,
                uy > 0,
        ;
    }
}

/// A part of a segment has every point on the same side as the segment has
/// it.
pub proof fn lemma_part_same_side(p: XSegment, s: XSegment, z: IntPoint)
    requires
        s.wf(),
        part_of(p, s),
    ensures
        orient(p.a, p.b, z) == orient(s.a, s.b, z),
{
    lemma_step_along(s, p.a, p.b);
    let ux = s.b.x - s.a.x;
    let uy = s.b.y - s.a.y;
    let vx = p.b.x - p.a.x;
    let vy = p.b.y - p.a.y;
    let wx = z.x - p.a.x;
    let wy = z.y - p.a.y;
    // The area over `s` with `z` is the cross product of `u` and `w`.
    lemma_area_step(s.a, s.b, p.a, z);
    assert(area_two(s.a, s.b, z) == cross(ux, uy, wx, wy));
    assert(area_two(p.a, p.b, z) == cross(vx, vy, wx, wy));
    lemma_parallel(wx, wy, ux, uy, vx, vy);
    let cu = cross(ux, uy, wx, wy);
    let cv = cross(vx, vy, wx, wy);
    assert(cross(wx, wy, ux, uy) == -cu);
    assert(cross(wx, wy, vx, vy) == -cv);
    if ux > 0 {
        assert(cv * ux == cu * vx) by (nonlinear_arith)
            requires
                (-cv) * ux == (-cu) * vx,
        ;
        lemma_same_sign(cv, ux, cu, vx);
    } else {
        assert(cv * uy == cu * vy) by (nonlinear_arith)
            requires
                (-cv) * uy == (-cu) * vy,
        ;
        lemma_same_sign(cv, uy, cu, vy);
    }
}

/// Where two points of a segment lie strictly on opposite sides of a line,
/// so do the ends of the segment.
pub proof fn lemma_sides_extend(base: XSegment, s: XSegment, p: XSegment)
    requires
        s.wf(),
        part_of(p, s),
        orient(base.a, base.b, p.a) * orient(base.a, base.b, p.b) < 0,
    ensures
        orient(base.a, base.b, s.a) * orient(base.a, base.b, s.b) < 0,
{
    let f0 = area_two(base.a, base.b, s.a);
    let f1 = area_two(base.a, base.b, s.b);
    let fa = area_two(base.a, base.b, p.a);
    let fb = area_two(base.a, base.b, p.b);
    crate::split::cross_laws::lemma_opposite_signs(fa, fb);
    let bx = base.b.x - base.a.x;
    let by = base.b.y - base.a.y;
    let ux = s.b.x - s.a.x;
    let uy = s.b.y - s.a.y;
    lemma_area_step(base.a, base.b, s.a, s.b);
    lemma_area_step(base.a, base.b, s.a, p.a);
    lemma_area_step(base.a, base.b, s.a, p.b);
    // Steps from the lesser end of `s` to the ends of `p`.
    let e1x = p.a.x - s.a.x;
    let e1y = p.a.y - s.a.y;
    let e2x = p.b.x - s.a.x;
    let e2y = p.b.y - s.a.y;
    lemma_area_step(s.a, s.b, s.a, p.a);
    lemma_area_step(s.a, s.b, s.a, p.b);
    assert(area_two(s.a, s.b, s.a) == 0) by (nonlinear_arith)
        requires
            area_two(s.a, s.b, s.a) == (s.b.x - s.a.x) * (s.a.y - s.a.y) - (s.b.y - s.a.y) * (s.a.x - s.a.x),
    ;
    assert(cross(ux, uy, e1x, e1y) == 0);
    assert(cross(ux, uy, e2x, e2y) == 0);
    lemma_parallel(bx, by, ux, uy, e1x, e1y);
    lemma_parallel(bx, by, ux, uy, e2x, e2y);
    lemma_step_along(s, p.a, p.b);
    let d = f1 - f0;
    assert(fa - f0 == cross(bx, by, e1x, e1y));
    assert(fb - f0 == cross(bx, by, e2x, e2y));
    assert(d == cross(bx, by, ux, uy));
    // `n` is the length of `s` and `g1 < g2` are the places of the ends of
    // `p`, all measured along the axis on which `s` is not flat.
    let n = if ux > 0 {
        ux
    } else {
        uy
    };
    let g1 = if ux > 0 {
        e1x
    } else {
        e1y
    };
    let g2 = if ux > 0 {
        e2x
    } else {
        e2y
    };
    assert((fa - f0) * n == d * g1);
    assert((fb - f0) * n == d * g2);
    assert(0 <= g1 < g2 <= n) by {
        if ux > 0 {
        } else {
            if p.a.y < s.a.y {
                assert(p.a.spec_less(s.a));
            }
            if s.b.y < p.b.y {
                assert(s.b.spec_less(p.b));
            }
        }
    }
    assert((f0 > 0 && f1 < 0) || (f0 < 0 && f1 > 0)) by (nonlinear_arith)
        requires
            (fa - f0) * n == d * g1,
            (fb - f0) * n == d * g2,
            d == f1 - f0,
            0 <= g1 < g2 <= n,
            (fa > 0 && fb < 0) || (fa < 0 && fb > 0),
    {
        assert(fa * n == f0 * (n - g1) + f1 * g1);
        assert(fb * n == f0 * (n - g2) + f1 * g2);
        if f0 >= 0 && f1 >= 0 {
            assert(f0 * (n - g1) >= 0);
            assert(f1 * g1 >= 0);
            assert(f0 * (n - g2) >= 0);
            assert(f1 * g2 >= 0);
            assert(fa * n >= 0);
            assert(fb * n >= 0);
        }
        if f0 <= 0 && f1 <= 0 {
            assert(f0 * (n - g1) <= 0);
            assert(f1 * g1 <= 0);
            assert(f0 * (n - g2) <= 0);
            assert(f1 * g2 <= 0);
            assert(fa * n <= 0);
            assert(fb * n <= 0);
        }
    }
    assert(sign(f0) * sign(f1) < 0) by (nonlinear_arith)
        requires
            (sign(f0) == 1 && sign(f1) == -1) || (sign(f0) == -1 && sign(f1) == 1),
    ;
}

} // verus!
