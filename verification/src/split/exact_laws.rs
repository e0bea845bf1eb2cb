use vstd::prelude::*;
use crate::geom::arith::{abs, round_div, sign};
use crate::geom::line::{
    lemma_area_step, lemma_parallel, lemma_part_same_side, lemma_sides_extend, lemma_step_along, on_line, part_of,
    strictly_within, within,
};
use crate::geom::point::{area_two, cross, orient, IntPoint};
use crate::geom::x_segment::XSegment;
use crate::split::cross_laws::{
    lemma_cross_point_in_rects, lemma_cross_weights, lemma_opposite_signs, lemma_triple,
};
use crate::split::cross_solver::{is_exact_coordinate, snap_coordinate, CrossSolver};

verus! {

/// Where parts of two segments cross properly, the segments cross properly.
pub proof fn lemma_parts_cross(p: XSegment, s: XSegment, q: XSegment, r: XSegment)
    requires
        s.wf(),
        r.wf(),
        part_of(p, s),
        part_of(q, r),
        CrossSolver::crosses_properly(p, q),
    ensures
        CrossSolver::crosses_properly(s, r),
{
    lemma_part_same_side(p, s, q.a);
    lemma_part_same_side(p, s, q.b);
    lemma_sides_extend(s, r, q);
    lemma_part_same_side(q, r, p.a);
    lemma_part_same_side(q, r, p.b);
    lemma_sides_extend(r, s, p);
}

/// A vector with a non-zero component that is parallel to two vectors makes
/// these parallel to each other.
pub proof fn lemma_parallel_to_one(ux: int, uy: int, dx: int, dy: int, ex: int, ey: int)
    requires
        cross(ux, uy, dx, dy) == 0,
        cross(ux, uy, ex, ey) == 0,
        ux != 0 || uy != 0,
    ensures
        cross(dx, dy, ex, ey) == 0,
{
    // The cross product of `d` and `e`, times a component of `u`, is a sum
    // of the cross products of `u` with `e` and with `d`.
    lemma_triple(ux, uy, ex, ey, dx, dy, ux, ex, dx);
    lemma_triple(ux, uy, ex, ey, dx, dy, uy, ey, dy);
    let c = dx * ey - dy * ex;
    assert(c * ux == 0) by (nonlinear_arith)
        requires
            c * ux == (ux * ey - uy * ex) * dx - (ux * dy - uy * dx) * ex,
            ux * ey - uy * ex == 0,
            ux * dy - uy * dx == 0,
    ;
    assert(c * uy == 0) by (nonlinear_arith)
        requires
            c * uy == (ux * ey - uy * ex) * dy - (ux * dy - uy * dx) * ey,
            ux * ey - uy * ex == 0,
            ux * dy - uy * dx == 0,
    ;
    assert(c == 0) by (nonlinear_arith)
        requires
            c * ux == 0,
            c * uy == 0,
            ux != 0 || uy != 0,
    ;
}

/// The point that a line through a part of a segment has in common with a
/// line that separates the ends of the part lies strictly within the part.
pub proof fn lemma_common_point_inside(p: XSegment, s: XSegment, base: XSegment, x: IntPoint)
    requires
        s.wf(),
        part_of(p, s),
        on_line(s, x),
        on_line(base, x),
        orient(base.a, base.b, p.a) * orient(base.a, base.b, p.b) < 0,
    ensures
        strictly_within(p, x),
{
    let ga = area_two(base.a, base.b, p.a);
    let gb = area_two(base.a, base.b, p.b);
    lemma_opposite_signs(ga, gb);
    let ux = s.b.x - s.a.x;
    let uy = s.b.y - s.a.y;
    let dx = p.b.x - p.a.x;
    let dy = p.b.y - p.a.y;
    let ex = x.x - p.a.x;
    let ey = x.y - p.a.y;
    let bx = base.b.x - base.a.x;
    let by = base.b.y - base.a.y;
    lemma_step_along(s, p.a, p.b);
    lemma_area_step(s.a, s.b, p.a, x);
    assert(cross(ux, uy, ex, ey) == 0);
    assert(cross(ux, uy, dx, dy) == 0);
    lemma_parallel_to_one(ux, uy, dx, dy, ex, ey);
    assert(area_two(p.a, p.b, x) == cross(dx, dy, ex, ey));
    lemma_area_step(base.a, base.b, p.a, x);
    lemma_area_step(base.a, base.b, p.a, p.b);
    lemma_parallel(bx, by, dx, dy, ex, ey);
    assert((0 - ga) * dx == (gb - ga) * ex);
    assert((0 - ga) * dy == (gb - ga) * ey);
    if ux > 0 {
        assert(0 < ex < dx) by (nonlinear_arith)
            requires
                (0 - ga) * dx == (gb - ga) * ex,
                dx > 0,
                (ga > 0 && gb < 0) || (ga < 0 && gb > 0),
        {
            if ga > 0 {
                assert((gb - ga) * ex < 0);
                if ex >= dx {
                    assert((gb - ga) * ex <= (gb - ga) * dx);
                    assert((gb - ga) * dx < (0 - ga) * dx);
                }
            } else {
                assert((gb - ga) * ex > 0);
                if ex >= dx {
                    assert((gb - ga) * ex >= (gb - ga) * dx);
                    assert((gb - ga) * dx > (0 - ga) * dx);
                }
            }
        }
    } else {
        assert(ex == 0) by (nonlinear_arith)
            requires
                ux * ey - uy * ex == 0,
                ux == 0,
                uy > 0,
        ;
        assert(0 < ey < dy) by (nonlinear_arith)
            requires
                (0 - ga) * dy == (gb - ga) * ey,
                dy > 0,
                (ga > 0 && gb < 0) || (ga < 0 && gb > 0),
        {
            if ga > 0 {
                assert((gb - ga) * ey < 0);
                if ey >= dy {
                    assert((gb - ga) * ey <= (gb - ga) * dy);
                    assert((gb - ga) * dy < (0 - ga) * dy);
                }
            } else {
                assert((gb - ga) * ey > 0);
                if ey >= dy {
                    assert((gb - ga) * ey >= (gb - ga) * dy);
                    assert((gb - ga) * dy > (0 - ga) * dy);
                }
            }
        }
    }
}

/// A coordinate that is snapped without rounding is the exact coordinate.
pub proof fn lemma_exact_snap(from: int, to: int, n: int, m: int)
    requires
        0 < m,
        0 <= n,
        is_exact_coordinate(from, to, n, m),
    ensures
        m * (snap_coordinate(from, to, n, m) - from) == (to - from) * n,
{
    let d = to - from;
    let a = abs(d) * n;
    let q = round_div(a, m);
    assert(a >= 0) by (nonlinear_arith)
        requires
            a == abs(d) * n,
            abs(d) >= 0,
            n >= 0,
    ;
    assert(m * q == a) by (nonlinear_arith)
        requires
            q == (2 * a + m) / (2 * m),
            a % m == 0,
            a >= 0,
            m > 0,
    {
        let k = a / m;
        assert(a == m * k + a % m);
        assert(2 * a + m == (2 * m) * k + m);
        assert(((2 * m) * k + m) / (2 * m) == k) by {
            assert((2 * m) * k + m >= (2 * m) * k);
            assert((2 * m) * k + m < (2 * m) * (k + 1));
        }
    }
    if d > 0 {
        assert(sign(d) == 1 && abs(d) == d);
    } else if d < 0 {
        assert(sign(d) == -1 && abs(d) == -d);
        assert(m * (0 - q) == d * n) by (nonlinear_arith)
            requires
                m * q == (0 - d) * n,
        ;
    } else {
        assert(a == 0) by (nonlinear_arith)
            requires
                a == abs(d) * n,
                abs(d) == 0,
        ;
        assert(q == 0) by (nonlinear_arith)
            requires
                m * q == 0,
                m > 0,
        ;
        assert(d * n == 0) by (nonlinear_arith)
            requires
                d == 0,
        ;
    }
}

/// The point at which two properly crossing segments meet, where it is a
/// lattice point, lies strictly within both segments.
pub proof fn lemma_exact_point_inside(t: XSegment, o: XSegment)
    requires
        t.wf(),
        o.wf(),
        CrossSolver::crosses_properly(t, o),
        CrossSolver::spec_is_exact(t, o),
    ensures
        strictly_within(t, CrossSolver::spec_cross_point(t, o)),
        strictly_within(o, CrossSolver::spec_cross_point(t, o)),
{
    let x = CrossSolver::spec_cross_point(t, o);
    lemma_cross_point_in_rects(t, o);
    let a3 = area_two(o.a, o.b, t.a);
    let a4 = area_two(o.a, o.b, t.b);
    lemma_opposite_signs(a3, a4);
    let n = abs(a3);
    let m = n + abs(a4);
    assert(0 < n < m);
    let sx = snap_coordinate(t.a.x as int, t.b.x as int, n, m);
    let sy = snap_coordinate(t.a.y as int, t.b.y as int, n, m);
    assert(x.x == sx && x.y == sy);
    lemma_exact_snap(t.a.x as int, t.b.x as int, n, m);
    lemma_exact_snap(t.a.y as int, t.b.y as int, n, m);
    let ux = t.b.x - t.a.x;
    let uy = t.b.y - t.a.y;
    let ex = x.x - t.a.x;
    let ey = x.y - t.a.y;
    // The step to the point is the step of the segment, shortened.
    assert(m * ex == ux * n);
    assert(m * ey == uy * n);
    let c = cross(ux, uy, ex, ey);
    assert(c * m == 0) by (nonlinear_arith)
        requires
            c == ux * ey - uy * ex,
            m * ex == ux * n,
            m * ey == uy * n,
    {
        assert(ux * ey * m == ux * (uy * n));
        assert(uy * ex * m == uy * (ux * n));
        assert(ux * (uy * n) == uy * (ux * n));
    }
    assert(c == 0) by (nonlinear_arith)
        requires
            c * m == 0,
            m > 0,
    ;
    lemma_area_step(t.a, t.b, t.a, x);
    assert(area_two(t.a, t.b, t.a) == 0) by (nonlinear_arith)
        requires
            area_two(t.a, t.b, t.a) == (t.b.x - t.a.x) * (t.a.y - t.a.y) - (t.b.y - t.a.y) * (t.a.x - t.a.x),
    ;
    assert(on_line(t, x));
    // The point lies on the line of the other segment: it is the point that
    // the proper crossing has in common with it.
    if ux > 0 {
        assert(0 < ex < ux) by (nonlinear_arith)
            requires
                m * ex == ux * n,
                0 < n < m,
                ux > 0,
        {
            assert(ux * n > 0);
            if ex >= ux {
                assert(m * ex >= m * ux);
                assert(m * ux > n * ux);
            }
        }
    } else {
        assert(ux == 0);
        assert(ex == 0) by (nonlinear_arith)
            requires
                m * ex == ux * n,
                ux == 0,
                m > 0,
        ;
        assert(0 < ey < uy) by (nonlinear_arith)
            requires
                m * ey == uy * n,
                0 < n < m,
                uy > 0,
        {
            assert(uy * n > 0);
            if ey >= uy {
                assert(m * ey >= m * uy);
                assert(m * uy > n * uy);
            }
        }
    }
    assert(strictly_within(t, x));
    // On the other segment the point has the weights of the areas that the
    // ends of that segment span with `t`.
    lemma_cross_weights(t, o);
    let wa = abs(area_two(t.a, t.b, o.b));
    let wb = abs(area_two(t.a, t.b, o.a));
    let vx = o.b.x - o.a.x;
    let vy = o.b.y - o.a.y;
    let fx = x.x - o.a.x;
    let fy = x.y - o.a.y;
    assert(m * x.x == wa * o.a.x + wb * o.b.x) by (nonlinear_arith)
        requires
            m * (x.x - t.a.x) == (t.b.x - t.a.x) * n,
            m * t.a.x + (t.b.x - t.a.x) * n == wa * o.a.x + wb * o.b.x,
    ;
    assert(m * x.y == wa * o.a.y + wb * o.b.y) by (nonlinear_arith)
        requires
            m * (x.y - t.a.y) == (t.b.y - t.a.y) * n,
            m * t.a.y + (t.b.y - t.a.y) * n == wa * o.a.y + wb * o.b.y,
    ;
    assert(m * fx == vx * wb) by (nonlinear_arith)
        requires
            m * x.x == wa * o.a.x + wb * o.b.x,
            wa + wb == m,
            fx == x.x - o.a.x,
            vx == o.b.x - o.a.x,
    ;
    assert(m * fy == vy * wb) by (nonlinear_arith)
        requires
            m * x.y == wa * o.a.y + wb * o.b.y,
            wa + wb == m,
            fy == x.y - o.a.y,
            vy == o.b.y - o.a.y,
    ;
    let co = cross(vx, vy, fx, fy);
    assert(co * m == 0) by (nonlinear_arith)
        requires
            co == vx * fy - vy * fx,
            m * fx == vx * wb,
            m * fy == vy * wb,
    {
        assert(vx * fy * m == vx * (vy * wb));
        assert(vy * fx * m == vy * (vx * wb));
        assert(vx * (vy * wb) == vy * (vx * wb));
    }
    assert(co == 0) by (nonlinear_arith)
        requires
            co * m == 0,
            m > 0,
    ;
    lemma_area_step(o.a, o.b, o.a, x);
    assert(area_two(o.a, o.b, o.a) == 0) by (nonlinear_arith)
        requires
            area_two(o.a, o.b, o.a) == (o.b.x - o.a.x) * (o.a.y - o.a.y) - (o.b.y - o.a.y) * (o.a.x - o.a.x),
    ;
    assert(on_line(o, x));
    if vx > 0 {
        assert(0 < fx < vx) by (nonlinear_arith)
            requires
                m * fx == vx * wb,
                0 < wb < m,
                vx > 0,
        {
            assert(vx * wb > 0);
            if fx >= vx {
                assert(m * fx >= m * vx);
                assert(m * vx > wb * vx);
            }
        }
    } else {
        assert(vx == 0);
        assert(fx == 0) by (nonlinear_arith)
            requires
                m * fx == vx * wb,
                vx == 0,
                m > 0,
        ;
        assert(0 < fy < vy) by (nonlinear_arith)
            requires
                m * fy == vy * wb,
                0 < wb < m,
                vy > 0,
        {
            assert(vy * wb > 0);
            if fy >= vy {
                assert(m * fy >= m * vy);
                assert(m * vy > wb * vy);
            }
        }
    }
    assert(strictly_within(o, x));
}

} // verus!
