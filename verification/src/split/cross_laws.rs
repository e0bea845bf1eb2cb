use vstd::prelude::*;
use crate::geom::arith::{abs, round_div, sign};
use crate::geom::point::{area_two, orient, IntPoint};
use crate::geom::rect::IntRect;
use crate::geom::x_segment::XSegment;
use crate::split::cross_solver::{nearest_end, nearest_end_distance, snap_coordinate, CrossSolver, CrossType};
use crate::split::fragment::Fragment;
use crate::split::solver::{cross_marks, point_marks};

verus! {

/// A quotient is at least `k` where the dividend is at least `k` times the
/// divisor.
pub proof fn lemma_div_at_least(a: int, d: int, k: int)
    requires
        d > 0,
        a >= d * k,
    ensures
        a / d >= k,
{
    assert(a / d >= k) by (nonlinear_arith)
        requires
            d > 0,
            a >= d * k,
    {
        assert(a == d * (a / d) + a % d);
        assert(0 <= a % d < d);
        if a / d < k {
            assert(a / d + 1 <= k);
            assert(d * (a / d + 1) <= d * k);
        }
    }
}

/// A quotient is at most `k` where the dividend is less than `k + 1` times
/// the divisor.
pub proof fn lemma_div_at_most(a: int, d: int, k: int)
    requires
        d > 0,
        a < d * (k + 1),
    ensures
        a / d <= k,
{
    assert(a / d <= k) by (nonlinear_arith)
        requires
            d > 0,
            a < d * (k + 1),
    {
        assert(a == d * (a / d) + a % d);
        assert(0 <= a % d < d);
        if a / d > k {
            assert(a / d >= k + 1);
            assert(d * (a / d) >= d * (k + 1));
        }
    }
}

/// A snapped coordinate lies between the integer bounds between which the
/// exact coordinate lies.
pub proof fn lemma_snap_between(from: int, to: int, n: int, m: int, lo: int, hi: int)
    requires
        0 < m,
        0 <= n <= m,
        m * lo <= m * from + (to - from) * n,
        m * from + (to - from) * n <= m * hi,
    ensures
        lo <= snap_coordinate(from, to, n, m) <= hi,
{
    let d = to - from;
    let q = round_div(abs(d) * n, m);
    if d >= 0 {
        assert(abs(d) == d);
        assert(2 * (d * n) + m >= (2 * m) * (lo - from)) by (nonlinear_arith)
            requires
                m * lo <= m * from + d * n,
                m > 0,
        ;
        lemma_div_at_least(2 * (d * n) + m, 2 * m, lo - from);
        assert(2 * (d * n) + m < (2 * m) * (hi - from + 1)) by (nonlinear_arith)
            requires
                m * from + d * n <= m * hi,
                m > 0,
        ;
        lemma_div_at_most(2 * (d * n) + m, 2 * m, hi - from);
        if d == 0 {
            assert(abs(d) * n == 0) by (nonlinear_arith)
                requires
                    abs(d) == 0,
            ;
            assert(q == 0) by (nonlinear_arith)
                requires
                    q == (2 * 0 + m) / (2 * m),
                    m > 0,
            ;
        }
    } else {
        assert(abs(d) == -d);
        let e = -d;
        assert(2 * (e * n) + m < (2 * m) * (from - lo + 1)) by (nonlinear_arith)
            requires
                m * lo <= m * from + d * n,
                e == -d,
                m > 0,
        ;
        lemma_div_at_most(2 * (e * n) + m, 2 * m, from - lo);
        assert(2 * (e * n) + m >= (2 * m) * (from - hi)) by (nonlinear_arith)
            requires
                m * from + d * n <= m * hi,
                e == -d,
                m > 0,
        ;
        lemma_div_at_least(2 * (e * n) + m, 2 * m, from - hi);
    }
}

/// For vectors `u`, `v`, `w`: the cross product of `w` and `v`, times `u`,
/// is the cross product of `u` and `v`, times `w`, less the cross product of
/// `u` and `w`, times `v`; stated for one component `uc`, `vc`, `wc`.
pub proof fn lemma_triple(ux: int, uy: int, vx: int, vy: int, wx: int, wy: int, uc: int, vc: int, wc: int)
    requires
        (uc == ux && vc == vx && wc == wx) || (uc == uy && vc == vy && wc == wy),
    ensures
        (wx * vy - wy * vx) * uc == (ux * vy - uy * vx) * wc - (ux * wy - uy * wx) * vc,
{
    let left = (wx * vy - wy * vx) * uc;
    let d = (ux * vy - uy * vx) * wc;
    let a = (ux * wy - uy * wx) * vc;
    assert(left == wx * vy * uc - wy * vx * uc) by (nonlinear_arith)
        requires
            left == (wx * vy - wy * vx) * uc,
    ;
    assert(d == ux * vy * wc - uy * vx * wc) by (nonlinear_arith)
        requires
            d == (ux * vy - uy * vx) * wc,
    ;
    assert(a == ux * wy * vc - uy * wx * vc) by (nonlinear_arith)
        requires
            a == (ux * wy - uy * wx) * vc,
    ;
    if uc == ux {
        assert(wx * vy * ux == ux * vy * wx) by (nonlinear_arith);
        assert(wy * vx * ux == ux * wy * vx) by (nonlinear_arith);
        assert(uy * vx * wx == uy * wx * vx) by (nonlinear_arith);
    } else {
        assert(wx * vy * uy == uy * wx * vy) by (nonlinear_arith);
        assert(wy * vx * uy == uy * vx * wy) by (nonlinear_arith);
        assert(ux * vy * wy == ux * wy * vy) by (nonlinear_arith);
    }
}

/// One coordinate of the identity that ties the areas of the ends of two
/// segments together: `t` is the coordinate of the start of the first
/// segment, `u` and `v` are the coordinates of the directions of the two
/// segments, and `w` leads from the start of the first to the start of the
/// second.
pub proof fn lemma_weights_tied(a1: int, a2: int, a3: int, a4: int, d: int, t: int, u: int, w: int, v: int)
    requires
        a2 == a1 + d,
        a4 == a3 - d,
        a3 * u == d * w - a1 * v,
    ensures
        a3 * (t + u) - a4 * t == a2 * (t + w) - a1 * (t + w + v),
{
    assert(a3 * (t + u) == a3 * t + a3 * u) by (nonlinear_arith);
    assert(a4 * t == a3 * t - d * t) by (nonlinear_arith)
        requires
            a4 == a3 - d,
    ;
    assert(a2 * (t + w) == a1 * t + d * t + a1 * w + d * w) by (nonlinear_arith)
        requires
            a2 == a1 + d,
    ;
    assert(a1 * (t + w + v) == a1 * t + a1 * w + a1 * v) by (nonlinear_arith);
}

/// The doubled areas that the ends of two segments span with the other
/// segment are tied together: the point that divides the first segment in
/// the ratio of the areas of its ends divides the second in the ratio of the
/// areas of its ends.
pub proof fn lemma_areas_tied(t: XSegment, o: XSegment)
    ensures
        area_two(o.a, o.b, t.a) - area_two(o.a, o.b, t.b) == area_two(t.a, t.b, o.b) - area_two(t.a, t.b, o.a),
        area_two(o.a, o.b, t.a) * t.b.x - area_two(o.a, o.b, t.b) * t.a.x == area_two(t.a, t.b, o.b) * o.a.x
            - area_two(t.a, t.b, o.a) * o.b.x,
        area_two(o.a, o.b, t.a) * t.b.y - area_two(o.a, o.b, t.b) * t.a.y == area_two(t.a, t.b, o.b) * o.a.y
            - area_two(t.a, t.b, o.a) * o.b.y,
{
    let ux = t.b.x - t.a.x;
    let uy = t.b.y - t.a.y;
    let vx = o.b.x - o.a.x;
    let vy = o.b.y - o.a.y;
    let wx = o.a.x - t.a.x;
    let wy = o.a.y - t.a.y;
    let a1 = area_two(t.a, t.b, o.a);
    let a2 = area_two(t.a, t.b, o.b);
    let a3 = area_two(o.a, o.b, t.a);
    let a4 = area_two(o.a, o.b, t.b);
    let d = ux * vy - uy * vx;
    assert(a1 == ux * wy - uy * wx);
    assert(a2 == a1 + d) by (nonlinear_arith)
        requires
            a2 == ux * (wy + vy) - uy * (wx + vx),
            a1 == ux * wy - uy * wx,
            d == ux * vy - uy * vx,
    ;
    assert(a3 == wx * vy - wy * vx) by (nonlinear_arith)
        requires
            a3 == vx * (0 - wy) - vy * (0 - wx),
    ;
    assert(a4 == a3 - d) by (nonlinear_arith)
        requires
            a4 == vx * (uy - wy) - vy * (ux - wx),
            a3 == wx * vy - wy * vx,
            d == ux * vy - uy * vx,
    ;
    lemma_triple(ux, uy, vx, vy, wx, wy, ux, vx, wx);
    lemma_triple(ux, uy, vx, vy, wx, wy, uy, vy, wy);
    let tax = t.a.x as int;
    let tay = t.a.y as int;
    lemma_weights_tied(a1, a2, a3, a4, d, tax, ux, wx, vx);
    lemma_weights_tied(a1, a2, a3, a4, d, tay, uy, wy, vy);
}

/// Two factors of which the signs multiply to less than zero have strictly
/// opposite signs.
pub proof fn lemma_opposite_signs(a: int, b: int)
    requires
        sign(a) * sign(b) < 0,
    ensures
        (a > 0 && b < 0) || (a < 0 && b > 0),
{
    if a > 0 {
        if b >= 0 {
            assert(sign(a) * sign(b) >= 0) by (nonlinear_arith)
                requires
                    sign(a) == 1,
                    sign(b) >= 0,
            ;
        }
    } else if a < 0 {
        if b <= 0 {
            assert(sign(a) * sign(b) >= 0) by (nonlinear_arith)
                requires
                    sign(a) == -1,
                    sign(b) <= 0,
            ;
        }
    } else {
        assert(sign(a) * sign(b) == 0) by (nonlinear_arith)
            requires
                sign(a) == 0,
        ;
    }
}

/// A weighted mean of two integers lies between them.
pub proof fn lemma_mean_between(p: int, q: int, wp: int, wq: int)
    requires
        wp >= 0,
        wq >= 0,
    ensures
        (wp + wq) * (if p <= q { p } else { q }) <= wp * p + wq * q,
        wp * p + wq * q <= (wp + wq) * (if p <= q { q } else { p }),
{
    let lo = if p <= q {
        p
    } else {
        q
    };
    let hi = if p <= q {
        q
    } else {
        p
    };
    assert((wp + wq) * lo <= wp * p + wq * q) by (nonlinear_arith)
        requires
            wp >= 0,
            wq >= 0,
            lo <= p,
            lo <= q,
    ;
    assert(wp * p + wq * q <= (wp + wq) * hi) by (nonlinear_arith)
        requires
            wp >= 0,
            wq >= 0,
            p <= hi,
            q <= hi,
    ;
}

/// The point at which two properly crossing segments meet, as a weighted
/// mean of the ends of either segment: with the weights `abs(a4)` and
/// `abs(a3)` of the ends of `t` and the weights `abs(a2)` and `abs(a1)` of
/// the ends of `o`, where `a1`, `a2` are the doubled areas that the ends of
/// `o` span with `t`, and `a3`, `a4` those that the ends of `t` span with
/// `o`.
pub proof fn lemma_cross_weights(t: XSegment, o: XSegment)
    requires
        CrossSolver::crosses_properly(t, o),
    ensures
        ({
            let n = abs(area_two(o.a, o.b, t.a));
            let k = abs(area_two(o.a, o.b, t.b));
            let wa = abs(area_two(t.a, t.b, o.b));
            let wb = abs(area_two(t.a, t.b, o.a));
            &&& n > 0
            &&& k > 0
            &&& wa > 0
            &&& wb > 0
            &&& wa + wb == n + k
            &&& (n + k) * t.a.x + (t.b.x - t.a.x) * n == wa * o.a.x + wb * o.b.x
            &&& (n + k) * t.a.y + (t.b.y - t.a.y) * n == wa * o.a.y + wb * o.b.y
            &&& (n + k) * t.a.x + (t.b.x - t.a.x) * n == k * t.a.x + n * t.b.x
            &&& (n + k) * t.a.y + (t.b.y - t.a.y) * n == k * t.a.y + n * t.b.y
        }),
{
    let a1 = area_two(t.a, t.b, o.a);
    let a2 = area_two(t.a, t.b, o.b);
    let a3 = area_two(o.a, o.b, t.a);
    let a4 = area_two(o.a, o.b, t.b);
    lemma_opposite_signs(a1, a2);
    lemma_opposite_signs(a3, a4);
    lemma_areas_tied(t, o);
    let n = abs(a3);
    let k = abs(a4);
    let m = n + k;
    let wa = abs(a2);
    let wb = abs(a1);
    assert(wa + wb == m);
    let tax = t.a.x as int;
    let tay = t.a.y as int;
    let tbx = t.b.x as int;
    let tby = t.b.y as int;
    let ex = m * tax + (tbx - tax) * n;
    let ey = m * tay + (tby - tay) * n;
    assert(ex == k * tax + n * tbx) by (nonlinear_arith)
        requires
            ex == m * tax + (tbx - tax) * n,
            m == n + k,
    ;
    assert(ey == k * tay + n * tby) by (nonlinear_arith)
        requires
            ey == m * tay + (tby - tay) * n,
            m == n + k,
    ;
    assert(ex == wa * o.a.x + wb * o.b.x) by (nonlinear_arith)
        requires
            ex == k * tax + n * tbx,
            a3 * tbx - a4 * tax == a2 * o.a.x - a1 * o.b.x,
            (a3 > 0 && a4 < 0 && n == a3 && k == -a4 && wa == a2 && wb == -a1) || (a3 < 0 && a4 > 0 && n == -a3
                && k == a4 && wa == -a2 && wb == a1),
    ;
    assert(ey == wa * o.a.y + wb * o.b.y) by (nonlinear_arith)
        requires
            ey == k * tay + n * tby,
            a3 * tby - a4 * tay == a2 * o.a.y - a1 * o.b.y,
            (a3 > 0 && a4 < 0 && n == a3 && k == -a4 && wa == a2 && wb == -a1) || (a3 < 0 && a4 > 0 && n == -a3
                && k == a4 && wa == -a2 && wb == a1),
    ;
}

/// The point at which two properly crossing segments are cut lies in the
/// bounding rectangle of either segment, and its coordinates are the snapped
/// coordinates.
pub proof fn lemma_cross_point_in_rects(t: XSegment, o: XSegment)
    requires
        CrossSolver::crosses_properly(t, o),
    ensures
        t.spec_rect().spec_contains_with_radius(CrossSolver::spec_cross_point(t, o), 0),
        o.spec_rect().spec_contains_with_radius(CrossSolver::spec_cross_point(t, o), 0),
        ({
            let n = abs(area_two(o.a, o.b, t.a));
            let m = n + abs(area_two(o.a, o.b, t.b));
            &&& CrossSolver::spec_cross_point(t, o).x == snap_coordinate(t.a.x as int, t.b.x as int, n, m)
            &&& CrossSolver::spec_cross_point(t, o).y == snap_coordinate(t.a.y as int, t.b.y as int, n, m)
        }),
{
    lemma_cross_weights(t, o);
    let n = abs(area_two(o.a, o.b, t.a));
    let k = abs(area_two(o.a, o.b, t.b));
    let m = n + k;
    let wa = abs(area_two(t.a, t.b, o.b));
    let wb = abs(area_two(t.a, t.b, o.a));
    let tax = t.a.x as int;
    let tay = t.a.y as int;
    let tbx = t.b.x as int;
    let tby = t.b.y as int;
    lemma_mean_between(tax, tbx, k, n);
    lemma_mean_between(tay, tby, k, n);
    lemma_mean_between(o.a.x as int, o.b.x as int, wa, wb);
    lemma_mean_between(o.a.y as int, o.b.y as int, wa, wb);
    let tr = t.spec_rect();
    let or = o.spec_rect();
    lemma_snap_between(tax, tbx, n, m, tr.min_x as int, tr.max_x as int);
    lemma_snap_between(tay, tby, n, m, tr.min_y as int, tr.max_y as int);
    lemma_snap_between(tax, tbx, n, m, or.min_x as int, or.max_x as int);
    lemma_snap_between(tay, tby, n, m, or.min_y as int, or.max_y as int);
}

/// Segments that cross properly have bounding rectangles that meet.
pub proof fn lemma_cross_needs_rects(t: XSegment, o: XSegment)
    requires
        CrossSolver::crosses_properly(t, o),
    ensures
        t.spec_rect().spec_is_intersect_border_include(o.spec_rect()),
{
    lemma_cross_point_in_rects(t, o);
}

/// Crossing properly does not depend on which segment is named first.
pub proof fn lemma_cross_symmetric(t: XSegment, o: XSegment)
    ensures
        CrossSolver::crosses_properly(t, o) == CrossSolver::crosses_properly(o, t),
{
}

/// Where the cross solver reports a crossing in the interior of both
/// segments, the segments cross properly.
pub proof fn lemma_pure_is_proper(t: XSegment, o: XSegment, radius: int)
    requires
        CrossSolver::spec_cross(t, o, radius) matches Some(c) && c.cross_type == CrossType::Pure,
    ensures
        CrossSolver::crosses_properly(t, o),
{
    let oa = orient(t.a, t.b, o.a);
    let ob = orient(t.a, t.b, o.b);
    let ta = orient(o.a, o.b, t.a);
    let tb = orient(o.a, o.b, t.b);
    assert(oa != 0 && ob != 0 && ta != 0 && tb != 0 && oa != ob && ta != tb);
    assert(oa * ob < 0) by (nonlinear_arith)
        requires
            (oa == 1 && ob == -1) || (oa == -1 && ob == 1),
    ;
    assert(ta * tb < 0) by (nonlinear_arith)
        requires
            (ta == 1 && tb == -1) || (ta == -1 && tb == 1),
    ;
}

/// A point within the squared distance `radius` of a point of a rectangle
/// lies in the rectangle grown by `radius`.
pub proof fn lemma_near_point_in_grown_rect(rect: IntRect, p: IntPoint, q: IntPoint, radius: int)
    requires
        rect.spec_contains_with_radius(p, 0),
        q.spec_sqr_distance(p) <= radius,
        radius >= 1,
    ensures
        rect.spec_contains_with_radius(q, radius),
{
    let dx = q.x - p.x;
    let dy = q.y - p.y;
    assert(-radius <= dx <= radius && -radius <= dy <= radius) by (nonlinear_arith)
        requires
            dx * dx + dy * dy <= radius,
            radius >= 1,
    {
        assert(dx * dx >= 0);
        assert(dy * dy >= 0);
        assert(dx * dx >= dx);
        assert(dx * dx >= -dx);
        assert(dy * dy >= dy);
        assert(dy * dy >= -dy);
    }
}

/// A pair of fragments whose segments cross properly yields a mark at every
/// snap radius from one on, where the rectangles of both fragments hold the
/// point at which the segments are cut.
pub proof fn lemma_proper_pair_is_marked(fi: Fragment, fj: Fragment, radius: int)
    requires
        CrossSolver::crosses_properly(fi.x_segment, fj.x_segment),
        radius >= 1,
        fi.rect.spec_contains_with_radius(CrossSolver::spec_cross_point(fi.x_segment, fj.x_segment), 0),
        fj.rect.spec_contains_with_radius(CrossSolver::spec_cross_point(fi.x_segment, fj.x_segment), 0),
    ensures
        cross_marks(fi, fj, radius).0.len() > 0,
{
    let t = fi.x_segment;
    let o = fj.x_segment;
    lemma_opposite_signs(area_two(t.a, t.b, o.a), area_two(t.a, t.b, o.b));
    lemma_opposite_signs(area_two(o.a, o.b, t.a), area_two(o.a, o.b, t.b));
    let p = CrossSolver::spec_cross_point(t, o);
    let c = CrossSolver::spec_middle_cross(t, o, radius);
    assert(CrossSolver::spec_cross(t, o, radius) == Some(c));
    if c.cross_type == CrossType::Pure {
        assert(c.point == p);
    } else if c.cross_type == CrossType::TargetEnd {
        assert(c.point == nearest_end(t, p));
        assert(nearest_end(t, p).spec_sqr_distance(p) == nearest_end_distance(t, p));
        lemma_near_point_in_grown_rect(fi.rect, p, c.point, radius);
        lemma_near_point_in_grown_rect(fj.rect, p, c.point, radius);
    } else {
        assert(c.cross_type == CrossType::OtherEnd);
        assert(c.point == nearest_end(o, p));
        assert(nearest_end(o, p).spec_sqr_distance(p) == nearest_end_distance(o, p));
        lemma_near_point_in_grown_rect(fi.rect, p, c.point, radius);
        lemma_near_point_in_grown_rect(fj.rect, p, c.point, radius);
    }
    assert(fi.rect.spec_contains_with_radius(c.point, radius));
    assert(fj.rect.spec_contains_with_radius(c.point, radius));
    assert(cross_marks(fi, fj, radius).0 == point_marks(fi, fj, c));
}

} // verus!
