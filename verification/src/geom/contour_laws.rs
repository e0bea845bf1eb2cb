use vstd::prelude::*;
use crate::geom::contour::{
    area_two_upto, chained, closed_chain, edge_term, extended, next_point, spec_area_two_path, spec_simplified,
};
use crate::geom::point::{area_two, IntPoint};

verus! {

/// What the first `n` edges of an open chain of points add to twice the
/// signed area.
pub open spec fn chain_sum(s: Seq<IntPoint>, n: int) -> int
    decreases n,
{
    if n <= 0 {
        0
    } else {
        chain_sum(s, n - 1) + edge_term(s[n - 1], s[n])
    }
}

/// Going from `a` by `b` to `c` in place of going from `a` to `c` adds the
/// doubled area of the triangle of the three points.
pub proof fn lemma_edge_terms(a: IntPoint, b: IntPoint, c: IntPoint)
    ensures
        edge_term(a, b) + edge_term(b, c) - edge_term(a, c) == area_two(a, b, c),
{
    let ax = a.x as int;
    let ay = a.y as int;
    let bx = b.x as int;
    let by = b.y as int;
    let cx = c.x as int;
    let cy = c.y as int;
    assert((bx - ax) * (cy - ay) == bx * cy - bx * ay - ax * cy + ax * ay) by (nonlinear_arith);
    assert((by - ay) * (cx - ax) == by * cx - by * ax - ay * cx + ay * ax) by (nonlinear_arith);
    assert(ax * by == by * ax) by (nonlinear_arith);
    assert(cx * by == by * cx) by (nonlinear_arith);
    assert(cx * ay == ay * cx) by (nonlinear_arith);
    assert(ax * ay == ay * ax) by (nonlinear_arith);
}

/// The sum over the first edges of a chain takes no later point into
/// account.
pub proof fn lemma_chain_sum_prefix(a: Seq<IntPoint>, b: Seq<IntPoint>, n: int)
    requires
        n < a.len(),
        n < b.len(),
        forall|i: int| 0 <= i <= n ==> a[i] == b[i],
    ensures
        chain_sum(a, n) == chain_sum(b, n),
    decreases n,
{
    if n > 0 {
        lemma_chain_sum_prefix(a, b, n - 1);
    }
}

/// The sum over a chain without its first point.
pub proof fn lemma_chain_sum_shift(s: Seq<IntPoint>, n: int)
    requires
        1 <= n < s.len(),
    ensures
        chain_sum(s, n) == edge_term(s[0], s[1]) + chain_sum(s.drop_first(), n - 1),
    decreases n,
{
    if n > 1 {
        lemma_chain_sum_shift(s, n - 1);
        assert(s.drop_first()[n - 2] == s[n - 1]);
        assert(s.drop_first()[n - 1] == s[n]);
    } else {
        assert(chain_sum(s, 0) == 0);
        assert(chain_sum(s.drop_first(), 0) == 0);
    }
}

/// Twice the area of a closed path is the sum over the chain of its points
/// and the edge that closes it.
pub proof fn lemma_area_is_chain_sum(s: Seq<IntPoint>)
    requires
        s.len() >= 1,
    ensures
        spec_area_two_path(s) == chain_sum(s, s.len() - 1) + edge_term(s.last(), s[0]),
{
    lemma_upto_is_chain_sum(s, s.len() - 1);
}

/// As long as no edge closes the path, the area of the first edges is the
/// sum over their chain.
proof fn lemma_upto_is_chain_sum(s: Seq<IntPoint>, n: int)
    requires
        0 <= n < s.len(),
    ensures
        area_two_upto(s, n) == chain_sum(s, n),
    decreases n,
{
    if n > 0 {
        lemma_upto_is_chain_sum(s, n - 1);
        assert(next_point(s, n - 1) == s[n]);
    }
}

/// What a point more at the end of a closed path changes in twice its area.
pub proof fn lemma_area_push(s: Seq<IntPoint>, p: IntPoint)
    requires
        s.len() >= 1,
    ensures
        spec_area_two_path(s.push(p)) == spec_area_two_path(s) - edge_term(s.last(), s[0]) + edge_term(s.last(), p)
            + edge_term(p, s[0]),
{
    let longer = s.push(p);
    lemma_area_is_chain_sum(s);
    lemma_area_is_chain_sum(longer);
    lemma_chain_sum_prefix(s, longer, s.len() - 1);
    assert(chain_sum(longer, s.len() as int) == chain_sum(longer, s.len() - 1) + edge_term(
        longer[s.len() - 1],
        longer[s.len() as int],
    ));
}

/// What the first point of a closed path adds to twice its area.
pub proof fn lemma_area_drop_first(s: Seq<IntPoint>)
    requires
        s.len() >= 2,
    ensures
        spec_area_two_path(s) == spec_area_two_path(s.drop_first()) - edge_term(s.last(), s[1]) + edge_term(
            s.last(),
            s[0],
        ) + edge_term(s[0], s[1]),
{
    let shorter = s.drop_first();
    lemma_area_is_chain_sum(s);
    lemma_area_is_chain_sum(shorter);
    lemma_chain_sum_shift(s, s.len() - 1);
    assert(shorter.last() == s.last());
    assert(shorter[0] == s[1]);
}

/// A chain that is extended by a point keeps its first point, ends with the
/// new point, and encloses what the chain with the point at its end
/// encloses.
pub proof fn lemma_extended_area(out: Seq<IntPoint>, p: IntPoint)
    requires
        out.len() >= 1,
    ensures
        extended(out, p).len() >= 1,
        extended(out, p)[0] == out[0],
        extended(out, p).last() == p,
        spec_area_two_path(extended(out, p)) == spec_area_two_path(out.push(p)),
    decreases out.len(),
{
    lemma_area_push(out, p);
    if out.last() == p {
        assert(edge_term(p, p) == 0) by (nonlinear_arith);
    } else if out.len() >= 2 && area_two(out[out.len() - 2], out.last(), p) == 0 {
        let shorter = out.drop_last();
        let a = shorter.last();
        let b = out.last();
        lemma_extended_area(shorter, p);
        lemma_area_push(shorter, p);
        lemma_area_push(shorter, b);
        assert(shorter.push(b) == out);
        lemma_edge_terms(a, b, p);
    }
}

/// The chain of the first points of a path begins and ends with the path and
/// encloses what these points enclose.
pub proof fn lemma_chained_area(path: Seq<IntPoint>, n: int)
    requires
        1 <= n <= path.len(),
    ensures
        chained(path, n).len() >= 1,
        chained(path, n)[0] == path[0],
        chained(path, n).last() == path[n - 1],
        spec_area_two_path(chained(path, n)) == spec_area_two_path(path.subrange(0, n)),
    decreases n,
{
    let p = path[n - 1];
    if n == 1 {
        assert(chained(path, 0) == Seq::<IntPoint>::empty());
        assert(chained(path, 1) == Seq::<IntPoint>::empty().push(p));
        assert(path.subrange(0, 1) == Seq::<IntPoint>::empty().push(p));
    } else {
        let before = chained(path, n - 1);
        let points = path.subrange(0, n - 1);
        lemma_chained_area(path, n - 1);
        lemma_extended_area(before, p);
        lemma_area_push(before, p);
        lemma_area_push(points, p);
        assert(points.push(p) == path.subrange(0, n));
    }
}

/// Closing a chain does not change what it encloses.
pub proof fn lemma_closed_chain_area(out: Seq<IntPoint>, start: int)
    requires
        0 <= start <= out.len(),
    ensures
        spec_area_two_path(closed_chain(out, start)) == spec_area_two_path(out.subrange(start, out.len() as int)),
    decreases out.len() - start,
{
    let whole = out.subrange(start, out.len() as int);
    if out.len() - start < 3 {
    } else if area_two(out[out.len() - 2], out.last(), out[start]) == 0 {
        let shorter = out.drop_last();
        let rest = shorter.subrange(start, shorter.len() as int);
        lemma_closed_chain_area(shorter, start);
        assert(rest.push(out.last()) == whole);
        lemma_area_push(rest, out.last());
        lemma_edge_terms(out[out.len() - 2], out.last(), out[start]);
        assert(rest.last() == out[out.len() - 2]);
        assert(rest[0] == out[start]);
    } else if area_two(out.last(), out[start], out[start + 1]) == 0 {
        let rest = out.subrange(start + 1, out.len() as int);
        lemma_closed_chain_area(out, start + 1);
        assert(whole.drop_first() == rest);
        lemma_area_drop_first(whole);
        lemma_edge_terms(out.last(), out[start], out[start + 1]);
        assert(whole.last() == out.last());
        assert(whole[0] == out[start]);
        assert(whole[1] == out[start + 1]);
    }
}

/// Simplifying a closed path does not change the area that it encloses.
pub proof fn lemma_simplified_area(path: Seq<IntPoint>)
    ensures
        spec_area_two_path(spec_simplified(path)) == spec_area_two_path(path),
{
    let n = path.len() as int;
    let chain = chained(path, n);
    lemma_closed_chain_area(chain, 0);
    assert(chain.subrange(0, chain.len() as int) == chain);
    if n >= 1 {
        lemma_chained_area(path, n);
        assert(path.subrange(0, n) == path);
    } else {
        assert(chain == path);
    }
}

} // verus!
