use vstd::prelude::*;
use crate::geom::arith::{lemma_mul_fits, mul_wide};
use crate::geom::point::{area_two, area_two_of, IntPoint};

verus! {

/// A closed sequence of points; the last point is joined to the first.
pub type IntPath = Vec<IntPoint>;

/// A shape: its outer contour first, then its holes.
pub type IntShape = Vec<IntPath>;

/// A list of shapes.
pub type IntShapes = Vec<IntShape>;

/// What the edge from `p` to `q` adds to twice the signed area.
pub open spec fn edge_term(p: IntPoint, q: IntPoint) -> int {
    p.x * q.y - q.x * p.y
}

/// The point that follows point `i` on a closed path.
pub open spec fn next_point(path: Seq<IntPoint>, i: int) -> IntPoint {
    if i + 1 < path.len() {
        path[i + 1]
    } else {
        path[0]
    }
}

/// What the first `n` edges of a closed path add to twice the signed area.
pub open spec fn area_two_upto(path: Seq<IntPoint>, n: int) -> int
    decreases n,
{
    if n <= 0 {
        0
    } else {
        area_two_upto(path, n - 1) + edge_term(path[n - 1], next_point(path, n - 1))
    }
}

/// Twice the signed area that a closed path encloses: positive where the path
/// runs counter-clockwise.
pub open spec fn spec_area_two_path(path: Seq<IntPoint>) -> int {
    area_two_upto(path, path.len() as int)
}

/// Twice the signed area that a closed path encloses.
pub fn area_two_path(path: &Vec<IntPoint>) -> (r: i128)
    ensures
        r == spec_area_two_path(path@),
{
    let n: usize = path.len();
    let mut acc: i128 = 0;
    let mut i: usize = 0;
    while i < n
        invariant
            n == path.len(),
            i <= n,
            acc == area_two_upto(path@, i as int),
            -(i * 0x8000_0000_0000_0000) <= acc <= i * 0x8000_0000_0000_0000,
        decreases n - i,
    {
        let p: IntPoint = path[i];
        let q: IntPoint = if i + 1 < n {
            path[i + 1]
        } else {
            path[0]
        };
        proof {
            lemma_mul_fits(p.x as int, q.y as int, 0x8000_0000);
            lemma_mul_fits(q.x as int, p.y as int, 0x8000_0000);
            assert(0x8000_0000int * 0x8000_0000int == 0x4000_0000_0000_0000int) by (nonlinear_arith);
        }
        let term: i128 = mul_wide(p.x as i64, q.y as i64) - mul_wide(q.x as i64, p.y as i64);
        assert((i + 1) * 0x8000_0000_0000_0000 == i * 0x8000_0000_0000_0000 + 0x8000_0000_0000_0000)
            by (nonlinear_arith);
        assert(i * 0x8000_0000_0000_0000 <= 0xffff_ffff_ffff_ffff * 0x8000_0000_0000_0000)
            by (nonlinear_arith)
            requires
                i <= 0xffff_ffff_ffff_ffff,
        ;
        acc = acc + term;
        i += 1;
    }
    acc
}

/// Whether every point of `part` is a point of `whole`.
pub open spec fn points_from(part: Seq<IntPoint>, whole: Seq<IntPoint>) -> bool {
    forall|i: int| 0 <= i < part.len() ==> whole.contains(#[trigger] part[i])
}

/// The chain `out` with the point `p` at its end: `p` is left out where it
/// repeats the last point, and points of the chain are dropped from its end
/// while the last of them lies on the line from the one before it to `p`.
pub open spec fn extended(out: Seq<IntPoint>, p: IntPoint) -> Seq<IntPoint>
    decreases out.len(),
{
    if out.len() >= 1 && out.last() == p {
        out
    } else if out.len() >= 2 && area_two(out[out.len() - 2], out.last(), p) == 0 {
        extended(out.drop_last(), p)
    } else {
        out.push(p)
    }
}

/// The chain of the first `n` points of a path.
pub open spec fn chained(path: Seq<IntPoint>, n: int) -> Seq<IntPoint>
    decreases n,
{
    if n <= 0 {
        Seq::empty()
    } else {
        extended(chained(path, n - 1), path[n - 1])
    }
}

/// The chain `out` from `start` on, closed: while at least three points are
/// left, the last point is dropped where it lies on the line from the one
/// before it to the first, and else the first where it lies on the line from
/// the last to the second.
pub open spec fn closed_chain(out: Seq<IntPoint>, start: int) -> Seq<IntPoint>
    decreases out.len() - start,
{
    if start < 0 || out.len() - start < 3 {
        out.subrange(start, out.len() as int)
    } else if area_two(out[out.len() - 2], out.last(), out[start]) == 0 {
        closed_chain(out.drop_last(), start)
    } else if area_two(out.last(), out[start], out[start + 1]) == 0 {
        closed_chain(out, start + 1)
    } else {
        out.subrange(start, out.len() as int)
    }
}

/// A closed path without the points at which it neither turns nor ends:
/// points that repeat their predecessor and points on the line through their
/// neighbours are left out, spikes included.
pub open spec fn spec_simplified(path: Seq<IntPoint>) -> Seq<IntPoint> {
    closed_chain(chained(path, path.len() as int), 0)
}

/// The points of an extended chain are points of the chain or the new point.
pub proof fn lemma_extended(out: Seq<IntPoint>, p: IntPoint, whole: Seq<IntPoint>)
    requires
        points_from(out, whole),
        whole.contains(p),
    ensures
        points_from(extended(out, p), whole),
        extended(out, p).len() <= out.len() + 1,
    decreases out.len(),
{
    if out.len() >= 1 && out.last() == p {
    } else if out.len() >= 2 && area_two(out[out.len() - 2], out.last(), p) == 0 {
        let shorter = out.drop_last();
        assert forall|i: int| 0 <= i < shorter.len() implies whole.contains(#[trigger] shorter[i]) by {
            assert(shorter[i] == out[i]);
        }
        lemma_extended(shorter, p, whole);
    } else {
        let longer = out.push(p);
        assert forall|i: int| 0 <= i < longer.len() implies whole.contains(#[trigger] longer[i]) by {
            if i < out.len() {
                assert(longer[i] == out[i]);
            }
        }
    }
}

/// The points of a closed chain are points of the chain.
pub proof fn lemma_closed_chain(out: Seq<IntPoint>, start: int, whole: Seq<IntPoint>)
    requires
        points_from(out, whole),
        0 <= start <= out.len(),
    ensures
        points_from(closed_chain(out, start), whole),
        closed_chain(out, start).len() <= out.len() - start,
    decreases out.len() - start,
{
    if out.len() - start < 3 {
        let r = out.subrange(start, out.len() as int);
        assert forall|i: int| 0 <= i < r.len() implies whole.contains(#[trigger] r[i]) by {
            assert(r[i] == out[start + i]);
        }
    } else if area_two(out[out.len() - 2], out.last(), out[start]) == 0 {
        let shorter = out.drop_last();
        assert forall|i: int| 0 <= i < shorter.len() implies whole.contains(#[trigger] shorter[i]) by {
            assert(shorter[i] == out[i]);
        }
        lemma_closed_chain(shorter, start, whole);
    } else if area_two(out.last(), out[start], out[start + 1]) == 0 {
        lemma_closed_chain(out, start + 1, whole);
    } else {
        let r = out.subrange(start, out.len() as int);
        assert forall|i: int| 0 <= i < r.len() implies whole.contains(#[trigger] r[i]) by {
            assert(r[i] == out[start + i]);
        }
    }
}

/// The points of the chain of a path are points of the path.
pub proof fn lemma_chained(path: Seq<IntPoint>, n: int)
    requires
        0 <= n <= path.len(),
    ensures
        points_from(chained(path, n), path),
        chained(path, n).len() <= n,
    decreases n,
{
    if n > 0 {
        lemma_chained(path, n - 1);
        assert(path.contains(path[n - 1]));
        lemma_extended(chained(path, n - 1), path[n - 1], path);
    }
}

/// A simplified path has its points from the path and is no longer.
pub proof fn lemma_simplified(path: Seq<IntPoint>)
    ensures
        points_from(spec_simplified(path), path),
        spec_simplified(path).len() <= path.len(),
{
    lemma_chained(path, path.len() as int);
    lemma_closed_chain(chained(path, path.len() as int), 0, path);
}

/// A closed path without the points at which it neither turns nor ends.
pub fn simplify_contour(path: &Vec<IntPoint>) -> (r: Vec<IntPoint>)
    ensures
        r@ == spec_simplified(path@),
        r.len() <= path.len(),
        points_from(r@, path@),
{
    let n: usize = path.len();
    let mut out: Vec<IntPoint> = Vec::new();
    let mut i: usize = 0;
    while i < n
        invariant
            n == path.len(),
            i <= n,
            out@ == chained(path@, i as int),
        decreases n - i,
    {
        let p: IntPoint = path[i];
        let mut keep: bool = true;
        let mut done: bool = false;
        let ghost goal: Seq<IntPoint> = extended(out@, p);
        while !done
            invariant
                done && keep ==> out@.push(p) == goal,
                done && !keep ==> out@ == goal,
                !done ==> extended(out@, p) == goal,
                !done ==> keep,
            decreases out.len() + (if done { 0int } else { 1int }),
        {
            let m: usize = out.len();
            if m >= 1 && out[m - 1] == p {
                keep = false;
                done = true;
            } else if m >= 2 && area_two_of(out[m - 2], out[m - 1], p) == 0 {
                out.pop();
            } else {
                done = true;
            }
        }
        if keep {
            out.push(p);
        }
        i += 1;
    }
    // Where the end meets the start.
    let mut start: usize = 0;
    let mut done: bool = false;
    let ghost goal: Seq<IntPoint> = spec_simplified(path@);
    while !done
        invariant
            start <= out.len(),
            done ==> out@.subrange(start as int, out.len() as int) == goal,
            !done ==> closed_chain(out@, start as int) == goal,
        decreases out.len() - start + (if done { 0int } else { 1int }),
    {
        let m: usize = out.len() - start;
        if m < 3 {
            done = true;
        } else {
            let first: IntPoint = out[start];
            let second: IntPoint = out[start + 1];
            let last: IntPoint = out[out.len() - 1];
            let before_last: IntPoint = out[out.len() - 2];
            if area_two_of(before_last, last, first) == 0 {
                out.pop();
            } else if area_two_of(last, first, second) == 0 {
                start += 1;
            } else {
                done = true;
            }
        }
    }
    proof {
        lemma_simplified(path@);
    }
    if start == 0 {
        assert(out@.subrange(0, out.len() as int) == out@);
        return out;
    }
    let mut r: Vec<IntPoint> = Vec::new();
    let mut k: usize = start;
    while k < out.len()
        invariant
            start <= k <= out.len(),
            r@ == out@.subrange(start as int, k as int),
        decreases out.len() - k,
    {
        r.push(out[k]);
        k += 1;
    }
    r
}

/// Whether the ray that leaves the point `(px, py)` to the right crosses the
/// edge from `p` to `q`, all taken in doubled coordinates: the edge reaches
/// from not above the ray to above it, or the other way, and meets the line
/// of the ray to the right of the point.
pub open spec fn ray_crosses(p: IntPoint, q: IntPoint, px: int, py: int) -> bool {
    let p_above = 2 * p.y > py;
    let q_above = 2 * q.y > py;
    let t = (2 * q.x - 2 * p.x) * (py - 2 * p.y) - (px - 2 * p.x) * (2 * q.y - 2 * p.y);
    p_above != q_above && (if q.y > p.y {
        t > 0
    } else {
        t < 0
    })
}

/// How many of the first `n` edges of a closed path the ray crosses.
pub open spec fn crossings_upto(path: Seq<IntPoint>, n: int, px: int, py: int) -> int
    decreases n,
{
    if n <= 0 {
        0
    } else {
        crossings_upto(path, n - 1, px, py) + if ray_crosses(path[n - 1], next_point(path, n - 1), px, py) {
            1int
        } else {
            0int
        }
    }
}

/// Whether the point `(px / 2, py / 2)` lies inside the closed path by the
/// even-odd rule: a ray from it crosses the path an odd number of times.
pub open spec fn spec_contains_doubled(path: Seq<IntPoint>, px: int, py: int) -> bool {
    crossings_upto(path, path.len() as int, px, py) % 2 == 1
}

/// Whether the point `(px / 2, py / 2)` lies inside the closed path.
pub fn contains_doubled(path: &Vec<IntPoint>, px: i64, py: i64) -> (r: bool)
    requires
        -0x1_0000_0000 <= px <= 0x1_0000_0000,
        -0x1_0000_0000 <= py <= 0x1_0000_0000,
    ensures
        r == spec_contains_doubled(path@, px as int, py as int),
{
    let n: usize = path.len();
    let mut inside: bool = false;
    let mut i: usize = 0;
    while i < n
        invariant
            n == path.len(),
            i <= n,
            -0x1_0000_0000 <= px <= 0x1_0000_0000,
            -0x1_0000_0000 <= py <= 0x1_0000_0000,
            inside == (crossings_upto(path@, i as int, px as int, py as int) % 2 == 1),
            crossings_upto(path@, i as int, px as int, py as int) >= 0,
        decreases n - i,
    {
        let p: IntPoint = path[i];
        let q: IntPoint = if i + 1 < n {
            path[i + 1]
        } else {
            path[0]
        };
        let p_above: bool = 2 * (p.y as i64) > py;
        let q_above: bool = 2 * (q.y as i64) > py;
        if p_above != q_above {
            let ux: i64 = 2 * (q.x as i64) - 2 * (p.x as i64);
            let uy: i64 = 2 * (q.y as i64) - 2 * (p.y as i64);
            let vx: i64 = px - 2 * (p.x as i64);
            let vy: i64 = py - 2 * (p.y as i64);
            proof {
                lemma_mul_fits(ux as int, vy as int, 0x4_0000_0000);
                lemma_mul_fits(vx as int, uy as int, 0x4_0000_0000);
                assert(0x4_0000_0000int * 0x4_0000_0000int == 0x10_0000_0000_0000_0000int)
                    by (nonlinear_arith);
            }
            let t: i128 = mul_wide(ux, vy) - mul_wide(vx, uy);
            let crosses: bool = if q.y > p.y {
                t > 0
            } else {
                t < 0
            };
            if crosses {
                inside = !inside;
            }
        }
        i += 1;
    }
    inside
}

} // verus!
