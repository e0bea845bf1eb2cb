use vstd::prelude::*;
use crate::geom::contour::{area_two_path, contains_doubled, spec_area_two_path, spec_contains_doubled, IntPath, IntShape};
use crate::geom::point::IntPoint;
use crate::overlay::extract::{is_hole, shape_ok, shapes_ok};

verus! {

/// The points of a list of paths.
pub open spec fn path_views(paths: Seq<IntPath>) -> Seq<Seq<IntPoint>> {
    Seq::new(paths.len(), |i: int| paths[i]@)
}

/// The points of a list of shapes.
pub open spec fn shape_views(shapes: Seq<IntShape>) -> Seq<Seq<Seq<IntPoint>>> {
    Seq::new(shapes.len(), |i: int| path_views(shapes[i]@))
}

/// The better of the candidate `best` and shape `s` as the shape that a hole
/// belongs to: shape `s` is taken where its outer border encloses the point
/// `(px / 2, py / 2)` and there is no candidate yet or the candidate has a
/// greater area.
pub open spec fn nearer_parent(shapes: Seq<Seq<Seq<IntPoint>>>, px: int, py: int, s: int, best: Option<int>) -> Option<
    int,
> {
    if (match best {
        None => true,
        Some(b) => spec_area_two_path(shapes[s][0]) < spec_area_two_path(shapes[b][0]),
    }) && spec_contains_doubled(shapes[s][0], px, py) {
        Some(s)
    } else {
        best
    }
}

/// The best candidate once the shapes from `s` on are looked through.
pub open spec fn parent_from(shapes: Seq<Seq<Seq<IntPoint>>>, px: int, py: int, s: int, best: Option<int>) -> Option<
    int,
>
    decreases shapes.len() - s,
{
    if s < 0 || s >= shapes.len() {
        best
    } else {
        parent_from(shapes, px, py, s + 1, nearer_parent(shapes, px, py, s, best))
    }
}

/// The shape that a hole belongs to: of the shapes whose outer border
/// encloses the middle of the first edge of the hole, the first of least
/// area.
pub open spec fn spec_find_parent(shapes: Seq<Seq<Seq<IntPoint>>>, hole: Seq<IntPoint>) -> Option<int> {
    parent_from(shapes, hole[0].x + hole[1].x, hole[0].y + hole[1].y, 0, None)
}

/// The shapes once every hole has joined the shape that it belongs to, the
/// last hole first. A hole that no shape encloses is dropped.
pub open spec fn joined(shapes: Seq<Seq<Seq<IntPoint>>>, holes: Seq<Seq<IntPoint>>) -> Seq<Seq<Seq<IntPoint>>>
    decreases holes.len(),
{
    if holes.len() == 0 {
        shapes
    } else {
        let hole = holes.last();
        let next = match spec_find_parent(shapes, hole) {
            Some(p) => shapes.update(p, shapes[p].push(hole)),
            None => shapes,
        };
        joined(next, holes.drop_last())
    }
}

/// The shape that a hole belongs to; see `spec_find_parent`.
pub fn find_parent(shapes: &Vec<IntShape>, areas: &Vec<i128>, hole: &IntPath) -> (r: Option<usize>)
    requires
        areas.len() == shapes.len(),
        hole.len() >= 2,
        forall|s: int| 0 <= s < shapes.len() ==> (#[trigger] shapes@[s]).len() >= 1,
        forall|s: int| 0 <= s < shapes.len() ==> (#[trigger] areas@[s]) == spec_area_two_path(shapes@[s]@[0]@),
    ensures
        r matches Some(s) ==> s < shapes.len(),
        (match r {
            Some(s) => Some(s as int),
            None => None,
        }) == spec_find_parent(shape_views(shapes@), hole@),
{
    let px: i64 = hole[0].x as i64 + hole[1].x as i64;
    let py: i64 = hole[0].y as i64 + hole[1].y as i64;
    let n: usize = shapes.len();
    let mut best: Option<usize> = None;
    let mut best_area: i128 = 0;
    let ghost mut best_int: Option<int> = None;
    let ghost all: Seq<Seq<Seq<IntPoint>>> = shape_views(shapes@);
    let mut s: usize = 0;
    while s < n
        invariant
            n == shapes.len(),
            n == areas.len(),
            s <= n,
            all == shape_views(shapes@),
            px == hole@[0].x + hole@[1].x,
            py == hole@[0].y + hole@[1].y,
            -0x1_0000_0000 <= px <= 0x1_0000_0000,
            -0x1_0000_0000 <= py <= 0x1_0000_0000,
            forall|q: int| 0 <= q < shapes.len() ==> (#[trigger] shapes@[q]).len() >= 1,
            forall|q: int| 0 <= q < shapes.len() ==> (#[trigger] areas@[q]) == spec_area_two_path(shapes@[q]@[0]@),
            best matches Some(b) ==> b < n && best_area == areas@[b as int],
            best_int == (match best {
                Some(b) => Some(b as int),
                None => None,
            }),
            parent_from(all, px as int, py as int, s as int, best_int) == spec_find_parent(all, hole@),
        decreases n - s,
    {
        let smaller: bool = match best {
            None => true,
            Some(_) => areas[s] < best_area,
        };
        proof {
            assert(all[s as int][0] == shapes@[s as int]@[0]@);
            if best is Some {
                let b = best->0 as int;
                assert(all[b][0] == shapes@[b]@[0]@);
            }
        }
        if smaller && contains_doubled(&shapes[s][0], px, py) {
            best = Some(s);
            best_area = areas[s];
        }
        proof {
            best_int = match best {
                Some(b) => Some(b as int),
                None => None,
            };
        }
        s += 1;
    }
    best
}

/// Adds every hole to the shape that it belongs to; see `joined`.
pub fn join_holes(shapes: Vec<IntShape>, holes: Vec<IntPath>, min_area: usize) -> (r: Vec<IntShape>)
    requires
        shapes_ok(shapes@, min_area as int),
        forall|h: int| 0 <= h < holes.len() ==> is_hole((#[trigger] holes@[h])@, min_area as int),
    ensures
        shape_views(r@) == joined(shape_views(shapes@), path_views(holes@)),
        shapes_ok(r@, min_area as int),
        r.len() == shapes.len(),
{
    let ghost goal: Seq<Seq<Seq<IntPoint>>> = joined(shape_views(shapes@), path_views(holes@));
    let mut shapes: Vec<IntShape> = shapes;
    let n: usize = shapes.len();
    if holes.len() == 0 {
        return shapes;
    }
    let mut areas: Vec<i128> = Vec::new();
    let mut s: usize = 0;
    while s < n
        invariant
            n == shapes.len(),
            s <= n,
            areas.len() == s,
            shapes_ok(shapes@, min_area as int),
            forall|q: int| 0 <= q < s ==> (#[trigger] areas@[q]) == spec_area_two_path(shapes@[q]@[0]@),
        decreases n - s,
    {
        assert(shape_ok(shapes@[s as int]@, min_area as int));
        areas.push(area_two_path(&shapes[s][0]));
        s += 1;
    }
    let mut holes: Vec<IntPath> = holes;
    while holes.len() > 0
        invariant
            n == shapes.len(),
            areas.len() == n,
            shapes_ok(shapes@, min_area as int),
            forall|q: int| 0 <= q < n ==> (#[trigger] areas@[q]) == spec_area_two_path(shapes@[q]@[0]@),
            forall|h: int| 0 <= h < holes.len() ==> is_hole((#[trigger] holes@[h])@, min_area as int),
            joined(shape_views(shapes@), path_views(holes@)) == goal,
        decreases holes.len(),
    {
        let ghost last: int = holes.len() - 1;
        let ghost holes_before: Seq<Seq<IntPoint>> = path_views(holes@);
        assert(is_hole(holes@[last]@, min_area as int));
        let hole: IntPath = holes.pop().unwrap();
        proof {
            assert(path_views(holes@) =~= holes_before.drop_last());
            assert(holes_before.last() == hole@);
        }
        assert forall|q: int| 0 <= q < shapes.len() implies (#[trigger] shapes@[q]).len() >= 1 by {
            assert(shape_ok(shapes@[q]@, min_area as int));
        }
        match find_parent(&shapes, &areas, &hole) {
            Some(parent) => {
                let ghost before: Seq<IntShape> = shapes@;
                let ghost views_before: Seq<Seq<Seq<IntPoint>>> = shape_views(shapes@);
                shapes[parent].push(hole);
                proof {
                    assert forall|q: int| 0 <= q < shapes.len() implies shape_ok(
                        (#[trigger] shapes@[q])@,
                        min_area as int,
                    ) by {
                        assert(shape_ok(before[q]@, min_area as int));
                        if q == parent {
                            let old_shape = before[q]@;
                            let new_shape = shapes@[q]@;
                            assert(new_shape == old_shape.push(hole));
                            assert forall|k: int| 1 <= k < new_shape.len() implies is_hole(
                                (#[trigger] new_shape[k])@,
                                min_area as int,
                            ) by {
                                if k < old_shape.len() {
                                    assert(new_shape[k] == old_shape[k]);
                                }
                            }
                        } else {
                            assert(shapes@[q] == before[q]);
                        }
                    }
                    assert forall|q: int| 0 <= q < n implies (#[trigger] areas@[q]) == spec_area_two_path(
                        shapes@[q]@[0]@,
                    ) by {
                        assert(shape_ok(before[q]@, min_area as int));
                        if q == parent {
                            assert(shapes@[q]@[0] == before[q]@[0]);
                        } else {
                            assert(shapes@[q] == before[q]);
                        }
                    }
                    assert(path_views(shapes@[parent as int]@) =~= views_before[parent as int].push(hole@));
                    assert(shape_views(shapes@) =~= views_before.update(
                        parent as int,
                        views_before[parent as int].push(hole@),
                    ));
                }
            },
            None => {},
        }
    }
    shapes
}

} // verus!
