use i_overlay::geom::point::IntPoint;
use i_overlay::geom::rect::{IntRect, LineRange};
use i_overlay::geom::x_segment::XSegment;
use i_overlay::segm::count::{ShapeCountBoolean, ShapeType};
use i_overlay::segm::merge::merge_if_needed;
use i_overlay::segm::segment::Segment;
use i_overlay::solver::{Precision, Solver, Strategy};
use i_overlay::split::cross_solver::{CrossResult, CrossSolver, CrossType};
use i_overlay::split::fragment::{Fragment, IdSegment};
use i_overlay::split::grid_layout::{FragmentBuffer, GridLayout};
use i_overlay::split::line_mark::LineMark;
use i_overlay::split::segment_tree::SegmentTree;
use i_overlay::split::solver::SplitSolver;
use i_overlay::split::solver_tree::ver_range;
use i_overlay::split::space_layout::{log2_floor, SpaceLayout};

fn p(x: i32, y: i32) -> IntPoint {
    IntPoint::new(x, y)
}

fn xs(ax: i32, ay: i32, bx: i32, by: i32) -> XSegment {
    XSegment { a: p(ax, ay), b: p(bx, by) }
}

fn seg(ax: i32, ay: i32, bx: i32, by: i32) -> Segment<ShapeCountBoolean> {
    let (direct, invert) = ShapeCountBoolean::with_shape_type(ShapeType::Subject);
    Segment::with_ab(p(ax, ay), p(bx, by), direct, invert)
}

fn has_pure_crossing(segments: &[Segment<ShapeCountBoolean>]) -> bool {
    for i in 0..segments.len() {
        for j in 0..segments.len() {
            if i != j {
                if let Some(c) = CrossSolver::cross(&segments[i].x_segment, &segments[j].x_segment, 0) {
                    if c.cross_type == CrossType::Pure {
                        return true;
                    }
                }
            }
        }
    }
    false
}

fn star(n: usize) -> Vec<Segment<ShapeCountBoolean>> {
    let mut result = Vec::new();
    for i in 0..n {
        let a = i as f64 * 0.7 * std::f64::consts::PI;
        let b = (i + 1) as f64 * 0.7 * std::f64::consts::PI;
        let pa = p((1000.0 * a.cos()) as i32, (1000.0 * a.sin()) as i32);
        let pb = p((1000.0 * b.cos()) as i32, (1000.0 * b.sin()) as i32);
        if pa != pb {
            let (direct, invert) = ShapeCountBoolean::with_shape_type(ShapeType::Subject);
            result.push(Segment::with_ab(pa, pb, direct, invert));
        }
    }
    result
}

#[test]
fn cross_of_diagonals_is_pure_and_exact() {
    let r = CrossSolver::cross(&xs(0, 0, 10, 10), &xs(0, 10, 10, 0), 1);
    assert_eq!(r, Some(CrossResult { point: p(5, 5), cross_type: CrossType::Pure, is_round: false }));
}

#[test]
fn cross_is_rounded_to_the_nearest_lattice_point() {
    // The lines meet at (3.75, 3.75).
    let r = CrossSolver::cross(&xs(0, 0, 10, 10), &xs(0, 5, 15, 0), 1).unwrap();
    assert_eq!(r.point, p(4, 4));
    assert_eq!(r.cross_type, CrossType::Pure);
    assert!(r.is_round);
}

#[test]
fn cross_near_an_end_snaps_to_the_end() {
    // The lines meet at (0.5, 0.5), which rounds to (1, 1).
    let target = xs(0, 0, 10, 10);
    let other = xs(-3, 4, 4, -3);
    let r = CrossSolver::cross(&target, &other, 1).unwrap();
    assert_eq!(r, CrossResult { point: p(1, 1), cross_type: CrossType::Pure, is_round: true });
    let r = CrossSolver::cross(&target, &other, 2).unwrap();
    assert_eq!(r, CrossResult { point: p(0, 0), cross_type: CrossType::TargetEnd, is_round: true });
    // An end of the other segment that is nearer wins.
    let near = xs(-4, 5, 1, 0);
    let r = CrossSolver::cross(&target, &near, 1).unwrap();
    assert_eq!(r, CrossResult { point: p(1, 0), cross_type: CrossType::OtherEnd, is_round: true });
}

#[test]
fn end_on_the_other_segment_is_reported() {
    let target = xs(0, 0, 10, 0);
    let other = xs(5, 0, 5, 7);
    let r = CrossSolver::cross(&target, &other, 1).unwrap();
    assert_eq!(r, CrossResult { point: p(5, 0), cross_type: CrossType::OtherEnd, is_round: false });
    let r = CrossSolver::cross(&other, &target, 1).unwrap();
    assert_eq!(r, CrossResult { point: p(5, 0), cross_type: CrossType::TargetEnd, is_round: false });
}

#[test]
fn segments_apart_or_sharing_an_end_do_not_cross() {
    assert_eq!(CrossSolver::cross(&xs(0, 0, 10, 0), &xs(0, 1, 10, 1), 1), None);
    assert_eq!(CrossSolver::cross(&xs(0, 0, 10, 0), &xs(10, 0, 20, 5), 1), None);
    assert_eq!(CrossSolver::cross(&xs(0, 0, 10, 0), &xs(20, -5, 20, 5), 1), None);
    assert_eq!(CrossSolver::cross(&xs(0, 0, 10, 0), &xs(10, 0, 20, 0), 1), None);
}

#[test]
fn overlap_is_reported_with_its_mask() {
    let target = xs(0, 0, 10, 0);
    let other = xs(5, 0, 15, 0);
    let r = CrossSolver::cross(&target, &other, 1).unwrap();
    assert_eq!(r.cross_type, CrossType::Overlay);
    assert!(!r.is_round);
    let mask = CrossSolver::collinear(&target, &other);
    assert!(!mask.is_target_a());
    assert!(mask.is_target_b());
    assert!(mask.is_other_a());
    assert!(!mask.is_other_b());
    assert!(!mask.is_empty());
    assert!(CrossSolver::collinear(&target, &target).is_empty());
}

#[test]
fn cross_fragments_marks_both_segments_of_a_crossing() {
    let fi = Fragment::with_index_and_segment(3, xs(0, 0, 10, 10));
    let fj = Fragment::with_index_and_segment(7, xs(0, 10, 10, 0));
    let mut marks = vec![LineMark { index: 0, point: p(1, 1) }];
    let round = SplitSolver::cross_fragments(&fi, &fj, &mut marks, 1);
    assert!(!round);
    assert_eq!(
        marks,
        vec![
            LineMark { index: 0, point: p(1, 1) },
            LineMark { index: 3, point: p(5, 5) },
            LineMark { index: 7, point: p(5, 5) },
        ]
    );
}

#[test]
fn cross_fragments_ignores_a_point_outside_a_rectangle() {
    let mut fi = Fragment::with_index_and_segment(0, xs(0, 0, 10, 10));
    fi.rect = IntRect { min_x: 7, max_x: 10, min_y: 7, max_y: 10 };
    let fj = Fragment::with_index_and_segment(1, xs(0, 10, 10, 0));
    let mut marks = Vec::new();
    assert!(!SplitSolver::cross_fragments(&fi, &fj, &mut marks, 1));
    assert!(marks.is_empty());
}

#[test]
fn cross_fragments_marks_the_ends_inside_an_overlap() {
    let fi = Fragment::with_index_and_segment(0, xs(0, 0, 10, 0));
    let fj = Fragment::with_index_and_segment(1, xs(5, 0, 15, 0));
    let mut marks = Vec::new();
    assert!(!SplitSolver::cross_fragments(&fi, &fj, &mut marks, 1));
    assert_eq!(marks, vec![LineMark { index: 1, point: p(10, 0) }, LineMark { index: 0, point: p(5, 0) }]);
}

#[test]
fn radius_doubles_and_is_capped() {
    let solver = Solver::auto();
    assert_eq!(solver.radius(0), 1);
    assert_eq!(solver.radius(3), 8);
    assert_eq!(solver.radius(20), 1 << 20);
    assert_eq!(solver.radius(1000), 1 << 20);
    assert_eq!(solver.radius(usize::MAX), 1 << 20);
    let slow = Solver { strategy: Strategy::List, precision: Precision { start: 2, progression: 3 }, multithreading: None };
    assert_eq!(slow.radius(0), 4);
    assert_eq!(slow.radius(2), 256);
}

#[test]
fn strategies_are_chosen_by_settings() {
    assert!(Solver::list().is_list_split(1_000_000));
    assert!(!Solver::tree().is_list_split(3));
    assert!(!Solver::frag().is_list_split(3));
    assert!(Solver::auto().is_list_split(3999));
    assert!(!Solver::auto().is_list_split(4000));
    assert_eq!(Solver::default(), Solver::auto());
}

#[test]
fn ver_range_is_the_vertical_extent() {
    let segments = vec![seg(0, 5, 3, -2), seg(1, 1, 2, 9), seg(-4, 0, 7, 3)];
    assert_eq!(ver_range(&segments), LineRange { min: -2, max: 9 });
    assert_eq!(ver_range(&vec![seg(0, 4, 9, 4)]), LineRange { min: 4, max: 4 });
}

#[test]
fn prepare_sorts_and_merges() {
    let a = seg(5, 5, 9, 9);
    let b = seg(0, 0, 1, 1);
    let c = seg(9, 9, 5, 5);
    let d = seg(0, 0, 1, 1);
    let r = SplitSolver::prepare(vec![a, b, c, d]);
    assert_eq!(r.len(), 1);
    assert_eq!(r[0].x_segment, xs(0, 0, 1, 1));
    assert_eq!(r[0].count, ShapeCountBoolean::new(2, 0));
    let r = SplitSolver::prepare(vec![seg(3, 0, 4, 0), seg(1, 0, 2, 0), seg(1, -1, 2, 0)]);
    let order: Vec<XSegment> = r.iter().map(|s| s.x_segment).collect();
    assert_eq!(order, vec![xs(1, -1, 2, 0), xs(1, 0, 2, 0), xs(3, 0, 4, 0)]);
}

#[test]
fn merge_joins_neighbours_only() {
    let r = merge_if_needed(vec![seg(0, 0, 1, 1), seg(0, 0, 1, 1), seg(2, 2, 3, 3), seg(0, 0, 1, 1)]);
    assert_eq!(r.len(), 3);
    assert_eq!(r[0].count, ShapeCountBoolean::new(2, 0));
}

#[test]
fn apply_cuts_segments_at_their_marks() {
    let solver = SplitSolver::new(Solver::list());
    let segments = vec![seg(0, 0, 10, 0), seg(0, 10, 10, 0)];
    let marks = vec![
        LineMark { index: 0, point: p(7, 0) },
        LineMark { index: 1, point: p(5, 5) },
        LineMark { index: 0, point: p(3, 0) },
        LineMark { index: 0, point: p(7, 0) },
        LineMark { index: 9, point: p(1, 1) },
    ];
    let r = solver.apply(&marks, segments);
    let order: Vec<XSegment> = r.iter().map(|s| s.x_segment).collect();
    assert_eq!(order, vec![xs(0, 0, 3, 0), xs(0, 10, 5, 5), xs(3, 0, 7, 0), xs(5, 5, 10, 0), xs(7, 0, 10, 0)]);
    assert!(r.iter().all(|s| s.count == ShapeCountBoolean::new(1, 0) || s.count == ShapeCountBoolean::new(-1, 0)));
}

#[test]
fn list_pass_finds_every_crossing() {
    let segments = SplitSolver::prepare(vec![seg(0, 0, 10, 10), seg(0, 10, 10, 0), seg(0, 5, 10, 5)]);
    let mut marks = Vec::new();
    let round = SplitSolver::list_pass(&segments, 1, &mut marks);
    assert!(!round);
    assert_eq!(marks.len(), 6);
    assert!(marks.iter().all(|m| m.point == p(5, 5)));
}

#[test]
fn every_strategy_leaves_no_crossing() {
    for solver in [Solver::list(), Solver::tree(), Solver::frag(), Solver::auto()] {
        let split = SplitSolver::new(solver).split_segments(star(40));
        assert!(split.len() > 40);
        assert!(!has_pure_crossing(&split));
    }
}

#[test]
fn strategies_agree_on_exact_input() {
    let input = vec![
        seg(0, 0, 20, 0),
        seg(20, 0, 20, 20),
        seg(20, 20, 0, 20),
        seg(0, 20, 0, 0),
        seg(10, -10, 10, 30),
        seg(-10, 10, 30, 10),
        seg(0, 0, 20, 20),
    ];
    let list: Vec<XSegment> =
        SplitSolver::new(Solver::list()).split_segments(input.clone()).iter().map(|s| s.x_segment).collect();
    let tree: Vec<XSegment> =
        SplitSolver::new(Solver::tree()).split_segments(input.clone()).iter().map(|s| s.x_segment).collect();
    let frag: Vec<XSegment> =
        SplitSolver::new(Solver::frag()).split_segments(input.clone()).iter().map(|s| s.x_segment).collect();
    assert_eq!(list, tree);
    assert_eq!(list, frag);
    assert_eq!(list.len(), 18);
}

#[test]
fn two_crossing_segments_are_left_alone() {
    let input = vec![seg(0, 0, 10, 10), seg(0, 10, 10, 0)];
    let split = SplitSolver::new(Solver::auto()).split_segments(input);
    assert_eq!(split.len(), 2);
    assert!(has_pure_crossing(&split));
}

#[test]
fn parallel_sweep_equals_serial_sweep() {
    let segments = SplitSolver::prepare(star(60));
    let layout = GridLayout::new(&segments).unwrap();
    let mut serial = FragmentBuffer::new(layout);
    let mut parallel = FragmentBuffer::new(layout);
    for (i, s) in segments.iter().enumerate() {
        serial.add_segment(i, s.x_segment);
        parallel.add_segment(i, s.x_segment);
    }
    let mut serial_marks = Vec::new();
    let mut parallel_marks = Vec::new();
    let serial_round = SplitSolver::serial_split(1, &mut serial, &mut serial_marks);
    let parallel_round = SplitSolver::parallel_split(1, &mut parallel, &mut parallel_marks);
    assert!(!serial_marks.is_empty());
    assert_eq!(serial_marks, parallel_marks);
    assert_eq!(serial_round, parallel_round);
    assert_eq!(serial.groups, parallel.groups);
    let with_threads = SplitSolver::new(Solver::auto());
    let without_threads = SplitSolver::new(Solver { multithreading: None, ..Solver::auto() });
    let mut a = FragmentBuffer::new(layout);
    let mut b = FragmentBuffer::new(layout);
    for (i, s) in segments.iter().enumerate() {
        a.add_segment(i, s.x_segment);
        b.add_segment(i, s.x_segment);
    }
    let mut marks_a = Vec::new();
    let mut marks_b = Vec::new();
    assert_eq!(with_threads.process(0, &mut a, &mut marks_a), without_threads.process(0, &mut b, &mut marks_b));
    assert_eq!(marks_a, marks_b);
    assert_eq!(marks_a, serial_marks);
}

#[test]
fn bin_split_sorts_the_column_and_marks_crossings() {
    let mut column = vec![
        Fragment::with_index_and_segment(0, xs(0, 8, 10, 18)),
        Fragment::with_index_and_segment(1, xs(0, 10, 10, 0)),
        Fragment::with_index_and_segment(2, xs(0, 0, 10, 10)),
    ];
    let mut marks = Vec::new();
    let round = SplitSolver::bin_split(1, &mut column, &mut marks);
    assert!(!round);
    let order: Vec<usize> = column.iter().map(|f| f.index).collect();
    assert_eq!(order, vec![2, 1, 0]);
    assert_eq!(
        marks,
        vec![
            LineMark { index: 2, point: p(5, 5) },
            LineMark { index: 1, point: p(5, 5) },
            LineMark { index: 0, point: p(1, 9) },
            LineMark { index: 1, point: p(1, 9) },
        ]
    );
    let mut single = vec![Fragment::with_index_and_segment(0, xs(0, 0, 1, 1))];
    assert!(!SplitSolver::bin_split(1, &mut single, &mut marks));
    assert_eq!(marks.len(), 4);
}

#[test]
fn on_border_split_marks_vertical_segments() {
    let fragments = vec![
        Fragment::with_index_and_segment(0, xs(0, 0, 8, 5)),
        Fragment::with_index_and_segment(1, xs(2, 9, 8, 2)),
        Fragment::with_index_and_segment(2, xs(1, 1, 7, 3)),
        Fragment::with_index_and_segment(3, xs(0, 0, 8, 20)),
        Fragment::with_index_and_segment(4, xs(0, 0, 8, 10)),
    ];
    let mut verticals = vec![
        IdSegment { id: 11, x_segment: xs(8, 10, 8, 30) },
        IdSegment { id: 10, x_segment: xs(8, 0, 8, 10) },
    ];
    let mut marks = Vec::new();
    SplitSolver::on_border_split(8, &fragments, &mut verticals, &mut marks);
    assert_eq!(verticals[0].id, 10);
    assert_eq!(verticals[1].id, 11);
    assert_eq!(
        marks,
        vec![
            LineMark { index: 10, point: p(8, 2) },
            LineMark { index: 10, point: p(8, 5) },
            LineMark { index: 11, point: p(8, 20) },
        ]
    );
}

#[test]
fn grid_layout_covers_the_extent() {
    let segments = SplitSolver::prepare(star(200));
    let layout = GridLayout::new(&segments).unwrap();
    assert_eq!(layout.min_x, segments.iter().map(|s| s.x_segment.a.x).min().unwrap());
    assert_eq!(layout.max_x, segments.iter().map(|s| s.x_segment.b.x).max().unwrap());
    assert!(layout.width.is_power_of_two());
    assert_eq!(layout.count as u64, (layout.max_x as i64 - layout.min_x as i64) as u64 / layout.width + 1);
    assert_eq!(layout.index(layout.min_x), 0);
    assert_eq!(layout.index(layout.max_x), layout.count - 1);
    assert_eq!(layout.pos(0), layout.min_x as i64 + layout.width as i64);
    assert!(GridLayout::new(&vec![seg(0, 0, 1, 1)]).is_none());
    assert!(GridLayout::new(&vec![seg(0, 0, 100, 0), seg(0, 1, 100, 1)]).is_none());
}

#[test]
fn buffer_spreads_a_segment_over_its_columns() {
    let layout = GridLayout { min_x: 0, max_x: 31, width: 8, count: 4 };
    let mut buffer = FragmentBuffer::new(layout);
    buffer.add_segment(5, xs(2, 0, 18, 8));
    buffer.add_segment(6, xs(16, 3, 16, 9));
    buffer.add_segment(7, xs(4, 10, 16, 4));
    let counts: Vec<usize> = buffer.groups.iter().map(|g| g.len()).collect();
    assert_eq!(counts, vec![2, 2, 2, 0]);
    assert_eq!(buffer.groups[0][0].rect, IntRect { min_x: 2, max_x: 8, min_y: 0, max_y: 3 });
    assert_eq!(buffer.groups[1][0].rect, IntRect { min_x: 8, max_x: 16, min_y: 3, max_y: 7 });
    assert_eq!(buffer.groups[2][0].rect, IntRect { min_x: 16, max_x: 18, min_y: 7, max_y: 8 });
    assert_eq!(buffer.groups[2][1].rect, IntRect { min_x: 16, max_x: 16, min_y: 3, max_y: 9 });
    assert_eq!(buffer.groups[0][1].rect, IntRect { min_x: 4, max_x: 8, min_y: 8, max_y: 10 });
    assert_eq!(buffer.groups[1][1].rect, IntRect { min_x: 8, max_x: 16, min_y: 4, max_y: 8 });
    let borders: Vec<usize> = buffer.on_border.iter().map(|g| g.len()).collect();
    assert_eq!(borders, vec![0, 1, 0, 0]);
    assert_eq!(buffer.on_border[1][0], IdSegment { id: 6, x_segment: xs(16, 3, 16, 9) });
    buffer.clear();
    assert!(buffer.groups.iter().all(|g| g.is_empty()));
    assert!(buffer.on_border.iter().all(|g| g.is_empty()));
}

#[test]
fn space_layout_depth_follows_height_and_count() {
    assert_eq!(log2_floor(0), 0);
    assert_eq!(log2_floor(1), 0);
    assert_eq!(log2_floor(1023), 9);
    assert_eq!(log2_floor(1024), 10);
    let layout = SpaceLayout::new(1 << 20, 1 << 10);
    assert_eq!(layout.power, 5);
    assert_eq!(layout.min_size, 1 << 15);
    let small = SpaceLayout::new(7, 3);
    assert_eq!(small.power, 2);
    assert_eq!(small.min_size, 1);
    let deep = SpaceLayout::new(usize::MAX, usize::MAX);
    assert_eq!(deep.power, 12);
    assert!(layout.is_fragmentation_required(xs(0, 0, 1 << 16, 1 << 16)));
    assert!(!layout.is_fragmentation_required(xs(0, 0, 1 << 16, 5)));
}

#[test]
fn break_into_fragments_covers_the_segment() {
    let layout = SpaceLayout { power: 2, min_size: 4 };
    let mut buffer = Vec::new();
    layout.break_into_fragments(3, xs(0, 0, 20, 10), &mut buffer);
    let rects: Vec<IntRect> = buffer.iter().map(|f| f.rect).collect();
    assert_eq!(
        rects,
        vec![
            IntRect { min_x: 0, max_x: 8, min_y: 0, max_y: 4 },
            IntRect { min_x: 8, max_x: 16, min_y: 4, max_y: 8 },
            IntRect { min_x: 16, max_x: 20, min_y: 8, max_y: 10 },
        ]
    );
    assert!(buffer.iter().all(|f| f.index == 3 && f.x_segment == xs(0, 0, 20, 10)));
    buffer.clear();
    layout.break_into_fragments(4, xs(0, 10, 20, 0), &mut buffer);
    assert_eq!(buffer[0].rect, IntRect { min_x: 0, max_x: 8, min_y: 6, max_y: 10 });
    assert_eq!(buffer[2].rect, IntRect { min_x: 16, max_x: 20, min_y: 0, max_y: 2 });
    buffer.clear();
    layout.break_into_fragments(5, xs(0, 0, 20, 3), &mut buffer);
    assert_eq!(buffer, vec![Fragment::with_index_and_segment(5, xs(0, 0, 20, 3))]);
}

#[test]
fn tree_finds_what_it_stores() {
    let mut tree = SegmentTree::new(LineRange { min: 0, max: 64 }, 3, 1);
    assert_eq!(tree.nodes.len(), 7);
    assert_eq!(tree.nodes[1].range, LineRange { min: 0, max: 32 });
    assert_eq!(tree.nodes[6].range, LineRange { min: 48, max: 64 });
    tree.insert(Fragment::with_index_and_segment(0, xs(0, 2, 10, 12)));
    tree.insert(Fragment::with_index_and_segment(1, xs(0, 40, 10, 50)));
    tree.insert(Fragment::with_index_and_segment(2, xs(0, 30, 10, 34)));
    assert_eq!(tree.nodes[3].fragments.len(), 1);
    assert_eq!(tree.nodes[2].fragments.len(), 1);
    assert_eq!(tree.nodes[0].fragments.len(), 1);
    let mut marks = Vec::new();
    let round = tree.intersect(&Fragment::with_index_and_segment(3, xs(0, 12, 10, 2)), &mut marks);
    assert!(!round);
    assert_eq!(marks, vec![LineMark { index: 0, point: p(5, 7) }, LineMark { index: 3, point: p(5, 7) }]);
    tree.clear();
    assert!(tree.nodes.iter().all(|n| n.fragments.is_empty()));
}
