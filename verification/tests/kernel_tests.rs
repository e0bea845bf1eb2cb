use i_overlay::fill::fill_rule::FillRule;
use i_overlay::fill::segment_fill::SegmentFill;
use i_overlay::fill::solver::FillSolver;
use i_overlay::geom::arith::{div_floor_ceil, round_div_exec};
use i_overlay::geom::contour::{area_two_path, contains_doubled, simplify_contour, IntPath, IntShape};
use i_overlay::geom::point::IntPoint;
use i_overlay::geom::rect::{IntRect, LineRange};
use i_overlay::geom::x_segment::XSegment;
use i_overlay::overlay::builder::{points_count, shapes_points_count, Overlay};
use i_overlay::overlay::extract::Step;
use i_overlay::overlay::link::{LinkFilter, OverlayLinkBuilder};
use i_overlay::overlay::nest::{find_parent, join_holes};
use i_overlay::overlay::rule::OverlayRule;
use i_overlay::segm::count::{ShapeCountBoolean, ShapeType, WindingCount};
use i_overlay::segm::segment::Segment;
use i_overlay::solver::Solver;
use i_overlay::sort::sort;
use i_overlay::split::cross_solver::{CrossSolver, CrossType};
use i_overlay::split::fragment::{sort_from_below, Fragment, IdSegment};
use i_overlay::split::line_mark::LineMark;
use i_overlay::split::solver::{SplitEnd, SplitSolver};
use i_overlay::split::solver_tree::ver_range;
use i_overlay::split::space_layout::SpaceLayout;
use i_overlay::string::overlay::StringOverlay;
use i_overlay::string::rule::StringRule;

fn pt(x: i32, y: i32) -> IntPoint {
    IntPoint::new(x, y)
}

fn square_at(x: i32, y: i32, size: i32) -> IntPath {
    vec![pt(x, y), pt(x + size, y), pt(x + size, y + size), pt(x, y + size)]
}

fn hole_at(x: i32, y: i32, size: i32) -> IntPath {
    vec![pt(x, y), pt(x, y + size), pt(x + size, y + size), pt(x + size, y)]
}

fn parts<C: Copy>(segments: &[Segment<C>]) -> Vec<(XSegment, C)> {
    segments.iter().map(|s| (s.x_segment, s.count)).collect()
}

fn zigzag(n: usize) -> Vec<Segment<ShapeCountBoolean>> {
    let (direct, invert) = ShapeCountBoolean::with_shape_type(ShapeType::Subject);
    let mut result = Vec::new();
    for i in 0..n {
        let k = i as i32;
        let a = pt((k * 37) % 1000, (k * k * 11) % 997);
        let b = pt((k * 91 + 500) % 1000, (k * 53 + 17) % 997);
        if a != b {
            result.push(Segment::with_ab(a, b, direct, invert));
        }
    }
    result
}

fn any_pure_crossing(segments: &[Segment<ShapeCountBoolean>]) -> bool {
    for i in 0..segments.len() {
        for j in 0..segments.len() {
            if i != j {
                if let Some(c) = CrossSolver::cross(&segments[i].x_segment, &segments[j].x_segment, 0) {
                    if c.cross_type == CrossType::Pure {
                        return true;
                    }
                }
            }
        }
    }
    false
}

fn line_sum(segments: &[Segment<ShapeCountBoolean>], x: i32) -> (i64, i64) {
    let mut subj = 0i64;
    let mut clip = 0i64;
    for s in segments {
        if s.x_segment.a.x <= x && x < s.x_segment.b.x {
            subj += s.count.subj as i64;
            clip += s.count.clip as i64;
        }
    }
    (subj, clip)
}

#[test]
fn division_rounds_to_nearest_with_halves_up() {
    assert_eq!(round_div_exec(7, 2), 4);
    assert_eq!(round_div_exec(5, 3), 2);
    assert_eq!(round_div_exec(4, 3), 1);
    assert_eq!(round_div_exec(0, 5), 0);
    assert_eq!(div_floor_ceil(7, 2, 4), (3, 4));
    assert_eq!(div_floor_ceil(8, 2, 4), (4, 4));
}

#[test]
fn area_is_positive_counter_clockwise() {
    assert_eq!(area_two_path(&square_at(0, 0, 10)), 200);
    assert_eq!(area_two_path(&hole_at(0, 0, 10)), -200);
    assert_eq!(area_two_path(&vec![pt(0, 0), pt(5, 5)]), 0);
}

#[test]
fn simplify_drops_points_on_a_line_and_spikes() {
    let with_middle = vec![pt(0, 0), pt(5, 0), pt(10, 0), pt(10, 10), pt(0, 10), pt(0, 10)];
    assert_eq!(simplify_contour(&with_middle), square_at(0, 0, 10));
    let with_spike = vec![pt(0, 0), pt(10, 0), pt(20, 0), pt(10, 0), pt(10, 10)];
    assert_eq!(simplify_contour(&with_spike), vec![pt(0, 0), pt(10, 0), pt(10, 10)]);
    let across_the_start = vec![pt(5, 0), pt(10, 0), pt(10, 10), pt(0, 10), pt(0, 0)];
    assert_eq!(simplify_contour(&across_the_start), vec![pt(10, 0), pt(10, 10), pt(0, 10), pt(0, 0)]);
}

#[test]
fn containment_is_judged_in_doubled_coordinates() {
    let square = square_at(0, 0, 10);
    assert!(contains_doubled(&square, 10, 10));
    assert!(contains_doubled(&square, 1, 19));
    assert!(!contains_doubled(&square, 30, 10));
    assert!(!contains_doubled(&square, 10, -2));
    assert!(!contains_doubled(&square, -1, 10));
}

#[test]
fn points_are_counted_over_all_paths() {
    assert_eq!(points_count(&[square_at(0, 0, 10), vec![pt(0, 0), pt(1, 1), pt(2, 0)]]), 7);
    assert_eq!(points_count(&[]), 0);
}

#[test]
fn rectangle_tests_include_the_border() {
    let r = IntRect::with_points(pt(10, 0), pt(0, 5));
    assert_eq!(r, IntRect { min_x: 0, max_x: 10, min_y: 0, max_y: 5 });
    assert!(r.is_intersect_border_include(&IntRect { min_x: 10, max_x: 20, min_y: 5, max_y: 9 }));
    assert!(!r.is_intersect_border_include(&IntRect { min_x: 11, max_x: 20, min_y: 0, max_y: 5 }));
    assert!(r.contains_with_radius(pt(12, 6), 2));
    assert!(!r.contains_with_radius(pt(13, 6), 2));
    assert_eq!(r.y_range(), LineRange { min: 0, max: 5 });
    assert_eq!(r.y_range().width(), 5);
}

#[test]
fn segments_are_ordered_by_their_ends() {
    let flat = XSegment { a: pt(0, 0), b: pt(10, 0) };
    let steep = XSegment { a: pt(0, 0), b: pt(10, 10) };
    let upright = XSegment { a: pt(0, 0), b: pt(0, 10) };
    assert!(upright.less(&flat));
    assert!(flat.less(&steep));
    assert!(!steep.less(&flat));
    assert!(upright.is_vertical());
    assert!(!flat.is_vertical());
    assert!(flat.is_under_point(pt(5, 1)));
    assert!(!flat.is_under_point(pt(5, 0)));
    assert!(!flat.is_under_point(pt(5, -1)));
    assert!(flat.is_under_segment(&steep));
    assert!(!steep.is_under_segment(&flat));
    assert!(pt(0, 5).less(&pt(1, 0)));
    assert!(pt(0, 5).less(&pt(0, 6)));
    assert!(!pt(0, 5).less(&pt(0, 5)));
    assert_eq!(pt(0, 0).sqr_distance(&pt(3, -4)), 25);
}

#[test]
fn sort_orders_points_by_x_then_y() {
    let mut points = vec![pt(3, 0), pt(1, 5), pt(1, -5), pt(-2, 9), pt(3, -1)];
    sort(&mut points);
    assert_eq!(points, vec![pt(-2, 9), pt(1, -5), pt(1, 5), pt(3, -1), pt(3, 0)]);
}

#[test]
fn a_segment_walked_backwards_inverts_its_count() {
    let count = ShapeCountBoolean::new(2, -1);
    let kept = Segment::create_and_validate(pt(0, 0), pt(5, 5), count);
    assert_eq!(kept.x_segment, XSegment { a: pt(0, 0), b: pt(5, 5) });
    assert_eq!(kept.count, count);
    let turned = Segment::create_and_validate(pt(5, 5), pt(0, 0), count);
    assert_eq!(turned.x_segment, XSegment { a: pt(0, 0), b: pt(5, 5) });
    assert_eq!(turned.count, ShapeCountBoolean::new(-2, 1));
    assert_eq!(count.combine(ShapeCountBoolean::new(i32::MAX, 1)), ShapeCountBoolean::new(i32::MIN + 1, 0));
    assert!(!ShapeCountBoolean::zero().is_not_empty());
}

#[test]
fn fill_rules_judge_counts() {
    assert!(!FillRule::EvenOdd.is_inside(0));
    assert!(FillRule::EvenOdd.is_inside(1));
    assert!(!FillRule::EvenOdd.is_inside(2));
    assert!(FillRule::EvenOdd.is_inside(-1));
    assert!(!FillRule::NonZero.is_inside(0));
    assert!(FillRule::NonZero.is_inside(2));
    assert!(FillRule::NonZero.is_inside(-1));
}

#[test]
fn overlay_rules_judge_fills() {
    let subject_above = SegmentFill { subj_top: true, subj_bottom: false, clip_top: false, clip_bottom: false };
    let both_above = SegmentFill { subj_top: true, subj_bottom: false, clip_top: true, clip_bottom: false };
    let clip_inside_subject = SegmentFill { subj_top: true, subj_bottom: true, clip_top: true, clip_bottom: false };
    assert!(!SegmentFill::none().is_boundary());
    assert!(subject_above.is_boundary());
    assert!(OverlayRule::Subject.is_boundary(subject_above));
    assert!(!OverlayRule::Clip.is_boundary(subject_above));
    assert!(OverlayRule::Union.is_boundary(subject_above));
    assert!(!OverlayRule::Intersect.is_boundary(subject_above));
    assert!(OverlayRule::Intersect.is_boundary(both_above));
    assert!(!OverlayRule::Xor.is_boundary(both_above));
    assert!(!OverlayRule::Union.is_boundary(clip_inside_subject));
    assert!(OverlayRule::Difference.is_boundary(clip_inside_subject));
    assert!(OverlayRule::Difference.is_fill_bottom(clip_inside_subject));
    assert!(!OverlayRule::Difference.is_fill_top(clip_inside_subject));
    assert!(!OverlayRule::InverseDifference.is_inside(true, true));
    assert!(OverlayRule::InverseDifference.is_inside(false, true));
    assert!(LinkFilter::All.keeps(SegmentFill::none()));
    assert!(!LinkFilter::Filler.keeps(SegmentFill::none()));
    assert!(LinkFilter::Overlay(OverlayRule::Subject).keeps(subject_above));
    assert!(!LinkFilter::Overlay(OverlayRule::Clip).keeps(subject_above));
}

#[test]
fn fill_of_a_square_has_the_inside_between_its_edges() {
    let overlay = Overlay::with_paths(&[square_at(0, 0, 10)], &[]);
    let segments = SplitSolver::new(Solver::auto()).split_segments(overlay.segments);
    assert_eq!(segments.len(), 4);
    let fills = FillSolver::fill(FillRule::NonZero, &segments);
    assert_eq!(fills.len(), 4);
    for (segment, fill) in segments.iter().zip(fills.iter()) {
        let s = segment.x_segment;
        let inside_above = (s.a == pt(0, 0) && s.b == pt(10, 0)) || (s.a == pt(10, 0) && s.b == pt(10, 10));
        assert_eq!(fill.subj_top, inside_above);
        assert_eq!(fill.subj_bottom, !inside_above);
        assert!(!fill.clip_top);
        assert!(!fill.clip_bottom);
    }
}

#[test]
fn links_follow_the_filter() {
    let overlay = Overlay::with_paths(&[square_at(0, 0, 10)], &[square_at(5, 0, 10)]);
    let all =
        OverlayLinkBuilder::build_without_filter(overlay.segments.clone(), FillRule::NonZero, Solver::auto());
    let border =
        OverlayLinkBuilder::build_with_filler_filter(overlay.segments.clone(), FillRule::NonZero, Solver::auto());
    let union = OverlayLinkBuilder::build_with_overlay_filter(
        overlay.segments.clone(),
        FillRule::NonZero,
        OverlayRule::Union,
        Solver::auto(),
    );
    let same = OverlayLinkBuilder::build(
        overlay.segments.clone(),
        FillRule::NonZero,
        LinkFilter::Overlay(OverlayRule::Union),
        Solver::auto(),
    );
    assert_eq!(all.len(), 10);
    assert_eq!(border.len(), 10);
    assert_eq!(union.len(), 8);
    assert_eq!(union, same);
    assert!(union.iter().all(|link| OverlayRule::Union.is_boundary(link.fill)));
    let segments = SplitSolver::new(Solver::auto()).split_segments(overlay.segments);
    let fills = FillSolver::fill(FillRule::NonZero, &segments);
    assert_eq!(OverlayLinkBuilder::build_links(&segments, &fills, LinkFilter::All), all);
}

#[test]
fn shapes_and_paths_give_the_same_segments() {
    let shape: IntShape = vec![square_at(0, 0, 100), hole_at(10, 10, 20)];
    let other: IntShape = vec![square_at(50, 50, 100)];
    let by_shapes = Overlay::with_shapes(&[shape.clone()], &[other.clone()]);
    let by_paths = Overlay::with_paths(&shape, &other);
    assert_eq!(parts(&by_shapes.segments), parts(&by_paths.segments));
    assert_eq!(by_paths.segments.len(), 12);
    let mut step_by_step = Overlay::new(12);
    step_by_step.add_paths(&shape, ShapeType::Subject);
    step_by_step.add_shapes(&[other.clone()], ShapeType::Clip);
    assert_eq!(parts(&step_by_step.segments), parts(&by_paths.segments));
    let mut one_by_one = Overlay::new(0);
    one_by_one.add_path(&shape[0], ShapeType::Subject);
    one_by_one.add_path(&shape[1], ShapeType::Subject);
    one_by_one.add_shape(&other, ShapeType::Clip);
    assert_eq!(parts(&one_by_one.segments), parts(&by_paths.segments));
}

#[test]
fn separate_vectors_are_the_pieces_with_their_fills() {
    let overlay = Overlay::with_paths(&[square_at(0, 0, 10)], &[square_at(5, 0, 10)]);
    let edges = overlay.into_separate_vectors(FillRule::NonZero, Solver::auto());
    assert_eq!(edges.len(), 10);
    assert!(edges.iter().all(|e| e.a.less(&e.b)));
    let shared = edges.iter().filter(|e| e.a == pt(5, 0) && e.b == pt(10, 0)).count();
    assert_eq!(shared, 1);
    let bottom = edges.iter().find(|e| e.a == pt(5, 0) && e.b == pt(10, 0)).unwrap();
    assert!(bottom.fill.subj_top && bottom.fill.clip_top);
    assert!(!bottom.fill.subj_bottom && !bottom.fill.clip_bottom);
}

#[test]
fn shape_vectors_run_round_the_result() {
    let overlay = Overlay::with_paths(&[square_at(0, 0, 10)], &[square_at(5, 0, 10)]);
    let shapes = overlay.into_shape_vectors(FillRule::NonZero, OverlayRule::Intersect, Solver::auto());
    assert_eq!(shapes.len(), 1);
    assert_eq!(shapes[0].len(), 1);
    let contour = &shapes[0][0];
    assert_eq!(contour.len(), 4);
    for k in 0..contour.len() {
        assert_eq!(contour[k].b, contour[(k + 1) % contour.len()].a);
        assert!(contour[k].a.x >= 5 && contour[k].a.x <= 10);
    }
    let points: IntPath = contour.iter().map(|e| e.a).collect();
    assert_eq!(area_two_path(&points), 100);
}

#[test]
fn extraction_steps_compose() {
    let overlay = Overlay::with_paths(&[square_at(0, 0, 10)], &[square_at(5, 5, 10)]);
    let graph = overlay.into_graph_with_solver(FillRule::NonZero, Solver::list());
    assert!(graph.is_valid());
    let rule = OverlayRule::Xor;
    let whole = graph.extract_shapes(rule);
    assert_eq!(whole.len(), 2);
    assert_eq!(graph.extract_shapes_min_area(rule, 0), whole);
    assert_eq!(graph.extract(graph.filter(rule), rule, 0), whole);
    let state = graph.walk_state(&graph.filter(rule), rule);
    assert_eq!(graph.extract_contours(state, 0), whole);
    assert!(graph.extract_shapes_min_area(rule, 76).is_empty());
    assert_eq!(graph.extract_shapes_min_area(rule, 75).len(), 2);
}

#[test]
fn a_hole_joins_the_smallest_shape_round_it() {
    let shapes: Vec<IntShape> =
        vec![vec![square_at(0, 0, 100)], vec![square_at(5, 5, 50)], vec![square_at(200, 0, 100)]];
    let areas: Vec<i128> = shapes.iter().map(|s| area_two_path(&s[0])).collect();
    let inner = hole_at(10, 10, 20);
    let outer_only = hole_at(60, 60, 20);
    let nowhere = hole_at(400, 400, 20);
    assert_eq!(find_parent(&shapes, &areas, &inner), Some(1));
    assert_eq!(find_parent(&shapes, &areas, &outer_only), Some(0));
    assert_eq!(find_parent(&shapes, &areas, &nowhere), None);
    let joined = join_holes(shapes.clone(), vec![inner.clone(), outer_only.clone(), nowhere], 0);
    assert_eq!(joined.len(), 3);
    assert_eq!(joined[0], vec![square_at(0, 0, 100), outer_only]);
    assert_eq!(joined[1], vec![square_at(5, 5, 50), inner]);
    assert_eq!(joined[2], vec![square_at(200, 0, 100)]);
}

#[test]
fn each_strategy_called_by_itself_leaves_no_crossing() {
    let start = SplitSolver::prepare(zigzag(60));
    let settled = |end: SplitEnd| end == SplitEnd::Quiet || end == SplitEnd::Exact;
    let (list, list_end, passes) = SplitSolver::new(Solver::list()).list_split(start.clone(), 0);
    assert!(settled(list_end));
    assert!(passes >= 1);
    assert!(list.len() > start.len());
    assert!(!any_pure_crossing(&list));
    let (tree, tree_end) = SplitSolver::new(Solver::tree()).tree_split(start.clone(), 0);
    assert!(settled(tree_end));
    assert!(!any_pure_crossing(&tree));
    assert_eq!(parts(&tree), parts(&SplitSolver::new(Solver::tree()).split_segments(zigzag(60))));
    let (grid, grid_end) = SplitSolver::new(Solver::frag()).fragment_split(start.clone(), 0);
    assert!(settled(grid_end));
    assert!(!any_pure_crossing(&grid));
    assert_eq!(parts(&grid), parts(&SplitSolver::new(Solver::frag()).split_segments(zigzag(60))));
    let range = ver_range(&start);
    let layout = SpaceLayout::new(range.width() as usize, start.len());
    let (simple, simple_end) = SplitSolver::new(Solver::tree()).simple(range, &layout, start.clone(), 0);
    assert!(settled(simple_end));
    assert!(!any_pure_crossing(&simple));
    let (complex, complex_end) = SplitSolver::new(Solver::tree()).complex(range, &layout, start.clone(), 0);
    assert!(settled(complex_end));
    assert!(!any_pure_crossing(&complex));
    assert!(simple.len() > start.len());
    assert!(complex.len() > start.len());
}

#[test]
fn a_run_tells_how_it_ended() {
    let solver = SplitSolver::new(Solver::auto());
    let (split, end) = solver.split(zigzag(60));
    assert!(end == SplitEnd::Quiet || end == SplitEnd::Exact);
    assert!(!any_pure_crossing(&split));
    let (again, quiet) = solver.split(split.clone());
    assert_eq!(quiet, SplitEnd::Quiet);
    assert_eq!(parts(&again), parts(&split));
    let two = vec![
        Segment::create_and_validate(pt(0, 0), pt(10, 10), ShapeCountBoolean::new(1, 0)),
        Segment::create_and_validate(pt(0, 10), pt(10, 0), ShapeCountBoolean::new(1, 0)),
    ];
    let (left, few) = solver.split(two.clone());
    assert_eq!(few, SplitEnd::Few);
    assert_eq!(left.len(), 2);
    let (none, empty) = solver.split(Vec::<Segment<ShapeCountBoolean>>::new());
    assert_eq!(empty, SplitEnd::Few);
    assert!(none.is_empty());
    for strategy in [Solver::list(), Solver::tree(), Solver::frag()] {
        let (_, end) = SplitSolver::new(strategy).split(two.clone());
        assert_eq!(end, SplitEnd::Few);
    }
}

#[test]
fn a_run_ends_where_passes_can_no_longer_be_counted() {
    let start = SplitSolver::prepare(zigzag(60));
    let (list, end, passes) = SplitSolver::new(Solver::list()).list_split(start.clone(), usize::MAX);
    assert_eq!(end, SplitEnd::GaveUp);
    assert_eq!(passes, usize::MAX);
    assert_eq!(parts(&list), parts(&start));
    let (grid, end) = SplitSolver::new(Solver::frag()).fragment_split(start.clone(), usize::MAX);
    assert_eq!(end, SplitEnd::GaveUp);
    assert_eq!(parts(&grid), parts(&start));
    let (late, end) = SplitSolver::new(Solver::frag()).fragment_split(start.clone(), 300);
    assert!(end == SplitEnd::Quiet || end == SplitEnd::Exact);
    assert!(!any_pure_crossing(&late));
}

#[test]
fn border_without_ends_is_left_alone() {
    let fragments = vec![Fragment::with_index_and_segment(0, XSegment { a: pt(0, 0), b: pt(7, 5) })];
    let given = vec![
        IdSegment { id: 1, x_segment: XSegment { a: pt(8, 10), b: pt(8, 30) } },
        IdSegment { id: 0, x_segment: XSegment { a: pt(8, 0), b: pt(8, 10) } },
    ];
    let mut verticals = given.clone();
    let mut marks = vec![LineMark { index: 9, point: pt(1, 1) }];
    SplitSolver::on_border_split(8, &fragments, &mut verticals, &mut marks);
    assert_eq!(verticals, given);
    assert_eq!(marks, vec![LineMark { index: 9, point: pt(1, 1) }]);
    let mut none = given.clone();
    SplitSolver::on_border_split(8, &Vec::new(), &mut none, &mut marks);
    assert_eq!(none, given);
    assert_eq!(marks.len(), 1);
}

#[test]
fn vertical_segments_with_one_lower_end_keep_their_order() {
    let fragments = vec![
        Fragment::with_index_and_segment(0, XSegment { a: pt(0, 0), b: pt(8, 5) }),
        Fragment::with_index_and_segment(1, XSegment { a: pt(0, 9), b: pt(8, 12) }),
    ];
    let mut verticals = vec![
        IdSegment { id: 7, x_segment: XSegment { a: pt(8, 10), b: pt(8, 30) } },
        IdSegment { id: 5, x_segment: XSegment { a: pt(8, 0), b: pt(8, 10) } },
        IdSegment { id: 3, x_segment: XSegment { a: pt(8, 0), b: pt(8, 10) } },
        IdSegment { id: 4, x_segment: XSegment { a: pt(8, 0), b: pt(8, 6) } },
    ];
    let mut marks = Vec::new();
    SplitSolver::on_border_split(8, &fragments, &mut verticals, &mut marks);
    let ids: Vec<usize> = verticals.iter().map(|v| v.id).collect();
    assert_eq!(ids, vec![5, 3, 4, 7]);
    assert_eq!(
        marks,
        vec![
            LineMark { index: 5, point: pt(8, 5) },
            LineMark { index: 3, point: pt(8, 5) },
            LineMark { index: 4, point: pt(8, 5) },
            LineMark { index: 7, point: pt(8, 12) },
        ]
    );
    let mut list = vec![
        IdSegment { id: 2, x_segment: XSegment { a: pt(0, 4), b: pt(0, 9) } },
        IdSegment { id: 1, x_segment: XSegment { a: pt(0, 4), b: pt(0, 5) } },
        IdSegment { id: 0, x_segment: XSegment { a: pt(0, 1), b: pt(0, 9) } },
    ];
    sort_from_below(&mut list);
    assert_eq!(list.iter().map(|v| v.id).collect::<Vec<usize>>(), vec![0, 2, 1]);
}

#[test]
fn overlays_can_be_copied() {
    let overlay = Overlay::with_shapes(&[vec![square_at(0, 0, 10)]], &[vec![square_at(5, 5, 10)]]);
    let union = overlay.clone().overlay(OverlayRule::Union, FillRule::NonZero);
    let xor = overlay.clone().overlay(OverlayRule::Xor, FillRule::NonZero);
    let intersect = overlay.overlay(OverlayRule::Intersect, FillRule::NonZero);
    assert_eq!(union.len(), 1);
    assert_eq!(xor.len(), 2);
    assert_eq!(intersect.len(), 1);
    let mut lines = StringOverlay::new(4);
    lines.add_shape_path(&square_at(0, 0, 10));
    let copy = lines.clone();
    assert_eq!(parts(&copy.segments), parts(&lines.segments));
    assert_eq!(shapes_points_count(&[vec![square_at(0, 0, 10), hole_at(2, 2, 2)], vec![square_at(20, 0, 5)]]), 12);
}

#[test]
fn contributions_across_a_vertical_line_cancel() {
    let star: IntPath = vec![pt(0, 0), pt(40, 90), pt(80, 0), pt(-10, 60), pt(90, 60)];
    let overlay = Overlay::with_paths(&[star, square_at(10, 10, 30)], &[hole_at(-5, 20, 70)]);
    for x in [-20, -10, -5, 0, 10, 25, 39, 40, 41, 65, 80, 89, 90, 100] {
        assert_eq!(line_sum(&overlay.segments, x), (0, 0));
    }
    let left = overlay.segments.iter().filter(|s| s.x_segment.a.x <= 25 && 25 < s.x_segment.b.x).count();
    assert_eq!(left, 8);
    let split = SplitSolver::new(Solver::auto()).split_segments(overlay.segments);
    for x in [-20, -10, -5, 0, 10, 25, 39, 40, 41, 65, 80, 89, 90, 100] {
        assert_eq!(line_sum(&split, x), (0, 0));
    }
}

#[test]
fn string_overlay_collects_lines_and_paths_alike() {
    let body = square_at(0, 0, 10);
    let line = [pt(5, -5), pt(5, 15)];
    let mut one = StringOverlay::new(8);
    one.add_shape_path(&body);
    one.add_string_line(line);
    let mut many = StringOverlay::new(8);
    many.add_shape_paths(&[body.clone()]);
    many.add_string_lines(&[line]);
    assert_eq!(parts(&one.segments), parts(&many.segments));
    let mut by_shape = StringOverlay::new(8);
    by_shape.add_shapes(&[vec![body.clone()]]);
    by_shape.add_string_path(&[pt(5, -5), pt(5, 15)], true);
    assert_eq!(parts(&one.segments), parts(&by_shape.segments));
    let mut by_paths = StringOverlay::new(8);
    by_paths.add_shape_path(&body);
    by_paths.add_string_paths(&[vec![pt(5, -5), pt(5, 15)]], true);
    assert_eq!(parts(&one.segments), parts(&by_paths.segments));
    assert_eq!(one.segments.len(), 5);
    let graph = one.into_graph_with_solver(FillRule::NonZero, Solver::list());
    assert_eq!(graph.extract_shapes(StringRule::Slice).len(), 2);
    assert_eq!(graph.extract_shapes_min_area(StringRule::Slice, 51).len(), 0);
    let mut closed = StringOverlay::new(8);
    closed.add_string_path(&[pt(0, 0), pt(4, 0), pt(4, 4)], false);
    assert_eq!(closed.segments.len(), 3);
    let mut open = StringOverlay::new(8);
    open.add_string_path(&[pt(0, 0), pt(4, 0), pt(4, 4)], true);
    assert_eq!(open.segments.len(), 2);
}

#[test]
fn every_border_link_is_walked_once() {
    let overlay = Overlay::with_paths(&[square_at(0, 0, 10), square_at(20, 0, 4)], &[square_at(5, 5, 10)]);
    let graph = overlay.into_graph(FillRule::NonZero);
    for rule in [OverlayRule::Union, OverlayRule::Xor, OverlayRule::Intersect, OverlayRule::Difference] {
        let mut state = graph.walk_state(&graph.filter(rule), rule);
        let mut walked = vec![0usize; graph.links.len()];
        let mut contours = 0;
        for link in 0..graph.links.len() {
            for forward in [true, false] {
                if state.is_open(link, forward) {
                    let path = graph.walk(Step { link, forward }, &mut state);
                    assert_eq!(path[0], Step { link, forward });
                    for k in 0..path.len() {
                        walked[path[k].link] += 1;
                        assert!(!state.is_open(path[k].link, path[k].forward));
                        let here = graph.links[path[k].link];
                        let next = graph.links[path[(k + 1) % path.len()].link];
                        let arrives = if path[k].forward { here.b } else { here.a };
                        let leaves = if path[(k + 1) % path.len()].forward { next.a } else { next.b };
                        assert_eq!(arrives.point, leaves.point);
                    }
                    contours += 1;
                }
            }
        }
        for link in 0..graph.links.len() {
            let on_border = rule.is_boundary(graph.links[link].fill);
            assert_eq!(walked[link], if on_border { 1 } else { 0 });
        }
        assert_eq!(contours, graph.extract_shapes(rule).iter().map(|s| s.len()).sum::<usize>());
    }
}

#[test]
fn links_share_a_node_where_they_share_a_point() {
    let overlay = Overlay::with_paths(&[square_at(0, 0, 10)], &[square_at(10, 10, 5)]);
    let graph = overlay.into_graph(FillRule::NonZero);
    assert_eq!(graph.links.len(), 8);
    assert_eq!(graph.nodes.len(), 7);
    for a in &graph.links {
        for b in &graph.links {
            for (p, q) in [(a.a, b.a), (a.a, b.b), (a.b, b.a), (a.b, b.b)] {
                assert_eq!(p.id == q.id, p.point == q.point);
            }
        }
    }
    for (n, node) in graph.nodes.iter().enumerate() {
        for &l in &node.indices {
            assert!(graph.links[l].a.id == n || graph.links[l].b.id == n);
        }
    }
    let corner = graph.links.iter().find(|l| l.a.point == pt(10, 10)).unwrap().a.id;
    assert_eq!(graph.nodes[corner].indices.len(), 4);
    for link in &graph.links {
        assert!(graph.nodes[link.a.id].indices.iter().any(|&l| graph.links[l] == *link));
        assert!(graph.nodes[link.b.id].indices.iter().any(|&l| graph.links[l] == *link));
    }
}

#[test]
fn simplification_keeps_the_area() {
    let paths: Vec<IntPath> = vec![
        vec![pt(0, 0), pt(5, 0), pt(10, 0), pt(10, 10), pt(0, 10), pt(0, 10)],
        vec![pt(0, 0), pt(10, 0), pt(20, 0), pt(10, 0), pt(10, 10)],
        vec![pt(5, 0), pt(10, 0), pt(10, 10), pt(0, 10), pt(0, 0)],
        vec![pt(0, 0), pt(4, 4), pt(8, 8), pt(8, 0), pt(4, 0)],
        vec![pt(0, 0), pt(3, 3), pt(6, 6)],
        vec![pt(1, 1)],
        vec![],
    ];
    let areas = [200, 100, 200, -64, 0, 0, 0];
    for (path, area) in paths.iter().zip(areas) {
        assert_eq!(area_two_path(path), area);
        assert_eq!(area_two_path(&simplify_contour(path)), area);
    }
}

#[test]
fn a_line_cuts_only_where_it_spans_the_shape() {
    let body = square_at(0, 0, 10);
    let mut through = StringOverlay::new(8);
    through.add_shape_path(&body);
    through.add_string_line([pt(5, 0), pt(5, 10)]);
    let halves = through.into_graph(FillRule::NonZero).extract_shapes(StringRule::Slice);
    assert_eq!(halves.len(), 2);
    for half in &halves {
        assert_eq!(half.len(), 1);
        assert_eq!(area_two_path(&half[0]), 100);
    }
    let mut short = StringOverlay::new(8);
    short.add_shape_path(&body);
    short.add_string_line([pt(5, 0), pt(5, 6)]);
    let whole = short.into_graph(FillRule::NonZero).extract_shapes(StringRule::Slice);
    assert_eq!(whole.len(), 1);
    assert_eq!(whole[0].len(), 1);
    assert_eq!(area_two_path(&whole[0][0]), 200);
    let mut inside = StringOverlay::new(8);
    inside.add_shape_path(&body);
    inside.add_string_line([pt(5, 2), pt(5, 8)]);
    let untouched = inside.into_graph(FillRule::NonZero).extract_shapes(StringRule::Slice);
    assert_eq!(untouched.len(), 1);
    assert_eq!(area_two_path(&untouched[0][0]), 200);
}
