use i_overlay::fill::fill_rule::FillRule;
use i_overlay::geom::contour::{IntPath, IntShapes};
use i_overlay::geom::point::IntPoint;
use i_overlay::overlay::builder::Overlay;
use i_overlay::overlay::rule::OverlayRule;
use i_overlay::segm::count::ShapeType;
use i_overlay::solver::Solver;

fn square(x: i32, y: i32, size: i32) -> IntPath {
    vec![
        IntPoint::new(x, y),
        IntPoint::new(x + size, y),
        IntPoint::new(x + size, y + size),
        IntPoint::new(x, y + size),
    ]
}

fn run(subj: &[IntPath], clip: &[IntPath], rule: OverlayRule, solver: Solver) -> IntShapes {
    Overlay::with_paths(subj, clip).overlay_with_min_area_and_solver(rule, FillRule::NonZero, 0, solver)
}

fn area_two(path: &IntPath) -> i64 {
    let n = path.len();
    let mut sum = 0i64;
    for i in 0..n {
        let p = path[i];
        let q = path[(i + 1) % n];
        sum += p.x as i64 * q.y as i64 - q.x as i64 * p.y as i64;
    }
    sum
}

fn total_area_two(shapes: &IntShapes) -> i64 {
    shapes.iter().map(|s| s.iter().map(area_two).sum::<i64>()).sum()
}

fn solvers() -> Vec<Solver> {
    vec![Solver::list(), Solver::tree(), Solver::frag(), Solver::auto()]
}

#[test]
fn squares_sharing_an_edge_union_is_one_rectangle() {
    for solver in solvers() {
        let union = run(&[square(0, 0, 1)], &[square(1, 0, 1)], OverlayRule::Union, solver);
        assert_eq!(union.len(), 1);
        assert_eq!(union[0].len(), 1);
        assert_eq!(union[0][0].len(), 4);
        assert_eq!(area_two(&union[0][0]), 4);
    }
}

#[test]
fn squares_sharing_an_edge_intersect_is_empty() {
    for solver in solvers() {
        let result = run(&[square(0, 0, 1)], &[square(1, 0, 1)], OverlayRule::Intersect, solver);
        assert!(result.is_empty());
    }
}

#[test]
fn overlapping_squares_all_rules() {
    for solver in solvers() {
        let subj = [square(0, 0, 10)];
        let clip = [square(5, 5, 10)];
        let union = run(&subj, &clip, OverlayRule::Union, solver);
        let intersect = run(&subj, &clip, OverlayRule::Intersect, solver);
        let difference = run(&subj, &clip, OverlayRule::Difference, solver);
        let inverse = run(&subj, &clip, OverlayRule::InverseDifference, solver);
        let xor = run(&subj, &clip, OverlayRule::Xor, solver);
        let subject = run(&subj, &clip, OverlayRule::Subject, solver);
        let clip_only = run(&subj, &clip, OverlayRule::Clip, solver);
        assert_eq!(total_area_two(&union), 350);
        assert_eq!(total_area_two(&intersect), 50);
        assert_eq!(total_area_two(&difference), 150);
        assert_eq!(total_area_two(&inverse), 150);
        assert_eq!(total_area_two(&xor), 300);
        assert_eq!(total_area_two(&subject), 200);
        assert_eq!(total_area_two(&clip_only), 200);
        assert_eq!(union.len(), 1);
        assert_eq!(union[0][0].len(), 8);
        assert_eq!(intersect.len(), 1);
        assert_eq!(intersect[0][0].len(), 4);
        assert_eq!(xor.len(), 2);
    }
}

#[test]
fn rule_algebra_on_areas() {
    for solver in solvers() {
        let subj = [square(0, 0, 12), square(20, 0, 6)];
        let clip = [square(6, -3, 18)];
        let union = total_area_two(&run(&subj, &clip, OverlayRule::Union, solver));
        let xor = total_area_two(&run(&subj, &clip, OverlayRule::Xor, solver));
        let intersect = total_area_two(&run(&subj, &clip, OverlayRule::Intersect, solver));
        let difference = total_area_two(&run(&subj, &clip, OverlayRule::Difference, solver));
        let subject = total_area_two(&run(&subj, &clip, OverlayRule::Subject, solver));
        assert_eq!(union, xor + intersect);
        assert_eq!(difference, subject - intersect);
    }
}

#[test]
fn square_with_a_hole() {
    for solver in solvers() {
        let result = run(&[square(0, 0, 30)], &[square(10, 10, 10)], OverlayRule::Difference, solver);
        assert_eq!(result.len(), 1);
        assert_eq!(result[0].len(), 2);
        assert_eq!(area_two(&result[0][0]), 1800);
        assert_eq!(area_two(&result[0][1]), -200);
    }
}

#[test]
fn island_in_a_hole() {
    let subj = [square(0, 0, 50)];
    let clip = [square(10, 10, 30), square(20, 20, 10)];
    for solver in solvers() {
        let result = Overlay::with_paths(&subj, &clip).overlay_with_min_area_and_solver(
            OverlayRule::Difference,
            FillRule::EvenOdd,
            0,
            solver,
        );
        assert_eq!(result.len(), 2);
        assert_eq!(total_area_two(&result), 2 * (2500 - 900 + 100));
        let with_hole: Vec<_> = result.iter().filter(|s| s.len() == 2).collect();
        assert_eq!(with_hole.len(), 1);
        assert_eq!(area_two(&with_hole[0][0]), 5000);
        assert_eq!(area_two(&with_hole[0][1]), -1800);
    }
}

#[test]
fn extraction_is_repeatable() {
    let overlay = Overlay::with_paths(&[square(0, 0, 10)], &[square(5, 5, 10)]);
    let graph = overlay.into_graph(FillRule::NonZero);
    let first = graph.extract_shapes(OverlayRule::Xor);
    let second = graph.extract_shapes(OverlayRule::Xor);
    assert_eq!(first, second);
    let union = graph.extract_shapes(OverlayRule::Union);
    assert_eq!(total_area_two(&union), 350);
}

#[test]
fn order_of_paths_does_not_matter() {
    let a = square(0, 0, 10);
    let b = square(5, 5, 10);
    let c = square(8, -4, 7);
    let first = run(&[a.clone(), b.clone(), c.clone()], &[], OverlayRule::Subject, Solver::auto());
    let second = run(&[c, a, b], &[], OverlayRule::Subject, Solver::auto());
    assert_eq!(first, second);
}

#[test]
fn min_area_drops_small_contours() {
    let subj = [square(0, 0, 10), square(100, 100, 2)];
    let all = Overlay::with_paths(&subj, &[]).overlay_with_min_area_and_solver(
        OverlayRule::Subject,
        FillRule::NonZero,
        0,
        Solver::auto(),
    );
    let large = Overlay::with_paths(&subj, &[]).overlay_with_min_area_and_solver(
        OverlayRule::Subject,
        FillRule::NonZero,
        5,
        Solver::auto(),
    );
    assert_eq!(all.len(), 2);
    assert_eq!(large.len(), 1);
    assert_eq!(area_two(&large[0][0]), 200);
}

#[test]
fn even_odd_and_non_zero_differ_on_a_double_cover() {
    let subj = [square(0, 0, 10), square(0, 0, 10)];
    let non_zero = Overlay::with_paths(&subj, &[]).overlay(OverlayRule::Subject, FillRule::NonZero);
    let even_odd = Overlay::with_paths(&subj, &[]).overlay(OverlayRule::Subject, FillRule::EvenOdd);
    assert_eq!(non_zero.len(), 1);
    assert!(even_odd.is_empty());
}

#[test]
fn degenerate_paths_are_ignored() {
    let mut overlay = Overlay::new(4);
    overlay.add_path(&[], ShapeType::Subject);
    overlay.add_path(&[IntPoint::new(1, 1)], ShapeType::Subject);
    overlay.add_path(&[IntPoint::new(1, 1), IntPoint::new(1, 1)], ShapeType::Subject);
    assert_eq!(overlay.segments.len(), 0);
    overlay.add_path(&[IntPoint::new(0, 0), IntPoint::new(5, 0)], ShapeType::Subject);
    assert_eq!(overlay.segments.len(), 2);
    let shapes = overlay.overlay(OverlayRule::Subject, FillRule::NonZero);
    assert!(shapes.is_empty());
}

#[test]
fn self_crossing_path_is_resolved() {
    let bow = vec![IntPoint::new(0, 0), IntPoint::new(10, 10), IntPoint::new(10, 0), IntPoint::new(0, 10)];
    for solver in solvers() {
        let shapes = run(&[bow.clone()], &[], OverlayRule::Subject, solver);
        assert_eq!(shapes.len(), 2);
        assert_eq!(total_area_two(&shapes), 100);
    }
}
