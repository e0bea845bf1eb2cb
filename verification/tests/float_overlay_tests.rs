use i_float::adapter::FloatPointAdapter;
use i_overlay::fill::fill_rule::FillRule;
use i_overlay::geom::contour::{IntPath, IntShapes};
use i_overlay::geom::point::IntPoint;
use i_overlay::overlay::builder::Overlay;
use i_overlay::overlay::rule::OverlayRule;
use i_overlay::string::overlay::StringOverlay;
use i_overlay::string::rule::{ClipRule, StringRule};

#[derive(Clone, Copy)]
struct FPoint {
    x: f32,
    y: f32,
}

impl FPoint {
    fn new(x: f32, y: f32) -> Self {
        Self { x, y }
    }
}

type Adapter = FloatPointAdapter<[f32; 2], i32>;

fn adapter_for(groups: &[&[FPoint]]) -> Adapter {
    let all: Vec<[f32; 2]> = groups.iter().flat_map(|g| g.iter().map(|p| [p.x, p.y])).collect();
    Adapter::with_iter(all.iter())
}

fn to_int(adapter: &Adapter, path: &[FPoint]) -> IntPath {
    path.iter()
        .map(|p| {
            let q = adapter.float_to_int(&[p.x, p.y]);
            IntPoint::new(q.x, q.y)
        })
        .collect()
}

fn union_of(shape_0: &[FPoint], shape_1: &[FPoint]) -> IntShapes {
    let adapter = adapter_for(&[shape_0, shape_1]);
    Overlay::with_paths(&[to_int(&adapter, shape_0)], &[to_int(&adapter, shape_1)])
        .into_graph(FillRule::NonZero)
        .extract_shapes(OverlayRule::Union)
}

fn subject_of(paths: &[&[FPoint]], clips: &[&[FPoint]]) -> IntShapes {
    let mut all: Vec<&[FPoint]> = paths.to_vec();
    all.extend_from_slice(clips);
    let adapter = adapter_for(&all);
    let subj: Vec<IntPath> = paths.iter().map(|p| to_int(&adapter, p)).collect();
    let clip: Vec<IntPath> = clips.iter().map(|p| to_int(&adapter, p)).collect();
    Overlay::with_paths(&subj, &clip).into_graph(FillRule::NonZero).extract_shapes(OverlayRule::Subject)
}

fn slice_by_path(body: &[FPoint], string: &[FPoint], is_open: bool) -> IntShapes {
    let adapter = adapter_for(&[body, string]);
    let mut overlay = StringOverlay::new(body.len() + string.len());
    overlay.add_shape_path(&to_int(&adapter, body));
    overlay.add_string_path(&to_int(&adapter, string), is_open);
    overlay.into_graph(FillRule::NonZero).extract_shapes(StringRule::Slice)
}

fn slice_by_line(body: &[FPoint], line: [FPoint; 2]) -> IntShapes {
    let adapter = adapter_for(&[body, &line]);
    let ends = to_int(&adapter, &line);
    let mut overlay = StringOverlay::new(body.len() + 1);
    overlay.add_shape_path(&to_int(&adapter, body));
    overlay.add_string_line([ends[0], ends[1]]);
    overlay.into_graph(FillRule::NonZero).extract_shapes(StringRule::Slice)
}

fn clip_line(body: &[FPoint], line: [FPoint; 2], clip_rule: ClipRule) -> Vec<IntPath> {
    let adapter = adapter_for(&[body, &line]);
    let ends = to_int(&adapter, &line);
    let mut overlay = StringOverlay::new(body.len() + 1);
    overlay.add_shape_path(&to_int(&adapter, body));
    overlay.add_string_line([ends[0], ends[1]]);
    overlay.into_graph(FillRule::NonZero).clip_string_lines(clip_rule)
}

fn pair_of_squares(a: f32) -> (Vec<FPoint>, Vec<FPoint>) {
    (
        vec![FPoint::new(0.0, 0.0), FPoint::new(0.0, a), FPoint::new(a, a), FPoint::new(a, 0.0)],
        vec![FPoint::new(a, 0.0), FPoint::new(a, a), FPoint::new(2.0 * a, a), FPoint::new(2.0 * a, 0.0)],
    )
}

fn body() -> Vec<FPoint> {
    vec![
        FPoint::new(-10.0, -10.0),
        FPoint::new(-10.0, 10.0),
        FPoint::new(10.0, 10.0),
        FPoint::new(10.0, -10.0),
    ]
}

fn check_one_rectangle(a: f32) {
    let (shape_0, shape_1) = pair_of_squares(a);
    let union = union_of(&shape_0, &shape_1);
    assert_eq!(union.len(), 1);
    assert_eq!(union[0].len(), 1);
    assert_eq!(union[0][0].len(), 4);
}

#[test]
fn test_00() {
    check_one_rectangle(1.0);
}

#[test]
fn test_01() {
    check_one_rectangle((1 << 30) as f32);
}

#[test]
fn test_02() {
    let i: usize = 1 << 48;
    check_one_rectangle(i as f32);
}

#[test]
fn test_03() {
    let i: usize = 1 << 48;
    check_one_rectangle(1.0 / i as f32);
}

#[test]
fn test_04() {
    check_one_rectangle(0.9);
}

#[test]
fn test_05() {
    check_one_rectangle(0.99999_99999_99999_9);
}

#[test]
fn test_06() {
    check_one_rectangle(1.99999_99999_99999);
}

#[test]
fn test_07() {
    let shape_0 = body();
    let shape_1 = vec![
        FPoint::new(-5.0, -5.0),
        FPoint::new(-5.0, 15.0),
        FPoint::new(15.0, 15.0),
        FPoint::new(15.0, -5.0),
    ];

    let union = union_of(&shape_0, &shape_1);

    assert_eq!(union.len(), 1);
    assert_eq!(union[0].len(), 1);
    assert_eq!(union[0][0].len(), 8);
}

#[test]
fn test_empty_0() {
    let path = [FPoint::new(-10.0, -10.0), FPoint::new(-10.0, 10.0)];
    let adapter = adapter_for(&[&path]);
    let _ = to_int(&adapter, &path);

    let shapes = Overlay::new(path.len()).into_graph(FillRule::NonZero).extract_shapes(OverlayRule::Subject);

    assert_eq!(shapes.is_empty(), true);
}

#[test]
fn test_empty_1() {
    let shape = body();
    let shapes = subject_of(&[&shape], &[]);

    assert_eq!(shapes.len(), 1);
    assert_eq!(shapes[0].len(), 1);
    assert_eq!(shapes[0][0].len(), 4);
}

#[test]
fn test_empty_2() {
    let shape_0 = body();
    let shape_1 = [FPoint::new(-500.0, -500.0)];

    let shapes = subject_of(&[&shape_0], &[&shape_1]);

    assert_eq!(shapes.len(), 1);
    assert_eq!(shapes[0].len(), 1);
    assert_eq!(shapes[0][0].len(), 4);
}

#[test]
fn test_empty_3() {
    let shape_0 = body();
    let shape_1 = [FPoint::new(-500.0, -500.0), FPoint::new(-500.0, 500.0)];

    let shapes = subject_of(&[&shape_0], &[&shape_1]);

    assert_eq!(shapes.len(), 1);
    assert_eq!(shapes[0].len(), 1);
    assert_eq!(shapes[0][0].len(), 4);
}

#[test]
fn test_empty_4() {
    let path = [FPoint::new(0.0, 0.0)];
    let shapes = subject_of(&[&path], &[]);

    assert_eq!(shapes.len(), 0);
}

#[test]
fn test_empty_5() {
    let shapes = subject_of(&[&[FPoint::new(0.0, 0.0)]], &[&[FPoint::new(1.0, 0.0)]]);

    assert_eq!(shapes.len(), 0);
}

#[test]
fn test_empty_6() {
    let path = [FPoint::new(0.0, 0.0), FPoint::new(1.0, 0.0)];
    let shapes = subject_of(&[&path], &[]);

    assert_eq!(shapes.len(), 0);
}

#[test]
fn test_slice_0() {
    let shapes = slice_by_line(&body(), [FPoint::new(0.0, -15.0), FPoint::new(0.0, 15.0)]);

    assert_eq!(shapes.len(), 2);
}

#[test]
fn test_slice_1() {
    let shapes = slice_by_line(&body(), [FPoint::new(0.0, -5.0), FPoint::new(0.0, 5.0)]);

    assert_eq!(shapes.len(), 1);
}

#[test]
fn test_slice_2() {
    let path_1 = [FPoint::new(-15.0, -15.0), FPoint::new(0.0, 0.0), FPoint::new(-15.0, 15.0)];

    let shapes = slice_by_path(&body(), &path_1, true);

    assert_eq!(shapes.len(), 2);
}

#[test]
fn test_slice_3() {
    let path_1 = [
        FPoint::new(0.0, -5.0),
        FPoint::new(0.0, 5.0),
        FPoint::new(15.0, 5.0),
        FPoint::new(15.0, -5.0),
    ];

    let shapes = slice_by_path(&body(), &path_1, false);

    assert_eq!(shapes.len(), 2);
}

#[test]
fn test_slice_4() {
    let path_1 = [
        FPoint::new(-5.0, -5.0),
        FPoint::new(-5.0, 5.0),
        FPoint::new(5.0, 5.0),
        FPoint::new(5.0, -5.0),
    ];

    let shapes = slice_by_path(&body(), &path_1, false);

    assert_eq!(shapes.len(), 2);
}

#[test]
fn test_ext_slice_0() {
    let shapes = slice_by_line(&body(), [FPoint::new(0.0, -15.0), FPoint::new(0.0, 15.0)]);

    assert_eq!(shapes.len(), 2);
}

#[test]
fn test_ext_slice_1() {
    let shapes = slice_by_line(&body(), [FPoint::new(0.0, -5.0), FPoint::new(0.0, 5.0)]);

    assert_eq!(shapes.len(), 1);
}

#[test]
fn test_ext_slice_2() {
    let shapes = slice_by_path(
        &body(),
        &vec![FPoint::new(-15.0, -15.0), FPoint::new(0.0, 0.0), FPoint::new(-15.0, 15.0)],
        true,
    );

    assert_eq!(shapes.len(), 2);
}

#[test]
fn test_ext_slice_3() {
    let shapes = slice_by_path(
        &body(),
        &vec![
            FPoint::new(0.0, -5.0),
            FPoint::new(0.0, 5.0),
            FPoint::new(15.0, 5.0),
            FPoint::new(15.0, -5.0),
        ],
        false,
    );

    assert_eq!(shapes.len(), 2);
}

#[test]
fn test_ext_slice_4() {
    let shapes = slice_by_path(
        &body(),
        &vec![
            FPoint::new(-5.0, -5.0),
            FPoint::new(-5.0, 5.0),
            FPoint::new(5.0, 5.0),
            FPoint::new(5.0, -5.0),
        ],
        false,
    );

    assert_eq!(shapes.len(), 2);
}

#[test]
fn test_clip_empty_path() {
    let path: Vec<FPoint> = vec![];
    let result_0 = clip_line(
        &path,
        [FPoint::new(0.0, 0.0), FPoint::new(1.0, 0.0)],
        ClipRule { invert: false, boundary_included: false },
    );

    let result_1 = clip_line(
        &path,
        [FPoint::new(0.0, 0.0), FPoint::new(1.0, 0.0)],
        ClipRule { invert: true, boundary_included: false },
    );

    assert!(result_0.is_empty());
    assert_eq!(result_1.len(), 1);
}

#[test]
fn test_clip_simple() {
    let result_0 = clip_line(
        &body(),
        [FPoint::new(0.0, -15.0), FPoint::new(0.0, 15.0)],
        ClipRule { invert: false, boundary_included: false },
    );

    let result_1 = clip_line(
        &body(),
        [FPoint::new(0.0, -15.0), FPoint::new(0.0, 15.0)],
        ClipRule { invert: true, boundary_included: false },
    );

    assert_eq!(result_0.len(), 1);
    assert_eq!(result_1.len(), 2);
}

#[test]
fn test_clip_boundary() {
    let result_0 = clip_line(
        &body(),
        [FPoint::new(-10.0, -15.0), FPoint::new(-10.0, 15.0)],
        ClipRule { invert: false, boundary_included: false },
    );

    let result_1 = clip_line(
        &body(),
        [FPoint::new(-10.0, -15.0), FPoint::new(-10.0, 15.0)],
        ClipRule { invert: false, boundary_included: true },
    );

    assert_eq!(result_0.len(), 0);
    assert_eq!(result_1.len(), 1);
}
