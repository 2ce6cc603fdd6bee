//! Where a brush puts its dabs.

use openpaint::brush::{Spot, Walk};
use openpaint::color::Rgba;
use openpaint::curve::{Calculus, Point};
use openpaint::scalar::Scalar;
use openpaint::{Brush, Curve, Dab, StrokeState};

fn scalar(v: f32) -> Scalar {
    Scalar::from_bits(v.to_bits())
}

fn single(s: Scalar) -> f32 {
    f32::from_bits(s.to_bits())
}

fn points(list: Vec<(f32, f32)>) -> Vec<Point> {
    list.into_iter().map(|(x, y)| (scalar(x), scalar(y))).collect()
}

fn slope(p: Point, q: Point) -> Scalar {
    scalar((single(q.1) - single(p.1)) / (single(q.0) - single(p.0)))
}

fn mean(a: Scalar, b: Scalar) -> Scalar {
    scalar((single(a) + single(b)) / 2.0)
}

fn thrice(a: Scalar) -> Scalar {
    scalar(3.0 * single(a))
}

fn flat(a: Scalar) -> bool {
    single(a).abs() <= f32::EPSILON
}

fn narrow(a: Scalar, b: Scalar) -> bool {
    single(b) - single(a) <= f32::EPSILON
}

fn piece(x: Scalar, ends: (Point, Point), tangents: (Scalar, Scalar)) -> Scalar {
    let ((x0, y0), (x1, y1)) = ends;
    let (x0, y0, x1, y1) = (single(x0), single(y0), single(x1), single(y1));
    let (m0, m1) = (single(tangents.0), single(tangents.1));
    let h = x1 - x0;
    let t = (single(x) - x0) / h;
    let t2 = t * t;
    let t3 = t2 * t;
    scalar(
        (2.0 * t3 - 3.0 * t2 + 1.0) * y0
            + (t3 - 2.0 * t2 + t) * h * m0
            + (-2.0 * t3 + 3.0 * t2) * y1
            + (t3 - t2) * h * m1,
    )
}

fn calculus() -> Calculus<
    impl Fn(Point, Point) -> Scalar,
    impl Fn(Scalar, Scalar) -> Scalar,
    impl Fn(Scalar) -> Scalar,
    impl Fn(Scalar) -> bool,
    impl Fn(Scalar, Scalar) -> bool,
    impl Fn(Scalar, (Point, Point), (Scalar, Scalar)) -> Scalar,
> {
    Calculus {
        slope,
        mean,
        thrice,
        flat,
        narrow,
        piece,
    }
}

fn product(a: Scalar, b: Scalar) -> Scalar {
    scalar(single(a) * single(b))
}

fn stride(radius: Scalar, spacing: Scalar) -> Scalar {
    scalar(single(radius) * 2.0 * single(spacing))
}

fn length(a: Spot, b: Spot) -> Scalar {
    let (dx, dy) = (single(b.x) - single(a.x), single(b.y) - single(a.y));
    scalar((dx * dx + dy * dy).sqrt())
}

fn ahead(t: Scalar, step: Scalar) -> Scalar {
    scalar(single(t) + single(step))
}

fn along(a: Spot, b: Spot, len: Scalar, t: Scalar) -> Spot {
    let (len, t) = (single(len), single(t));
    let (dx, dy) = (single(b.x) - single(a.x), single(b.y) - single(a.y));
    Spot {
        x: scalar(single(a.x) + dx / len * t),
        y: scalar(single(a.y) + dy / len * t),
    }
}

fn left(len: Scalar, t: Scalar) -> Scalar {
    scalar(single(len) - single(t))
}

fn walk() -> Walk<
    impl Fn(Point, Point) -> Scalar,
    impl Fn(Scalar, Scalar) -> Scalar,
    impl Fn(Scalar) -> Scalar,
    impl Fn(Scalar) -> bool,
    impl Fn(Scalar, Scalar) -> bool,
    impl Fn(Scalar, (Point, Point), (Scalar, Scalar)) -> Scalar,
    impl Fn(Scalar, Scalar) -> Scalar,
    impl Fn(Scalar, Scalar) -> Scalar,
    impl Fn(Spot, Spot) -> Scalar,
    impl Fn(Scalar, Scalar) -> Scalar,
    impl Fn(Spot, Spot, Scalar, Scalar) -> Spot,
    impl Fn(Scalar, Scalar) -> Scalar,
> {
    Walk {
        calculus: calculus(),
        product,
        stride,
        length,
        ahead,
        place: along,
        left,
    }
}

fn rgba(c: [f32; 4]) -> Rgba {
    Rgba {
        r: scalar(c[0]),
        g: scalar(c[1]),
        b: scalar(c[2]),
        a: scalar(c[3]),
    }
}

fn fresh() -> Brush {
    Brush::default()
}

fn begin(
    brush: &Brush,
    dabs: &mut Vec<Dab>,
    state: &mut StrokeState,
    x: f32,
    y: f32,
    pressure: f32,
) {
    let spot = Spot {
        x: scalar(x),
        y: scalar(y),
    };
    brush.stroke_begin(dabs, state, spot, scalar(pressure), &walk());
}

fn to(brush: &Brush, dabs: &mut Vec<Dab>, state: &mut StrokeState, x: f32, y: f32, pressure: f32) {
    let spot = Spot {
        x: scalar(x),
        y: scalar(y),
    };
    brush.stroke_to(dabs, state, spot, scalar(pressure), &walk());
}

fn stroke(brush: &Brush, from: f32, until: f32, pressure: f32) -> Vec<Dab> {
    let mut dabs = Vec::new();
    let mut state = StrokeState::new();
    begin(brush, &mut dabs, &mut state, from, 0.0, pressure);
    to(brush, &mut dabs, &mut state, until, 0.0, pressure);
    dabs
}

#[test]
fn beginning_a_stroke_emits_exactly_one_dab() {
    let mut dabs = Vec::new();
    let mut state = StrokeState::new();
    begin(&fresh(), &mut dabs, &mut state, 5.0, 7.0, 1.0);
    assert_eq!(dabs.len(), 1);
    assert_eq!((single(dabs[0].x), single(dabs[0].y)), (5.0, 7.0));
}

#[test]
fn dabs_are_spaced_at_a_quarter_of_the_diameter() {
    let b = fresh();
    let dabs = stroke(&b, 0.0, 400.0, 1.0);
    assert_eq!(single(b.radius) * 2.0 * single(b.spacing), 4.0);
    assert_eq!(dabs.len(), 101);
    for (i, d) in dabs.iter().enumerate() {
        assert!(
            (single(d.x) - i as f32 * 4.0).abs() < 1e-3,
            "dab {i} at {} not at {}",
            single(d.x),
            i as f32 * 4.0
        );
    }
}

#[test]
fn spacing_is_continuous_across_segments() {
    let b = fresh();
    let mut dabs = Vec::new();
    let mut state = StrokeState::new();
    begin(&b, &mut dabs, &mut state, 0.0, 0.0, 1.0);
    for i in 1..=10 {
        to(&b, &mut dabs, &mut state, i as f32 * 10.0, 0.0, 1.0);
    }

    let one_segment = stroke(&b, 0.0, 100.0, 1.0);
    assert_eq!(dabs.len(), one_segment.len());
    for (a, b) in dabs.iter().zip(&one_segment) {
        assert!((single(a.x) - single(b.x)).abs() < 1e-3, "{} vs {}", single(a.x), single(b.x));
    }
}

#[test]
fn the_size_curve_is_what_separates_a_pencil_from_a_pen() {
    let mut pencil = Brush {
        radius: scalar(20.0),
        ..fresh()
    };
    let mut pen = pencil.clone();
    pencil.size_response =
        Curve::from_points(points(vec![(0.0, 0.0), (0.2, 0.55), (1.0, 1.0)])).expect("valid");
    pen.size_response =
        Curve::from_points(points(vec![(0.0, 0.0), (0.7, 0.25), (1.0, 1.0)])).expect("valid");

    let light = 0.2_f32;
    let pencil_dab = stroke(&pencil, 0.0, 0.0, light);
    let pen_dab = stroke(&pen, 0.0, 0.0, light);
    assert!(
        single(pencil_dab[0].radius) > single(pen_dab[0].radius) * 2.0,
        "at light pressure the pencil should already be wide: {} vs {}",
        single(pencil_dab[0].radius),
        single(pen_dab[0].radius)
    );

    let hard = 1.0_f32;
    for b in [&pencil, &pen] {
        let dab = stroke(b, 0.0, 0.0, hard);
        assert!(
            (single(dab[0].radius) - 20.0).abs() < 0.1,
            "full pressure should give the full radius, got {}",
            single(dab[0].radius)
        );
    }
}

#[test]
fn the_flow_curve_reaches_the_dabs() {
    let mut brush = Brush {
        radius: scalar(10.0),
        flow: scalar(1.0),
        ..fresh()
    };
    assert!(
        (single(stroke(&brush, 0.0, 0.0, 0.2)[0].flow) - 1.0).abs() < 1e-3,
        "the default flow curve should ignore pressure"
    );

    brush.flow_response = Curve::linear();
    let faint = stroke(&brush, 0.0, 0.0, 0.25);
    let firm = stroke(&brush, 0.0, 0.0, 1.0);
    assert!(
        (single(faint[0].flow) - 0.25).abs() < 0.02,
        "a light touch should lay down little paint, got {}",
        single(faint[0].flow)
    );
    assert!(
        (single(firm[0].flow) - 1.0).abs() < 0.02,
        "and a firm one all of it, got {}",
        single(firm[0].flow)
    );
}

#[test]
fn a_flat_size_curve_makes_pressure_irrelevant() {
    let brush = Brush {
        radius: scalar(12.0),
        size_response: Curve::constant(scalar(1.0)),
        ..fresh()
    };
    for p in [0.05_f32, 0.5, 1.0] {
        let dab = stroke(&brush, 0.0, 0.0, p);
        assert!(
            (single(dab[0].radius) - 12.0).abs() < 0.01,
            "pressure {p} changed the radius to {}",
            single(dab[0].radius)
        );
    }
}

#[test]
fn pressure_scales_dab_radius() {
    let b = fresh();
    let full = stroke(&b, 0.0, 100.0, 1.0);
    let light = stroke(&b, 0.0, 100.0, 0.5);
    assert_eq!(single(full[0].radius), single(b.radius));
    assert_eq!(single(light[0].radius), single(b.radius) * 0.5);
    assert!(light.len() > full.len());
}

#[test]
fn zero_pressure_still_yields_a_positive_radius() {
    let dabs = stroke(&fresh(), 0.0, 10.0, 0.0);
    assert!(dabs.iter().all(|d| single(d.radius) > 0.0));
}

#[test]
fn a_zero_length_segment_emits_no_extra_dabs() {
    let b = fresh();
    let mut dabs = Vec::new();
    let mut state = StrokeState::new();
    begin(&b, &mut dabs, &mut state, 10.0, 10.0, 1.0);
    to(&b, &mut dabs, &mut state, 10.0, 10.0, 1.0);
    assert_eq!(dabs.len(), 1);
}

#[test]
fn stroke_to_without_begin_starts_the_stroke() {
    let mut dabs = Vec::new();
    let mut state = StrokeState::new();
    to(&fresh(), &mut dabs, &mut state, 3.0, 4.0, 1.0);
    assert_eq!(dabs.len(), 1);
    assert_eq!((single(dabs[0].x), single(dabs[0].y)), (3.0, 4.0));
}

#[test]
fn dabs_carry_the_brush_color_and_hardness() {
    let mut b = fresh();
    b.set_color_linear_premul(rgba([1.0, 0.0, 0.0, 1.0]));
    let dabs = stroke(&b, 0.0, 20.0, 1.0);
    for d in &dabs {
        assert_eq!(d.hardness, b.hardness);
        assert_eq!(d.color_linear_premul, b.color_linear_premul());
    }
}

#[test]
fn diagonal_strokes_are_spaced_along_the_path() {
    let b = fresh();
    let mut dabs = Vec::new();
    let mut state = StrokeState::new();
    begin(&b, &mut dabs, &mut state, 0.0, 0.0, 1.0);
    to(&b, &mut dabs, &mut state, 30.0, 40.0, 1.0);
    assert_eq!(dabs.len(), 13);
    for pair in dabs.windows(2) {
        let d = ((single(pair[1].x) - single(pair[0].x)).powi(2) + (single(pair[1].y) - single(pair[0].y)).powi(2)).sqrt();
        assert!((d - 4.0).abs() < 1e-3, "spacing {d} != 4.0");
    }
}

#[test]
fn a_fresh_brush_is_a_soft_round_one() {
    let b = fresh();
    let settings = [b.radius, b.hardness, b.spacing, b.flow, b.opacity].map(single);
    assert_eq!(settings, [8.0, 0.5, 0.25, 1.0, 1.0]);
    let shape = [b.roundness, b.angle, b.stabilization_ms].map(single);
    assert_eq!(shape, [1.0, 0.0, 0.0]);
    assert!(b.tip.falloff().is_some());
    // Nearly black: 20, 20 and 24 of 255 as authored, in linear light.
    let linear = |c: f32| ((c / 255.0 + 0.055) / 1.055).powf(2.4);
    let ink = b.color_linear_premul();
    for (got, authored) in [(ink.r, 20.0), (ink.g, 20.0), (ink.b, 24.0)] {
        assert!((single(got) - linear(authored)).abs() < 1e-8);
    }
    assert_eq!(single(ink.a), 1.0);
    let black = Brush::fresh(Rgba::black());
    assert_eq!(black.color_linear_premul(), Rgba::black());
    assert_eq!(black.radius, b.radius);
}

#[test]
fn a_dab_is_what_the_brush_says_at_a_pressure() {
    let b = Brush {
        roundness: scalar(0.5),
        angle: scalar(0.125),
        ..fresh()
    };
    assert_eq!(single(b.radius_for(scalar(0.5), &walk())), 4.0);
    assert_eq!(single(b.radius_for(scalar(0.0), &walk())), 0.5);
    assert_eq!(single(b.flow_for(scalar(0.5), &walk())), 1.0);
    let dab = stroke(&b, 0.0, 0.0, 0.5)[0];
    // An eighth of a turn, in radians.
    assert_eq!(single(dab.roundness), 0.5);
    assert_eq!(single(dab.angle), std::f32::consts::FRAC_PI_4);
}

#[test]
fn the_way_left_over_is_carried_on() {
    let b = fresh();
    let mut dabs = Vec::new();
    let mut state = StrokeState::new();
    begin(&b, &mut dabs, &mut state, 0.0, 0.0, 1.0);
    to(&b, &mut dabs, &mut state, 10.0, 0.0, 1.0);
    assert_eq!(dabs.len(), 3);
    assert_eq!(single(state.residual), 2.0);
    to(&b, &mut dabs, &mut state, 13.0, 0.0, 1.0);
    assert_eq!(dabs.len(), 4);
    assert_eq!(single(dabs[3].x), 12.0);
    assert_eq!(single(state.residual), 1.0);
}

#[test]
fn steps_that_come_to_nothing_far_away_do_not_matter_near_by() {
    // Far out, a step of half a pixel makes no difference to a distance; along this segment it does.
    assert_eq!(-1.0e9_f32 + 0.5, -1.0e9_f32);
    let mut b = fresh();
    b.radius = scalar(0.5);
    b.spacing = scalar(0.5);
    let mut dabs = Vec::new();
    let mut state = StrokeState::new();
    begin(&b, &mut dabs, &mut state, 0.0, 0.0, 1.0);
    to(&b, &mut dabs, &mut state, 2.0, 0.0, 1.0);
    let places: Vec<f32> = dabs.iter().map(|d| single(d.x)).collect();
    assert_eq!(places, vec![0.0, 0.5, 1.0, 1.5, 2.0]);
    // A sample where the last one was leaves nothing, whatever was left over.
    let before = (dabs.len(), state);
    to(&b, &mut dabs, &mut state, 2.0, 0.0, 1.0);
    assert_eq!((dabs.len(), state), before);
}
