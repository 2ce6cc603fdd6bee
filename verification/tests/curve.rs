//! Response curves: what is authored, what is refused, and what lies between the points.

use openpaint::curve::{Calculus, Point};
use openpaint::scalar::Scalar;
use openpaint::Curve;

fn scalar(v: f32) -> Scalar {
    Scalar::from_bits(v.to_bits())
}

fn single(s: Scalar) -> f32 {
    f32::from_bits(s.to_bits())
}

fn points(list: Vec<(f32, f32)>) -> Vec<Point> {
    list.into_iter().map(|(x, y)| (scalar(x), scalar(y))).collect()
}

fn slope(p: Point, q: Point) -> Scalar {
    scalar((single(q.1) - single(p.1)) / (single(q.0) - single(p.0)))
}

fn mean(a: Scalar, b: Scalar) -> Scalar {
    scalar((single(a) + single(b)) / 2.0)
}

fn thrice(a: Scalar) -> Scalar {
    scalar(3.0 * single(a))
}

fn flat(a: Scalar) -> bool {
    single(a).abs() <= f32::EPSILON
}

fn narrow(a: Scalar, b: Scalar) -> bool {
    single(b) - single(a) <= f32::EPSILON
}

fn piece(x: Scalar, ends: (Point, Point), tangents: (Scalar, Scalar)) -> Scalar {
    let ((x0, y0), (x1, y1)) = ends;
    let (x0, y0, x1, y1) = (single(x0), single(y0), single(x1), single(y1));
    let (m0, m1) = (single(tangents.0), single(tangents.1));
    let h = x1 - x0;
    let t = (single(x) - x0) / h;
    let t2 = t * t;
    let t3 = t2 * t;
    scalar(
        (2.0 * t3 - 3.0 * t2 + 1.0) * y0
            + (t3 - 2.0 * t2 + t) * h * m0
            + (-2.0 * t3 + 3.0 * t2) * y1
            + (t3 - t2) * h * m1,
    )
}

fn calculus() -> Calculus<
    impl Fn(Point, Point) -> Scalar,
    impl Fn(Scalar, Scalar) -> Scalar,
    impl Fn(Scalar) -> Scalar,
    impl Fn(Scalar) -> bool,
    impl Fn(Scalar, Scalar) -> bool,
    impl Fn(Scalar, (Point, Point), (Scalar, Scalar)) -> Scalar,
> {
    Calculus {
        slope,
        mean,
        thrice,
        flat,
        narrow,
        piece,
    }
}

fn at(curve: &Curve, x: f32) -> f32 {
    single(curve.at(scalar(x), &calculus()))
}

#[test]
fn linear_is_the_identity() {
    let c = Curve::linear();
    for x in [0.0_f32, 0.25, 0.5, 0.75, 1.0] {
        assert!((at(&c, x) - x).abs() < 1e-4, "at({x}) = {}", at(&c, x));
    }
}

#[test]
fn constant_ignores_its_input() {
    let c = Curve::constant(scalar(0.4));
    for x in [0.0_f32, 0.3, 1.0] {
        assert!((at(&c, x) - 0.4).abs() < 1e-4);
    }
}

#[test]
fn the_curve_passes_through_its_control_points() {
    let c = Curve::from_points(points(vec![(0.0, 0.1), (0.3, 0.8), (0.7, 0.2), (1.0, 1.0)]))
        .expect("valid points");
    for (x, y) in c.points() {
        let (x, y) = (single(*x), single(*y));
        assert!(
            (at(&c, x) - y).abs() < 1e-3,
            "at({x}) = {} but the point says {y}",
            at(&c, x)
        );
    }
}

#[test]
fn a_rising_curve_never_dips_or_overshoots() {
    let c = Curve::from_points(points(vec![(0.0, 0.0), (0.1, 0.02), (0.9, 0.98), (1.0, 1.0)]))
        .expect("valid points");

    let mut previous = -1.0_f32;
    for i in 0..=200 {
        let x = i as f32 / 200.0;
        let y = at(&c, x);
        assert!((0.0..=1.0).contains(&y), "at({x}) left the range: {y}");
        assert!(
            y >= previous - 1e-4,
            "at({x}) went backwards: {previous} -> {y}"
        );
        previous = y;
    }
}

#[test]
fn a_curve_stays_between_its_neighbouring_points() {
    let list = vec![(0.0, 0.2), (0.3, 0.9), (0.4, 0.1), (0.8, 0.15), (1.0, 0.0)];
    let c = Curve::from_points(points(list.clone())).expect("valid points");
    for pair in list.windows(2) {
        let ((x0, y0), (x1, y1)) = (pair[0], pair[1]);
        let mut previous = y0;
        for i in 1..=100 {
            let x = x0 + (x1 - x0) * i as f32 / 100.0;
            let y = at(&c, x);
            assert!(
                y >= y0.min(y1) - 1e-5 && y <= y0.max(y1) + 1e-5,
                "at({x}) = {y} left {y0}..{y1}"
            );
            assert!(
                (y - previous) * (y1 - y0) >= -1e-6,
                "at({x}) turned back: {previous} -> {y}"
            );
            previous = y;
        }
    }
}

#[test]
fn a_flat_segment_stays_flat() {
    let c = Curve::from_points(points(vec![(0.0, 0.5), (0.5, 0.5), (1.0, 1.0)])).expect("valid");
    for i in 0..=50 {
        let x = i as f32 / 100.0;
        assert!(
            (at(&c, x) - 0.5).abs() < 1e-3,
            "at({x}) = {} inside the flat run",
            at(&c, x)
        );
    }
}

#[test]
fn input_outside_the_range_is_held_not_extrapolated() {
    let c = Curve::from_points(points(vec![(0.0, 0.2), (1.0, 0.9)])).expect("valid");
    assert!((at(&c, -5.0) - 0.2).abs() < 1e-4);
    assert!((at(&c, 5.0) - 0.9).abs() < 1e-4);
}

#[test]
fn malformed_points_are_refused() {
    assert!(Curve::from_points(points(vec![])).is_none(), "no points");
    assert!(
        Curve::from_points(points(vec![(0.0, 0.0)])).is_none(),
        "one point has no shape"
    );
    assert!(
        Curve::from_points(points(vec![(0.5, 0.0), (0.2, 1.0)])).is_none(),
        "out of order"
    );
    assert!(
        Curve::from_points(points(vec![(0.0, 0.0), (0.0, 1.0)])).is_none(),
        "two points at the same x is a vertical jump, not a curve"
    );
    assert!(
        Curve::from_points(points(vec![(0.0, 0.0), (1.0, 2.0)])).is_none(),
        "out of range"
    );
}

#[test]
fn different_curves_give_genuinely_different_responses() {
    let pencil = Curve::from_points(points(vec![(0.0, 0.0), (0.2, 0.55), (1.0, 1.0)])).expect("valid");
    let pen = Curve::from_points(points(vec![(0.0, 0.0), (0.7, 0.25), (1.0, 1.0)])).expect("valid");

    let light = 0.2_f32;
    assert!(
        at(&pencil, light) > at(&pen, light) + 0.25,
        "at light pressure the pencil should already be responding ({} vs {})",
        at(&pencil, light),
        at(&pen, light)
    );
    assert!((at(&pencil, 1.0) - 1.0).abs() < 1e-3);
    assert!((at(&pen, 1.0) - 1.0).abs() < 1e-3);
}

#[test]
fn tangents_of_a_rising_piece_are_between_nothing_and_the_limit() {
    let list = vec![(0.0, 0.0), (0.25, 0.5), (0.5, 0.5), (1.0, 0.0)];
    let c = Curve::from_points(points(list)).expect("valid points");
    let tangents = |i: usize| {
        let (a, b) = c.tangents(i, &calculus());
        (single(a), single(b))
    };
    assert_eq!(tangents(0), (2.0, 1.0), "the mean of its slopes at the inner end");
    assert_eq!(tangents(1), (0.0, 0.0), "a flat piece stays flat");
    assert_eq!(tangents(2), (-0.5, -1.0), "a falling one falls");
    let steep = vec![(0.0, 0.0), (0.9, 0.1), (1.0, 1.0)];
    let c = Curve::from_points(points(steep)).expect("valid points");
    let (_, inner) = c.tangents(0, &calculus());
    assert!((single(inner) - 1.0 / 3.0).abs() < 1e-4, "held to three times the slope");
}

#[test]
fn a_number_that_is_none_describes_no_curve() {
    assert!(Curve::from_points(points(vec![(0.0, 0.0), (f32::NAN, 1.0)])).is_none());
    assert!(Curve::from_points(points(vec![(0.0, f32::NAN), (1.0, 1.0)])).is_none());
}

#[test]
fn a_constant_is_held_to_the_unit_range() {
    assert_eq!(at(&Curve::constant(scalar(7.0)), 0.5), 1.0);
    assert_eq!(at(&Curve::constant(scalar(-7.0)), 0.5), 0.0);
}
