//! What drives a brush parameter, and how.

use openpaint::curve::{Calculus, Point};
use openpaint::modulation::{Noise, TILT_FULL, VELOCITY_FULL};
use openpaint::scalar::Scalar;
use openpaint::{Input, Response, Source};

fn scalar(v: f32) -> Scalar {
    Scalar::from_bits(v.to_bits())
}

fn single(s: Scalar) -> f32 {
    f32::from_bits(s.to_bits())
}

fn slope(p: Point, q: Point) -> Scalar {
    scalar((single(q.1) - single(p.1)) / (single(q.0) - single(p.0)))
}

fn mean(a: Scalar, b: Scalar) -> Scalar {
    scalar((single(a) + single(b)) / 2.0)
}

fn thrice(a: Scalar) -> Scalar {
    scalar(3.0 * single(a))
}

fn flat(a: Scalar) -> bool {
    single(a).abs() <= f32::EPSILON
}

fn narrow(a: Scalar, b: Scalar) -> bool {
    single(b) - single(a) <= f32::EPSILON
}

fn piece(x: Scalar, ends: (Point, Point), tangents: (Scalar, Scalar)) -> Scalar {
    let ((x0, y0), (x1, y1)) = ends;
    let (x0, y0, x1, y1) = (single(x0), single(y0), single(x1), single(y1));
    let (m0, m1) = (single(tangents.0), single(tangents.1));
    let h = x1 - x0;
    let t = (single(x) - x0) / h;
    let t2 = t * t;
    let t3 = t2 * t;
    scalar(
        (2.0 * t3 - 3.0 * t2 + 1.0) * y0
            + (t3 - 2.0 * t2 + t) * h * m0
            + (-2.0 * t3 + 3.0 * t2) * y1
            + (t3 - t2) * h * m1,
    )
}

fn calculus() -> Calculus<
    impl Fn(Point, Point) -> Scalar,
    impl Fn(Scalar, Scalar) -> Scalar,
    impl Fn(Scalar) -> Scalar,
    impl Fn(Scalar) -> bool,
    impl Fn(Scalar, Scalar) -> bool,
    impl Fn(Scalar, (Point, Point), (Scalar, Scalar)) -> Scalar,
> {
    Calculus {
        slope,
        mean,
        thrice,
        flat,
        narrow,
        piece,
    }
}

fn ratio(a: Scalar, b: Scalar) -> Scalar {
    scalar(single(a) / single(b))
}

fn read(source: Source, input: &Input) -> f32 {
    single(source.read(input, &ratio))
}

fn factor(response: &Response, input: &Input) -> f32 {
    single(response.factor(input, &ratio, &calculus()))
}

fn draw(noise: &mut Noise) -> f32 {
    noise.draw() as f32 / (1 << 24) as f32
}

fn given(v: [f32; 5]) -> Input {
    Input {
        pressure: scalar(v[0]),
        tilt: scalar(v[1]),
        velocity: scalar(v[2]),
        direction: scalar(v[3]),
        random: scalar(v[4]),
    }
}

fn input() -> Input {
    let (tilt, velocity) = (f32::from_bits(TILT_FULL), f32::from_bits(VELOCITY_FULL));
    given([0.5, tilt / 2.0, velocity / 4.0, 0.75, 0.3])
}

#[test]
fn every_source_is_normalised() {
    for s in Source::all() {
        let v = read(s, &input());
        assert!((0.0..=1.0).contains(&v), "{s:?} produced {v}");
    }
    assert!((read(Source::Pressure, &input()) - 0.5).abs() < 1e-4);
    assert!((read(Source::Tilt, &input()) - 0.5).abs() < 1e-4);
    assert!((read(Source::Velocity, &input()) - 0.25).abs() < 1e-4);
    assert!((read(Source::Direction, &input()) - 0.75).abs() < 1e-4);
}

#[test]
fn sources_clamp_rather_than_overshoot() {
    let (tilt, velocity) = (f32::from_bits(TILT_FULL), f32::from_bits(VELOCITY_FULL));
    let wild = given([3.0, tilt * 4.0, velocity * 10.0, 1.0, 1.0]);
    for s in Source::all() {
        assert!(
            (0.0..=1.0).contains(&read(s, &wild)),
            "{s:?} escaped the range"
        );
    }
}

#[test]
fn fixed_ignores_everything() {
    let r = Response::fixed();
    for s in Source::all() {
        let r = Response {
            source: s,
            curve: r.curve.clone(),
        };
        assert!((factor(&r, &input()) - 1.0).abs() < 1e-4, "{s:?}");
    }
}

#[test]
fn following_a_source_tracks_it() {
    let r = Response::following(Source::Pressure);
    assert!((factor(&r, &input()) - 0.5).abs() < 1e-3);
    let r = Response::following(Source::Direction);
    assert!((factor(&r, &input()) - 0.75).abs() < 1e-3);
}

#[test]
fn noise_varies_and_stays_in_range() {
    let mut n = Noise::new(12345);
    let values: Vec<f32> = (0..64).map(|_| draw(&mut n)).collect();
    assert!(values.iter().all(|v| (0.0..1.0).contains(v)));

    let first = values[0];
    assert!(
        values.iter().any(|v| (v - first).abs() > 0.1),
        "the generator is stuck at {first}"
    );
}

#[test]
fn a_zero_seed_still_produces_noise() {
    let mut n = Noise::new(0);
    let values: Vec<f32> = (0..8).map(|_| draw(&mut n)).collect();
    assert!(
        values.iter().any(|v| *v > 0.0),
        "a zero seed produced only zeros"
    );
}

#[test]
fn noise_is_deterministic() {
    let a: Vec<f32> = (0..16).scan(Noise::new(7), |n, _| Some(draw(n))).collect();
    let b: Vec<f32> = (0..16).scan(Noise::new(7), |n, _| Some(draw(n))).collect();
    assert_eq!(a, b);
}

#[test]
fn the_references_are_three_pixels_and_sixty_degrees() {
    assert_eq!(f32::from_bits(VELOCITY_FULL), 3.0);
    assert_eq!(f32::from_bits(TILT_FULL), std::f32::consts::FRAC_PI_3);
}

#[test]
fn noise_is_the_xorshift_sequence() {
    let mut n = Noise::new(1);
    let mut x: u32 = 1;
    for _ in 0..100 {
        x ^= x << 13;
        x ^= x >> 17;
        x ^= x << 5;
        assert_eq!(n.draw(), x >> 8);
    }
    assert_eq!(Noise::new(6).draw(), Noise::new(7).draw());
    assert_eq!(Noise::default().draw(), Noise::new(0x2545_F491).draw());
}

#[test]
fn every_source_has_its_own_label() {
    let labels: Vec<&str> = Source::all().into_iter().map(Source::label).collect();
    assert_eq!(labels, ["Pressure", "Tilt", "Velocity", "Direction", "Random"]);
}
