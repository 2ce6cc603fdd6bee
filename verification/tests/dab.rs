//! How a dab covers what it lies over.

use openpaint::color::Rgba;
use openpaint::scalar::Scalar;
use openpaint::Dab;

fn scalar(v: f32) -> Scalar {
    Scalar::from_bits(v.to_bits())
}

fn single(s: Scalar) -> f32 {
    f32::from_bits(s.to_bits())
}

fn dab(radius: f32, hardness: f32) -> Dab {
    Dab {
        x: scalar(0.0),
        y: scalar(0.0),
        radius: scalar(radius),
        hardness: scalar(hardness),
        flow: scalar(1.0),
        roundness: scalar(1.0),
        angle: scalar(0.0),
        color_linear_premul: Rgba::black(),
    }
}

fn cover(dab: &Dab, dist: f32) -> f32 {
    let inner = (single(dab.radius) * single(dab.hardness)).max(0.0);
    let ramp = |dist: Scalar, inner: Scalar, radius: Scalar| {
        let (dist, inner, radius) = (single(dist), single(inner), single(radius));
        scalar(1.0 - (dist - inner) / (radius - inner))
    };
    single(dab.coverage_at_distance(scalar(dist), scalar(inner), &ramp))
}

#[test]
fn coverage_is_full_at_center_and_zero_outside() {
    let d = dab(10.0, 0.5);
    assert_eq!(cover(&d, 0.0), 1.0);
    assert_eq!(cover(&d, 10.0), 0.0);
    assert_eq!(cover(&d, 50.0), 0.0);
}

#[test]
fn coverage_never_leaves_the_unit_range() {
    for hardness in [0.0, 0.25, 0.5, 0.75, 1.0] {
        let d = dab(10.0, hardness);
        for i in 0..=200 {
            let c = cover(&d, i as f32 * 0.1);
            assert!((0.0..=1.0).contains(&c), "hardness {hardness} dist {i}");
        }
    }
}

#[test]
fn hardness_one_is_hard_and_zero_is_soft() {
    let hard = dab(10.0, 1.0);
    let soft = dab(10.0, 0.0);
    assert_eq!(cover(&hard, 9.0), 1.0);
    assert!(cover(&soft, 5.0) < 0.6);
    assert!(cover(&soft, 9.0) < 0.2);
}

#[test]
fn higher_hardness_means_more_coverage_everywhere() {
    let mut prev = -1.0;
    for h in [0.0, 0.25, 0.5, 0.75, 1.0] {
        let c = cover(&dab(10.0, h), 6.0);
        assert!(c >= prev, "hardness {h} gave less coverage than the last");
        prev = c;
    }
}

#[test]
fn coverage_decreases_monotonically() {
    let d = dab(10.0, 0.6);
    let mut prev = f32::INFINITY;
    for i in 0..=100 {
        let c = cover(&d, i as f32 * 0.1);
        assert!(c <= prev + 1e-6, "not monotonic at {i}");
        prev = c;
    }
}

#[test]
fn the_ramp_is_asked_only_between_the_core_and_the_rim() {
    let d = dab(10.0, 0.5);
    let never = |_: Scalar, _: Scalar, _: Scalar| -> Scalar { panic!("not between") };
    let at = |dist: f32| d.coverage_at_distance(scalar(dist), scalar(5.0), &never);
    assert_eq!(single(at(5.0)), 1.0);
    assert_eq!(single(at(10.0)), 0.0);
    let asked = d.coverage_at_distance(scalar(7.5), scalar(5.0), &|dist, inner, radius| {
        assert_eq!((single(dist), single(inner), single(radius)), (7.5, 5.0, 10.0));
        scalar(0.5)
    });
    assert_eq!(single(asked), 0.5);
}

#[test]
fn a_flow_is_held_between_nothing_and_everything() {
    let mut d = dab(10.0, 0.5);
    for (flow, held) in [(-1.0, 0.0), (0.0, 0.0), (0.25, 0.25), (1.0, 1.0), (3.0, 1.0)] {
        d.flow = scalar(flow);
        assert_eq!(single(d.held_flow()), held);
    }
}
