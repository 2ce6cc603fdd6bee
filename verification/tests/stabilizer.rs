//! Smoothing in time: how a line trails the pen, and how it arrives.

use openpaint::scalar::Scalar;
use openpaint::stabilizer::{Moment, Motion, MAX_LAG_MS, MAX_TAIL_STEPS};
use openpaint::{Smoothed, Stabilizer};

fn scalar(v: f32) -> Scalar {
    Scalar::from_bits(v.to_bits())
}

fn single(s: Scalar) -> f32 {
    f32::from_bits(s.to_bits())
}

#[derive(Clone, Copy, Debug, PartialEq)]
struct Place {
    x: f32,
    y: f32,
    pressure: f32,
}

fn place(p: Smoothed) -> Place {
    Place {
        x: single(p.x),
        y: single(p.y),
        pressure: single(p.pressure),
    }
}

fn moment(t_ms: f64) -> Moment {
    Moment {
        bits: t_ms.to_bits(),
    }
}

fn elapsed(earlier: Moment, later: Moment) -> Scalar {
    scalar((f64::from_bits(later.bits) - f64::from_bits(earlier.bits)) as f32)
}

fn chase(point: Smoothed, target: Smoothed, time: Scalar, lag: Scalar) -> Smoothed {
    let alpha = 1.0 - (-single(time) / single(lag)).exp();
    let toward = |a: Scalar, b: Scalar| scalar(single(a) + (single(b) - single(a)) * alpha);
    Smoothed {
        x: toward(point.x, target.x),
        y: toward(point.y, target.y),
        pressure: toward(point.pressure, target.pressure),
    }
}

fn distance(a: Smoothed, b: Smoothed) -> Scalar {
    scalar((single(a.x) - single(b.x)).hypot(single(a.y) - single(b.y)))
}

fn motion() -> Motion<
    impl Fn(Moment, Moment) -> Scalar,
    impl Fn(Smoothed, Smoothed, Scalar, Scalar) -> Smoothed,
    impl Fn(Smoothed, Smoothed) -> Scalar,
> {
    Motion {
        elapsed,
        chase,
        distance,
    }
}

fn begin(s: &mut Stabilizer, x: f32, y: f32, pressure: f32, t_ms: f64) -> Place {
    place(s.begin(scalar(x), scalar(y), scalar(pressure), moment(t_ms)))
}

fn push(s: &mut Stabilizer, x: f32, y: f32, pressure: f32, t_ms: f64) -> Place {
    place(s.push(scalar(x), scalar(y), scalar(pressure), moment(t_ms), &motion()))
}

fn advance(s: &mut Stabilizer, t_ms: f64) -> Option<Place> {
    s.advance(moment(t_ms), &motion()).map(place)
}

fn finish(s: &mut Stabilizer) -> Vec<Place> {
    s.finish(&motion()).into_iter().map(place).collect()
}

fn ramp(lag_ms: f32, rate_ms: f64, duration_ms: f64) -> Place {
    let mut s = Stabilizer::default();
    s.set_lag_ms(scalar(lag_ms));
    let mut out = begin(&mut s, 0.0, 0.0, 1.0, 0.0);
    let mut t = rate_ms;
    while t <= duration_ms {
        out = push(&mut s, t as f32, 0.0, 1.0, t);
        t += rate_ms;
    }
    out
}

#[test]
fn off_means_untouched() {
    let mut s = Stabilizer::default();
    begin(&mut s, 0.0, 0.0, 1.0, 0.0);
    let got = push(&mut s, 37.0, 11.0, 0.4, 16.0);
    assert_eq!(
        got,
        Place {
            x: 37.0,
            y: 11.0,
            pressure: 0.4
        },
        "strength 0 must be a pass-through, not merely a weak filter"
    );
    assert!(
        finish(&mut s).is_empty(),
        "nothing to catch up when nothing lags"
    );
}

#[test]
fn the_first_point_is_never_moved() {
    let mut s = Stabilizer::default();
    s.set_lag_ms(scalar(50.0));
    let got = begin(&mut s, 12.0, 34.0, 0.7, 0.0);
    assert_eq!(
        got,
        Place {
            x: 12.0,
            y: 34.0,
            pressure: 0.7
        },
        "a stroke has to start under the pen at any strength"
    );
}

#[test]
fn smoothing_is_defined_in_time_not_in_samples() {
    let at_2ms = ramp(25.0, 2.0, 200.0).x;
    let at_1ms = ramp(25.0, 1.0, 200.0).x;
    assert!(
        (at_2ms - at_1ms).abs() < 1.0,
        "halving the report rate moved the result: {at_2ms} vs {at_1ms}"
    );

    let naive = |rate_ms: f64| {
        let alpha = 0.1_f32;
        let mut point = 0.0_f32;
        let mut t = rate_ms;
        while t <= 200.0 {
            point += (t as f32 - point) * alpha;
            t += rate_ms;
        }
        point
    };
    let naive_2ms = naive(2.0);
    let naive_1ms = naive(1.0);
    assert!(
        (naive_2ms - naive_1ms).abs() > 5.0,
        "the sample-defined filter was supposed to be rate-dependent, but got \
         {naive_2ms} vs {naive_1ms} — this test proves nothing if its own counter-example \
         does not move"
    );
}

#[test]
fn the_setting_is_the_lag_in_milliseconds() {
    for lag in [10.0_f32, 25.0, 50.0, 120.0] {
        let settled = ramp(lag, 1.0, lag as f64 * 12.0);
        let shortfall = lag as f64 * 12.0 - f64::from(settled.x);
        assert!(
            (shortfall - f64::from(lag)).abs() < 1.5,
            "set to {lag} ms, but the filter trails {shortfall} px at 1 px/ms"
        );
    }
}

#[test]
fn more_lag_trails_further() {
    let mut previous = f32::MAX;
    for lag in [0.0_f32, 12.0, 25.0, 50.0, 100.0, f32::from_bits(MAX_LAG_MS)] {
        let x = ramp(lag, 4.0, 400.0).x;
        assert!(
            x < previous,
            "{lag} ms did not trail further than the step below it"
        );
        previous = x;
    }
}

#[test]
fn jitter_is_reduced() {
    let mut s = Stabilizer::default();
    s.set_lag_ms(scalar(30.0));
    begin(&mut s, 0.0, 0.0, 1.0, 0.0);

    let mut raw_error = 0.0_f32;
    let mut smoothed_error = 0.0_f32;
    let mut count = 0.0_f32;
    for i in 1..=200 {
        let t = f64::from(i) * 4.0;
        let jitter = if i % 2 == 0 { 2.0 } else { -2.0 };
        let got = push(&mut s, i as f32, jitter, 1.0, t);
        raw_error += jitter.abs();
        smoothed_error += got.y.abs();
        count += 1.0;
    }

    let raw = raw_error / count;
    let smoothed = smoothed_error / count;
    assert!(
        smoothed < raw * 0.25,
        "smoothing barely helped: {raw} px of wobble became {smoothed} px"
    );
}

#[test]
fn the_stroke_ends_exactly_where_the_pen_did() {
    let mut s = Stabilizer::default();
    s.set_lag_ms(scalar(50.0));
    begin(&mut s, 0.0, 0.0, 1.0, 0.0);
    for i in 1..=50 {
        push(&mut s, i as f32 * 3.0, 0.0, 1.0, f64::from(i) * 4.0);
    }
    let last_raw = 150.0_f32;

    let tail = finish(&mut s);
    let end = *tail.last().expect("a lagging stroke must have a tail");
    assert_eq!(
        end.x, last_raw,
        "the stroke has to finish where the pen finished"
    );

    assert!(
        tail.len() > 4,
        "converged in {} steps, which is a jump rather than an approach",
        tail.len()
    );
    for pair in tail.windows(2) {
        assert!(
            pair[1].x >= pair[0].x && pair[1].x <= last_raw + 1e-3,
            "tail moved wrongly: {:?} -> {:?}",
            pair[0],
            pair[1]
        );
    }
}

#[test]
fn a_held_pen_still_lets_the_line_catch_up() {
    let mut s = Stabilizer::default();
    s.set_lag_ms(scalar(100.0));
    begin(&mut s, 0.0, 0.0, 1.0, 0.0);
    let after_jump = push(&mut s, 500.0, 0.0, 1.0, 10.0);
    assert!(
        after_jump.x < 100.0,
        "the filter should still be far behind here, but is at {}",
        after_jump.x
    );

    let mut point = after_jump;
    let mut t = 10.0;
    let mut frames = 0;
    while t < 1000.0 {
        t += 8.0;
        if let Some(p) = advance(&mut s, t) {
            point = p;
            frames += 1;
        }
    }
    assert!(
        (500.0 - point.x) < 1.0,
        "after a second of holding still the line is still {} px short",
        500.0 - point.x
    );
    assert!(
        frames > 10,
        "it arrived in {frames} steps, which is a jump rather than catching up"
    );
}

#[test]
fn a_pause_does_not_bank_time_for_the_next_sample() {
    let mut s = Stabilizer::default();
    s.set_lag_ms(scalar(50.0));
    begin(&mut s, 0.0, 0.0, 1.0, 0.0);

    let mut t = 0.0;
    while t < 1000.0 {
        t += 8.0;
        advance(&mut s, t);
    }

    t += 8.0;
    let after = push(&mut s, 500.0, 0.0, 1.0, t);
    assert!(
        after.x < 120.0,
        "one 8 ms sample at 50 ms of smoothing should move ~15% of the way, but it went to \
         {} -- the pause was banked and smoothing turned itself off",
        after.x
    );
}

#[test]
fn a_clock_going_backwards_does_not_explode() {
    let mut s = Stabilizer::default();
    s.set_lag_ms(scalar(25.0));
    begin(&mut s, 0.0, 0.0, 1.0, 100.0);
    let got = push(&mut s, 50.0, 0.0, 1.0, 40.0);
    assert!(
        (0.0..=50.0).contains(&got.x),
        "negative dt moved the point outside the segment: {}",
        got.x
    );
}

#[test]
fn a_stroke_that_lags_by_nothing_is_never_behind() {
    let mut s = Stabilizer::default();
    assert!(!s.is_active());
    begin(&mut s, 1.0, 2.0, 0.5, 0.0);
    assert_eq!(advance(&mut s, 16.0), None);
    s.set_lag_ms(scalar(-3.0));
    assert!(!s.is_active(), "a negative lag is none");
    s.set_lag_ms(scalar(3.0));
    assert!(s.is_active());
}

#[test]
fn a_sample_without_a_beginning_begins() {
    let mut s = Stabilizer::default();
    s.set_lag_ms(scalar(50.0));
    let place = push(&mut s, 5.0, 6.0, 0.25, 10.0);
    assert_eq!((place.x, place.y, place.pressure), (5.0, 6.0, 0.25));
    assert_eq!(advance(&mut Stabilizer::default(), 1.0), None);
}

#[test]
fn the_tail_has_at_most_its_steps_and_the_end() {
    let mut s = Stabilizer::default();
    s.set_lag_ms(scalar(1.0e6));
    begin(&mut s, 0.0, 0.0, 1.0, 0.0);
    push(&mut s, 500.0, 0.0, 1.0, 1.0);
    let tail = finish(&mut s);
    assert_eq!(tail.len(), MAX_TAIL_STEPS + 1);
    assert_eq!(tail[MAX_TAIL_STEPS].x, 500.0);
    assert!(finish(&mut s).is_empty(), "a stroke ends once");
}
