//! Strokes: paint builds up to an opacity, dab by dab, over what was there before.

use openpaint::color::Rgba;
use openpaint::dab::{Bounds, Dab, Marks};
use openpaint::scalar::Scalar;
use openpaint::tile::{Texel, TILE_SIZE};
use openpaint::{Canvas, StrokePainter};

fn scalar(v: f32) -> Scalar {
    Scalar::from_bits(v.to_bits())
}

fn single(s: Scalar) -> f32 {
    f32::from_bits(s.to_bits())
}

fn texel(c: [f32; 4]) -> Texel {
    let one = |v: f32| half::f16::from_f32(v).to_bits();
    Texel {
        r: one(c[0]),
        g: one(c[1]),
        b: one(c[2]),
        a: one(c[3]),
    }
}

fn reals(t: Texel) -> [f32; 4] {
    let one = |bits: u16| half::f16::from_bits(bits).to_f32();
    [one(t.r), one(t.g), one(t.b), one(t.a)]
}

fn rgba(c: [f32; 4]) -> Rgba {
    Rgba {
        r: scalar(c[0]),
        g: scalar(c[1]),
        b: scalar(c[2]),
        a: scalar(c[3]),
    }
}

fn channels(c: Rgba) -> [f32; 4] {
    [single(c.r), single(c.g), single(c.b), single(c.a)]
}

fn over_premul(src: [f32; 4], dst: [f32; 4]) -> [f32; 4] {
    let inv = 1.0 - src[3];
    [
        src[0] + dst[0] * inv,
        src[1] + dst[1] * inv,
        src[2] + dst[2] * inv,
        src[3] + dst[3] * inv,
    ]
}

fn scale_premul(premul: [f32; 4], factor: f32) -> [f32; 4] {
    [
        premul[0] * factor,
        premul[1] * factor,
        premul[2] * factor,
        premul[3] * factor,
    ]
}

fn coverage(dab: Dab, x: i32, y: i32) -> Scalar {
    let (dx, dy) = (
        x as f32 + 0.5 - single(dab.x),
        y as f32 + 0.5 - single(dab.y),
    );
    let inner = (single(dab.radius) * single(dab.hardness)).max(0.0);
    dab.coverage_at_distance(scalar(dx.hypot(dy)), scalar(inner), &|dist, inner, radius| {
        let (dist, inner, radius) = (single(dist), single(inner), single(radius));
        scalar(1.0 - (dist - inner) / (radius - inner))
    })
}

fn bounds(dab: Dab) -> Bounds {
    let (x, y, r) = (single(dab.x), single(dab.y), single(dab.radius));
    Bounds {
        min_x: (x - r).floor() as i32,
        min_y: (y - r).floor() as i32,
        max_x: (x + r).ceil() as i32,
        max_y: (y + r).ceil() as i32,
    }
}

fn deposit(flow: Scalar, coverage: Scalar, paint: Scalar) -> Scalar {
    let (flow, coverage, paint) = (single(flow), single(coverage), single(paint));
    scalar(paint + flow * coverage * (1.0 - paint))
}

fn marks() -> Marks<
    impl Fn(Dab) -> Bounds,
    impl Fn(Dab, i32, i32) -> Scalar,
    impl Fn(Scalar, Scalar, Scalar) -> Scalar,
> {
    Marks {
        bounds,
        coverage,
        deposit,
    }
}

fn shade(color: Rgba, amount: Scalar, ceiling: Scalar, under: Texel) -> Texel {
    let src = scale_premul(channels(color), single(amount) * single(ceiling));
    texel(over_premul(src, reals(under)))
}

const BLACK: [f32; 4] = [0.0, 0.0, 0.0, 1.0];

fn dab_at(x: f32, y: f32, flow: f32) -> Dab {
    Dab {
        x: scalar(x),
        y: scalar(y),
        radius: scalar(6.0),
        hardness: scalar(0.0),
        flow: scalar(flow),
        roundness: scalar(1.0),
        angle: scalar(0.0),
        color_linear_premul: rgba(BLACK),
    }
}

fn paint_amount(canvas: &Canvas, x: usize, y: usize) -> f32 {
    let paper = single(Canvas::paper_color().r);
    match canvas.tile((0, 0)) {
        Some(tile) => 1.0 - reals(tile.texel(x, y))[0] / paper,
        None => 0.0,
    }
}

fn build_up(dab_count: usize, flow: f32, opacity: f32) -> f32 {
    let mut canvas = Canvas::new(256, 256);
    let mut painter = StrokePainter::new();
    painter.begin();
    for _ in 0..dab_count {
        painter.add_dab(&canvas, &dab_at(100.5, 100.5, flow), &marks());
    }
    painter.composite(&mut canvas, rgba(BLACK), scalar(opacity), &shade);
    paint_amount(&canvas, 100, 100)
}

#[test]
fn a_single_full_dab_is_fully_opaque() {
    assert!((build_up(1, 1.0, 1.0) - 1.0).abs() < 1e-3);
}

#[test]
fn flow_controls_how_much_a_single_dab_deposits() {
    assert!((build_up(1, 0.25, 1.0) - 0.25).abs() < 1e-3);
}

#[test]
fn overlapping_dabs_build_up_toward_opacity_and_stop() {
    let ceiling = 0.5;
    let few = build_up(3, 0.1, ceiling);
    let many = build_up(200, 0.1, ceiling);
    assert!(few < ceiling, "3 dabs already at ceiling: {few}");
    assert!(many <= ceiling + 1e-3, "exceeded ceiling: {many}");
    assert!(
        (many - ceiling).abs() < 1e-2,
        "did not reach ceiling: {many}"
    );
    assert!(many > few, "did not build up at all");
}

#[test]
fn opacity_is_a_hard_ceiling_not_a_multiplier_per_dab() {
    let a = build_up(20, 0.1, 0.3);
    assert!(a <= 0.3 + 1e-3, "got {a}, must not exceed 0.3");
}

#[test]
fn build_up_is_monotonic_in_dab_count() {
    let mut prev = 0.0;
    for n in [1, 2, 4, 8, 16] {
        let a = build_up(n, 0.2, 1.0);
        assert!(a >= prev - 1e-6, "{n} dabs went backwards: {a} < {prev}");
        prev = a;
    }
}

#[test]
fn a_second_stroke_builds_on_top_of_the_first() {
    let mut canvas = Canvas::new(256, 256);
    let mut painter = StrokePainter::new();

    painter.begin();
    for _ in 0..50 {
        painter.add_dab(&canvas, &dab_at(100.5, 100.5, 0.1), &marks());
    }
    painter.composite(&mut canvas, rgba(BLACK), scalar(0.5), &shade);
    let after_first = paint_amount(&canvas, 100, 100);

    painter.begin();
    for _ in 0..50 {
        painter.add_dab(&canvas, &dab_at(100.5, 100.5, 0.1), &marks());
    }
    painter.composite(&mut canvas, rgba(BLACK), scalar(0.5), &shade);
    let after_second = paint_amount(&canvas, 100, 100);

    assert!(
        after_second > after_first + 0.1,
        "second stroke did not deepen: {after_first} -> {after_second}"
    );
}

#[test]
fn incremental_compositing_matches_a_single_final_composite() {
    let dabs: Vec<Dab> = (0..10)
        .map(|i| dab_at(100.5 + i as f32, 100.5, 0.3))
        .collect();

    let mut incremental = Canvas::new(256, 256);
    let mut p = StrokePainter::new();
    p.begin();
    for d in &dabs {
        p.add_dab(&incremental, d, &marks());
        p.composite(&mut incremental, rgba(BLACK), scalar(0.7), &shade);
    }

    let mut at_end = Canvas::new(256, 256);
    let mut q = StrokePainter::new();
    q.begin();
    q.add_dabs(&at_end, &dabs, &marks());
    q.composite(&mut at_end, rgba(BLACK), scalar(0.7), &shade);

    let a = incremental.tile((0, 0)).expect("tile");
    let b = at_end.tile((0, 0)).expect("tile");
    for y in 90..112 {
        for x in 90..122 {
            assert_eq!(a.texel(x, y), b.texel(x, y), "differ at ({x},{y})");
        }
    }
}

#[test]
fn zero_flow_deposits_nothing() {
    let mut canvas = Canvas::new(256, 256);
    let mut painter = StrokePainter::new();
    painter.begin();
    painter.add_dab(&canvas, &dab_at(100.5, 100.5, 0.0), &marks());
    painter.composite(&mut canvas, rgba(BLACK), scalar(1.0), &shade);
    assert!(painter.is_empty());
    assert_eq!(canvas.tiles().len(), 0);
}

#[test]
fn zero_opacity_leaves_the_canvas_untouched() {
    assert!(build_up(10, 1.0, 0.0) < 1e-3);
}

#[test]
fn begin_discards_the_previous_stroke() {
    let canvas = Canvas::new(256, 256);
    let mut painter = StrokePainter::new();
    painter.begin();
    painter.add_dab(&canvas, &dab_at(100.5, 100.5, 1.0), &marks());
    assert!(!painter.is_empty());
    painter.begin();
    assert!(painter.is_empty());
    assert_eq!(painter.touched_tiles().len(), 0);
}

#[test]
fn a_stroke_across_a_tile_seam_snapshots_both_tiles() {
    let canvas = Canvas::new(1024, 1024);
    let mut painter = StrokePainter::new();
    painter.begin();
    painter.add_dab(&canvas, &dab_at(TILE_SIZE as f32, 100.0, 1.0), &marks());
    assert_eq!(painter.touched_tiles().len(), 2);
}

#[test]
fn one_dab_composites_to_its_flow_times_the_opacity() {
    assert!((build_up(1, 0.5, 0.5) - 0.25).abs() < 1e-3);
    assert!((build_up(2, 0.5, 0.5) - 0.375).abs() < 1e-3);
}

#[test]
fn an_opacity_above_everything_is_everything() {
    assert_eq!(build_up(3, 0.2, 7.0), build_up(3, 0.2, 1.0));
}

#[test]
fn a_dab_without_extent_leaves_nothing() {
    let canvas = Canvas::new(256, 256);
    let mut painter = StrokePainter::new();
    let mut dab = dab_at(100.5, 100.5, 1.0);
    dab.radius = scalar(0.0);
    painter.add_dab(&canvas, &dab, &marks());
    dab.radius = scalar(6.0);
    dab.x = scalar(-40.0);
    painter.add_dab(&canvas, &dab, &marks());
    assert!(painter.is_empty());
    assert!(painter.touched_tiles().is_empty());
}

#[test]
fn a_painter_has_painted_nothing_to_begin_with() {
    assert!(StrokePainter::default().is_empty());
}
