//! Dabs put straight onto a canvas.

use openpaint::color::Rgba;
use openpaint::dab::{Bounds, Dab};
use openpaint::raster::{rasterize_dab, rasterize_dabs, Ink};
use openpaint::scalar::Scalar;
use openpaint::tile::{Texel, TILE_SIZE};
use openpaint::Canvas;

fn scalar(v: f32) -> Scalar {
    Scalar::from_bits(v.to_bits())
}

fn single(s: Scalar) -> f32 {
    f32::from_bits(s.to_bits())
}

fn texel(c: [f32; 4]) -> Texel {
    let one = |v: f32| half::f16::from_f32(v).to_bits();
    Texel {
        r: one(c[0]),
        g: one(c[1]),
        b: one(c[2]),
        a: one(c[3]),
    }
}

fn reals(t: Texel) -> [f32; 4] {
    let one = |bits: u16| half::f16::from_bits(bits).to_f32();
    [one(t.r), one(t.g), one(t.b), one(t.a)]
}

fn rgba(c: [f32; 4]) -> Rgba {
    Rgba {
        r: scalar(c[0]),
        g: scalar(c[1]),
        b: scalar(c[2]),
        a: scalar(c[3]),
    }
}

fn channels(c: Rgba) -> [f32; 4] {
    [single(c.r), single(c.g), single(c.b), single(c.a)]
}

fn over_premul(src: [f32; 4], dst: [f32; 4]) -> [f32; 4] {
    let inv = 1.0 - src[3];
    [
        src[0] + dst[0] * inv,
        src[1] + dst[1] * inv,
        src[2] + dst[2] * inv,
        src[3] + dst[3] * inv,
    ]
}

fn scale_premul(premul: [f32; 4], factor: f32) -> [f32; 4] {
    [
        premul[0] * factor,
        premul[1] * factor,
        premul[2] * factor,
        premul[3] * factor,
    ]
}

fn coverage(dab: Dab, x: i32, y: i32) -> Scalar {
    let (dx, dy) = (
        x as f32 + 0.5 - single(dab.x),
        y as f32 + 0.5 - single(dab.y),
    );
    let inner = (single(dab.radius) * single(dab.hardness)).max(0.0);
    dab.coverage_at_distance(scalar(dx.hypot(dy)), scalar(inner), &|dist, inner, radius| {
        let (dist, inner, radius) = (single(dist), single(inner), single(radius));
        scalar(1.0 - (dist - inner) / (radius - inner))
    })
}

fn bounds(dab: Dab) -> Bounds {
    let (x, y, r) = (single(dab.x), single(dab.y), single(dab.radius));
    Bounds {
        min_x: (x - r).floor() as i32,
        min_y: (y - r).floor() as i32,
        max_x: (x + r).ceil() as i32,
        max_y: (y + r).ceil() as i32,
    }
}

fn tint(color: Rgba, coverage: Scalar, flow: Scalar) -> Rgba {
    rgba(scale_premul(channels(color), single(coverage) * single(flow)))
}

fn ink() -> Ink<
    impl Fn(Dab) -> Bounds,
    impl Fn(Dab, i32, i32) -> Scalar,
    impl Fn(Rgba, Scalar, Scalar) -> Rgba,
> {
    Ink {
        bounds,
        coverage,
        tint,
    }
}

fn over(src: Rgba, dst: Texel) -> Texel {
    texel(over_premul(channels(src), reals(dst)))
}

fn black_dab(x: f32, y: f32, radius: f32, hardness: f32) -> Dab {
    Dab {
        x: scalar(x),
        y: scalar(y),
        radius: scalar(radius),
        hardness: scalar(hardness),
        flow: scalar(1.0),
        roundness: scalar(1.0),
        angle: scalar(0.0),
        color_linear_premul: rgba([0.0, 0.0, 0.0, 1.0]),
    }
}

#[test]
fn a_dab_paints_something() {
    let mut c = Canvas::new(256, 256);
    rasterize_dab(
        &mut c,
        &black_dab(128.0, 128.0, 8.0, 0.5),
        &ink(),
        &over,
    );
    assert_eq!(c.tiles().len(), 1);
}

#[test]
fn a_zero_radius_dab_paints_nothing() {
    let mut c = Canvas::new(256, 256);
    rasterize_dab(
        &mut c,
        &black_dab(128.0, 128.0, 0.0, 0.5),
        &ink(),
        &over,
    );
    assert_eq!(c.tiles().len(), 0);
}

#[test]
fn a_fully_transparent_dab_paints_nothing() {
    let mut c = Canvas::new(256, 256);
    let mut d = black_dab(128.0, 128.0, 8.0, 0.5);
    d.color_linear_premul = rgba([0.0; 4]);
    rasterize_dab(&mut c, &d, &ink(), &over);
    assert_eq!(c.tiles().len(), 0);
}

#[test]
fn a_hard_dab_center_is_fully_opaque_paint() {
    let mut c = Canvas::new(256, 256);
    rasterize_dab(
        &mut c,
        &black_dab(100.5, 100.5, 8.0, 0.0),
        &ink(),
        &over,
    );
    let tile = c.tile((0, 0)).expect("tile allocated");
    assert_eq!(reals(tile.texel(100, 100)), [0.0, 0.0, 0.0, 1.0]);
}

#[test]
fn a_dab_spanning_a_tile_seam_touches_both_tiles() {
    let mut c = Canvas::new(1024, 1024);
    rasterize_dab(
        &mut c,
        &black_dab(TILE_SIZE as f32, 100.0, 8.0, 0.5),
        &ink(),
        &over,
    );
    assert_eq!(c.tiles().len(), 2);
}

#[test]
fn dabs_off_canvas_are_clipped_not_panicking() {
    let mut c = Canvas::new(64, 64);
    rasterize_dab(
        &mut c,
        &black_dab(-50.0, -50.0, 8.0, 0.5),
        &ink(),
        &over,
    );
    assert_eq!(c.tiles().len(), 0);
    rasterize_dab(&mut c, &black_dab(0.0, 0.0, 8.0, 0.5), &ink(), &over);
    assert_eq!(c.tiles().len(), 1);
}

#[test]
fn batch_rasterization_matches_one_at_a_time() {
    let dabs = vec![
        black_dab(50.0, 50.0, 6.0, 0.5),
        black_dab(56.0, 50.0, 6.0, 0.5),
        black_dab(62.0, 50.0, 6.0, 0.5),
    ];

    let mut batched = Canvas::new(256, 256);
    rasterize_dabs(&mut batched, &dabs, &ink(), &over);

    let mut individually = Canvas::new(256, 256);
    for d in &dabs {
        rasterize_dab(&mut individually, d, &ink(), &over);
    }

    let a = batched.tile((0, 0)).expect("tile");
    let b = individually.tile((0, 0)).expect("tile");
    for y in 40..60 {
        for x in 40..70 {
            assert_eq!(a.texel(x, y), b.texel(x, y), "differ at ({x},{y})");
        }
    }
}

#[test]
fn beyond_its_radius_a_dab_leaves_the_paper() {
    let mut c = Canvas::new(256, 256);
    rasterize_dab(&mut c, &black_dab(100.5, 100.5, 8.0, 0.0), &ink(), &over);
    let tile = c.tile((0, 0)).expect("tile allocated");
    assert_eq!(tile.texel(112, 100), Canvas::paper_texel());
}

#[test]
fn half_a_flow_paints_half_way() {
    let mut c = Canvas::new(256, 256);
    let mut d = black_dab(100.5, 100.5, 8.0, 1.0);
    d.flow = scalar(0.5);
    rasterize_dab(&mut c, &d, &ink(), &over);
    let got = reals(c.tile((0, 0)).expect("tile allocated").texel(100, 100));
    let paper = single(Canvas::paper_color().r);
    assert!((got[0] - paper * 0.5).abs() < 1e-3);
    assert!((got[3] - 1.0).abs() < 1e-3);
}
