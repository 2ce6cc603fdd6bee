//! The sparse canvas: what painting allocates, and what it leaves there.

use openpaint::color::Rgba;
use openpaint::scalar::Scalar;
use openpaint::tile::Texel;
use openpaint::Canvas;

fn scalar(v: f32) -> Scalar {
    Scalar::from_bits(v.to_bits())
}

fn single(s: Scalar) -> f32 {
    f32::from_bits(s.to_bits())
}

fn texel(c: [f32; 4]) -> Texel {
    let one = |v: f32| half::f16::from_f32(v).to_bits();
    Texel {
        r: one(c[0]),
        g: one(c[1]),
        b: one(c[2]),
        a: one(c[3]),
    }
}

fn reals(t: Texel) -> [f32; 4] {
    let one = |bits: u16| half::f16::from_bits(bits).to_f32();
    [one(t.r), one(t.g), one(t.b), one(t.a)]
}

fn channels(c: Rgba) -> [f32; 4] {
    [single(c.r), single(c.g), single(c.b), single(c.a)]
}

fn rgba(c: [f32; 4]) -> Rgba {
    Rgba {
        r: scalar(c[0]),
        g: scalar(c[1]),
        b: scalar(c[2]),
        a: scalar(c[3]),
    }
}

fn over_premul(src: [f32; 4], dst: [f32; 4]) -> [f32; 4] {
    let inv = 1.0 - src[3];
    [
        src[0] + dst[0] * inv,
        src[1] + dst[1] * inv,
        src[2] + dst[2] * inv,
        src[3] + dst[3] * inv,
    ]
}

fn scale_premul(premul: [f32; 4], factor: f32) -> [f32; 4] {
    [
        premul[0] * factor,
        premul[1] * factor,
        premul[2] * factor,
        premul[3] * factor,
    ]
}

fn over(src: Rgba, dst: Texel) -> Texel {
    let src = [single(src.r), single(src.g), single(src.b), single(src.a)];
    texel(over_premul(src, reals(dst)))
}

fn linear(c: u8) -> f32 {
    let c = f32::from(c) / 255.0;
    if c <= 0.040_45 {
        c / 12.92
    } else {
        ((c + 0.055) / 1.055).powf(2.4)
    }
}

const BLACK: [f32; 4] = [0.0, 0.0, 0.0, 1.0];

#[test]
fn painting_allocates_only_touched_tiles() {
    let mut c = Canvas::new(2048, 2048);
    assert_eq!(c.tiles().len(), 0);
    c.blend_pixel(10, 10, rgba(BLACK), &over);
    c.blend_pixel(300, 10, rgba(BLACK), &over);
    assert_eq!(c.tiles().len(), 2);
}

#[test]
fn out_of_bounds_paints_nothing() {
    let mut c = Canvas::new(256, 256);
    c.blend_pixel(-5, 10, rgba(BLACK), &over);
    c.blend_pixel(999, 10, rgba(BLACK), &over);
    assert_eq!(c.tiles().len(), 0);
}

#[test]
fn fully_transparent_source_allocates_nothing() {
    let mut c = Canvas::new(256, 256);
    c.blend_pixel(10, 10, rgba([0.0; 4]), &over);
    assert_eq!(c.tiles().len(), 0);
}

#[test]
fn dirty_tracks_and_clears() {
    let mut c = Canvas::new(512, 512);
    c.blend_pixel(5, 5, rgba(BLACK), &over);
    assert_eq!(c.take_dirty().len(), 1);
    assert_eq!(c.take_dirty().len(), 0);
}

#[test]
fn fresh_tiles_start_at_paper_color() {
    let mut c = Canvas::new(512, 512);
    c.blend_pixel(0, 0, rgba(BLACK), &over);
    let tile = c.tile((0, 0)).expect("tile allocated");
    assert_eq!(
        reals(tile.texel(200, 200)),
        channels(Canvas::paper_color()).map(round_f16)
    );
    assert_eq!(tile.texel(200, 200), Canvas::paper_texel());
    let paper = [250, 249, 246].map(linear);
    assert_eq!(
        channels(Canvas::paper_color()),
        [paper[0], paper[1], paper[2], 1.0]
    );
}

#[test]
fn opaque_paint_replaces_the_pixel() {
    let mut c = Canvas::new(512, 512);
    c.blend_pixel(4, 4, rgba(BLACK), &over);
    let tile = c.tile((0, 0)).expect("tile allocated");
    assert_eq!(reals(tile.texel(4, 4)), [0.0, 0.0, 0.0, 1.0]);
}

#[test]
fn half_coverage_blends_in_linear_space() {
    let mut c = Canvas::new(512, 512);
    c.blend_pixel(4, 4, rgba(scale_premul(BLACK, 0.5)), &over);
    let paper = channels(Canvas::paper_color());
    let got = reals(c.tile((0, 0)).expect("tile allocated").texel(4, 4));
    let expected = paper[0] * 0.5;
    assert!(
        (got[0] - expected).abs() < 1e-3,
        "got {}, expected {expected}",
        got[0]
    );
    assert!((got[3] - 1.0).abs() < 1e-3);
}

fn round_f16(v: f32) -> f32 {
    half::f16::from_f32(v).to_f32()
}

#[test]
fn a_replaced_pixel_is_what_it_was_replaced_with() {
    let mut c = Canvas::new(512, 512);
    let color = texel([0.25, 0.5, 0.75, 1.0]);
    c.replace_pixel(300, 7, color);
    assert_eq!(c.tiles().len(), 1);
    let tile = c.tile((1, 0)).expect("tile allocated");
    assert_eq!(tile.texel(44, 7), color);
    assert_eq!(tile.texel(45, 7), Canvas::paper_texel());
    assert_eq!(c.take_dirty(), vec![(1, 0)]);
}

#[test]
fn replacing_out_of_bounds_paints_nothing() {
    let mut c = Canvas::new(256, 256);
    c.replace_pixel(256, 0, Texel::clear());
    c.replace_pixel(0, -1, Texel::clear());
    assert!(c.tiles().is_empty());
    assert!(c.take_dirty().is_empty());
}

#[test]
fn what_it_holds_is_the_canvas_and_no_more() {
    let c = Canvas::new(10, 20);
    assert_eq!((c.width(), c.height()), (10, 20));
    assert!(c.holds(0, 0) && c.holds(9, 19));
    assert!(!c.holds(10, 0) && !c.holds(0, 20) && !c.holds(-1, 0));
}
