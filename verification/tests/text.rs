//! Text blocks, the masks they are rendered to, and the tiles those become.

use openpaint::color::Rgba;
use openpaint::page::PageRect;
use openpaint::scalar::Scalar;
use openpaint::text::{
    no_match_message, tiles_from_mask, Align, FontResolution, FontSpec, LayoutError, RenderedText,
    TextBlock, WritingMode, MIN_SIZE_PX,
};
use openpaint::tile::{Texel, Tile, TILE_SIZE};
use openpaint::tile_map::TileMap;

fn scalar(v: f32) -> Scalar {
    Scalar::from_bits(v.to_bits())
}

fn single(s: Scalar) -> f32 {
    f32::from_bits(s.to_bits())
}

fn product(a: Scalar, b: Scalar) -> Scalar {
    scalar(single(a) * single(b))
}

fn rgba(c: [f32; 4]) -> Rgba {
    Rgba {
        r: scalar(c[0]),
        g: scalar(c[1]),
        b: scalar(c[2]),
        a: scalar(c[3]),
    }
}

fn stored(v: f32) -> u16 {
    half::f16::from_f32(v).to_bits()
}

fn reals(t: Texel) -> [f32; 4] {
    let one = |bits: u16| half::f16::from_bits(bits).to_f32();
    [one(t.r), one(t.g), one(t.b), one(t.a)]
}

/// A colour scaled by how covered a pixel is, as it is stored.
fn tint(color: Rgba, coverage: u8) -> Texel {
    let k = f32::from(coverage) / 255.0;
    Texel {
        r: stored(single(color.r) * k),
        g: stored(single(color.g) * k),
        b: stored(single(color.b) * k),
        a: stored(single(color.a) * k),
    }
}

fn ink_tiles(rendered: &RenderedText, color: [f32; 4], page: PageRect) -> TileMap<Tile> {
    tiles_from_mask(rendered, rgba(color), page, &tint)
}

#[test]
fn a_fresh_block_is_blank_but_valid() {
    let b = TextBlock::default();
    assert!(b.is_blank());
    assert!(single(b.size_px()) >= f32::from_bits(MIN_SIZE_PX));
    assert!(single(b.line_advance(&product)) > 0.0);
}

#[test]
fn whitespace_is_blank() {
    let with_text = |text: &str| TextBlock {
        text: text.into(),
        ..TextBlock::default()
    };
    assert!(with_text("   \n\t ").is_blank());
    assert!(!with_text("  a ").is_blank());
}

#[test]
fn size_is_clamped_away_from_zero() {
    for size in [0.0_f32, -12.0] {
        let b = TextBlock {
            size: scalar(size),
            ..TextBlock::default()
        };
        assert_eq!(b.size_px().to_bits(), MIN_SIZE_PX, "a size of {size} should clamp");
    }
}

#[test]
fn line_spacing_scales_with_size() {
    let advance_at = |size: f32| {
        single(
            TextBlock {
                size: scalar(size),
                line_height: scalar(1.5),
                ..TextBlock::default()
            }
            .line_advance(&product),
        )
    };
    assert!((advance_at(20.0) - 30.0).abs() < 1e-4);
    assert!(
        (advance_at(40.0) - 60.0).abs() < 1e-4,
        "doubling the size should double the spacing"
    );
}

#[test]
fn a_substituted_font_is_reported() {
    let exact = FontResolution {
        requested: "Comic Sans MS".into(),
        resolved: "Comic Sans MS".into(),
    };
    assert!(!exact.is_substituted());

    let swapped = FontResolution {
        requested: "Comic Sans MS".into(),
        resolved: "Arial".into(),
    };
    assert!(swapped.is_substituted());

    let defaulted = FontResolution {
        requested: String::new(),
        resolved: "Segoe UI".into(),
    };
    assert!(!defaulted.is_substituted());
}

#[test]
fn font_matching_ignores_case() {
    let r = FontResolution {
        requested: "arial".into(),
        resolved: "Arial".into(),
    };
    assert!(!r.is_substituted(), "case alone is not a substitution");
}

fn mask() -> RenderedText {
    RenderedText::new(
        10,
        20,
        3,
        2,
        vec![1, 2, 3, 4, 5, 6],
        FontResolution::default(),
    )
}

#[test]
fn coverage_reads_in_document_space() {
    let m = mask();
    assert_eq!(m.coverage_at(10, 20), 1, "top-left");
    assert_eq!(m.coverage_at(12, 20), 3, "top-right");
    assert_eq!(m.coverage_at(10, 21), 4, "second row");
    assert_eq!(m.coverage_at(12, 21), 6, "bottom-right");
}

#[test]
fn coverage_outside_the_mask_is_zero() {
    let m = mask();
    for (x, y) in [(9, 20), (13, 20), (10, 19), (10, 22), (-5, -5), (999, 999)] {
        assert_eq!(m.coverage_at(x, y), 0, "({x}, {y}) should be outside");
    }
}

#[test]
fn coverage_does_not_wrap_between_rows() {
    let m = mask();
    assert_eq!(
        m.coverage_at(9, 21),
        0,
        "one left of row two is outside, not the end of row one"
    );
}

#[test]
fn an_empty_result_still_says_what_font_was_used() {
    let r = RenderedText::empty(FontResolution {
        requested: "Nope".into(),
        resolved: "Arial".into(),
    });
    assert!(r.is_empty());
    assert_eq!(r.coverage_at(0, 0), 0);
    assert!(
        r.font.is_substituted(),
        "a blank layer still knows its font is missing"
    );
}

fn page() -> PageRect {
    PageRect::from_size(512, 512)
}

const INK: [f32; 4] = [0.0, 0.0, 0.0, 1.0];

fn inked(x: i32, y: i32, width: u32, height: u32, value: u8) -> RenderedText {
    RenderedText::new(
        x,
        y,
        width,
        height,
        vec![value; width as usize * height as usize],
        FontResolution::default(),
    )
}

#[test]
fn coverage_scales_the_colour() {
    let tiles = ink_tiles(&inked(10, 10, 2, 2, 255), INK, page());
    let tile = tiles.get((0, 0)).expect("tile 0,0 should exist");
    assert_eq!(
        reals(tile.texel(10, 10)),
        INK,
        "full coverage is the colour itself"
    );

    let tiles = ink_tiles(&inked(10, 10, 2, 2, 128), INK, page());
    let tile = tiles.get((0, 0)).expect("tile 0,0");
    let t = reals(tile.texel(10, 10));
    assert!(
        (t[3] - 128.0 / 255.0).abs() < 1e-2,
        "half coverage should give about half alpha, got {t:?}"
    );
}

#[test]
fn colour_channels_scale_with_alpha() {
    let red = [1.0, 0.0, 0.0, 1.0];
    let tiles = ink_tiles(&inked(5, 5, 1, 1, 128), red, page());
    let t = reals(tiles.get((0, 0)).expect("tile").texel(5, 5));
    assert!(
        (t[0] - t[3]).abs() < 1e-3,
        "red should equal alpha in premultiplied opaque ink, got {t:?}"
    );
}

#[test]
fn only_touched_tiles_are_produced() {
    let tiles = ink_tiles(&inked(300, 20, 4, 4, 255), INK, page());
    assert_eq!(tiles.len(), 1, "one small word, one tile");
    assert!(
        tiles.contains((1, 0)),
        "x=300 is the second tile column"
    );
}

#[test]
fn text_across_a_seam_touches_both_tiles() {
    let tiles = ink_tiles(&inked(TILE_SIZE as i32 - 2, 10, 4, 4, 255), INK, page());
    assert_eq!(tiles.len(), 2);
    assert!(tiles.contains((0, 0)) && tiles.contains((1, 0)));
    assert_eq!(
        reals(tiles.get((0, 0)).expect("tile").texel(TILE_SIZE - 1, 10)),
        INK,
        "left of the seam"
    );
    assert_eq!(reals(tiles.get((1, 0)).expect("tile").texel(0, 10)), INK, "right of the seam");
}

#[test]
fn ink_outside_the_page_is_clipped_not_wrapped() {
    let tiles = ink_tiles(&inked(-3, -3, 6, 6, 255), INK, page());
    let tile = tiles.get((0, 0)).expect("the part still on the page");
    assert_eq!(tiles.len(), 1, "nothing should exist off the page");
    assert_eq!(reals(tile.texel(0, 0)), INK, "the on-page corner is inked");
    assert_eq!(
        reals(tile.texel(3, 3)),
        [0.0; 4],
        "and the mask should not have wrapped round to here"
    );
}

#[test]
fn an_empty_mask_produces_no_tiles() {
    let empty = RenderedText::empty(FontResolution::default());
    assert!(ink_tiles(&empty, INK, page()).is_empty());
}

#[test]
fn uncovered_pixels_stay_transparent() {
    let mut mask = inked(10, 10, 4, 4, 0);
    mask.coverage[0] = 255;
    let tiles = ink_tiles(&mask, INK, page());
    let tile = tiles.get((0, 0)).expect("the one inked pixel");
    assert_eq!(reals(tile.texel(10, 10)), INK);
    assert_eq!(reals(tile.texel(11, 10)), [0.0; 4]);
    assert_eq!(reals(tile.texel(13, 13)), [0.0; 4]);
}

#[test]
fn layout_errors_explain_themselves() {
    let e = LayoutError::UnsupportedWritingMode(WritingMode::VerticalRightToLeft);
    assert!(e.message().contains("not implemented"));
    let e = LayoutError::NoFontAvailable {
        requested: "Comic Sans MS".into(),
    };
    assert!(e.message().contains("Comic Sans MS"));
    let e = LayoutError::NoFontAvailable {
        requested: String::new(),
    };
    assert!(
        !e.message().contains("\"\""),
        "the empty case needs its own wording"
    );
}

/// A font that was not found is named in quotes, and one that was not asked for is not.
#[test]
fn a_missing_font_is_quoted() {
    let e = LayoutError::NoFontAvailable {
        requested: "Comic \"Sans\"".into(),
    };
    assert!(e.message().contains("\"Comic \\\"Sans\\\"\""), "{}", e.message());
    assert_eq!(e.message(), no_match_message("\"Comic \\\"Sans\\\"\""));
    let none = LayoutError::NoFontAvailable {
        requested: String::new(),
    };
    assert_ne!(none.message(), e.message());
    let up = LayoutError::UnsupportedWritingMode(WritingMode::Horizontal);
    assert!(up.message().contains(WritingMode::Horizontal.name()));
}

/// The choices a block offers are told apart by name.
#[test]
fn alignments_and_modes_have_names() {
    let labels: Vec<&str> = Align::all().iter().map(|a| a.label()).collect();
    assert_eq!(labels.len(), 3);
    assert!(labels[0] != labels[1] && labels[1] != labels[2] && labels[0] != labels[2]);
    assert_ne!(
        WritingMode::Horizontal.name(),
        WritingMode::VerticalRightToLeft.name()
    );
    assert_eq!(Align::default(), Align::Start);
    assert_eq!(WritingMode::default(), WritingMode::Horizontal);
}

/// A block is where it was put, and a family is the only thing a font by name says.
#[test]
fn a_block_is_where_it_was_put() {
    let b = TextBlock::at(scalar(12.0), scalar(-3.5));
    assert_eq!((single(b.x), single(b.y)), (12.0, -3.5));
    let f = FontSpec::family("Georgia".to_owned());
    assert_eq!(f.family, "Georgia");
    assert_eq!(f.weight, FontSpec::default().weight);
    assert_eq!(mask().bounds(), (10, 20, 3, 2));
}

/// No ink is laid outside the page, whichever tile it would fall in.
#[test]
fn every_inked_pixel_is_on_the_page() {
    let small = PageRect::new(250, 0, 10, 10);
    let tiles = ink_tiles(&inked(200, 0, 100, 30, 255), INK, small);
    let mut found = 0;
    for (tx, ty) in tiles.coords() {
        let tile = tiles.get((tx, ty)).expect("listed");
        for y in 0..TILE_SIZE {
            for x in 0..TILE_SIZE {
                if reals(tile.texel(x, y))[3] > 0.0 {
                    found += 1;
                    assert!(small.contains(tx * 256 + x as i32, ty * 256 + y as i32));
                }
            }
        }
    }
    assert_eq!(found, 100);
}

#[test]
fn a_rendering_and_an_error_can_be_copied() {
    let font = FontResolution::default();
    let mask = RenderedText::new(1, 2, 2, 1, vec![7, 9], font);
    assert_eq!(mask.clone(), mask);
    let error = LayoutError::NoFontAvailable {
        requested: "Comic".to_owned(),
    };
    assert_eq!(error.clone(), error);
    assert_eq!(error.clone().message(), error.message());
}
