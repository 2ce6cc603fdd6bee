//! Pixels lifted off a layer and put down elsewhere.

use openpaint::tile::{Texel, Tile, TileCoord, TILE_SIZE};
use openpaint::tile_map::TileMap;
use openpaint::{Lifted, PageRect, Selection};

fn texel(c: [f32; 4]) -> Texel {
    let one = |v: f32| half::f16::from_f32(v).to_bits();
    Texel {
        r: one(c[0]),
        g: one(c[1]),
        b: one(c[2]),
        a: one(c[3]),
    }
}

fn reals(t: Texel) -> [f32; 4] {
    let one = |bits: u16| half::f16::from_bits(bits).to_f32();
    [one(t.r), one(t.g), one(t.b), one(t.a)]
}

fn weigh(t: Texel, coverage: u8) -> Texel {
    texel(reals(t).map(|v| v * f32::from(coverage) / 255.0))
}

fn covered(tiles: &TileMap<Tile>) -> usize {
    tiles
        .coords()
        .into_iter()
        .filter_map(|c| tiles.get(c))
        .map(|t| {
            (0..TILE_SIZE * TILE_SIZE)
                .filter(|i| reals(t.texel(i % TILE_SIZE, i / TILE_SIZE))[3] > 0.0)
                .count()
        })
        .sum()
}

fn same(a: &TileMap<Tile>, b: &TileMap<Tile>) -> bool {
    a.len() == b.len()
        && a.coords().into_iter().all(|c| match (a.get(c), b.get(c)) {
            (Some(p), Some(q)) => p.bytes() == q.bytes(),
            _ => false,
        })
}

const RED: [f32; 4] = [1.0, 0.0, 0.0, 1.0];

fn solid(_coord: TileCoord) -> Option<Tile> {
    let mut t = Tile::transparent();
    for ly in 0..TILE_SIZE {
        for lx in 0..TILE_SIZE {
            t.set_texel(lx, ly, texel(RED));
        }
    }
    Some(t)
}

fn page() -> PageRect {
    PageRect::from_size(600, 600)
}

fn at(tiles: &TileMap<Tile>, x: i32, y: i32) -> [f32; 4] {
    let side = TILE_SIZE as i32;
    tiles
        .get((x.div_euclid(side), y.div_euclid(side)))
        .map_or([0.0; 4], |t| {
            reals(t.texel(x.rem_euclid(side) as usize, y.rem_euclid(side) as usize))
        })
}

#[test]
fn lifting_takes_only_what_the_selection_covers() {
    let sel = Selection::from_rect(PageRect::new(100, 100, 40, 40), page());
    let lifted = Lifted::from_layer(&sel, solid, weigh);
    let placed = lifted.shifted(0, 0);

    assert_eq!(at(&placed, 120, 120), RED, "inside the selection");
    assert_eq!(at(&placed, 90, 120), [0.0; 4], "outside it");
    assert_eq!(at(&placed, 140, 120), [0.0; 4], "past its far edge");
}

#[test]
fn lifting_an_empty_layer_yields_nothing() {
    let sel = Selection::from_rect(PageRect::new(100, 100, 40, 40), page());
    assert!(Lifted::from_layer(&sel, |_| None, weigh).is_empty());
}

#[test]
fn coverage_weights_what_is_lifted() {
    let mut sel = Selection::from_rect(PageRect::new(100, 100, 40, 40), page());
    sel.set_coverage(120, 120, 128);

    let placed = Lifted::from_layer(&sel, solid, weigh).shifted(0, 0);
    let soft = at(&placed, 120, 120);
    assert!(
        (soft[3] - 0.5).abs() < 0.01,
        "a half-covered pixel should lift at half alpha, got {soft:?}"
    );
    assert!(
        (soft[0] - 0.5).abs() < 0.01,
        "and premultiplied colour should scale with it, got {soft:?}"
    );
    assert_eq!(at(&placed, 121, 120), RED, "its neighbour is untouched");
}

#[test]
fn a_shift_across_tile_boundaries_lands_correctly() {
    let sel = Selection::from_rect(PageRect::new(200, 200, 120, 40), page());
    let lifted = Lifted::from_layer(&sel, solid, weigh);

    let moved = lifted.shifted(37, -14);
    assert_eq!(at(&moved, 237, 186), RED, "the moved top-left corner");
    assert_eq!(at(&moved, 356, 225), RED, "the moved bottom-right corner");
    assert_eq!(at(&moved, 236, 186), [0.0; 4], "one pixel before it");
    assert_eq!(at(&moved, 357, 186), [0.0; 4], "one pixel past it");
    assert_eq!(
        at(&moved, 200, 200),
        [0.0; 4],
        "nothing was left behind at the source"
    );

    let before = covered(lifted.tiles());
    let after = covered(&moved);
    assert_eq!(before, after, "the shift lost or duplicated pixels");
    assert_eq!(before, 120 * 40, "the selection's own area");
}

#[test]
fn a_shift_off_the_page_is_not_clipped() {
    let sel = Selection::from_rect(PageRect::new(0, 0, 40, 40), page());
    let moved = Lifted::from_layer(&sel, solid, weigh).shifted(-100, -100);
    assert_eq!(at(&moved, -100, -100), RED, "the moved corner, off-page");
    assert_eq!(at(&moved, -61, -61), RED, "and its far corner");
}

#[test]
fn a_zero_shift_changes_nothing() {
    let sel = Selection::from_rect(PageRect::new(300, 300, 50, 50), page());
    let lifted = Lifted::from_layer(&sel, solid, weigh);
    let a = lifted.shifted(0, 0);
    let b = lifted.shifted(1, 0);
    assert!(!same(&a, &b), "shifting by a pixel should change the result");
    assert_eq!(at(&a, 300, 300), RED);
    assert_eq!(at(&b, 301, 300), RED);
    assert_eq!(at(&b, 300, 300), [0.0; 4]);
}

#[test]
fn a_shift_and_its_inverse_give_the_lifted_pixels_back() {
    let sel = Selection::from_rect(PageRect::new(250, 250, 20, 20), page());
    let lifted = Lifted::from_layer(&sel, solid, weigh);
    let there = lifted.shifted(300, -270);
    for y in 240..280 {
        for x in 240..280 {
            assert_eq!(at(&there, x + 300, y - 270), at(lifted.tiles(), x, y));
        }
    }
}

#[test]
fn nothing_selected_lifts_nothing() {
    let sel = Selection::new();
    assert!(Lifted::from_layer(&sel, solid, weigh).is_empty());
}

#[test]
fn nothing_floats_to_begin_with() {
    let none = Lifted::default();
    assert!(none.is_empty());
    assert!(none.tiles().is_empty());
}

/// The source is asked only about tiles that the selection covers.
#[test]
fn only_covered_tiles_are_asked_for() {
    let selection = Selection::from_rect(PageRect::new(10, 10, 20, 20), page());
    let lifted = Lifted::from_layer(
        &selection,
        |coord| {
            assert_eq!(coord, (0, 0), "asked off the selection");
            solid(coord)
        },
        weigh,
    );
    assert!(!lifted.is_empty());
}
