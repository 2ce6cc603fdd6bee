//! Tiles, their bytes, and the grids they lie in.

use openpaint::tile::{
    local_index, tile_index, Texel, Tile, TileGrid, TILE_BYTES, TILE_CHANNELS, TILE_SIZE,
};

fn texel(c: [f32; 4]) -> Texel {
    let one = |v: f32| half::f16::from_f32(v).to_bits();
    Texel {
        r: one(c[0]),
        g: one(c[1]),
        b: one(c[2]),
        a: one(c[3]),
    }
}

fn reals(t: Texel) -> [f32; 4] {
    let one = |bits: u16| half::f16::from_bits(bits).to_f32();
    [one(t.r), one(t.g), one(t.b), one(t.a)]
}

#[test]
fn byte_length_matches_gpu_expectation() {
    assert_eq!(TILE_BYTES, 512 * 1024);
    assert_eq!(Tile::transparent().bytes().len(), TILE_BYTES);
}

#[test]
fn row_stride_satisfies_wgpu_alignment() {
    let bytes_per_row = TILE_SIZE * TILE_CHANNELS * 2;
    assert_eq!(bytes_per_row % 256, 0);
}

#[test]
fn transparent_tile_is_all_zero() {
    let t = Tile::transparent();
    assert_eq!(reals(t.texel(0, 0)), [0.0; 4]);
    assert_eq!(reals(t.texel(TILE_SIZE - 1, TILE_SIZE - 1)), [0.0; 4]);
}

#[test]
fn texel_roundtrips_through_f16() {
    let mut t = Tile::transparent();
    t.set_texel(3, 7, texel([0.25, 0.5, 0.75, 1.0]));
    let got = reals(t.texel(3, 7));
    assert_eq!(got, [0.25, 0.5, 0.75, 1.0]);
    assert_eq!(reals(t.texel(4, 7)), [0.0; 4]);
}

#[test]
fn filled_covers_every_texel() {
    let t = Tile::filled(texel([0.5, 0.25, 0.125, 1.0]));
    assert_eq!(reals(t.texel(0, 0)), [0.5, 0.25, 0.125, 1.0]);
    assert_eq!(
        reals(t.texel(TILE_SIZE - 1, TILE_SIZE - 1)),
        [0.5, 0.25, 0.125, 1.0]
    );
}

/// A tile's bytes are its channels in order, each the low byte first, and reading them back gives
/// the same tile.
#[test]
fn bytes_read_back_as_the_tile() {
    let mut t = Tile::transparent();
    t.set_texel(1, 0, Texel { r: 0x1234, g: 0xABCD, b: 0x0001, a: 0x3C00 });
    let bytes = t.bytes().to_vec();
    assert_eq!(bytes[8..16], [0x34, 0x12, 0xCD, 0xAB, 0x01, 0x00, 0x00, 0x3C]);
    let back = Tile::from_bytes(&bytes).expect("the right length");
    assert_eq!(back, t);
    assert!(Tile::from_bytes(&bytes[1..]).is_none());
    assert!(Tile::from_bytes(&[]).is_none());
}

/// A pixel has one tile and one place in it, on either side of the origin.
#[test]
fn pixels_left_of_the_origin_have_their_own_tiles() {
    assert_eq!((tile_index(0), local_index(0)), (0, 0));
    assert_eq!((tile_index(255), local_index(255)), (0, 255));
    assert_eq!((tile_index(256), local_index(256)), (1, 0));
    assert_eq!((tile_index(-1), local_index(-1)), (-1, 255));
    assert_eq!((tile_index(-256), local_index(-256)), (-1, 0));
}

/// The place of a tile in a grid and the tile of a place are each other's answer.
#[test]
fn grid_indices_go_both_ways() {
    let g = TileGrid::over(-300, 10, 600, 300);
    for i in 0..g.len() {
        assert_eq!(g.index_of(g.coord_at(i)), Some(i));
    }
    assert_eq!(g.index_of((-3, 0)), None);
    let (at, x, y) = g.locate(-300, 10);
    assert_eq!(at.map(|i| g.coord_at(i)), Some((-2, 0)));
    assert_eq!((x, y), (212, 10));
    assert!(!g.is_empty());
    assert_eq!(TileGrid::covering((0, 0, 1, 1)).len(), 1);
}

/// Only the places of a grid that have something are collected.
#[test]
fn a_grid_collects_what_there_is() {
    let g = TileGrid::over(0, 0, 511, 511);
    let found = g.collect(vec![Some(7), None, Some(9), None]);
    assert_eq!(found.len(), 2);
    assert_eq!(found.get(g.coord_at(0)), Some(&7));
    assert_eq!(found.get(g.coord_at(1)), None);
    assert_eq!(found.get(g.coord_at(2)), Some(&9));
}

/// What is clear is uncovered, and what has colour without cover is not blank.
#[test]
fn blank_is_more_than_uncovered() {
    assert!(Texel::clear().is_blank() && Texel::clear().is_uncovered());
    let odd = Texel { r: 1, g: 0, b: 0, a: 0 };
    assert!(odd.is_uncovered() && !odd.is_blank());
}
