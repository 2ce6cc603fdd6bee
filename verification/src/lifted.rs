//! Pixels lifted out of a layer, floating above it until they are put down.
//!
//! Moving a selection is three steps: **lift** the pixels the selection covers, weighted by its
//! coverage; **float** them, shifted to wherever the artist drags; and **put down** what is
//! floating. What comes away in the first step is a [`Lifted`], and [`Lifted::shifted`] is the
//! second.
//!
//! A shift by anything other than a whole tile makes one destination tile draw from as many as four
//! source tiles. The shift happens here and produces tiles that line up with the canvas again, so
//! nothing downstream ever sees a straddling read.

use vstd::prelude::*;

use crate::page::fits;
use crate::selection::Selection;
use crate::tile::{
    local_index, local_of, reachable, texel_index, tile_index, tile_of, Texel, Tile, TileCoord,
    TILE_SIZE, TILE_TEXELS,
};
use crate::tile_map::{ints, TileMap};

verus! {

/// Whether every tile of a map is one that pixels fall in, and is whole.
pub open spec fn whole(tiles: Map<(int, int), Tile>) -> bool {
    forall|c: (int, int)| #[trigger] tiles.contains_key(c) ==> reachable(c) && tiles[c].wf()
}

/// The colour of a page pixel in a map of tiles: transparent where there is no tile.
pub open spec fn pixel_in(tiles: Map<(int, int), Tile>, x: int, y: int) -> Texel {
    let c = (tile_of(x), tile_of(y));
    if tiles.contains_key(c) {
        tiles[c].pixel(local_of(x), local_of(y))
    } else {
        Texel::clear_spec()
    }
}

/// What lifting does to one texel: nothing comes away where nothing is selected or nothing is
/// there, and elsewhere the texel comes away weighted by its coverage.
pub open spec fn lifts<W: Fn(Texel, u8) -> Texel>(weigh: W, texel: Texel, c: u8, out: Texel) -> bool {
    if c == 0 || texel.uncovered() {
        out == Texel::clear_spec()
    } else {
        weigh.ensures((texel, c), out)
    }
}

/// What lifting does to one tile.
pub open spec fn lifts_tile<W: Fn(Texel, u8) -> Texel>(
    weigh: W,
    tile: Tile,
    coverage: Seq<u8>,
    out: Tile,
) -> bool {
    &&& out.wf()
    &&& forall|lx: int, ly: int|
        #![trigger out.pixel(lx, ly)]
        0 <= lx < 256 && 0 <= ly < 256 ==> lifts(
            weigh,
            tile.pixel(lx, ly),
            coverage[texel_index(lx, ly)],
            out.pixel(lx, ly),
        )
}

/// Whether anything of a tile is both selected and there.
pub open spec fn anything_to_lift(tile: Tile, coverage: Seq<u8>) -> bool {
    exists|lx: int, ly: int|
        0 <= lx < 256 && 0 <= ly < 256 && coverage[#[trigger] texel_index(lx, ly)] != 0
            && !tile.pixel(lx, ly).uncovered()
}

/// What a lift holds for one tile, given what the layer had there: nothing where the layer has no
/// tile or nothing of it comes away, and else the tile as lifted.
pub open spec fn lift_of<W: Fn(Texel, u8) -> Texel>(
    weigh: W,
    found: Option<Tile>,
    coverage: Seq<u8>,
    held: Map<(int, int), Tile>,
    c: (int, int),
) -> bool {
    match found {
        None => !held.contains_key(c),
        Some(tile) => {
            &&& held.contains_key(c) <==> anything_to_lift(tile, coverage)
            &&& held.contains_key(c) ==> lifts_tile(weigh, tile, coverage, held[c])
        },
    }
}

/// Whether a lift holds what it should for one tile of the selection.
pub open spec fn lifts_from<S: Fn(TileCoord) -> Option<Tile>, W: Fn(Texel, u8) -> Texel>(
    source: S,
    weigh: W,
    coverage: Seq<u8>,
    held: Map<(int, int), Tile>,
    c: TileCoord,
) -> bool {
    exists|found: Option<Tile>| #[trigger]
        source.ensures((c,), found) && lift_of(weigh, found, coverage, held, ints(c))
}

/// Pixels taken out of a layer, in premultiplied linear colour.
///
/// Sparse: only tiles the selection actually reached exist.
#[derive(Clone, Debug, PartialEq)]
pub struct Lifted {
    tiles: TileMap<Tile>,
}

impl Default for Lifted {
    /// Nothing floating.
    fn default() -> (l: Lifted)
        ensures
            l.wf(),
            l.held() == Map::<(int, int), Tile>::empty(),
    {
        Lifted { tiles: TileMap::new() }
    }
}

/// One tile of a lift, and whether anything came away.
fn lift_tile<W: Fn(Texel, u8) -> Texel>(tile: &Tile, coverage: &Vec<u8>, weigh: &W) -> (r: (
    Tile,
    bool,
))
    requires
        tile.wf(),
        coverage@.len() == TILE_TEXELS,
        forall|t: Texel, c: u8| c != 0 && !t.uncovered() ==> #[trigger] weigh.requires((t, c)),
    ensures
        lifts_tile(*weigh, *tile, coverage@, r.0),
        r.1 == anything_to_lift(*tile, coverage@),
{
    let mut lifted = Tile::transparent();
    let mut any = false;
    let mut ly: usize = 0;
    while ly < TILE_SIZE
        invariant
            tile.wf(),
            coverage@.len() == TILE_TEXELS,
            forall|t: Texel, c: u8| c != 0 && !t.uncovered() ==> #[trigger] weigh.requires((t, c)),
            ly <= 256,
            lifted.wf(),
            forall|a: int, b: int|
                #![trigger lifted.pixel(a, b)]
                0 <= a < 256 && 0 <= b < 256 ==> if b < ly {
                    lifts(
                        *weigh,
                        tile.pixel(a, b),
                        coverage@[texel_index(a, b)],
                        lifted.pixel(a, b),
                    )
                } else {
                    lifted.pixel(a, b) == Texel::clear_spec()
                },
            any ==> anything_to_lift(*tile, coverage@),
            !any ==> forall|a: int, b: int|
                0 <= a < 256 && 0 <= b < ly ==> coverage@[#[trigger] texel_index(a, b)] == 0
                    || tile.pixel(a, b).uncovered(),
        decreases 256 - ly,
    {
        let mut lx: usize = 0;
        while lx < TILE_SIZE
            invariant
                tile.wf(),
                coverage@.len() == TILE_TEXELS,
                forall|t: Texel, c: u8|
                    c != 0 && !t.uncovered() ==> #[trigger] weigh.requires((t, c)),
                ly < 256,
                lx <= 256,
                lifted.wf(),
                forall|a: int, b: int|
                    #![trigger lifted.pixel(a, b)]
                    0 <= a < 256 && 0 <= b < 256 ==> if b < ly || (b == ly && a < lx) {
                        lifts(
                            *weigh,
                            tile.pixel(a, b),
                            coverage@[texel_index(a, b)],
                            lifted.pixel(a, b),
                        )
                    } else {
                        lifted.pixel(a, b) == Texel::clear_spec()
                    },
                any ==> anything_to_lift(*tile, coverage@),
                !any ==> forall|a: int, b: int|
                    0 <= a < 256 && 0 <= b && (b < ly || (b == ly && a < lx))
                        ==> coverage@[#[trigger] texel_index(a, b)] == 0 || tile.pixel(
                        a,
                        b,
                    ).uncovered(),
            decreases 256 - lx,
        {
            let c: u8 = coverage[ly * TILE_SIZE + lx];
            assert(c == coverage@[texel_index(lx as int, ly as int)]);
            if c != 0 {
                let texel = tile.texel(lx, ly);
                if !texel.is_uncovered() {
                    let ghost before = lifted;
                    lifted.set_texel(lx, ly, weigh(texel, c));
                    any = true;
                    assert forall|a: int, b: int|
                        #![trigger lifted.pixel(a, b)]
                        0 <= a < 256 && 0 <= b < 256 implies if b < ly || (b == ly && a < lx + 1) {
                        lifts(
                            *weigh,
                            tile.pixel(a, b),
                            coverage@[texel_index(a, b)],
                            lifted.pixel(a, b),
                        )
                    } else {
                        lifted.pixel(a, b) == Texel::clear_spec()
                    } by {
                        let p = before.pixel(a, b);
                    }
                }
            }
            lx += 1;
        }
        ly += 1;
    }
    (lifted, any)
}

impl Lifted {
    /// What is floating, tile by tile.
    pub closed spec fn held(&self) -> Map<(int, int), Tile> {
        self.tiles@
    }

    /// Every tile is one that pixels fall in, and is whole.
    pub open spec fn wf(&self) -> bool {
        whole(self.held())
    }

    /// The colour floating at a page pixel.
    pub open spec fn pixel(&self, x: int, y: int) -> Texel {
        pixel_in(self.held(), x, y)
    }

    /// Take the pixels a selection covers out of a layer's tiles.
    ///
    /// `source` supplies the layer's tile at a coordinate, or `None` where it has none; it is asked
    /// only about tiles that the selection covers. `weigh` scales a texel by a coverage, so a
    /// soft-edged selection lifts a soft edge.
    pub fn from_layer<S: Fn(TileCoord) -> Option<Tile>, W: Fn(Texel, u8) -> Texel>(
        selection: &Selection,
        source: S,
        weigh: W,
    ) -> (l: Lifted)
        requires
            selection.wf(),
            forall|c: TileCoord|
                selection.kept().contains_key(ints(c)) ==> #[trigger] source.requires((c,)),
            forall|c: TileCoord, t: Tile|
                selection.kept().contains_key(ints(c)) && #[trigger] source.ensures((c,), Some(t))
                    ==> t.wf(),
            forall|t: Texel, c: u8| c != 0 && !t.uncovered() ==> #[trigger] weigh.requires((t, c)),
        ensures
            l.wf(),
            forall|c: (int, int)| #[trigger]
                l.held().contains_key(c) ==> selection.kept().contains_key(c),
            forall|c: TileCoord| #[trigger]
                selection.kept().contains_key(ints(c)) ==> lifts_from(
                    source,
                    weigh,
                    selection.kept()[ints(c)]@,
                    l.held(),
                    c,
                ),
    {
        let mut tiles: TileMap<Tile> = TileMap::new();
        let covered = selection.tiles();
        let mut n: usize = 0;
        while n < covered.len()
            invariant
                selection.wf(),
                forall|c: TileCoord|
                    selection.kept().contains_key(ints(c)) ==> #[trigger] source.requires((c,)),
                forall|c: TileCoord, t: Tile|
                    selection.kept().contains_key(ints(c)) && #[trigger] source.ensures((c,), Some(t))
                        ==> t.wf(),
                forall|t: Texel, c: u8|
                    c != 0 && !t.uncovered() ==> #[trigger] weigh.requires((t, c)),
                n <= covered@.len(),
                forall|i: int|
                    0 <= i < covered@.len() ==> selection.kept().contains_key(
                        ints((#[trigger] covered@[i]).0),
                    ) && *covered@[i].1 == selection.kept()[ints(covered@[i].0)],
                forall|i: int, j: int|
                    0 <= i < j < covered@.len() ==> ints((#[trigger] covered@[i]).0) != ints(
                        (#[trigger] covered@[j]).0,
                    ),
                whole(tiles@),
                forall|c: (int, int)| #[trigger]
                    tiles@.contains_key(c) ==> exists|i: int|
                        0 <= i < n && ints((#[trigger] covered@[i]).0) == c,
                forall|i: int|
                    0 <= i < n ==> lifts_from(
                        source,
                        weigh,
                        selection.kept()[ints((#[trigger] covered@[i]).0)]@,
                        tiles@,
                        covered@[i].0,
                    ),
            decreases covered@.len() - n,
        {
            let ghost before = tiles@;
            let c = covered[n].0;
            let coverage = covered[n].1;
            assert(selection.kept().contains_key(ints(c)));
            assert(!before.contains_key(ints(c)));
            let found = source(c);
            let ghost answer = found;
            match found {
                // The layer has nothing here, so there is nothing to lift. Not an error: a
                // selection routinely covers empty canvas.
                None => {},
                Some(tile) => {
                    let (lifted, any) = lift_tile(&tile, coverage, &weigh);
                    if any {
                        tiles.insert(c, lifted);
                    }
                },
            }
            proof {
                assert(source.ensures((c,), answer) && lift_of(
                    weigh,
                    answer,
                    coverage@,
                    tiles@,
                    ints(c),
                ));
                assert forall|i: int| 0 <= i < n + 1 implies lifts_from(
                    source,
                    weigh,
                    selection.kept()[ints((#[trigger] covered@[i]).0)]@,
                    tiles@,
                    covered@[i].0,
                ) by {
                    if i < n {
                        let d = covered@[i].0;
                        let kept = selection.kept()[ints(d)]@;
                        assert(ints(d) != ints(c));
                        assert(lifts_from(source, weigh, kept, before, d));
                        let f = choose|f: Option<Tile>| #[trigger]
                            source.ensures((d,), f) && lift_of(weigh, f, kept, before, ints(d));
                        assert(source.ensures((d,), f) && lift_of(weigh, f, kept, tiles@, ints(d)));
                    }
                }
                assert forall|k: (int, int)| #[trigger] tiles@.contains_key(k) implies exists|i: int|
                    0 <= i < n + 1 && ints((#[trigger] covered@[i]).0) == k by {
                    if before.contains_key(k) {
                        let i = choose|i: int|
                            0 <= i < n && ints((#[trigger] covered@[i]).0) == k;
                        assert(ints(covered@[i].0) == k);
                    } else {
                        assert(ints(covered@[n as int].0) == k);
                    }
                }
            }
            n += 1;
        }
        let l = Lifted { tiles };
        assert forall|c: TileCoord| #[trigger]
            selection.kept().contains_key(ints(c)) implies lifts_from(
            source,
            weigh,
            selection.kept()[ints(c)]@,
            l.held(),
            c,
        ) by {
            let i = choose|i: int|
                0 <= i < covered@.len() && ints((#[trigger] covered@[i]).0) == ints(c);
            assert(covered@[i].0 == c);
        }
        l
    }

    /// Whether nothing was actually lifted.
    pub fn is_empty(&self) -> (r: bool)
        ensures
            r == (self.held() == Map::<(int, int), Tile>::empty()),
    {
        self.tiles.is_empty()
    }

    /// The tiles as lifted, at their original coordinates.
    pub fn tiles(&self) -> (tiles: &TileMap<Tile>)
        ensures
            tiles@ == self.held(),
    {
        &self.tiles
    }

    /// The same pixels moved by a whole-pixel offset, back on the tile grid.
    ///
    /// Whole pixels only. Sub-pixel movement is a resampling problem, and a move should not quietly
    /// soften what it moves.
    pub fn shifted(&self, dx: i32, dy: i32) -> (out: TileMap<Tile>)
        requires
            self.wf(),
            dx != 0 || dy != 0 ==> forall|x: int, y: int|
                fits(x) && fits(y) && !(#[trigger] self.pixel(x, y)).blank() ==> fits(x + dx)
                    && fits(y + dy),
        ensures
            whole(out@),
            dx == 0 && dy == 0 ==> out@.dom() == self.held().dom() && forall|c: (int, int)|
                #[trigger] out@.contains_key(c) ==> out@[c]@ == self.held()[c]@,
            dx != 0 || dy != 0 ==> forall|x: int, y: int| #[trigger]
                pixel_in(out@, x, y) == if self.pixel(x - dx, y - dy).blank() {
                    Texel::clear_spec()
                } else {
                    self.pixel(x - dx, y - dy)
                },
            dx != 0 || dy != 0 ==> forall|c: (int, int)| #[trigger]
                out@.contains_key(c) ==> exists|x: int, y: int|
                    tile_of(x) == c.0 && tile_of(y) == c.1 && !(#[trigger] self.pixel(
                        x - dx,
                        y - dy,
                    )).blank(),
    {
        let coords = self.tiles.coords();
        let mut out: TileMap<Tile> = TileMap::new();
        let still = dx == 0 && dy == 0;
        let mut n: usize = 0;
        while n < coords.len()
            invariant
                self.wf(),
                still == (dx == 0 && dy == 0),
                !still ==> forall|x: int, y: int|
                    fits(x) && fits(y) && !(#[trigger] self.pixel(x, y)).blank() ==> fits(x + dx)
                        && fits(y + dy),
                n <= coords@.len(),
                forall|i: int|
                    0 <= i < coords@.len() ==> self.held().contains_key(ints(#[trigger] coords@[i])),
                forall|i: int, j: int|
                    0 <= i < j < coords@.len() ==> ints(#[trigger] coords@[i]) != ints(
                        #[trigger] coords@[j],
                    ),
                whole(out@),
                still ==> forall|c: (int, int)| #[trigger]
                    out@.contains_key(c) <==> exists|i: int|
                        0 <= i < n && ints(#[trigger] coords@[i]) == c,
                still ==> forall|c: (int, int)| #[trigger]
                    out@.contains_key(c) ==> out@[c]@ == self.held()[c]@,
                !still ==> shift_so_far(self.held(), coords@, n as int, 0, dx, dy, out@),
            decreases coords@.len() - n,
        {
            let c = coords[n];
            assert(self.held().contains_key(ints(c)));
            match self.tiles.get(c) {
                None => {},
                Some(tile) => {
                    if still {
                        out.insert(c, tile.clone());
                        assert(ints(coords@[n as int]) == ints(c));
                    } else {
                        assert(forall|x: int, y: int|
                            self.pixel(x, y) == #[trigger] pixel_in(self.held(), x, y));
                        shift_tile(&mut out, Ghost(self.held()), Ghost(coords@), n, tile, c, dx, dy);
                    }
                },
            }
            n += 1;
        }
        proof {
            if still {
                assert(out@.dom() =~= self.held().dom());
            } else {
                lemma_shift_done(self.held(), coords@, dx, dy, out@);
                assert forall|c: (int, int)| #[trigger] out@.contains_key(c) implies exists|
                    x: int,
                    y: int,
                | tile_of(x) == c.0 && tile_of(y) == c.1 && !(#[trigger] self.pixel(
                    x - dx,
                    y - dy,
                )).blank() by {
                    let (x, y) = choose|x: int, y: int|
                        tile_of(x) == c.0 && tile_of(y) == c.1 && !(#[trigger] pixel_in(
                            self.held(),
                            x - dx,
                            y - dy,
                        )).blank();
                    assert(!self.pixel(x - dx, y - dy).blank());
                }
            }
        }
        out
    }
}

/// Whether a walk over tiles, texel by texel, has passed a pixel: its tile is one of the first `n`
/// listed, or it is the next one and the pixel's texel is one of its first `k`.
pub open spec fn scanned(coords: Seq<TileCoord>, n: int, k: int, x: int, y: int) -> bool {
    let c = (tile_of(x), tile_of(y));
    ||| exists|i: int| 0 <= i < n && ints(#[trigger] coords[i]) == c
    ||| n < coords.len() && ints(coords[n]) == c && texel_index(local_of(x), local_of(y)) < k
}

/// Passing one texel more passes exactly that texel's pixel.
pub proof fn lemma_scan_texel(coords: Seq<TileCoord>, n: int, k: int, x: int, y: int)
    requires
        0 <= n < coords.len(),
        0 <= k < TILE_TEXELS,
        forall|i: int, j: int|
            0 <= i < j < coords.len() ==> ints(#[trigger] coords[i]) != ints(#[trigger] coords[j]),
    ensures
        scanned(coords, n, k + 1, x, y) <==> scanned(coords, n, k, x, y) || (x == coords[n].0 * 256
            + k % 256 && y == coords[n].1 * 256 + k / 256),
        x == coords[n].0 * 256 + k % 256 && y == coords[n].1 * 256 + k / 256 ==> !scanned(
            coords,
            n,
            k,
            x,
            y,
        ),
{
    let sx = coords[n].0 * 256 + k % 256;
    let sy = coords[n].1 * 256 + k / 256;
    assert(tile_of(sx) == coords[n].0 && tile_of(sy) == coords[n].1);
    assert(local_of(sx) == k % 256 && local_of(sy) == k / 256);
    let c = (tile_of(x), tile_of(y));
    if x == sx && y == sy {
        assert forall|i: int| 0 <= i < n implies ints(#[trigger] coords[i]) != c by {
            assert(ints(coords[i]) != ints(coords[n]));
        }
    }
    if ints(coords[n]) == c {
        assert(x == c.0 * 256 + local_of(x) && y == c.1 * 256 + local_of(y));
    }
}

/// Passing every texel of a tile is passing the tile.
pub proof fn lemma_scan_tile(coords: Seq<TileCoord>, n: int, x: int, y: int)
    requires
        0 <= n < coords.len(),
    ensures
        scanned(coords, n, TILE_TEXELS as int, x, y) == scanned(coords, n + 1, 0, x, y),
{
    let c = (tile_of(x), tile_of(y));
    assert(texel_index(local_of(x), local_of(y)) < TILE_TEXELS);
    if exists|i: int| 0 <= i < n + 1 && ints(#[trigger] coords[i]) == c {
        let i = choose|i: int| 0 <= i < n + 1 && ints(#[trigger] coords[i]) == c;
        if i < n {
            assert(0 <= i < n && ints(coords[i]) == c);
        }
    }
    if ints(coords[n]) == c {
        assert(0 <= n < n + 1 && ints(coords[n]) == c);
    }
}

/// What the destination holds once some of the tiles, and some texels of the next, have been moved.
spec fn shift_so_far(
    held: Map<(int, int), Tile>,
    coords: Seq<TileCoord>,
    n: int,
    k: int,
    dx: i32,
    dy: i32,
    out: Map<(int, int), Tile>,
) -> bool {
    &&& forall|x: int, y: int| #[trigger]
        pixel_in(out, x, y) == if scanned(coords, n, k, x - dx, y - dy) && !pixel_in(
            held,
            x - dx,
            y - dy,
        ).blank() {
            pixel_in(held, x - dx, y - dy)
        } else {
            Texel::clear_spec()
        }
    &&& forall|c: (int, int)| #[trigger]
        out.contains_key(c) ==> exists|x: int, y: int|
            tile_of(x) == c.0 && tile_of(y) == c.1 && !(#[trigger] pixel_in(
                held,
                x - dx,
                y - dy,
            )).blank()
}

/// Once every tile has been moved, each pixel stands where the offset puts it.
proof fn lemma_shift_done(
    held: Map<(int, int), Tile>,
    coords: Seq<TileCoord>,
    dx: i32,
    dy: i32,
    out: Map<(int, int), Tile>,
)
    requires
        shift_so_far(held, coords, coords.len() as int, 0, dx, dy, out),
        forall|c: (int, int)| #[trigger]
            held.contains_key(c) ==> exists|i: int|
                0 <= i < coords.len() && ints(#[trigger] coords[i]) == c,
    ensures
        forall|x: int, y: int| #[trigger]
            pixel_in(out, x, y) == if pixel_in(held, x - dx, y - dy).blank() {
                Texel::clear_spec()
            } else {
                pixel_in(held, x - dx, y - dy)
            },
{
    assert forall|x: int, y: int| #[trigger] pixel_in(out, x, y) == if pixel_in(
        held,
        x - dx,
        y - dy,
    ).blank() {
        Texel::clear_spec()
    } else {
        pixel_in(held, x - dx, y - dy)
    } by {
        let c = (tile_of(x - dx), tile_of(y - dy));
        if held.contains_key(c) {
            assert(scanned(coords, coords.len() as int, 0, x - dx, y - dy));
        } else {
            assert(pixel_in(held, x - dx, y - dy).blank());
        }
    }
}

/// Move one tile's pixels to where the offset puts them.
fn shift_tile(
    out: &mut TileMap<Tile>,
    Ghost(held): Ghost<Map<(int, int), Tile>>,
    Ghost(coords): Ghost<Seq<TileCoord>>,
    n: usize,
    tile: &Tile,
    c: TileCoord,
    dx: i32,
    dy: i32,
)
    requires
        whole(held),
        n < coords.len(),
        coords[n as int] == c,
        held.contains_key(ints(c)),
        held[ints(c)] == *tile,
        forall|i: int, j: int|
            0 <= i < j < coords.len() ==> ints(#[trigger] coords[i]) != ints(#[trigger] coords[j]),
        forall|x: int, y: int|
            fits(x) && fits(y) && !(#[trigger] pixel_in(held, x, y)).blank() ==> fits(x + dx)
                && fits(y + dy),
        whole(old(out)@),
        shift_so_far(held, coords, n as int, 0, dx, dy, old(out)@),
    ensures
        whole(final(out)@),
        shift_so_far(held, coords, n + 1, 0, dx, dy, final(out)@),
{
    let mut k: usize = 0;
    while k < TILE_TEXELS
        invariant
            whole(held),
            n < coords.len(),
            coords[n as int] == c,
            held.contains_key(ints(c)),
            held[ints(c)] == *tile,
            reachable(ints(c)),
            tile.wf(),
            forall|i: int, j: int|
                0 <= i < j < coords.len() ==> ints(#[trigger] coords[i]) != ints(
                    #[trigger] coords[j],
                ),
            forall|x: int, y: int|
                fits(x) && fits(y) && !(#[trigger] pixel_in(held, x, y)).blank() ==> fits(x + dx)
                    && fits(y + dy),
            k <= TILE_TEXELS,
            whole(out@),
            shift_so_far(held, coords, n as int, k as int, dx, dy, out@),
        decreases TILE_TEXELS - k,
    {
        let lx: usize = k % TILE_SIZE;
        let ly: usize = k / TILE_SIZE;
        let texel = tile.texel(lx, ly);
        let ghost sx = c.0 * 256 + lx;
        let ghost sy = c.1 * 256 + ly;
        assert(tile_of(sx) == c.0 && tile_of(sy) == c.1 && local_of(sx) == lx && local_of(sy)
            == ly);
        assert(pixel_in(held, sx, sy) == texel);
        let ghost before = out@;
        if !texel.is_blank() {
            // Source page position, then destination, then which tile that lands in.
            let x: i32 = (c.0 as i64 * 256 + lx as i64 + dx as i64) as i32;
            let y: i32 = (c.1 as i64 * 256 + ly as i64 + dy as i64) as i32;
            let dest = (tile_index(x), tile_index(y));
            let mut target = match out.remove(dest) {
                Some(t) => t,
                None => Tile::transparent(),
            };
            let ghost earlier = target;
            target.set_texel(local_index(x), local_index(y), texel);
            out.insert(dest, target);
            proof {
                assert forall|px: int, py: int| #[trigger] pixel_in(out@, px, py) == if px == x && py
                    == y {
                    texel
                } else {
                    pixel_in(before, px, py)
                } by {
                    if tile_of(px) == dest.0 && tile_of(py) == dest.1 {
                        let q = earlier.pixel(local_of(px), local_of(py));
                        let r = target.pixel(local_of(px), local_of(py));
                    }
                }
            }
        }
        proof {
            assert forall|px: int, py: int| #[trigger] pixel_in(out@, px, py) == if scanned(
                coords,
                n as int,
                k + 1,
                px - dx,
                py - dy,
            ) && !pixel_in(held, px - dx, py - dy).blank() {
                pixel_in(held, px - dx, py - dy)
            } else {
                Texel::clear_spec()
            } by {
                let was = pixel_in(before, px, py);
                lemma_scan_texel(coords, n as int, k as int, px - dx, py - dy);
            }
            assert forall|d: (int, int)| #[trigger] out@.contains_key(d) implies exists|
                x: int,
                y: int,
            | tile_of(x) == d.0 && tile_of(y) == d.1 && !(#[trigger] pixel_in(
                held,
                x - dx,
                y - dy,
            )).blank() by {
                if !before.contains_key(d) {
                    assert(!pixel_in(held, sx + dx - dx, sy + dy - dy).blank());
                }
            }
        }
        k += 1;
    }
    proof {
        assert forall|x: int, y: int|
            scanned(coords, n as int, k as int, x, y) == #[trigger] scanned(
                coords,
                n + 1,
                0,
                x,
                y,
            ) by {
            lemma_scan_tile(coords, n as int, x, y);
        }
    }
}

/// A move loses no ink and invents none: what is not blank at a pixel is exactly what was not blank
/// at the pixel it came from, and moving on by the opposite offset brings it back.
pub proof fn law_a_move_keeps_every_pixel(
    held: Map<(int, int), Tile>,
    there: Map<(int, int), Tile>,
    back: Map<(int, int), Tile>,
    dx: int,
    dy: int,
)
    requires
        forall|x: int, y: int| #[trigger]
            pixel_in(there, x, y) == if pixel_in(held, x - dx, y - dy).blank() {
                Texel::clear_spec()
            } else {
                pixel_in(held, x - dx, y - dy)
            },
        forall|x: int, y: int| #[trigger]
            pixel_in(back, x, y) == if pixel_in(there, x + dx, y + dy).blank() {
                Texel::clear_spec()
            } else {
                pixel_in(there, x + dx, y + dy)
            },
    ensures
        forall|x: int, y: int| #[trigger]
            pixel_in(there, x, y).blank() == pixel_in(held, x - dx, y - dy).blank(),
        forall|x: int, y: int| #[trigger]
            pixel_in(back, x, y) == if pixel_in(held, x, y).blank() {
                Texel::clear_spec()
            } else {
                pixel_in(held, x, y)
            },
{
    assert forall|x: int, y: int| #[trigger] pixel_in(back, x, y) == if pixel_in(held, x, y).blank() {
        Texel::clear_spec()
    } else {
        pixel_in(held, x, y)
    } by {
        let t = pixel_in(there, x + dx, y + dy);
        assert(x + dx - dx == x && y + dy - dy == y);
    }
}

/// A lift takes what is selected and there, and nothing else: where a pixel of the layer is not selected
/// at all, or has no coverage above zero, nothing is floating, and everywhere else what is floating is
/// the pixel weighted by how selected it is.
pub proof fn law_a_lift_takes_what_is_selected<W: Fn(Texel, u8) -> Texel>(
    weigh: W,
    tile: Tile,
    coverage: Seq<u8>,
    held: Map<(int, int), Tile>,
    c: (int, int),
    lx: int,
    ly: int,
)
    requires
        lift_of(weigh, Some(tile), coverage, held, c),
        0 <= lx < 256,
        0 <= ly < 256,
    ensures
        ({
            let texel = tile.pixel(lx, ly);
            let floating = pixel_in(held, 256 * c.0 + lx, 256 * c.1 + ly);
            let how = coverage[256 * ly + lx];
            &&& how == 0 || texel.a == 0 || 0x8000 <= texel.a <= 0xFC00 ==> floating == (Texel {
                r: 0,
                g: 0,
                b: 0,
                a: 0,
            })
            &&& how > 0 && texel.a != 0 && !(0x8000 <= texel.a <= 0xFC00) ==> weigh.ensures(
                (texel, how),
                floating,
            )
        }),
{
    let (x, y) = (256 * c.0 + lx, 256 * c.1 + ly);
    assert(tile_of(x) == c.0 && tile_of(y) == c.1);
    assert(local_of(x) == lx && local_of(y) == ly);
    assert(texel_index(lx, ly) == 256 * ly + lx);
    if held.contains_key(c) {
        assert(lifts(weigh, tile.pixel(lx, ly), coverage[texel_index(lx, ly)], held[c].pixel(lx, ly)));
    } else {
        assert(!anything_to_lift(tile, coverage));
        assert(!(coverage[texel_index(lx, ly)] != 0 && !tile.pixel(lx, ly).uncovered()));
    }
}

/// Where a layer has no tile nothing comes away, and a tile floats only if something of it did.
pub proof fn law_a_lift_keeps_no_idle_tiles<W: Fn(Texel, u8) -> Texel>(
    weigh: W,
    found: Option<Tile>,
    coverage: Seq<u8>,
    held: Map<(int, int), Tile>,
    c: (int, int),
)
    requires
        lift_of(weigh, found, coverage, held, c),
    ensures
        found is None ==> !held.contains_key(c),
        held.contains_key(c) ==> exists|lx: int, ly: int|
            0 <= lx < 256 && 0 <= ly < 256 && coverage[#[trigger] texel_index(lx, ly)] != 0
                && found->0.pixel(lx, ly).a != 0,
{
    if held.contains_key(c) {
        let tile = found->0;
        let (lx, ly) = choose|lx: int, ly: int|
            0 <= lx < 256 && 0 <= ly < 256 && coverage[#[trigger] texel_index(lx, ly)] != 0
                && !tile.pixel(lx, ly).uncovered();
        assert(coverage[texel_index(lx, ly)] != 0);
    }
}

} // verus!
