//! Selection: a per-pixel coverage mask over the document.
//!
//! A selection is not a tool. It is a **mask**: how much each pixel is selected, from none to
//! fully. One byte per pixel rather than one bit, which buys anti-aliased edges, feathering and
//! partial selection.
//!
//! Only tiles the selection actually touches exist, so a lasso around one character on a long strip
//! costs the tiles it covers, not the strip.

use vstd::prelude::*;

use crate::page::PageRect;
use crate::tile::{
    local_index, local_of, reachable, texel_index, tile_index, tile_of, TileCoord, TILE_SIZE,
    TILE_TEXELS,
};
use crate::tile_map::{ints, TileMap};

verus! {

/// Subsamples per axis when rasterizing a shape into coverage: 4 by 4 is 16 levels of edge coverage.
pub const SUBSAMPLES: u32 = 4;

/// How much of each pixel is selected, tile by tile.
///
/// Absent tiles are entirely unselected, which is what keeps a selection cheap on a large page.
#[derive(Clone, Debug, PartialEq)]
pub struct Selection {
    tiles: TileMap<Vec<u8>>,
}

impl Default for Selection {
    /// A selection of nothing.
    fn default() -> (s: Selection)
        ensures
            s.wf(),
            s.sparse(),
            s.kept() == Map::<(int, int), Vec<u8>>::empty(),
    {
        Selection::new()
    }
}

/// Whether a tile's coverage is what a coverage function gives on the page, and zero off it.
pub open spec fn covers_tile<F: Fn(i32, i32) -> u8>(
    page: PageRect,
    coverage: F,
    c: (int, int),
    tile: Seq<u8>,
) -> bool {
    &&& tile.len() == TILE_TEXELS
    &&& forall|lx: int, ly: int|
        #![trigger tile[texel_index(lx, ly)]]
        0 <= lx < 256 && 0 <= ly < 256 ==> if page.has(c.0 * 256 + lx, c.1 * 256 + ly) {
            coverage.ensures(
                ((c.0 * 256 + lx) as i32, (c.1 * 256 + ly) as i32),
                tile[texel_index(lx, ly)],
            )
        } else {
            tile[texel_index(lx, ly)] == 0
        }
}

/// Whether any byte of a tile is above zero.
pub open spec fn has_ink(tile: Seq<u8>) -> bool {
    exists|i: int| 0 <= i < tile.len() && #[trigger] tile[i] > 0
}

/// A tile with nothing selected in it.
pub open spec fn unselected() -> Seq<u8> {
    Seq::new(TILE_TEXELS as nat, |i: int| 0u8)
}

/// Whether a shape test is settled: asking twice about one point gives one answer.
pub open spec fn settled<F: Fn(i64, i64) -> bool>(inside: &F) -> bool {
    forall|x: i64, y: i64|
        #![trigger inside.ensures((x, y), true)]
        !(inside.ensures((x, y), true) && inside.ensures((x, y), false))
}

/// How many of the first `n` subsamples of a pixel lie inside a shape.
///
/// The shape is asked about points in eighths of a pixel: a pixel's subsamples stand at an eighth,
/// three, five and seven eighths of the way across it.
pub open spec fn hits<F: Fn(i64, i64) -> bool>(inside: &F, x: int, y: int, n: int) -> int
    decreases n,
{
    if n <= 0 {
        0
    } else {
        let px = (8 * x + 2 * ((n - 1) % 4) + 1) as i64;
        let py = (8 * y + 2 * ((n - 1) / 4) + 1) as i64;
        hits(inside, x, y, n - 1) + if inside.ensures((px, py), true) {
            1int
        } else {
            0int
        }
    }
}

/// How covered a pixel is by a shape: its subsamples inside, scaled so that all of them is 255.
pub open spec fn shape_coverage<F: Fn(i64, i64) -> bool>(inside: &F, x: int, y: int) -> int {
    hits(inside, x, y, 16) * 255 / 16
}

/// Whether a shape was asked about the first `n` subsamples of a pixel, so that what it is not said to
/// hold it was said not to.
pub open spec fn shape_answered<F: Fn(i64, i64) -> bool>(
    inside: &F,
    x: int,
    y: int,
    n: int,
) -> bool {
    forall|i: int| 0 <= i < n ==> #[trigger] subsample_answered(inside, x, y, i)
}

/// Whether a shape was asked about one subsample of a pixel.
pub open spec fn subsample_answered<F: Fn(i64, i64) -> bool>(
    inside: &F,
    x: int,
    y: int,
    i: int,
) -> bool {
    let px = (8 * x + 2 * (i % 4) + 1) as i64;
    let py = (8 * y + 2 * (i / 4) + 1) as i64;
    inside.ensures((px, py), inside.ensures((px, py), true))
}

/// No more subsamples lie inside than there are.
proof fn lemma_hits<F: Fn(i64, i64) -> bool>(inside: &F, x: int, y: int, n: int)
    requires
        0 <= n,
    ensures
        0 <= hits(inside, x, y, n) <= n,
    decreases n,
{
    if n > 0 {
        lemma_hits(inside, x, y, n - 1);
    }
}

/// One tile's coverage on the page, and whether any of it is above zero.
fn cover_tile<F: Fn(i32, i32) -> u8>(page: PageRect, coverage: &F, c: TileCoord) -> (r: (
    Vec<u8>,
    bool,
))
    requires
        page.bounded(),
        reachable(ints(c)),
        forall|x: i32, y: i32|
            page.has(x as int, y as int) ==> #[trigger] coverage.requires((x, y)),
    ensures
        covers_tile(page, *coverage, ints(c), r.0@),
        r.1 == has_ink(r.0@),
        !r.1 ==> r.0@ == unselected(),
{
    let mut tile: Vec<u8> = vec![0u8; TILE_TEXELS];
    let mut any = false;
    let mut ly: usize = 0;
    while ly < TILE_SIZE
        invariant
            page.bounded(),
            reachable(ints(c)),
            forall|x: i32, y: i32|
                page.has(x as int, y as int) ==> #[trigger] coverage.requires((x, y)),
            ly <= 256,
            tile@.len() == TILE_TEXELS,
            any == has_ink(tile@),
            forall|i: int| ly * 256 <= i < TILE_TEXELS ==> #[trigger] tile@[i] == 0,
            forall|a: int, b: int|
                #![trigger tile@[texel_index(a, b)]]
                0 <= a < 256 && 0 <= b < ly ==> if page.has(c.0 * 256 + a, c.1 * 256 + b) {
                    coverage.ensures(
                        ((c.0 * 256 + a) as i32, (c.1 * 256 + b) as i32),
                        tile@[texel_index(a, b)],
                    )
                } else {
                    tile@[texel_index(a, b)] == 0
                },
        decreases 256 - ly,
    {
        let y: i32 = c.1 * 256 + ly as i32;
        let mut lx: usize = 0;
        while lx < TILE_SIZE
            invariant
                page.bounded(),
                reachable(ints(c)),
                forall|x: i32, y: i32|
                    page.has(x as int, y as int) ==> #[trigger] coverage.requires((x, y)),
                ly < 256,
                lx <= 256,
                y == c.1 * 256 + ly,
                tile@.len() == TILE_TEXELS,
                any == has_ink(tile@),
                forall|i: int| ly * 256 + lx <= i < TILE_TEXELS ==> #[trigger] tile@[i] == 0,
                forall|a: int, b: int|
                    #![trigger tile@[texel_index(a, b)]]
                    0 <= a < 256 && 0 <= b && (b < ly || (b == ly && a < lx)) ==> if page.has(
                        c.0 * 256 + a,
                        c.1 * 256 + b,
                    ) {
                        coverage.ensures(
                            ((c.0 * 256 + a) as i32, (c.1 * 256 + b) as i32),
                            tile@[texel_index(a, b)],
                        )
                    } else {
                        tile@[texel_index(a, b)] == 0
                    },
            decreases 256 - lx,
        {
            let x: i32 = c.0 * 256 + lx as i32;
            // Clipped to the page: a selection outside it could never be filled.
            if page.contains(x, y) {
                let v: u8 = coverage(x, y);
                if v > 0 {
                    let at: usize = ly * TILE_SIZE + lx;
                    tile.set(at, v);
                    any = true;
                    assert(tile@[at as int] > 0);
                }
            }
            lx += 1;
        }
        ly += 1;
    }
    if !any {
        assert(tile@ =~= unselected());
    }
    (tile, any)
}

impl Selection {
    /// What is kept, tile by tile.
    pub closed spec fn kept(&self) -> Map<(int, int), Vec<u8>> {
        self.tiles@
    }

    /// Every tile kept is a tile that pixels fall in, and holds one byte for each of them.
    pub open spec fn wf(&self) -> bool {
        forall|c: (int, int)| #[trigger]
            self.kept().contains_key(c) ==> reachable(c) && self.kept()[c]@.len() == TILE_TEXELS
    }

    /// Whether every tile kept has something selected in it.
    pub open spec fn sparse(&self) -> bool {
        forall|c: (int, int)| #[trigger]
            self.kept().contains_key(c) ==> has_ink(self.kept()[c]@)
    }

    /// How selected a pixel is.
    pub open spec fn cov(&self, x: int, y: int) -> u8 {
        let c = (tile_of(x), tile_of(y));
        if self.kept().contains_key(c) {
            self.kept()[c]@[texel_index(local_of(x), local_of(y))]
        } else {
            0
        }
    }

    /// A selection of nothing.
    pub fn new() -> (s: Selection)
        ensures
            s.wf(),
            s.sparse(),
            s.kept() == Map::<(int, int), Vec<u8>>::empty(),
            forall|x: int, y: int| #[trigger] s.cov(x, y) == 0,
    {
        Selection { tiles: TileMap::new() }
    }

    /// Whether nothing at all is selected.
    ///
    /// Checks coverage rather than merely whether tiles exist: an operation can leave a tile
    /// allocated and empty, and "there is a selection" has to mean something is in it.
    pub fn is_empty(&self) -> (r: bool)
        requires
            self.wf(),
        ensures
            r == (forall|x: int, y: int| #[trigger] self.cov(x, y) == 0),
    {
        let coords = self.tiles.coords();
        let mut n: usize = 0;
        while n < coords.len()
            invariant
                self.wf(),
                n <= coords@.len(),
                forall|i: int|
                    0 <= i < coords@.len() ==> self.kept().contains_key(ints(#[trigger] coords@[i])),
                forall|i: int|
                    0 <= i < n ==> !has_ink(self.kept()[ints(#[trigger] coords@[i])]@),
            decreases coords@.len() - n,
        {
            let c = coords[n];
            match self.tiles.get(c) {
                Some(tile) => {
                    assert(self.kept().contains_key(ints(c)));
                    let mut i: usize = 0;
                    while i < tile.len()
                        invariant
                            self.wf(),
                            self.kept().contains_key(ints(c)),
                            *tile == self.kept()[ints(c)],
                            i <= tile@.len(),
                            tile@.len() == TILE_TEXELS,
                            forall|k: int| 0 <= k < i ==> #[trigger] tile@[k] == 0,
                        decreases tile@.len() - i,
                    {
                        if tile[i] > 0 {
                            proof {
                                let x = c.0 * 256 + (i as int) % 256;
                                let y = c.1 * 256 + (i as int) / 256;
                                assert(tile_of(x) == c.0 && tile_of(y) == c.1);
                                assert(texel_index(local_of(x), local_of(y)) == i);
                                assert(self.cov(x, y) != 0);
                            }
                            return false;
                        }
                        i += 1;
                    }
                },
                None => {},
            }
            n += 1;
        }
        assert forall|x: int, y: int| #[trigger] self.cov(x, y) == 0 by {
            let c = (tile_of(x), tile_of(y));
            if self.kept().contains_key(c) {
                let i = choose|i: int| 0 <= i < coords@.len() && ints(#[trigger] coords@[i]) == c;
                let tile = self.kept()[ints(coords@[i])]@;
                let k = texel_index(local_of(x), local_of(y));
                assert(!(tile[k] > 0));
            }
        }
        true
    }

    /// The tiles this selection touches, and their coverage, in no particular order.
    pub fn tiles(&self) -> (v: Vec<(TileCoord, &Vec<u8>)>)
        ensures
            v@.len() == self.kept().len(),
            self.kept().dom().finite(),
            forall|i: int|
                0 <= i < v@.len() ==> self.kept().contains_key(ints((#[trigger] v@[i]).0))
                    && *v@[i].1 == self.kept()[ints(v@[i].0)],
            forall|c: (int, int)| #[trigger]
                self.kept().contains_key(c) ==> exists|i: int|
                    0 <= i < v@.len() && ints((#[trigger] v@[i]).0) == c,
            forall|i: int, j: int|
                0 <= i < j < v@.len() ==> ints((#[trigger] v@[i]).0) != ints((#[trigger] v@[j]).0),
    {
        let coords = self.tiles.coords();
        let mut v: Vec<(TileCoord, &Vec<u8>)> = Vec::new();
        let mut n: usize = 0;
        while n < coords.len()
            invariant
                n <= coords@.len(),
                v@.len() == n,
                forall|i: int|
                    0 <= i < coords@.len() ==> self.kept().contains_key(ints(#[trigger] coords@[i])),
                forall|i: int|
                    0 <= i < n ==> (#[trigger] v@[i]).0 == coords@[i] && *v@[i].1
                        == self.kept()[ints(coords@[i])],
            decreases coords@.len() - n,
        {
            let c = coords[n];
            assert(self.kept().contains_key(ints(c)));
            match self.tiles.get(c) {
                Some(tile) => {
                    v.push((c, tile));
                },
                None => {},
            }
            n += 1;
        }
        assert forall|c: (int, int)| #[trigger] self.kept().contains_key(c) implies exists|i: int|
            0 <= i < v@.len() && ints((#[trigger] v@[i]).0) == c by {
            let i = choose|i: int| 0 <= i < coords@.len() && ints(#[trigger] coords@[i]) == c;
            assert(ints(v@[i].0) == c);
        }
        v
    }

    /// How selected a page pixel is, from 0 to 255.
    pub fn coverage_at(&self, x: i32, y: i32) -> (r: u8)
        requires
            self.wf(),
        ensures
            r == self.cov(x as int, y as int),
    {
        let c = (tile_index(x), tile_index(y));
        let lx: usize = local_index(x);
        let ly: usize = local_index(y);
        match self.tiles.get(c) {
            Some(tile) => {
                assert(self.kept().contains_key(ints(c)));
                tile[ly * TILE_SIZE + lx]
            },
            None => 0,
        }
    }

    /// Build from a per-pixel coverage function over the page.
    ///
    /// Tiles that end up entirely unselected are dropped, so a selection stays sparse however it was
    /// produced.
    pub fn from_coverage<F: Fn(i32, i32) -> u8>(page: PageRect, coverage: F) -> (s: Selection)
        requires
            page.bounded(),
            forall|x: i32, y: i32|
                page.has(x as int, y as int) ==> #[trigger] coverage.requires((x, y)),
        ensures
            s.wf(),
            s.sparse(),
            forall|x: i32, y: i32|
                #![trigger s.cov(x as int, y as int)]
                page.has(x as int, y as int) ==> coverage.ensures((x, y), s.cov(x as int, y as int)),
            forall|x: int, y: int| !page.has(x, y) ==> #[trigger] s.cov(x, y) == 0,
    {
        let (ex, ey) = page.end();
        let mut tiles: TileMap<Vec<u8>> = TileMap::new();
        if ex <= page.x || ey <= page.y {
            return Selection { tiles };
        }
        let first = (tile_index(page.x), tile_index(page.y));
        let last = (tile_index(ex - 1), tile_index(ey - 1));
        let mut ty: i32 = first.1;
        while ty <= last.1
            invariant
                page.bounded(),
                forall|x: i32, y: i32|
                    page.has(x as int, y as int) ==> #[trigger] coverage.requires((x, y)),
                reachable(ints(first)),
                reachable(ints(last)),
                first.1 <= ty <= last.1 + 1,
                first.0 <= last.0,
                forall|c: (int, int)| #[trigger]
                    tiles@.contains_key(c) ==> first.0 <= c.0 <= last.0 && first.1 <= c.1 < ty
                        && covers_tile(page, coverage, c, tiles@[c]@) && has_ink(tiles@[c]@),
                forall|c: (int, int)|
                    #![trigger tiles@.contains_key(c)]
                    first.0 <= c.0 <= last.0 && first.1 <= c.1 < ty && !tiles@.contains_key(c)
                        ==> covers_tile(page, coverage, c, unselected()),
            decreases last.1 - ty + 1,
        {
            let mut tx: i32 = first.0;
            while tx <= last.0
                invariant
                    page.bounded(),
                    forall|x: i32, y: i32|
                        page.has(x as int, y as int) ==> #[trigger] coverage.requires((x, y)),
                    reachable(ints(first)),
                    reachable(ints(last)),
                    first.1 <= ty <= last.1,
                    first.0 <= tx <= last.0 + 1,
                    forall|c: (int, int)| #[trigger]
                        tiles@.contains_key(c) ==> first.0 <= c.0 <= last.0 && first.1 <= c.1 && (
                        c.1 < ty || (c.1 == ty && c.0 < tx)) && covers_tile(
                            page,
                            coverage,
                            c,
                            tiles@[c]@,
                        ) && has_ink(tiles@[c]@),
                    forall|c: (int, int)|
                        #![trigger tiles@.contains_key(c)]
                        first.0 <= c.0 <= last.0 && first.1 <= c.1 && (c.1 < ty || (c.1 == ty
                            && c.0 < tx)) && !tiles@.contains_key(c) ==> covers_tile(
                            page,
                            coverage,
                            c,
                            unselected(),
                        ),
                decreases last.0 - tx + 1,
            {
                let (tile, any) = cover_tile(page, &coverage, (tx, ty));
                if any {
                    tiles.insert((tx, ty), tile);
                }
                tx += 1;
            }
            ty += 1;
        }
        let s = Selection { tiles };
        assert forall|x: int, y: int| page.has(x, y) implies coverage.ensures(
            (x as i32, y as i32),
            #[trigger] s.cov(x, y),
        ) by {
            let c = (tile_of(x), tile_of(y));
            assert(first.0 <= c.0 <= last.0 && first.1 <= c.1 <= last.1);
            let lx = local_of(x);
            let ly = local_of(y);
            assert(c.0 * 256 + lx == x && c.1 * 256 + ly == y);
            if s.kept().contains_key(c) {
                assert(covers_tile(page, coverage, c, s.kept()[c]@));
                let v = s.kept()[c]@[texel_index(lx, ly)];
            } else {
                assert(!tiles@.contains_key(c));
                let v = unselected()[texel_index(lx, ly)];
            }
        }
        assert forall|x: int, y: int| !page.has(x, y) implies #[trigger] s.cov(x, y) == 0 by {
            let c = (tile_of(x), tile_of(y));
            let lx = local_of(x);
            let ly = local_of(y);
            assert(c.0 * 256 + lx == x && c.1 * 256 + ly == y);
            if s.kept().contains_key(c) {
                assert(covers_tile(page, coverage, c, s.kept()[c]@));
                let v = s.kept()[c]@[texel_index(lx, ly)];
            }
        }
        s
    }

    /// Select the whole page.
    pub fn everything(page: PageRect) -> (s: Selection)
        requires
            page.bounded(),
        ensures
            s.wf(),
            s.sparse(),
            forall|x: int, y: int| #[trigger] s.cov(x, y) == if page.has(x, y) { 255u8 } else { 0 },
    {
        let all = |x: i32, y: i32| -> (c: u8)
            ensures
                c == 255,
            { 255 };
        let s = Selection::from_coverage(page, all);
        assert forall|x: int, y: int| #[trigger] s.cov(x, y) == if page.has(x, y) {
            255u8
        } else {
            0
        } by {
            if page.has(x, y) {
                let c = s.cov((x as i32) as int, (y as i32) as int);
            }
        }
        s
    }

    /// Select an axis-aligned rectangle, clipped to the page.
    pub fn from_rect(rect: PageRect, page: PageRect) -> (s: Selection)
        requires
            rect.bounded(),
            page.bounded(),
        ensures
            s.wf(),
            s.sparse(),
            forall|x: int, y: int| #[trigger]
                s.cov(x, y) == if page.has(x, y) && rect.has(x, y) {
                    255u8
                } else {
                    0
                },
    {
        let within = |x: i32, y: i32| -> (c: u8)
            requires
                rect.bounded(),
            ensures
                c == if rect.has(x as int, y as int) { 255u8 } else { 0 },
            {
                if rect.contains(x, y) {
                    255
                } else {
                    0
                }
            };
        let s = Selection::from_coverage(page, within);
        assert forall|x: int, y: int| #[trigger] s.cov(x, y) == if page.has(x, y) && rect.has(x, y) {
            255u8
        } else {
            0
        } by {
            if page.has(x, y) {
                let c = s.cov((x as i32) as int, (y as i32) as int);
            }
        }
        s
    }

    /// Everything on the page this selection does not cover.
    pub fn inverted(&self, page: PageRect) -> (s: Selection)
        requires
            self.wf(),
            page.bounded(),
        ensures
            s.wf(),
            s.sparse(),
            forall|x: int, y: int| #[trigger]
                s.cov(x, y) == if page.has(x, y) {
                    255 - self.cov(x, y)
                } else {
                    0
                },
    {
        let complement = |x: i32, y: i32| -> (c: u8)
            requires
                self.wf(),
            ensures
                c == 255 - self.cov(x as int, y as int),
            { 255 - self.coverage_at(x, y) };
        let s = Selection::from_coverage(page, complement);
        assert forall|x: int, y: int| #[trigger] s.cov(x, y) == if page.has(x, y) {
            255 - self.cov(x, y)
        } else {
            0
        } by {
            if page.has(x, y) {
                let c = s.cov((x as i32) as int, (y as i32) as int);
            }
        }
        s
    }

    /// Rasterize a shape into coverage by supersampling.
    ///
    /// The shape is asked about points in eighths of a pixel.
    pub fn from_shape<F: Fn(i64, i64) -> bool>(page: PageRect, inside: F) -> (s: Selection)
        requires
            page.bounded(),
            settled(&inside),
            forall|x: i64, y: i64| #[trigger] inside.requires((x, y)),
        ensures
            s.wf(),
            s.sparse(),
            forall|x: int, y: int| #[trigger]
                s.cov(x, y) == if page.has(x, y) {
                    shape_coverage(&inside, x, y)
                } else {
                    0
                },
            forall|x: int, y: int| #[trigger]
                page.has(x, y) ==> shape_answered(&inside, x, y, 16),
    {
        let shape = &inside;
        let sampled = |x: i32, y: i32| -> (c: u8)
            requires
                settled(shape),
                forall|x: i64, y: i64| #[trigger] shape.requires((x, y)),
            ensures
                c == shape_coverage(shape, x as int, y as int),
                shape_answered(shape, x as int, y as int, 16),
            { sample_shape(shape, x, y) };
        let s = Selection::from_coverage(page, sampled);
        assert forall|x: int, y: int| #[trigger] s.cov(x, y) == if page.has(x, y) {
            shape_coverage(&inside, x, y)
        } else {
            0
        } by {
            if page.has(x, y) {
                let c = s.cov((x as i32) as int, (y as i32) as int);
            }
        }
        assert forall|x: int, y: int| #[trigger] page.has(x, y) implies shape_answered(
            &inside,
            x,
            y,
            16,
        ) by {
            let c = s.cov((x as i32) as int, (y as i32) as int);
        }
        s
    }

    /// Write a horizontal run of coverage, starting at a page pixel and going right.
    pub fn write_coverage_run(&mut self, x: i32, y: i32, run: &[u8])
        requires
            old(self).wf(),
            x + run@.len() <= i32::MAX + 1,
        ensures
            final(self).wf(),
            forall|px: int, py: int| #[trigger]
                final(self).cov(px, py) == if py == y && x <= px < x + run@.len() {
                    run@[px - x]
                } else {
                    old(self).cov(px, py)
                },
            old(self).sparse() && (forall|j: int| 0 <= j < run@.len() ==> #[trigger] run@[j] > 0)
                ==> final(self).sparse(),
    {
        let ty: i32 = tile_index(y);
        let ly: usize = local_index(y);
        let mut i: usize = 0;
        while i < run.len()
            invariant
                self.wf(),
                x + run@.len() <= i32::MAX + 1,
                i <= run@.len(),
                ty == tile_of(y as int),
                ly == local_of(y as int),
                ly < 256,
                -0x80_0000 <= ty < 0x80_0000,
                forall|px: int, py: int| #[trigger]
                    self.cov(px, py) == if py == y && x <= px < x + i {
                        run@[px - x]
                    } else {
                        old(self).cov(px, py)
                    },
                old(self).sparse() && (forall|j: int|
                    0 <= j < run@.len() ==> #[trigger] run@[j] > 0) ==> self.sparse(),
            decreases run@.len() - i,
        {
            let start: i32 = (x as i64 + i as i64) as i32;
            let tx: i32 = tile_index(start);
            let ghost before = *self;
            let ghost from = i;
            let c = (tx, ty);
            let mut tile: Vec<u8> = match self.tiles.remove(c) {
                Some(tile) => {
                    assert(before.kept().contains_key(ints(c)));
                    tile
                },
                None => vec![0u8; TILE_TEXELS],
            };
            let ghost plain = tile@;
            assert(forall|a: int, b: int|
                0 <= a < 256 && 0 <= b < 256 ==> #[trigger] plain[texel_index(a, b)] == before.cov(
                    tx * 256 + a,
                    ty * 256 + b,
                ));
            let mut lx: usize = local_index(start);
            let ghost lead = lx;
            while i < run.len() && lx < TILE_SIZE
                invariant
                    from <= i <= run@.len(),
                    lx == lead + (i - from),
                    lx <= 256,
                    ly < 256,
                    tile@.len() == TILE_TEXELS,
                    plain.len() == TILE_TEXELS,
                    forall|k: int|
                        0 <= k < TILE_TEXELS ==> #[trigger] tile@[k] == if ly * 256 + lead <= k < ly
                            * 256 + lx {
                            run@[from + (k - (ly * 256 + lead))]
                        } else {
                            plain[k]
                        },
                decreases run@.len() - i,
            {
                tile.set(ly * TILE_SIZE + lx, run[i]);
                i += 1;
                lx += 1;
            }
            self.tiles.insert(c, tile);
            proof {
                if before.sparse() && (forall|j: int| 0 <= j < run@.len() ==> #[trigger] run@[j] > 0) {
                    assert(tile@[ly * 256 + lead] == run@[from as int]);
                    assert forall|d: (int, int)| #[trigger] self.kept().contains_key(
                        d,
                    ) implies has_ink(self.kept()[d]@) by {
                        if d != ints(c) {
                            assert(before.kept().contains_key(d));
                        }
                    }
                }
                assert forall|px: int, py: int| #[trigger] self.cov(px, py) == if py == y && x <= px
                    < x + i {
                    run@[px - x]
                } else {
                    old(self).cov(px, py)
                } by {
                    let here = before.cov(px, py);
                    if tile_of(px) == tx && tile_of(py) == ty {
                        let a = local_of(px);
                        let b = local_of(py);
                        assert(self.kept()[ints(c)]@ == tile@);
                        assert(tx * 256 + a == px && ty * 256 + b == py);
                        assert(plain[texel_index(a, b)] == before.cov(px, py));
                        let k = texel_index(a, b);
                        assert(self.cov(px, py) == tile@[k]);
                    }
                }
            }
        }
    }

    /// Set how selected one page pixel is.
    pub fn set_coverage(&mut self, x: i32, y: i32, coverage: u8)
        requires
            old(self).wf(),
        ensures
            final(self).wf(),
            forall|px: int, py: int| #[trigger]
                final(self).cov(px, py) == if px == x && py == y {
                    coverage
                } else {
                    old(self).cov(px, py)
                },
            old(self).sparse() && coverage > 0 ==> final(self).sparse(),
    {
        let run: Vec<u8> = vec![coverage; 1];
        self.write_coverage_run(x, y, run.as_slice());
    }
}

/// How covered one pixel is by a shape.
fn sample_shape<F: Fn(i64, i64) -> bool>(inside: &F, x: i32, y: i32) -> (c: u8)
    requires
        settled(inside),
        forall|x: i64, y: i64| #[trigger] inside.requires((x, y)),
    ensures
        c == shape_coverage(inside, x as int, y as int),
        shape_answered(inside, x as int, y as int, 16),
{
    let mut found: u32 = 0;
    let mut n: u32 = 0;
    while n < SUBSAMPLES * SUBSAMPLES
        invariant
            settled(inside),
            forall|x: i64, y: i64| #[trigger] inside.requires((x, y)),
            n <= 16,
            found == hits(inside, x as int, y as int, n as int),
            shape_answered(inside, x as int, y as int, n as int),
            found <= n,
        decreases 16 - n,
    {
        let px: i64 = 8 * (x as i64) + 2 * ((n % SUBSAMPLES) as i64) + 1;
        let py: i64 = 8 * (y as i64) + 2 * ((n / SUBSAMPLES) as i64) + 1;
        if inside(px, py) {
            found += 1;
        }
        assert(subsample_answered(inside, x as int, y as int, n as int));
        n += 1;
    }
    proof {
        lemma_hits(inside, x as int, y as int, 16);
    }
    (found * 255 / 16) as u8
}

/// Inverting twice gives back what was selected on the page, at every level of coverage, and
/// nothing beyond it.
pub proof fn law_inverting_twice_restores(page: PageRect, s: Selection, flipped: Selection, back: Selection)
    requires
        forall|x: int, y: int| #[trigger]
            flipped.cov(x, y) == if page.has(x, y) {
                255 - s.cov(x, y)
            } else {
                0
            },
        forall|x: int, y: int| #[trigger]
            back.cov(x, y) == if page.has(x, y) {
                255 - flipped.cov(x, y)
            } else {
                0
            },
    ensures
        forall|x: int, y: int| #[trigger]
            back.cov(x, y) == if page.has(x, y) {
                s.cov(x, y)
            } else {
                0
            },
{
    assert forall|x: int, y: int| #[trigger] back.cov(x, y) == if page.has(x, y) {
        s.cov(x, y)
    } else {
        0
    } by {
        let f = flipped.cov(x, y);
    }
}

/// A sparse selection is empty exactly when it keeps no tile at all.
pub proof fn law_sparse_means_no_idle_tiles(s: Selection)
    requires
        s.wf(),
        s.sparse(),
    ensures
        (forall|x: int, y: int| #[trigger] s.cov(x, y) == 0) <==> s.kept() == Map::<
            (int, int),
            Vec<u8>,
        >::empty(),
{
    if forall|x: int, y: int| #[trigger] s.cov(x, y) == 0 {
        assert forall|c: (int, int)| !s.kept().contains_key(c) by {
            if s.kept().contains_key(c) {
                let tile = s.kept()[c]@;
                let i = choose|i: int| 0 <= i < tile.len() && #[trigger] tile[i] > 0;
                let x = c.0 * 256 + i % 256;
                let y = c.1 * 256 + i / 256;
                assert(tile_of(x) == c.0 && tile_of(y) == c.1);
                assert(texel_index(local_of(x), local_of(y)) == i);
                assert(s.cov(x, y) == tile[i]);
            }
        }
        assert(s.kept() =~= Map::<(int, int), Vec<u8>>::empty());
    }
}

/// How covered a pixel is by a shape is how much of it lies inside, sixteen points spread evenly over it
/// standing for all of it, at an eighth, three, five and seven eighths of the way across and down:
/// none of them inside is nothing, all of them is everything, and in between the coverage is the share
/// that are, rounded down.
pub proof fn law_coverage_is_the_share_of_a_shape<F: Fn(i64, i64) -> bool>(
    inside: &F,
    x: int,
    y: int,
)
    ensures
        ({
            let held = Set::new(
                |i: int|
                    0 <= i < 16 && inside.ensures(
                        (
                            (8 * x + 2 * (i % 4) + 1) as i64,
                            (8 * y + 2 * (i / 4) + 1) as i64,
                        ),
                        true,
                    ),
            );
            &&& held.finite()
            &&& held.len() <= 16
            &&& shape_coverage(inside, x, y) == held.len() * 255 / 16
        }),
        (forall|i: int, j: int|
            0 <= i < 4 && 0 <= j < 4 ==> !(#[trigger] inside.ensures(
                ((8 * x + 2 * i + 1) as i64, (8 * y + 2 * j + 1) as i64),
                true,
            ))) ==> shape_coverage(inside, x, y) == 0,
        (forall|i: int, j: int|
            0 <= i < 4 && 0 <= j < 4 ==> #[trigger] inside.ensures(
                ((8 * x + 2 * i + 1) as i64, (8 * y + 2 * j + 1) as i64),
                true,
            )) ==> shape_coverage(inside, x, y) == 255,
{
    lemma_held_points(inside, x, y, 16);
    let held = Set::new(
        |i: int|
            0 <= i < 16 && inside.ensures(
                ((8 * x + 2 * (i % 4) + 1) as i64, (8 * y + 2 * (i / 4) + 1) as i64),
                true,
            ),
    );
    if forall|i: int, j: int|
        0 <= i < 4 && 0 <= j < 4 ==> !(#[trigger] inside.ensures(
            ((8 * x + 2 * i + 1) as i64, (8 * y + 2 * j + 1) as i64),
            true,
        )) {
        assert forall|k: int| !held.contains(k) by {
            if held.contains(k) {
                let (i, j) = (k % 4, k / 4);
                assert(inside.ensures(
                    ((8 * x + 2 * i + 1) as i64, (8 * y + 2 * j + 1) as i64),
                    true,
                ));
            }
        }
        assert(held =~= Set::<int>::empty());
    }
    if forall|i: int, j: int|
        0 <= i < 4 && 0 <= j < 4 ==> #[trigger] inside.ensures(
            ((8 * x + 2 * i + 1) as i64, (8 * y + 2 * j + 1) as i64),
            true,
        ) {
        lemma_all_points_held(inside, x, y, 16);
    }
}

proof fn lemma_all_points_held<F: Fn(i64, i64) -> bool>(inside: &F, x: int, y: int, n: int)
    requires
        0 <= n <= 16,
        forall|i: int, j: int|
            0 <= i < 4 && 0 <= j < 4 ==> #[trigger] inside.ensures(
                ((8 * x + 2 * i + 1) as i64, (8 * y + 2 * j + 1) as i64),
                true,
            ),
    ensures
        hits(inside, x, y, n) == n,
    decreases n,
{
    if n > 0 {
        lemma_all_points_held(inside, x, y, n - 1);
        let (i, j) = ((n - 1) % 4, (n - 1) / 4);
        assert(inside.ensures(((8 * x + 2 * i + 1) as i64, (8 * y + 2 * j + 1) as i64), true));
    }
}

proof fn lemma_held_points<F: Fn(i64, i64) -> bool>(inside: &F, x: int, y: int, n: int)
    requires
        0 <= n,
    ensures
        ({
            let held = Set::new(
                |i: int|
                    0 <= i < n && inside.ensures(
                        (
                            (8 * x + 2 * (i % 4) + 1) as i64,
                            (8 * y + 2 * (i / 4) + 1) as i64,
                        ),
                        true,
                    ),
            );
            held.finite() && held.len() <= n && hits(inside, x, y, n) == held.len()
        }),
    decreases n,
{
    let at = |m: int|
        Set::new(
            |i: int|
                0 <= i < m && inside.ensures(
                    ((8 * x + 2 * (i % 4) + 1) as i64, (8 * y + 2 * (i / 4) + 1) as i64),
                    true,
                ),
        );
    if n <= 0 {
        assert(at(n) =~= Set::<int>::empty());
    } else {
        lemma_held_points(inside, x, y, n - 1);
        let i = n - 1;
        if inside.ensures(
            ((8 * x + 2 * (i % 4) + 1) as i64, (8 * y + 2 * (i / 4) + 1) as i64),
            true,
        ) {
            assert(at(n) =~= at(n - 1).insert(i));
        } else {
            assert(at(n) =~= at(n - 1));
        }
    }
}

} // verus!
