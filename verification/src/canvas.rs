//! A tiled raster canvas.
//!
//! Holds a sparse set of [`Tile`]s addressed by tile coordinate. Painting happens in canvas pixel
//! space; the canvas figures out which tiles are touched, allocating them on demand and recording
//! them as dirty so the renderer can re-upload only what changed.

use vstd::prelude::*;

use crate::color::{blended, blends, Rgba};
use crate::lifted::whole;
use crate::page::{as_signed, signed};
use crate::scalar::{Scalar, ONE};
use crate::tile::{local_index, local_of, reachable, tile_index, tile_of, Texel, Tile, TileCoord};
use crate::tile_map::{ints, TileMap};

verus! {

/// The red, green and blue of the paper in single precision: the sRGB colour 250, 249, 246.
pub const PAPER_RED: u32 = 0x3F74_BAAE;

pub const PAPER_GREEN: u32 = 0x3F72_82AF;

pub const PAPER_BLUE: u32 = 0x3F6B_ECCD;

/// The paper colour as a texel stores it, each channel rounded to half precision.
pub open spec fn paper() -> Texel {
    Texel { r: 0x3BA6, g: 0x3B94, b: 0x3B5F, a: 0x3C00 }
}

/// The tile a canvas pixel is in.
pub open spec fn tile_holding(x: int, y: int) -> (int, int) {
    (tile_of(x), tile_of(y))
}

/// A fixed-dimension tiled canvas. Tiles are sparse, so unpainted area costs nothing.
pub struct Canvas {
    width: u32,
    height: u32,
    tiles: TileMap<Tile>,
    /// Tiles modified since the last `take_dirty`: the renderer's re-upload set.
    dirty: TileMap<()>,
}

impl Canvas {
    /// The dimensions, in pixels.
    pub closed spec fn size(&self) -> (u32, u32) {
        (self.width, self.height)
    }

    /// The allocated tiles.
    pub closed spec fn held(&self) -> Map<(int, int), Tile> {
        self.tiles@
    }

    /// The tiles modified since they were last taken.
    pub closed spec fn modified(&self) -> Set<(int, int)> {
        self.dirty@.dom()
    }

    /// Every tile is one that pixels fall in, and is whole.
    pub open spec fn wf(&self) -> bool {
        whole(self.held())
    }

    /// Whether a pixel is on the canvas.
    pub open spec fn inside(&self, x: int, y: int) -> bool {
        0 <= x < signed(self.size().0) && 0 <= y < signed(self.size().1)
    }

    /// The colour of every pixel.
    pub open spec fn colours(&self) -> Shades {
        |x: int, y: int| self.pixel(x, y)
    }

    /// The colour of a pixel. Where no tile is allocated that is the paper's.
    pub open spec fn pixel(&self, x: int, y: int) -> Texel {
        let c = tile_holding(x, y);
        if self.held().contains_key(c) {
            self.held()[c].pixel(local_of(x), local_of(y))
        } else {
            paper()
        }
    }

    /// Whether this canvas is `before` with one pixel written.
    pub open spec fn writes(&self, before: &Canvas, x: int, y: int, color: Texel) -> bool {
        &&& self.size() == before.size()
        &&& self.held().dom() == before.held().dom().insert(tile_holding(x, y))
        &&& self.modified() == before.modified().insert(tile_holding(x, y))
        &&& forall|px: int, py: int| #[trigger]
            self.pixel(px, py) == if px == x && py == y {
                color
            } else {
                before.pixel(px, py)
            }
    }

    /// Create an empty canvas of the given pixel dimensions.
    pub fn new(width: u32, height: u32) -> (c: Canvas)
        ensures
            c.wf(),
            c.size() == (width, height),
            c.held() == Map::<(int, int), Tile>::empty(),
            c.modified() == Set::<(int, int)>::empty(),
    {
        let c = Canvas { width, height, tiles: TileMap::new(), dirty: TileMap::new() };
        assert(c.modified() =~= Set::<(int, int)>::empty());
        c
    }

    pub fn width(&self) -> (w: u32)
        ensures
            w == self.size().0,
    {
        self.width
    }

    pub fn height(&self) -> (h: u32)
        ensures
            h == self.size().1,
    {
        self.height
    }

    /// Whether a pixel is on the canvas.
    pub fn holds(&self, x: i32, y: i32) -> (r: bool)
        ensures
            r == self.inside(x as int, y as int),
    {
        !(x < 0 || y < 0 || x >= as_signed(self.width) || y >= as_signed(self.height))
    }

    /// Composite a linear premultiplied `src` over one canvas pixel.
    ///
    /// `src` must already have coverage folded in: premultiplied alpha means coverage scales all
    /// four channels, so folding it in at the call site keeps this a plain "over". A pixel off the
    /// canvas, or a fully transparent source, changes nothing and allocates nothing.
    pub fn blend_pixel<F: Fn(Rgba, Texel) -> Texel>(
        &mut self,
        x: i32,
        y: i32,
        src_linear_premul: Rgba,
        over: &F,
    )
        requires
            old(self).wf(),
            blends(over),
        ensures
            final(self).wf(),
            if old(self).inside(x as int, y as int) && !src_linear_premul.uncovered() {
                final(self).writes(
                    old(self),
                    x as int,
                    y as int,
                    blended(over, src_linear_premul, old(self).pixel(x as int, y as int)),
                ) && over.ensures(
                    (src_linear_premul, old(self).pixel(x as int, y as int)),
                    blended(over, src_linear_premul, old(self).pixel(x as int, y as int)),
                )
            } else {
                *final(self) == *old(self)
            },
    {
        if !self.holds(x, y) {
            return;
        }
        // Fully transparent source cannot change the destination.
        if src_linear_premul.is_uncovered() {
            return;
        }
        let dst = self.read(x, y);
        self.put(x, y, over(src_linear_premul, dst));
    }

    /// Write one canvas pixel outright, whatever was there. A pixel off the canvas changes nothing.
    pub fn replace_pixel(&mut self, x: i32, y: i32, color: Texel)
        requires
            old(self).wf(),
        ensures
            final(self).wf(),
            if old(self).inside(x as int, y as int) {
                final(self).writes(old(self), x as int, y as int, color)
            } else {
                *final(self) == *old(self)
            },
    {
        if !self.holds(x, y) {
            return;
        }
        self.put(x, y, color);
    }

    /// The colour of a pixel.
    fn read(&self, x: i32, y: i32) -> (c: Texel)
        requires
            self.wf(),
        ensures
            c == self.pixel(x as int, y as int),
    {
        match self.tiles.get((tile_index(x), tile_index(y))) {
            Some(tile) => {
                assert(self.held().contains_key(tile_holding(x as int, y as int)));
                tile.texel(local_index(x), local_index(y))
            },
            None => Self::paper_texel(),
        }
    }

    /// Write one pixel, allocating its tile at the paper colour where it has none.
    fn put(&mut self, x: i32, y: i32, color: Texel)
        requires
            old(self).wf(),
        ensures
            final(self).wf(),
            final(self).writes(old(self), x as int, y as int, color),
    {
        let coord = (tile_index(x), tile_index(y));
        let ghost c = tile_holding(x as int, y as int);
        assert(ints(coord) == c);
        let mut tile = match self.tiles.remove(coord) {
            Some(tile) => {
                assert(old(self).held().contains_key(c));
                tile
            },
            None => Tile::filled(Self::paper_texel()),
        };
        let ghost earlier = tile;
        tile.set_texel(local_index(x), local_index(y), color);
        self.tiles.insert(coord, tile);
        self.dirty.insert(coord, ());
        proof {
            assert(self.held() =~= old(self).held().insert(c, tile));
            assert(self.held().dom() =~= old(self).held().dom().insert(c));
            assert(self.modified() =~= old(self).modified().insert(c));
            assert forall|px: int, py: int| #[trigger] self.pixel(px, py) == if px == x && py == y {
                color
            } else {
                old(self).pixel(px, py)
            } by {
                let was = old(self).pixel(px, py);
                if tile_holding(px, py) == c {
                    let p = tile.pixel(local_of(px), local_of(py));
                    let q = earlier.pixel(local_of(px), local_of(py));
                }
            }
            assert forall|k: (int, int)| #[trigger] self.held().contains_key(k) implies reachable(k)
                && self.held()[k].wf() by {
                if k != c {
                    assert(old(self).held().contains_key(k));
                }
            }
        }
    }

    /// All currently allocated tiles.
    pub fn tiles(&self) -> (tiles: &TileMap<Tile>)
        ensures
            tiles@ == self.held(),
    {
        &self.tiles
    }

    /// Look up one tile if allocated.
    pub fn tile(&self, coord: TileCoord) -> (t: Option<&Tile>)
        ensures
            match t {
                Some(tile) => self.held().contains_key(ints(coord)) && *tile == self.held()[ints(
                    coord,
                )],
                None => !self.held().contains_key(ints(coord)),
            },
    {
        self.tiles.get(coord)
    }

    /// Take and clear the set of dirty tile coordinates since the last call, each once.
    pub fn take_dirty(&mut self) -> (taken: Vec<TileCoord>)
        ensures
            forall|i: int|
                0 <= i < taken@.len() ==> old(self).modified().contains(ints(#[trigger] taken@[i])),
            forall|c: (int, int)| #[trigger]
                old(self).modified().contains(c) ==> exists|i: int|
                    0 <= i < taken@.len() && ints(#[trigger] taken@[i]) == c,
            forall|i: int, j: int|
                0 <= i < j < taken@.len() ==> ints(#[trigger] taken@[i]) != ints(
                    #[trigger] taken@[j],
                ),
            taken@.len() == old(self).modified().len(),
            final(self).modified() == Set::<(int, int)>::empty(),
            final(self).size() == old(self).size(),
            final(self).held() == old(self).held(),
    {
        let taken = self.dirty.coords();
        self.dirty.clear();
        proof {
            assert(self.modified() =~= Set::<(int, int)>::empty());
            assert forall|c: (int, int)| #[trigger] old(self).modified().contains(c) implies exists|
                i: int,
            | 0 <= i < taken@.len() && ints(#[trigger] taken@[i]) == c by {
                assert(old(self).dirty@.contains_key(c));
            }
        }
        taken
    }

    /// The paper colour unpainted canvas should read as, linear and premultiplied. The renderer
    /// clears tile-free area to this so the whole canvas looks like one sheet.
    pub fn paper_color() -> (c: Rgba)
        ensures
            c == (Rgba {
                r: Scalar { bits: PAPER_RED },
                g: Scalar { bits: PAPER_GREEN },
                b: Scalar { bits: PAPER_BLUE },
                a: Scalar { bits: ONE },
            }),
    {
        Rgba {
            r: Scalar { bits: PAPER_RED },
            g: Scalar { bits: PAPER_GREEN },
            b: Scalar { bits: PAPER_BLUE },
            a: Scalar { bits: ONE },
        }
    }

    /// The paper colour as a texel stores it: what a fresh tile is filled with.
    pub fn paper_texel() -> (c: Texel)
        ensures
            c == paper(),
    {
        Texel { r: 0x3BA6, g: 0x3B94, b: 0x3B5F, a: 0x3C00 }
    }
}

/// A predicate on canvas pixels.
pub type Hits = spec_fn(int, int) -> bool;

/// A colour for each canvas pixel.
pub type Shades = spec_fn(int, int) -> Texel;

/// Whether some pixel of a tile is hit.
pub open spec fn hit_in(hits: Hits, c: (int, int)) -> bool {
    exists|x: int, y: int| #[trigger] hits(x, y) && tile_holding(x, y) == c
}

impl Canvas {
    /// Whether this canvas is `before` with each pixel that is hit written in its shade, and no
    /// tile allocated or dirty but those that were and those that are hit.
    pub open spec fn paints(&self, before: &Canvas, hits: Hits, shades: Shades) -> bool {
        &&& self.size() == before.size()
        &&& forall|c: (int, int)| #[trigger]
            self.held().contains_key(c) <==> before.held().contains_key(c) || hit_in(hits, c)
        &&& forall|c: (int, int)| #[trigger]
            self.modified().contains(c) <==> before.modified().contains(c) || hit_in(hits, c)
        &&& forall|x: int, y: int| #[trigger]
            self.pixel(x, y) == if hits(x, y) {
                shades(x, y)
            } else {
                before.pixel(x, y)
            }
    }
}

/// Nothing hit is nothing painted.
pub proof fn lemma_nothing_painted(canvas: Canvas, hits: Hits, shades: Shades)
    requires
        forall|x: int, y: int| !#[trigger] hits(x, y),
    ensures
        canvas.paints(&canvas, hits, shades),
{
}

/// Painting and then writing one pixel more is painting with that pixel hit too.
pub proof fn lemma_one_pixel_more(
    before: Canvas,
    mid: Canvas,
    after: Canvas,
    hits: Hits,
    more: Hits,
    shades: Shades,
    x: int,
    y: int,
)
    requires
        mid.paints(&before, hits, shades),
        after.writes(&mid, x, y, shades(x, y)),
        forall|px: int, py: int| #[trigger]
            more(px, py) == (hits(px, py) || (px == x && py == y)),
    ensures
        after.paints(&before, more, shades),
{
    assert forall|c: (int, int)| hit_in(more, c) == (hit_in(hits, c) || c == tile_holding(x, y)) by {
        if hit_in(hits, c) {
            let (px, py) = choose|px: int, py: int| #[trigger]
                hits(px, py) && tile_holding(px, py) == c;
            assert(more(px, py));
        }
        if c == tile_holding(x, y) {
            assert(more(x, y));
        }
        if hit_in(more, c) {
            let (px, py) = choose|px: int, py: int| #[trigger]
                more(px, py) && tile_holding(px, py) == c;
            if hits(px, py) {
                assert(hit_in(hits, c));
            }
        }
    }
    assert forall|c: (int, int)| #[trigger] after.held().contains_key(c)
        <==> before.held().contains_key(c) || hit_in(more, c) by {
        assert(after.held().dom().contains(c) == mid.held().dom().insert(
            tile_holding(x, y),
        ).contains(c));
        assert(mid.held().contains_key(c) == (before.held().contains_key(c) || hit_in(hits, c)));
    }
    assert forall|c: (int, int)| #[trigger] after.modified().contains(c)
        <==> before.modified().contains(c) || hit_in(more, c) by {
        assert(mid.modified().contains(c) == (before.modified().contains(c) || hit_in(hits, c)));
    }
    assert forall|px: int, py: int| #[trigger] after.pixel(px, py) == if more(px, py) {
        shades(px, py)
    } else {
        before.pixel(px, py)
    } by {
        let p = mid.pixel(px, py);
    }
}

/// Painting, and then painting more, is painting all of it; the later shade stands where both hit.
pub proof fn lemma_painting_on(
    before: Canvas,
    mid: Canvas,
    after: Canvas,
    first: Hits,
    first_shades: Shades,
    then: Hits,
    then_shades: Shades,
    both: Hits,
    shades: Shades,
)
    requires
        mid.paints(&before, first, first_shades),
        after.paints(&mid, then, then_shades),
        forall|x: int, y: int| #[trigger] both(x, y) == (first(x, y) || then(x, y)),
        forall|x: int, y: int| then(x, y) ==> #[trigger] shades(x, y) == then_shades(x, y),
        forall|x: int, y: int|
            first(x, y) && !then(x, y) ==> #[trigger] shades(x, y) == first_shades(x, y),
    ensures
        after.paints(&before, both, shades),
{
    assert forall|c: (int, int)| #[trigger]
        hit_in(both, c) == (hit_in(first, c) || hit_in(then, c)) by {
        if hit_in(first, c) {
            let (px, py) = choose|px: int, py: int| #[trigger]
                first(px, py) && tile_holding(px, py) == c;
            assert(both(px, py));
        }
        if hit_in(then, c) {
            let (px, py) = choose|px: int, py: int| #[trigger]
                then(px, py) && tile_holding(px, py) == c;
            assert(both(px, py));
        }
        if hit_in(both, c) {
            let (px, py) = choose|px: int, py: int| #[trigger]
                both(px, py) && tile_holding(px, py) == c;
            if first(px, py) {
                assert(hit_in(first, c));
            } else {
                assert(hit_in(then, c));
            }
        }
    }
    assert forall|c: (int, int)| #[trigger] after.held().contains_key(c)
        <==> before.held().contains_key(c) || hit_in(both, c) by {
        assert(mid.held().contains_key(c) == (before.held().contains_key(c) || hit_in(first, c)));
    }
    assert forall|c: (int, int)| #[trigger] after.modified().contains(c)
        <==> before.modified().contains(c) || hit_in(both, c) by {
        assert(mid.modified().contains(c) == (before.modified().contains(c) || hit_in(first, c)));
    }
    assert forall|x: int, y: int| #[trigger] after.pixel(x, y) == if both(x, y) {
        shades(x, y)
    } else {
        before.pixel(x, y)
    } by {
        let m = mid.pixel(x, y);
        let s = shades(x, y);
    }
}

/// The same pixels hit in the same shades is the same painting.
pub proof fn lemma_same_hits(
    before: Canvas,
    after: Canvas,
    hits: Hits,
    same: Hits,
    shades: Shades,
    alike: Shades,
)
    requires
        after.paints(&before, hits, shades),
        forall|x: int, y: int| #[trigger] same(x, y) == hits(x, y),
        forall|x: int, y: int| hits(x, y) ==> #[trigger] alike(x, y) == shades(x, y),
    ensures
        after.paints(&before, same, alike),
{
    assert forall|c: (int, int)| #[trigger] hit_in(same, c) == hit_in(hits, c) by {
        if hit_in(hits, c) {
            let (px, py) = choose|px: int, py: int| #[trigger]
                hits(px, py) && tile_holding(px, py) == c;
            assert(same(px, py));
        }
    }
    assert forall|x: int, y: int| #[trigger] after.pixel(x, y) == if same(x, y) {
        alike(x, y)
    } else {
        before.pixel(x, y)
    } by {
        let a = alike(x, y);
    }
}

/// Writing a pixel and then writing it again leaves what the second write put there, and no more
/// tiles than the first.
pub proof fn law_the_last_write_stands(
    before: Canvas,
    once: Canvas,
    twice: Canvas,
    x: int,
    y: int,
    first: Texel,
    second: Texel,
)
    requires
        once.writes(&before, x, y, first),
        twice.writes(&once, x, y, second),
    ensures
        twice.writes(&before, x, y, second),
{
    assert forall|px: int, py: int| #[trigger] twice.pixel(px, py) == if px == x && py == y {
        second
    } else {
        before.pixel(px, py)
    } by {
        let p = once.pixel(px, py);
    }
    assert(twice.held().dom() =~= before.held().dom().insert(tile_holding(x, y)));
    assert(twice.modified() =~= before.modified().insert(tile_holding(x, y)));
}

/// A canvas has the pixels from its corner on, as many across and down as it is wide and high.
pub proof fn law_a_canvas_has_its_own_pixels(canvas: Canvas, x: int, y: int)
    requires
        canvas.size().0 <= i32::MAX,
        canvas.size().1 <= i32::MAX,
    ensures
        canvas.inside(x, y) <==> 0 <= x < canvas.size().0 && 0 <= y < canvas.size().1,
{
}

/// Unpainted canvas is paper, everywhere: nearly white and opaque.
pub proof fn law_unpainted_canvas_is_paper(canvas: Canvas, x: int, y: int)
    requires
        !canvas.held().contains_key((x / 256, y / 256)),
    ensures
        canvas.pixel(x, y) == (Texel { r: 0x3BA6, g: 0x3B94, b: 0x3B5F, a: 0x3C00 }),
{
}

/// A pixel of an allocated tile is the tile's own, at the place the pixel has in it.
pub proof fn law_a_painted_pixel_is_its_tiles(canvas: Canvas, x: int, y: int)
    requires
        canvas.held().contains_key((x / 256, y / 256)),
    ensures
        canvas.pixel(x, y) == canvas.held()[(x / 256, y / 256)].pixel(x % 256, y % 256),
{
}

/// Writing one pixel writes that one alone, keeps every tile and allocates at most its own, and marks
/// that one for the renderer besides those marked before.
pub proof fn law_a_write_writes_one_pixel(
    before: Canvas,
    after: Canvas,
    x: int,
    y: int,
    color: Texel,
    u: int,
    v: int,
    c: (int, int),
)
    requires
        after.writes(&before, x, y, color),
    ensures
        after.pixel(x, y) == color,
        u != x || v != y ==> after.pixel(u, v) == before.pixel(u, v),
        after.size() == before.size(),
        after.held().contains_key(c) <==> before.held().contains_key(c) || c == (x / 256, y / 256),
        after.modified().contains(c) <==> before.modified().contains(c) || c == (x / 256, y / 256),
{
}

/// Painting writes what is hit and nothing else, and allocates and marks no tile without a hit in it.
pub proof fn law_painting_writes_what_is_hit(
    before: Canvas,
    after: Canvas,
    hits: Hits,
    shades: Shades,
    x: int,
    y: int,
)
    requires
        after.paints(&before, hits, shades),
    ensures
        hits(x, y) ==> after.pixel(x, y) == shades(x, y),
        !hits(x, y) ==> after.pixel(x, y) == before.pixel(x, y),
        after.size() == before.size(),
        hits(x, y) ==> after.modified().contains((x / 256, y / 256)),
        (forall|u: int, v: int| #[trigger] hits(u, v) ==> (u / 256, v / 256) != (x / 256, y / 256))
            ==> after.held().contains_key((x / 256, y / 256)) == before.held().contains_key(
            (x / 256, y / 256),
        ) && after.modified().contains((x / 256, y / 256)) == before.modified().contains(
            (x / 256, y / 256),
        ),
{
    let c = tile_holding(x, y);
    assert(c == (x / 256, y / 256));
    if hits(x, y) {
        assert(hit_in(hits, c));
    }
    if forall|u: int, v: int| #[trigger] hits(u, v) ==> (u / 256, v / 256) != (x / 256, y / 256) {
        if hit_in(hits, c) {
            let (u, v) = choose|u: int, v: int| #[trigger] hits(u, v) && tile_holding(u, v) == c;
            assert(hits(u, v));
        }
    }
}

} // verus!
