//! Fixed-size canvas tiles.
//!
//! The canvas is stored as a sparse grid of square tiles. A tile is only allocated once something
//! is painted into it, which is what makes very large canvases cheap: empty regions cost nothing.
//!
//! A texel is linear, premultiplied RGBA, each channel a half-precision number. Half precision
//! halves the memory of single precision and matches the GPU's texture format exactly, so the tile
//! bytes upload with no conversion. Texels are carried here as the bit patterns of those numbers;
//! the program around this crate converts to and from the precision it computes in.

use vstd::prelude::*;

use crate::page::fits;
use crate::tile_map::TileMap;

verus! {

/// Side length of a tile in pixels.
///
/// At 8 bytes per texel a row is 2048 bytes, a multiple of the 256-byte row alignment that texture
/// uploads ask for, so they need no padding.
pub const TILE_SIZE: usize = 256;

/// Channels per texel (RGBA).
pub const TILE_CHANNELS: usize = 4;

/// Number of texels in one tile.
pub const TILE_TEXELS: usize = 65_536;

/// Number of half-precision values in one tile.
pub const TILE_VALUES: usize = 262_144;

/// Number of bytes in one tile.
pub const TILE_BYTES: usize = 524_288;

/// Integer tile coordinate in the tile grid (not pixels).
pub type TileCoord = (i32, i32);

/// Which row or column of tiles a pixel coordinate is in.
pub open spec fn tile_of(p: int) -> int {
    p / 256
}

/// Where inside its tile a pixel coordinate is.
pub open spec fn local_of(p: int) -> int {
    p % 256
}

/// Whether a tile coordinate is the tile of some pixel.
pub open spec fn reachable(c: (int, int)) -> bool {
    -0x80_0000 <= c.0 < 0x80_0000 && -0x80_0000 <= c.1 < 0x80_0000
}

/// Which row or column of tiles a pixel coordinate is in.
pub fn tile_index(p: i32) -> (t: i32)
    ensures
        t == tile_of(p as int),
        -0x80_0000 <= t < 0x80_0000,
{
    let lifted: i64 = p as i64 + 0x8000_0000;
    (lifted / 256 - 0x80_0000) as i32
}

/// Where inside its tile a pixel coordinate is.
pub fn local_index(p: i32) -> (l: usize)
    ensures
        l == local_of(p as int),
        l < 256,
{
    let lifted: i64 = p as i64 + 0x8000_0000;
    (lifted % 256) as usize
}

/// The position of a texel in a tile's rows.
pub open spec fn texel_index(lx: int, ly: int) -> int {
    ly * 256 + lx
}

/// A linear premultiplied colour, as four half-precision bit patterns.
#[derive(Clone, Copy, Debug, PartialEq, Eq, Structural)]
pub struct Texel {
    pub r: u16,
    pub g: u16,
    pub b: u16,
    pub a: u16,
}

/// Whether a half-precision pattern is a number at or below zero. What is not a number is not.
pub open spec fn not_above_zero(half: u16) -> bool {
    half == 0 || 0x8000 <= half <= 0xFC00
}

impl Texel {
    /// No colour and no coverage.
    pub open spec fn clear_spec() -> Texel {
        Texel { r: 0, g: 0, b: 0, a: 0 }
    }

    /// No colour and no coverage.
    pub fn clear() -> (c: Texel)
        ensures
            c == Texel::clear_spec(),
    {
        Texel { r: 0, g: 0, b: 0, a: 0 }
    }

    /// The channel that stands at a position of a tile filled with this colour.
    pub open spec fn channel(self, position: int) -> u16 {
        if position % 4 == 0 {
            self.r
        } else if position % 4 == 1 {
            self.g
        } else if position % 4 == 2 {
            self.b
        } else {
            self.a
        }
    }

    /// Whether the coverage is at or below zero, so there is nothing to lift or to blend.
    pub open spec fn uncovered(self) -> bool {
        not_above_zero(self.a)
    }

    /// Whether no channel is above zero, so there is nothing to see or to move.
    pub open spec fn blank(self) -> bool {
        not_above_zero(self.a) && not_above_zero(self.r) && not_above_zero(self.g)
            && not_above_zero(self.b)
    }

    /// Whether the coverage is at or below zero.
    pub fn is_uncovered(&self) -> (r: bool)
        ensures
            r == self.uncovered(),
    {
        self.a == 0 || (0x8000 <= self.a && self.a <= 0xFC00)
    }

    /// Whether no channel is above zero.
    pub fn is_blank(&self) -> (r: bool)
        ensures
            r == self.blank(),
    {
        self.is_uncovered() && (self.r == 0 || (0x8000 <= self.r && self.r <= 0xFC00)) && (self.g
            == 0 || (0x8000 <= self.g && self.g <= 0xFC00)) && (self.b == 0 || (0x8000 <= self.b
            && self.b <= 0xFC00))
    }
}

/// Whether `bytes` are the bytes of `words`, low byte first or high byte first.
pub open spec fn bytes_of(words: Seq<u16>, bytes: Seq<u8>, low_first: bool) -> bool {
    &&& bytes.len() == 2 * words.len()
    &&& forall|i: int|
        0 <= i < words.len() ==> {
            let low = (#[trigger] words[i] % 256) as int;
            let high = (words[i] / 256) as int;
            if low_first {
                bytes[2 * i] == low && bytes[2 * i + 1] == high
            } else {
                bytes[2 * i] == high && bytes[2 * i + 1] == low
            }
        }
}

/// The bytes of a run of words, through `bytemuck::cast_slice`.
///
/// Claimed of it: two bytes a word, in place, all of them in the machine's own byte order. Which of
/// the two orders that is depends on the machine, so it is left open.
#[verifier::external_body]
fn words_as_bytes(words: &[u16]) -> (bytes: &[u8])
    ensures
        bytes_of(words@, bytes@, true) || bytes_of(words@, bytes@, false),
{
    bytemuck::cast_slice(words)
}

/// The words that a run of bytes holds, through `bytemuck::pod_collect_to_vec`.
///
/// Claimed of it: one word for each two bytes, all of them in the machine's own byte order. Which of
/// the two orders that is depends on the machine, so it is left open.
#[verifier::external_body]
fn bytes_as_words(bytes: &[u8]) -> (words: Vec<u16>)
    requires
        bytes@.len() % 2 == 0,
    ensures
        bytes_of(words@, bytes@, true) || bytes_of(words@, bytes@, false),
{
    bytemuck::pod_collect_to_vec(bytes)
}

/// A single tile of linear, premultiplied RGBA half-precision texels.
#[derive(Debug, PartialEq)]
pub struct Tile {
    /// Row-major, `TILE_SIZE` wide, 4 values per texel.
    texels: Vec<u16>,
}

impl View for Tile {
    type V = Seq<u16>;

    closed spec fn view(&self) -> Seq<u16> {
        self.texels@
    }
}

impl Tile {
    /// A tile holds exactly its texels.
    pub open spec fn wf(&self) -> bool {
        self@.len() == TILE_VALUES
    }

    /// The colour at a local position.
    pub open spec fn pixel(&self, lx: int, ly: int) -> Texel {
        let i = texel_index(lx, ly) * 4;
        Texel { r: self@[i], g: self@[i + 1], b: self@[i + 2], a: self@[i + 3] }
    }

    /// Create a fully transparent tile.
    ///
    /// All-zero is genuinely transparent under premultiplied alpha, so this is both correct and the
    /// cheapest possible allocation.
    pub fn transparent() -> (t: Tile)
        ensures
            t.wf(),
            forall|lx: int, ly: int|
                0 <= lx < 256 && 0 <= ly < 256 ==> #[trigger] t.pixel(lx, ly)
                    == Texel::clear_spec(),
    {
        Tile { texels: vec![0u16; TILE_VALUES] }
    }

    /// Create a tile filled with a solid linear premultiplied colour.
    pub fn filled(color: Texel) -> (t: Tile)
        ensures
            t.wf(),
            forall|lx: int, ly: int|
                0 <= lx < 256 && 0 <= ly < 256 ==> #[trigger] t.pixel(lx, ly) == color,
    {
        let mut texels: Vec<u16> = Vec::with_capacity(TILE_VALUES);
        let mut i: usize = 0;
        while i < TILE_TEXELS
            invariant
                i <= TILE_TEXELS,
                texels@.len() == i * 4,
                forall|j: int| 0 <= j < texels@.len() ==> #[trigger] texels@[j] == color.channel(j),
            decreases TILE_TEXELS - i,
        {
            texels.push(color.r);
            texels.push(color.g);
            texels.push(color.b);
            texels.push(color.a);
            i += 1;
        }
        Tile { texels }
    }

    /// Raw tile bytes, ready to upload to a texture, in the machine's own byte order.
    pub fn bytes(&self) -> (bytes: &[u8])
        requires
            self.wf(),
        ensures
            bytes@.len() == TILE_BYTES,
            bytes_of(self@, bytes@, true) || bytes_of(self@, bytes@, false),
    {
        words_as_bytes(self.texels.as_slice())
    }

    /// Build a tile from raw bytes in the same layout [`Tile::bytes`] produces.
    ///
    /// The inverse of `bytes`, for pixels arriving from somewhere else. Returns `None` on a
    /// wrong-sized input: the sources are external, and a length mismatch is data, not a bug.
    pub fn from_bytes(bytes: &[u8]) -> (t: Option<Tile>)
        ensures
            t is Some <==> bytes@.len() == TILE_BYTES,
            t matches Some(tile) ==> tile.wf() && (bytes_of(tile@, bytes@, true) || bytes_of(
                tile@,
                bytes@,
                false,
            )),
    {
        if bytes.len() != TILE_BYTES {
            return None;
        }
        Some(Tile { texels: bytes_as_words(bytes) })
    }

    /// Read one texel at local `(x, y)`.
    pub fn texel(&self, x: usize, y: usize) -> (c: Texel)
        requires
            self.wf(),
            x < 256,
            y < 256,
        ensures
            c == self.pixel(x as int, y as int),
    {
        let i: usize = (y * TILE_SIZE + x) * TILE_CHANNELS;
        Texel {
            r: self.texels[i],
            g: self.texels[i + 1],
            b: self.texels[i + 2],
            a: self.texels[i + 3],
        }
    }

    /// Write one texel at local `(x, y)`.
    pub fn set_texel(&mut self, x: usize, y: usize, color: Texel)
        requires
            old(self).wf(),
            x < 256,
            y < 256,
        ensures
            final(self).wf(),
            final(self).pixel(x as int, y as int) == color,
            forall|lx: int, ly: int|
                0 <= lx < 256 && 0 <= ly < 256 && (lx != x || ly != y) ==> #[trigger] final(self).pixel(lx, ly) == old(self).pixel(lx, ly),
    {
        let i: usize = (y * TILE_SIZE + x) * TILE_CHANNELS;
        self.texels.set(i, color.r);
        self.texels.set(i + 1, color.g);
        self.texels.set(i + 2, color.b);
        self.texels.set(i + 3, color.a);
    }
}

impl Clone for Tile {
    fn clone(&self) -> (t: Tile)
        ensures
            t@ == self@,
    {
        Tile { texels: self.texels.clone() }
    }
}

impl Default for Tile {
    fn default() -> (t: Tile)
        ensures
            t.wf(),
            forall|lx: int, ly: int|
                0 <= lx < 256 && 0 <= ly < 256 ==> #[trigger] t.pixel(lx, ly)
                    == Texel::clear_spec(),
    {
        Tile::transparent()
    }
}

/// Reading tile bytes back gives the tile that was written, in either byte order: bytes written in
/// one order and read in the same order hold exactly the same words.
pub proof fn law_bytes_round_trip(words: Seq<u16>, bytes: Seq<u8>, back: Seq<u16>, low_first: bool)
    requires
        bytes_of(words, bytes, low_first),
        bytes_of(back, bytes, low_first),
    ensures
        back == words,
{
    assert forall|i: int| 0 <= i < words.len() implies back[i] == words[i] by {
        assert(words[i] == (words[i] % 256) + 256 * (words[i] / 256));
        assert(back[i] == (back[i] % 256) + 256 * (back[i] / 256));
    }
    assert(back =~= words);
}

/// A dense rectangular index over a range of tile coordinates.
///
/// Exists to keep hashing out of inner loops: a loop that reads many source pixels per output pixel
/// would otherwise pay for a hash each time. The range is the tiles a single operation touches, so
/// the grid is a handful of entries wide. It is an *index*, not storage: the caller keeps a `Vec` of
/// whatever it wants per tile and looks it up by the index returned here.
#[derive(Clone, Copy, Debug)]
pub struct TileGrid {
    origin: TileCoord,
    /// Width and height in tiles.
    size: (usize, usize),
}

impl TileGrid {
    /// The first column and the first row.
    pub closed spec fn first(self) -> (int, int) {
        (self.origin.0 as int, self.origin.1 as int)
    }

    /// How many columns and how many rows.
    pub closed spec fn extent(self) -> (int, int) {
        (self.size.0 as int, self.size.1 as int)
    }

    /// A grid describes tiles that pixels fall in, or no tiles at all.
    pub open spec fn wf(self) -> bool {
        let (cols, rows) = self.extent();
        let (x, y) = self.first();
        &&& (cols == 0 <==> rows == 0)
        &&& 0 <= cols
        &&& 0 <= rows
        &&& -0x80_0000 <= x
        &&& -0x80_0000 <= y
        &&& x + cols <= 0x80_0000
        &&& y + rows <= 0x80_0000
    }

    /// How many tiles the grid describes.
    pub open spec fn count(self) -> int {
        self.extent().0 * self.extent().1
    }

    /// Whether a tile is one of those described.
    pub open spec fn describes(self, c: (int, int)) -> bool {
        let (x, y) = self.first();
        x <= c.0 < x + self.extent().0 && y <= c.1 < y + self.extent().1
    }

    /// The index of a described tile: row by row.
    pub open spec fn place(self, c: (int, int)) -> int {
        (c.1 - self.first().1) * self.extent().0 + (c.0 - self.first().0)
    }

    /// The tile at an index.
    pub open spec fn tile_at(self, index: int) -> (int, int) {
        (
            self.first().0 + index % self.extent().0,
            self.first().1 + index / self.extent().0,
        )
    }

    /// A described tile has an index below the count, and the index gives the tile back.
    pub proof fn lemma_place(self, c: (int, int))
        requires
            self.describes(c),
        ensures
            0 <= self.place(c) < self.count(),
            self.tile_at(self.place(c)) == c,
    {
        let cols = self.extent().0;
        let rows = self.extent().1;
        let dx = c.0 - self.first().0;
        let dy = c.1 - self.first().1;
        assert(0 <= dy * cols + dx < cols * rows) by (nonlinear_arith)
            requires
                0 <= dx < cols,
                0 <= dy < rows,
        ;
        vstd::arithmetic::div_mod::lemma_fundamental_div_mod_converse(
            dy * cols + dx,
            cols,
            dy,
            dx,
        );
    }

    /// An index below the count is that of a described tile, and the tile gives the index back.
    pub proof fn lemma_tile_at(self, index: int)
        requires
            self.wf(),
            0 <= index < self.count(),
        ensures
            self.extent().0 > 0,
            self.describes(self.tile_at(index)),
            self.place(self.tile_at(index)) == index,
    {
        let cols = self.extent().0;
        let rows = self.extent().1;
        if cols == 0 {
            assert(self.count() == 0) by (nonlinear_arith)
                requires
                    cols == 0,
                    self.count() == cols * rows,
            ;
        }
        vstd::arithmetic::div_mod::lemma_fundamental_div_mod(index, cols);
        vstd::arithmetic::div_mod::lemma_mod_bound(index, cols);
        assert(0 <= index / cols < rows) by (nonlinear_arith)
            requires
                0 <= index < cols * rows,
                cols > 0,
        ;
        assert(cols * (index / cols) == (index / cols) * cols) by (nonlinear_arith);
    }

    /// A grid over the tiles covering a **tile-aligned** page rectangle, maxima exclusive.
    pub fn over(min_x: i32, min_y: i32, max_x: i32, max_y: i32) -> (g: TileGrid)
        ensures
            g.wf(),
            max_x <= min_x || max_y <= min_y ==> g.extent() == (0int, 0int),
            max_x > min_x && max_y > min_y ==> forall|c: (int, int)|
                #[trigger] g.describes(c) <==> tile_of(min_x as int) <= c.0 <= tile_of(max_x - 1)
                    && tile_of(min_y as int) <= c.1 <= tile_of(max_y - 1),
    {
        TileGrid::covering((min_x, min_y, max_x, max_y))
    }

    /// A grid over the tiles any part of a page rectangle falls in, maxima exclusive.
    ///
    /// Tolerates an empty or inverted rectangle by describing no tiles at all, so a caller does not
    /// have to check first: `locate` then answers `None` everywhere.
    pub fn covering(bounds: (i32, i32, i32, i32)) -> (g: TileGrid)
        ensures
            g.wf(),
            bounds.2 <= bounds.0 || bounds.3 <= bounds.1 ==> g.extent() == (0int, 0int),
            bounds.2 > bounds.0 && bounds.3 > bounds.1 ==> forall|c: (int, int)|
                #[trigger] g.describes(c) <==> tile_of(bounds.0 as int) <= c.0 <= tile_of(
                    bounds.2 - 1,
                ) && tile_of(bounds.1 as int) <= c.1 <= tile_of(bounds.3 - 1),
    {
        let (min_x, min_y, max_x, max_y) = bounds;
        if max_x <= min_x || max_y <= min_y {
            return TileGrid { origin: (0, 0), size: (0, 0) };
        }
        let origin = (tile_index(min_x), tile_index(min_y));
        let last = (tile_index(max_x - 1), tile_index(max_y - 1));
        let size = ((last.0 - origin.0 + 1) as usize, (last.1 - origin.1 + 1) as usize);
        TileGrid { origin, size }
    }

    /// How many tiles the grid describes.
    pub fn len(&self) -> (n: usize)
        requires
            self.count() <= usize::MAX,
        ensures
            n == self.count(),
    {
        self.size.0 * self.size.1
    }

    /// Whether the grid describes no tiles.
    pub fn is_empty(&self) -> (r: bool)
        requires
            self.count() <= usize::MAX,
        ensures
            r == (self.count() == 0),
    {
        self.len() == 0
    }

    /// The index of a tile coordinate, or `None` if it is outside the grid.
    pub fn index_of(&self, coord: TileCoord) -> (r: Option<usize>)
        requires
            self.wf(),
            self.count() <= usize::MAX,
            fits(coord.0 - self.first().0),
            fits(coord.1 - self.first().1),
        ensures
            r == if self.describes((coord.0 as int, coord.1 as int)) {
                Some(self.place((coord.0 as int, coord.1 as int)) as usize)
            } else {
                None
            },
            r matches Some(i) ==> i < self.count() && self.tile_at(i as int) == (
                coord.0 as int,
                coord.1 as int,
            ),
    {
        let (dx, dy) = (coord.0 - self.origin.0, coord.1 - self.origin.1);
        if dx < 0 || dy < 0 || dx >= self.size.0 as i32 || dy >= self.size.1 as i32 {
            return None;
        }
        proof {
            self.lemma_place((coord.0 as int, coord.1 as int));
            vstd::arithmetic::mul::lemma_mul_nonnegative(dy as int, self.size.0 as int);
        }
        Some(dy as usize * self.size.0 + dx as usize)
    }

    /// Which tile a page pixel is in, and where inside it.
    ///
    /// The local coordinates are returned even when the tile is outside the grid, because they are
    /// correct regardless and the caller that wants them has already paid for the division.
    pub fn locate(&self, x: i32, y: i32) -> (r: (Option<usize>, usize, usize))
        requires
            self.wf(),
            self.count() <= usize::MAX,
        ensures
            ({
                let c = (tile_of(x as int), tile_of(y as int));
                r.0 == if self.describes(c) {
                    Some(self.place(c) as usize)
                } else {
                    None
                }
            }),
            r.0 matches Some(i) ==> i < self.count(),
            r.1 == local_of(x as int),
            r.2 == local_of(y as int),
            r.1 < 256,
            r.2 < 256,
    {
        let coord = (tile_index(x), tile_index(y));
        (self.index_of(coord), local_index(x), local_index(y))
    }

    /// The tile coordinate at an index.
    pub fn coord_at(&self, index: usize) -> (c: TileCoord)
        requires
            self.wf(),
            self.extent().0 > 0,
            fits(index as int / self.extent().0),
            fits(self.first().1 + index as int / self.extent().0),
        ensures
            (c.0 as int, c.1 as int) == self.tile_at(index as int),
    {
        proof {
            vstd::arithmetic::div_mod::lemma_mod_bound(index as int, self.size.0 as int);
        }
        (
            self.origin.0 + (index % self.size.0) as i32,
            self.origin.1 + (index / self.size.0) as i32,
        )
    }

    /// Turn a grid of optional values back into the sparse map the rest of the engine speaks.
    ///
    /// Absent entries are dropped rather than stored empty: a tile that nothing was written to is a
    /// tile that does not exist.
    pub fn collect<T>(&self, values: Vec<Option<T>>) -> (m: TileMap<T>)
        requires
            self.wf(),
            values@.len() <= self.count(),
        ensures
            forall|c: (int, int)|
                #[trigger] m@.contains_key(c) <==> self.describes(c) && self.place(c)
                    < values@.len() && values@[self.place(c)] is Some,
            forall|c: (int, int)|
                #[trigger] m@.contains_key(c) ==> Some(m@[c]) == values@[self.place(c)],
    {
        let ghost given = values@;
        let mut left = values;
        let mut m: TileMap<T> = TileMap::new();
        loop
            invariant
                self.wf(),
                given.len() <= self.count(),
                left@.len() <= given.len(),
                left@ == given.take(left@.len() as int),
                forall|c: (int, int)|
                    #[trigger] m@.contains_key(c) <==> self.describes(c) && left@.len()
                        <= self.place(c) < given.len() && given[self.place(c)] is Some,
                forall|c: (int, int)|
                    #[trigger] m@.contains_key(c) ==> Some(m@[c]) == given[self.place(c)],
            ensures
                left@.len() == 0,
            decreases left@.len(),
        {
            let at: usize = left.len();
            match left.pop() {
                None => {
                    assert forall|c: (int, int)| self.describes(c) implies 0 <= #[trigger] self.place(
                        c,
                    ) by {
                        self.lemma_place(c);
                    }
                    break;
                },
                Some(value) => {
                    proof {
                        assert(left@ =~= given.take(left@.len() as int));
                        assert(value == given[left@.len() as int]);
                        self.lemma_tile_at(at - 1);
                        assert forall|c: (int, int)|
                            self.describes(c) && #[trigger] self.place(c) == at - 1 implies c
                            == self.tile_at(at - 1) by {
                            self.lemma_place(c);
                        }
                    }
                    match value {
                        Some(v) => {
                            m.insert(self.coord_at(at - 1), v);
                        },
                        None => {},
                    }
                },
            }
        }
        assert forall|c: (int, int)| self.describes(c) implies 0 <= #[trigger] self.place(c) by {
            self.lemma_place(c);
        }
        m
    }
}

/// The index of a tile and the tile at an index are inverses, over the tiles a grid describes.
pub proof fn law_grid_indices_are_inverse(g: TileGrid, c: (int, int), index: int)
    requires
        g.wf(),
    ensures
        g.describes(c) ==> 0 <= g.place(c) < g.count() && g.tile_at(g.place(c)) == c,
        0 <= index < g.count() ==> g.describes(g.tile_at(index)) && g.place(g.tile_at(index))
            == index,
{
    if g.describes(c) {
        g.lemma_place(c);
    }
    if 0 <= index < g.count() {
        g.lemma_tile_at(index);
    }
}

/// There is nothing to see or to move in a texel exactly when none of its four channels is above zero:
/// a half-precision number is where its pattern is neither zero nor that of a negative number.
pub proof fn law_blank_means_nothing_above_zero(t: Texel)
    ensures
        t.blank() <==> ({
            &&& t.r == 0 || 0x8000 <= t.r <= 0xFC00
            &&& t.g == 0 || 0x8000 <= t.g <= 0xFC00
            &&& t.b == 0 || 0x8000 <= t.b <= 0xFC00
            &&& t.a == 0 || 0x8000 <= t.a <= 0xFC00
        }),
        t.uncovered() <==> t.a == 0 || 0x8000 <= t.a <= 0xFC00,
        t.blank() ==> t.uncovered(),
        Texel::clear_spec().blank(),
        Texel::clear_spec().r == 0 && Texel::clear_spec().g == 0 && Texel::clear_spec().b == 0
            && Texel::clear_spec().a == 0,
{
}

/// Every pixel is in one tile, at one place of it: the tile and the place together give the pixel back,
/// and pixels 256 apart are at the same place of neighbouring tiles.
pub proof fn law_a_pixel_has_one_place_in_one_tile(p: int)
    ensures
        256 * tile_of(p) + local_of(p) == p,
        0 <= local_of(p) < 256,
        tile_of(p + 256) == tile_of(p) + 1,
        local_of(p + 256) == local_of(p),
{
}

/// Two places of a tile are the same texel only if they are the same place, and its texels stand row by
/// row, four values to each: red, green, blue and coverage.
pub proof fn law_texels_stand_row_by_row(tile: &Tile, x: int, y: int, u: int, v: int)
    requires
        0 <= x < 256,
        0 <= y < 256,
        0 <= u < 256,
        0 <= v < 256,
    ensures
        texel_index(x, y) == texel_index(u, v) ==> x == u && y == v,
        0 <= texel_index(x, y) < 65536,
        x < 255 ==> texel_index(x + 1, y) == texel_index(x, y) + 1,
        x == 255 && y < 255 ==> texel_index(0, y + 1) == texel_index(x, y) + 1,
        texel_index(0, 0) == 0,
        tile.pixel(x, y).r == tile@[4 * texel_index(x, y)],
        tile.pixel(x, y).g == tile@[4 * texel_index(x, y) + 1],
        tile.pixel(x, y).b == tile@[4 * texel_index(x, y) + 2],
        tile.pixel(x, y).a == tile@[4 * texel_index(x, y) + 3],
{
}

/// A grid describes as many tiles as it has columns and rows, each once, and indexes them row by row
/// from the first.
pub proof fn law_a_grid_counts_row_by_row(g: TileGrid, c: (int, int))
    requires
        g.wf(),
        g.describes(c),
    ensures
        g.place(g.first()) == 0,
        g.describes((c.0 + 1, c.1)) ==> g.place((c.0 + 1, c.1)) == g.place(c) + 1,
        g.describes((c.0, c.1 + 1)) ==> g.place((c.0, c.1 + 1)) == g.place(c) + g.extent().0,
        g.count() == g.extent().0 * g.extent().1,
{
    let w = g.extent().0;
    let r = c.1 - g.first().1;
    assert((r + 1) * w == r * w + w) by (nonlinear_arith);
    assert(0 * w == 0) by (nonlinear_arith);
}

} // verus!
