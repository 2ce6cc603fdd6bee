//! Text as document content, not as pixels.
//!
//! A caption someone typed on Monday has to be retypeable on Thursday, so a text layer keeps the
//! text (the string, the font, the box) and its pixels are derived from that. Laying it out is a
//! large problem that lives behind a seam: something else turns a [`TextBlock`] into a
//! [`RenderedText`], and the only thing that crosses is an 8-bit coverage mask.

use vstd::prelude::*;

use crate::color::Rgba;
use crate::lifted::{pixel_in, whole};
use crate::page::{as_signed, fits, signed, PageRect};
use crate::scalar::{Scalar, ZERO};
use crate::tile::{local_index, local_of, tile_index, tile_of, Texel, Tile};
use crate::tile_map::{ints, TileMap};
use crate::words::{
    all_white, equal_ignoring_case, is_all_white, joined, quote, quoted, same_letters,
};

verus! {

/// Which font to draw with. A request, not a resolution: the family may name a font this machine
/// does not have.
#[derive(Debug, PartialEq, Eq)]
pub struct FontSpec {
    /// Family name as the user picked it. Empty means the platform's default.
    pub family: String,
    /// CSS-style numeric weight. 400 is regular, 700 is bold.
    pub weight: u16,
    pub italic: bool,
}

impl Clone for FontSpec {
    fn clone(&self) -> (r: FontSpec)
        ensures
            r == *self,
    {
        FontSpec { family: self.family.clone(), weight: self.weight, italic: self.italic }
    }
}

impl Default for FontSpec {
    fn default() -> (r: FontSpec)
        ensures
            r.family@ == Seq::<char>::empty(),
            r.weight == 400,
            !r.italic,
    {
        FontSpec { family: String::new(), weight: 400, italic: false }
    }
}

impl FontSpec {
    /// A request for a named family at regular weight.
    pub fn family(name: String) -> (r: FontSpec)
        ensures
            r.family == name,
            r.weight == 400,
            !r.italic,
    {
        FontSpec { family: name, weight: 400, italic: false }
    }
}

/// What the layout stack actually drew with, against what was asked for.
#[derive(Debug, PartialEq, Eq)]
pub struct FontResolution {
    /// The family requested, copied so the answer is self-contained.
    pub requested: String,
    /// The family used. Empty if nothing at all could be matched.
    pub resolved: String,
}

impl Clone for FontResolution {
    fn clone(&self) -> (r: FontResolution)
        ensures
            r == *self,
    {
        FontResolution { requested: self.requested.clone(), resolved: self.resolved.clone() }
    }
}

impl Default for FontResolution {
    fn default() -> (r: FontResolution)
        ensures
            r.requested@ == Seq::<char>::empty(),
            r.resolved@ == Seq::<char>::empty(),
    {
        FontResolution { requested: String::new(), resolved: String::new() }
    }
}

impl FontResolution {
    /// Whether the document is being shown in a font it was not written in.
    ///
    /// Asking for nothing in particular is never a substitution, and case alone is not one.
    pub fn is_substituted(&self) -> (r: bool)
        ensures
            r == (self.requested@.len() > 0 && !same_letters(self.requested@, self.resolved@)),
    {
        !self.requested.as_str().is_empty() && !equal_ignoring_case(
            self.requested.as_str(),
            self.resolved.as_str(),
        )
    }
}

/// How lines sit within the block's width.
///
/// `Start` and `End` rather than left and right, because they must keep meaning the right thing in
/// a right-to-left script.
#[derive(Clone, Copy, Debug, PartialEq, Eq, Structural)]
pub enum Align {
    Start,
    Center,
    End,
}

impl Default for Align {
    fn default() -> (r: Align)
        ensures
            r == Align::Start,
    {
        Align::Start
    }
}

impl Align {
    /// Every alignment, in the order the interface lists them.
    pub fn all() -> (r: [Align; 3])
        ensures
            r@ == seq![Align::Start, Align::Center, Align::End],
    {
        [Align::Start, Align::Center, Align::End]
    }

    /// The name shown in the interface.
    pub fn label(self) -> (r: &'static str)
        ensures
            r@ == match self {
                Align::Start => "Start"@,
                Align::Center => "Center"@,
                Align::End => "End"@,
            },
    {
        match self {
            Align::Start => "Start",
            Align::Center => "Center",
            Align::End => "End",
        }
    }
}

/// The direction text runs.
///
/// Vertical text is reserved, not implemented: a [`TextRenderer`] has to fail loudly rather than
/// quietly lay it out sideways.
#[derive(Clone, Copy, Debug, PartialEq, Eq, Structural)]
pub enum WritingMode {
    Horizontal,
    VerticalRightToLeft,
}

impl Default for WritingMode {
    fn default() -> (r: WritingMode)
        ensures
            r == WritingMode::Horizontal,
    {
        WritingMode::Horizontal
    }
}

impl WritingMode {
    /// The name of the mode.
    pub open spec fn spelled(self) -> Seq<char> {
        match self {
            WritingMode::Horizontal => "Horizontal"@,
            WritingMode::VerticalRightToLeft => "VerticalRightToLeft"@,
        }
    }

    /// The name of the mode.
    pub fn name(self) -> (r: &'static str)
        ensures
            r@ == self.spelled(),
    {
        match self {
            WritingMode::Horizontal => "Horizontal",
            WritingMode::VerticalRightToLeft => "VerticalRightToLeft",
        }
    }
}

/// The pattern of the smallest text size worth laying out, in document pixels: one half.
pub const MIN_SIZE_PX: u32 = 0x3F00_0000;

/// The pattern of the size a fresh block has, 32.
pub const FRESH_SIZE: u32 = 0x4200_0000;

/// The pattern of the line height a fresh block has, 1.2.
pub const FRESH_LINE_HEIGHT: u32 = 0x3F99_999A;

/// One block of text: everything needed to draw it, and nothing about how it currently looks.
#[derive(Debug, PartialEq)]
pub struct TextBlock {
    pub text: String,
    pub font: FontSpec,
    /// Em size in document pixels. Clamped by [`TextBlock::size_px`].
    pub size: Scalar,
    /// Line spacing as a multiple of the size.
    pub line_height: Scalar,
    /// Extra space between clusters, in document pixels. Negative tightens.
    pub letter_spacing: Scalar,
    /// Authored colour, sRGB-encoded 8-bit, opaque.
    pub color_srgb8: [u8; 3],
    /// Left edge of the text box, in document pixels.
    pub x: Scalar,
    /// Top edge of the text box, in document pixels.
    pub y: Scalar,
    /// Wrap width in document pixels, or `None` for a single line that grows as it is typed.
    pub wrap_width: Option<Scalar>,
    pub align: Align,
    pub writing_mode: WritingMode,
}

impl Clone for TextBlock {
    fn clone(&self) -> (r: TextBlock)
        ensures
            r == *self,
    {
        TextBlock {
            text: self.text.clone(),
            font: self.font.clone(),
            size: self.size,
            line_height: self.line_height,
            letter_spacing: self.letter_spacing,
            color_srgb8: self.color_srgb8,
            x: self.x,
            y: self.y,
            wrap_width: self.wrap_width,
            align: self.align,
            writing_mode: self.writing_mode,
        }
    }
}

impl TextBlock {
    /// Whether this is an untouched block at a point.
    pub open spec fn fresh_at(&self, x: Scalar, y: Scalar) -> bool {
        &&& self.text@ == Seq::<char>::empty()
        &&& self.font.family@ == Seq::<char>::empty()
        &&& self.font.weight == 400
        &&& !self.font.italic
        &&& self.size.bits == FRESH_SIZE
        &&& self.line_height.bits == FRESH_LINE_HEIGHT
        &&& self.letter_spacing.bits == ZERO
        &&& self.color_srgb8@ == seq![20u8, 20u8, 24u8]
        &&& self.x == x
        &&& self.y == y
        &&& self.wrap_width is None
        &&& self.align == Align::Start
        &&& self.writing_mode == WritingMode::Horizontal
    }

    /// The em size that layout works with.
    pub open spec fn used_size(&self) -> Scalar {
        self.size.at_least_spec(Scalar { bits: MIN_SIZE_PX })
    }

    /// An empty block placed at a point, ready to be typed into.
    pub fn at(x: Scalar, y: Scalar) -> (r: TextBlock)
        ensures
            r.fresh_at(x, y),
    {
        TextBlock {
            text: String::new(),
            font: FontSpec::default(),
            size: Scalar { bits: FRESH_SIZE },
            line_height: Scalar { bits: FRESH_LINE_HEIGHT },
            letter_spacing: Scalar { bits: ZERO },
            color_srgb8: [20, 20, 24],
            x,
            y,
            wrap_width: None,
            align: Align::Start,
            writing_mode: WritingMode::Horizontal,
        }
    }

    /// The em size actually used, clamped to something layout can work with.
    pub fn size_px(&self) -> (r: Scalar)
        ensures
            r == self.used_size(),
            (Scalar { bits: MIN_SIZE_PX }).at_most(r),
    {
        self.size.at_least(Scalar { bits: MIN_SIZE_PX })
    }

    /// The baseline-to-baseline distance in document pixels. `product` multiplies two numbers.
    pub fn line_advance<M: Fn(Scalar, Scalar) -> Scalar>(&self, product: &M) -> (r: Scalar)
        requires
            forall|a: Scalar, b: Scalar| #[trigger] product.requires((a, b)),
        ensures
            product.ensures(
                (self.used_size(), self.line_height.at_least_spec(Scalar { bits: ZERO })),
                r,
            ),
    {
        product(self.size_px(), self.line_height.at_least(Scalar { bits: ZERO }))
    }

    /// Whether there is nothing to draw.
    ///
    /// This asks about ink rather than about length: whitespace is perfectly valid text but marks no
    /// pixels.
    pub fn is_blank(&self) -> (r: bool)
        ensures
            r == all_white(self.text@),
    {
        is_all_white(self.text.as_str())
    }
}

impl Default for TextBlock {
    fn default() -> (r: TextBlock)
        ensures
            r.fresh_at(Scalar { bits: ZERO }, Scalar { bits: ZERO }),
    {
        TextBlock::at(Scalar { bits: ZERO }, Scalar { bits: ZERO })
    }
}

/// A laid-out, rasterized text block: where it landed, and how much ink is at each pixel.
///
/// Coverage rather than colour. The block's colour is applied when the mask is turned into tiles.
#[derive(Debug, PartialEq)]
pub struct RenderedText {
    /// Left edge of the mask in document pixels.
    pub x: i32,
    /// Top edge of the mask in document pixels.
    pub y: i32,
    pub width: u32,
    pub height: u32,
    /// `width * height` coverage values, row-major. 0 is no ink, 255 is full.
    pub coverage: Vec<u8>,
    /// What the text was actually drawn with.
    pub font: FontResolution,
}

impl Clone for RenderedText {
    fn clone(&self) -> (r: RenderedText)
        ensures
            r.x == self.x && r.y == self.y && r.width == self.width && r.height == self.height,
            r.coverage@ == self.coverage@,
            r.font == self.font,
    {
        let coverage = self.coverage.clone();
        assert(coverage@ =~= self.coverage@);
        RenderedText {
            x: self.x,
            y: self.y,
            width: self.width,
            height: self.height,
            coverage,
            font: self.font.clone(),
        }
    }
}

impl RenderedText {
    /// There is one coverage value for each pixel of the mask.
    pub open spec fn wf(&self) -> bool {
        self.coverage@.len() == self.width * self.height
    }

    /// Coverage at a document pixel, zero anywhere outside the mask.
    pub open spec fn ink(&self, px: int, py: int) -> u8 {
        let lx = px - self.x;
        let ly = py - self.y;
        if 0 <= lx < signed(self.width) && 0 <= ly < signed(self.height) {
            self.coverage@[ly * self.width + lx]
        } else {
            0
        }
    }

    /// An empty result: no ink, but still carrying which font was resolved.
    pub fn empty(font: FontResolution) -> (r: RenderedText)
        ensures
            r.wf(),
            r.x == 0 && r.y == 0 && r.width == 0 && r.height == 0,
            r.coverage@ == Seq::<u8>::empty(),
            r.font == font,
    {
        RenderedText { x: 0, y: 0, width: 0, height: 0, coverage: Vec::new(), font }
    }

    /// Build a mask. There has to be one coverage value for each pixel of it.
    pub fn new(
        x: i32,
        y: i32,
        width: u32,
        height: u32,
        coverage: Vec<u8>,
        font: FontResolution,
    ) -> (r: RenderedText)
        requires
            coverage@.len() == width * height,
        ensures
            r.wf(),
            r == (RenderedText { x, y, width, height, coverage, font }),
    {
        RenderedText { x, y, width, height, coverage, font }
    }

    /// Whether the block produced no ink at all.
    pub fn is_empty(&self) -> (r: bool)
        ensures
            r == (self.coverage@.len() == 0),
    {
        self.coverage.len() == 0
    }

    /// Coverage at a document pixel, zero anywhere outside the mask.
    pub fn coverage_at(&self, px: i32, py: i32) -> (r: u8)
        requires
            self.wf(),
            fits(px - self.x),
            fits(py - self.y),
        ensures
            r == self.ink(px as int, py as int),
    {
        let lx: i32 = px - self.x;
        let ly: i32 = py - self.y;
        if lx < 0 || ly < 0 || lx >= as_signed(self.width) || ly >= as_signed(self.height) {
            return 0;
        }
        proof {
            lemma_mask_index(lx as int, ly as int, self.width as int, self.height as int);
            assert(self.coverage.len() == self.coverage@.len());
            assert(0 <= ly * self.width) by (nonlinear_arith)
                requires
                    0 <= ly,
                    0 <= self.width,
            ;
        }
        self.coverage[ly as usize * self.width as usize + lx as usize]
    }

    /// The document-pixel rectangle the mask occupies, as `(x, y, width, height)`.
    pub fn bounds(&self) -> (r: (i32, i32, u32, u32))
        ensures
            r == (self.x, self.y, self.width, self.height),
    {
        (self.x, self.y, self.width, self.height)
    }
}

/// A pixel of a mask is one of its values.
proof fn lemma_mask_index(lx: int, ly: int, width: int, height: int)
    requires
        0 <= lx < width,
        0 <= ly < height,
    ensures
        0 <= ly * width + lx < width * height,
{
    assert(ly * width + lx < width * height && 0 <= ly * width) by (nonlinear_arith)
        requires
            0 <= lx < width,
            0 <= ly < height,
    ;
}

/// What a colour at a coverage is.
pub open spec fn tinted<F: Fn(Rgba, u8) -> Texel>(tint: &F, color: Rgba, coverage: u8) -> Texel {
    choose|t: Texel| tint.ensures((color, coverage), t)
}

/// Whether a function scales a colour by any coverage, and always gives the same for the same.
pub open spec fn tints<F: Fn(Rgba, u8) -> Texel>(tint: &F) -> bool {
    &&& forall|color: Rgba, coverage: u8| #[trigger] tint.requires((color, coverage))
    &&& forall|color: Rgba, coverage: u8, t: Texel| #[trigger]
        tint.ensures((color, coverage), t) ==> t == tinted(tint, color, coverage)
}

/// Whether a mask puts ink on a page's pixel.
pub open spec fn marks(rendered: &RenderedText, page: PageRect, x: int, y: int) -> bool {
    page.has(x, y) && rendered.ink(x, y) != 0
}

/// Whether a scan by rows that stands at a pixel has passed another.
spec fn passed(row: int, col: int, x: int, y: int) -> bool {
    y < row || (y == row && x < col)
}

/// What the tiles hold once a scan of the mask has come to a pixel.
spec fn inked_so_far<F: Fn(Rgba, u8) -> Texel>(
    rendered: &RenderedText,
    color: Rgba,
    tint: &F,
    page: PageRect,
    row: int,
    col: int,
    tiles: Map<(int, int), Tile>,
) -> bool {
    &&& whole(tiles)
    &&& forall|x: int, y: int| #[trigger]
        pixel_in(tiles, x, y) == if marks(rendered, page, x, y) && passed(row, col, x, y) {
            tinted(tint, color, rendered.ink(x, y))
        } else {
            Texel::clear_spec()
        }
    &&& forall|x: int, y: int| #[trigger]
        marks(rendered, page, x, y) && passed(row, col, x, y) ==> tint.ensures(
            (color, rendered.ink(x, y)),
            tinted(tint, color, rendered.ink(x, y)),
        )
    &&& forall|c: (int, int)| #[trigger]
        tiles.contains_key(c) <==> exists|x: int, y: int| #[trigger]
            marks(rendered, page, x, y) && passed(row, col, x, y) && tile_of(x) == c.0 && tile_of(y)
                == c.1
}

/// Passing only pixels without ink changes nothing.
proof fn lemma_nothing_passed<F: Fn(Rgba, u8) -> Texel>(
    rendered: &RenderedText,
    color: Rgba,
    tint: &F,
    page: PageRect,
    row: int,
    col: int,
    next_row: int,
    next_col: int,
    tiles: Map<(int, int), Tile>,
)
    requires
        inked_so_far(rendered, color, tint, page, row, col, tiles),
        forall|x: int, y: int| #[trigger]
            marks(rendered, page, x, y) ==> passed(row, col, x, y) == passed(
                next_row,
                next_col,
                x,
                y,
            ),
    ensures
        inked_so_far(rendered, color, tint, page, next_row, next_col, tiles),
{
    assert forall|x: int, y: int| #[trigger] pixel_in(tiles, x, y) == if marks(rendered, page, x, y)
        && passed(next_row, next_col, x, y) {
        tinted(tint, color, rendered.ink(x, y))
    } else {
        Texel::clear_spec()
    } by {
        let m = marks(rendered, page, x, y);
    }
}

/// Turn a rendered mask and a colour into the tiles a layer is made of.
///
/// Coverage scales a premultiplied colour, which is what `tint` does. These tiles replace the
/// layer's contents rather than compositing over them. Clipped to `page`, and tiles that would be
/// entirely empty are not produced at all.
pub fn tiles_from_mask<F: Fn(Rgba, u8) -> Texel>(
    rendered: &RenderedText,
    color_linear_premul: Rgba,
    page: PageRect,
    tint: &F,
) -> (tiles: TileMap<Tile>)
    requires
        rendered.wf(),
        tints(tint),
        page.bounded(),
        rendered.coverage@.len() > 0 ==> fits(rendered.x + signed(rendered.width)) && fits(
            rendered.y + signed(rendered.height),
        ),
    ensures
        whole(tiles@),
        forall|x: int, y: int| #[trigger]
            pixel_in(tiles@, x, y) == if marks(rendered, page, x, y) {
                tinted(tint, color_linear_premul, rendered.ink(x, y))
            } else {
                Texel::clear_spec()
            },
        // Every colour in them is one that `tint` gave.
        forall|x: int, y: int| #[trigger]
            marks(rendered, page, x, y) ==> tint.ensures(
                (color_linear_premul, rendered.ink(x, y)),
                tinted(tint, color_linear_premul, rendered.ink(x, y)),
            ),
        forall|c: (int, int)| #[trigger]
            tiles@.contains_key(c) <==> exists|x: int, y: int| #[trigger]
                marks(rendered, page, x, y) && tile_of(x) == c.0 && tile_of(y) == c.1,
{
    let mut tiles: TileMap<Tile> = TileMap::new();
    if rendered.is_empty() {
        proof {
            assert forall|x: int, y: int| !#[trigger] marks(rendered, page, x, y) by {
                if rendered.ink(x, y) != 0 {
                    lemma_mask_index(
                        x - rendered.x,
                        y - rendered.y,
                        rendered.width as int,
                        rendered.height as int,
                    );
                }
            }
        }
        return tiles;
    }
    let (px0, py0) = page.origin();
    let (px1, py1) = page.end();
    let x0: i32 = if rendered.x < px0 {
        px0
    } else {
        rendered.x
    };
    let y0: i32 = if rendered.y < py0 {
        py0
    } else {
        rendered.y
    };
    let far_x: i32 = rendered.x + as_signed(rendered.width);
    let far_y: i32 = rendered.y + as_signed(rendered.height);
    let x1: i32 = if far_x > px1 {
        px1
    } else {
        far_x
    };
    let y1: i32 = if far_y > py1 {
        py1
    } else {
        far_y
    };
    proof {
        assert forall|x: int, y: int| #[trigger] marks(rendered, page, x, y) implies x0 <= x < x1
            && y0 <= y < y1 by {}
        assert(inked_so_far(
            rendered,
            color_linear_premul,
            tint,
            page,
            y0 as int,
            x0 as int,
            tiles@,
        ));
    }
    let mut y: i32 = y0;
    while y < y1
        invariant
            rendered.wf(),
            tints(tint),
            x1 <= far_x,
            y1 <= far_y,
            far_x == rendered.x + signed(rendered.width),
            far_y == rendered.y + signed(rendered.height),
            rendered.x <= x0,
            rendered.y <= y0 <= y,
            page.x <= x0,
            page.y <= y0,
            x1 <= page.end_x(),
            y1 <= page.end_y(),
            forall|px: int, py: int| #[trigger]
                marks(rendered, page, px, py) ==> x0 <= px < x1 && y0 <= py < y1,
            inked_so_far(
                rendered,
                color_linear_premul,
                tint,
                page,
                y as int,
                x0 as int,
                tiles@,
            ),
        decreases y1 - y,
    {
        let mut x: i32 = x0;
        while x < x1
            invariant
                rendered.wf(),
                tints(tint),
                x1 <= far_x,
                y < y1 <= far_y,
                far_x == rendered.x + signed(rendered.width),
                far_y == rendered.y + signed(rendered.height),
                rendered.x <= x0 <= x,
                rendered.y <= y0 <= y,
                page.x <= x0,
                page.y <= y0,
                x1 <= page.end_x(),
                y1 <= page.end_y(),
                inked_so_far(
                    rendered,
                    color_linear_premul,
                    tint,
                    page,
                    y as int,
                    x as int,
                    tiles@,
                ),
            decreases x1 - x,
        {
            let coverage: u8 = rendered.coverage_at(x, y);
            let ghost before = tiles@;
            if coverage != 0 {
                assert(marks(rendered, page, x as int, y as int));
                let coord = (tile_index(x), tile_index(y));
                let mut tile = match tiles.remove(coord) {
                    Some(t) => {
                        assert(before.contains_key(ints(coord)));
                        t
                    },
                    None => Tile::transparent(),
                };
                let ghost earlier = tile;
                let texel = tint(color_linear_premul, coverage);
                tile.set_texel(local_index(x), local_index(y), texel);
                tiles.insert(coord, tile);
                proof {
                    let c = ints(coord);
                    assert(tiles@ =~= before.insert(c, tile));
                    assert forall|px: int, py: int| #[trigger] pixel_in(tiles@, px, py) == if marks(
                        rendered,
                        page,
                        px,
                        py,
                    ) && passed(y as int, x + 1, px, py) {
                        tinted(tint, color_linear_premul, rendered.ink(px, py))
                    } else {
                        Texel::clear_spec()
                    } by {
                        let was = pixel_in(before, px, py);
                        if tile_of(px) == c.0 && tile_of(py) == c.1 {
                            let p = earlier.pixel(local_of(px), local_of(py));
                            let q = tile.pixel(local_of(px), local_of(py));
                        }
                    }
                    assert forall|px: int, py: int| #[trigger]
                        marks(rendered, page, px, py) && passed(
                            y as int,
                            x + 1,
                            px,
                            py,
                        ) implies tint.ensures(
                        (color_linear_premul, rendered.ink(px, py)),
                        tinted(tint, color_linear_premul, rendered.ink(px, py)),
                    ) by {
                        if !passed(y as int, x as int, px, py) {
                            assert(px == x && py == y);
                        }
                    }
                    assert forall|d: (int, int)| #[trigger] tiles@.contains_key(d)
                        <==> exists|px: int, py: int| #[trigger]
                        marks(rendered, page, px, py) && passed(y as int, x + 1, px, py) && tile_of(
                            px,
                        ) == d.0 && tile_of(py) == d.1 by {
                        if d == c {
                            assert(marks(rendered, page, x as int, y as int) && passed(
                                y as int,
                                x + 1,
                                x as int,
                                y as int,
                            ));
                        } else {
                            assert(tiles@.contains_key(d) == before.contains_key(d));
                            if before.contains_key(d) {
                                let (px, py) = choose|px: int, py: int| #[trigger]
                                    marks(rendered, page, px, py) && passed(
                                        y as int,
                                        x as int,
                                        px,
                                        py,
                                    ) && tile_of(px) == d.0 && tile_of(py) == d.1;
                                assert(marks(rendered, page, px, py) && passed(
                                    y as int,
                                    x + 1,
                                    px,
                                    py,
                                ));
                            }
                        }
                    }
                    assert forall|d: (int, int)| #[trigger]
                        tiles@.contains_key(d) implies crate::tile::reachable(d)
                        && tiles@[d].wf() by {
                        if d != c {
                            assert(before.contains_key(d));
                        }
                    }
                }
            } else {
                proof {
                    assert(!marks(rendered, page, x as int, y as int));
                    lemma_nothing_passed(
                        rendered,
                        color_linear_premul,
                        tint,
                        page,
                        y as int,
                        x as int,
                        y as int,
                        x + 1,
                        tiles@,
                    );
                }
            }
            x += 1;
        }
        proof {
            lemma_nothing_passed(
                rendered,
                color_linear_premul,
                tint,
                page,
                y as int,
                x as int,
                y + 1,
                x0 as int,
                tiles@,
            );
        }
        y += 1;
    }
    proof {
        assert forall|x: int, y: int| #[trigger] pixel_in(tiles@, x, y) == if marks(
            rendered,
            page,
            x,
            y,
        ) {
            tinted(tint, color_linear_premul, rendered.ink(x, y))
        } else {
            Texel::clear_spec()
        } by {
            let m = marks(rendered, page, x, y);
        }
        assert forall|px: int, py: int| #[trigger]
            marks(rendered, page, px, py) implies tint.ensures(
            (color_linear_premul, rendered.ink(px, py)),
            tinted(tint, color_linear_premul, rendered.ink(px, py)),
        ) by {
            assert(passed(y as int, x0 as int, px, py));
        }
        assert forall|c: (int, int)| #[trigger] tiles@.contains_key(c) <==> exists|
            px: int,
            py: int,
        | #[trigger]
            marks(rendered, page, px, py) && tile_of(px) == c.0 && tile_of(py) == c.1 by {
            if exists|px: int, py: int| #[trigger]
                marks(rendered, page, px, py) && tile_of(px) == c.0 && tile_of(py) == c.1 {
                let (px, py) = choose|px: int, py: int| #[trigger]
                    marks(rendered, page, px, py) && tile_of(px) == c.0 && tile_of(py) == c.1;
                assert(passed(y as int, x0 as int, px, py));
            }
        }
    }
    tiles
}

/// Why a text block could not be laid out.
#[derive(Debug, PartialEq, Eq)]
pub enum LayoutError {
    /// A writing mode the layout stack has not implemented yet.
    UnsupportedWritingMode(WritingMode),
    /// No font could be matched at all, not even a fallback.
    NoFontAvailable { requested: String },
}

impl Clone for LayoutError {
    fn clone(&self) -> (r: LayoutError)
        ensures
            r == *self,
    {
        match self {
            LayoutError::UnsupportedWritingMode(mode) => LayoutError::UnsupportedWritingMode(*mode),
            LayoutError::NoFontAvailable { requested } => LayoutError::NoFontAvailable {
                requested: requested.clone(),
            },
        }
    }
}

/// What is said of a family that could not be matched, given the family in quotes.
pub fn no_match_message(quoted_family: &str) -> (r: String)
    ensures
        r@ == "no font could be matched for "@ + quoted_family@,
{
    joined("no font could be matched for ", quoted_family)
}

impl LayoutError {
    /// The error as a sentence, because it reaches the user.
    pub fn message(&self) -> (r: String)
        ensures
            r@ == match *self {
                LayoutError::UnsupportedWritingMode(mode) => "writing mode "@ + mode.spelled()
                    + " is not implemented yet"@,
                LayoutError::NoFontAvailable { requested } => if requested@.len() == 0 {
                    "no fonts are available on this system"@
                } else {
                    "no font could be matched for "@ + quoted(requested@)
                },
            },
    {
        match self {
            LayoutError::UnsupportedWritingMode(mode) => {
                let start = joined("writing mode ", mode.name());
                joined(start.as_str(), " is not implemented yet")
            },
            LayoutError::NoFontAvailable { requested } => {
                if requested.as_str().is_empty() {
                    "no fonts are available on this system".to_owned()
                } else {
                    let family = quote(requested.as_str());
                    no_match_message(family.as_str())
                }
            },
        }
    }
}

/// Turning a [`TextBlock`] into pixels.
///
/// A trait so the engine can be tested against a stub with no font stack present, and so the real
/// one can be replaced without touching anything that calls it.
pub trait TextRenderer {
    /// Lay out and rasterize a block at document resolution. A block with no ink is not an error: it
    /// renders to an empty mask.
    fn render(&mut self, block: &TextBlock) -> Result<RenderedText, LayoutError>;
}

/// Text never reaches off the page it is on: every tile that a mask becomes has ink of the page in
/// it, and every pixel off the page stays clear.
pub proof fn law_ink_stays_on_the_page<F: Fn(Rgba, u8) -> Texel>(
    rendered: &RenderedText,
    color: Rgba,
    page: PageRect,
    tint: &F,
    tiles: Map<(int, int), Tile>,
    x: int,
    y: int,
)
    requires
        forall|x: int, y: int| #[trigger]
            pixel_in(tiles, x, y) == if marks(rendered, page, x, y) {
                tinted(tint, color, rendered.ink(x, y))
            } else {
                Texel::clear_spec()
            },
        !page.has(x, y),
    ensures
        pixel_in(tiles, x, y) == Texel::clear_spec(),
{
}

/// The ink of a mask at a pixel is the value of its row and column, and nothing off the mask.
pub proof fn law_a_mask_lies_where_it_landed(rendered: &RenderedText, x: int, y: int)
    requires
        rendered.width <= i32::MAX,
        rendered.height <= i32::MAX,
    ensures
        0 <= x < rendered.width && 0 <= y < rendered.height ==> rendered.ink(
            rendered.x + x,
            rendered.y + y,
        ) == rendered.coverage@[y * rendered.width + x],
        x < 0 || y < 0 || x >= rendered.width || y >= rendered.height ==> rendered.ink(
            rendered.x + x,
            rendered.y + y,
        ) == 0,
{
}

/// Text inks each pixel of the page that its mask has any ink at with the colour at that coverage, and
/// no other pixel, faint ink as much as full.
pub proof fn law_every_touch_of_ink_is_kept<F: Fn(Rgba, u8) -> Texel>(
    rendered: &RenderedText,
    color: Rgba,
    page: PageRect,
    tint: &F,
    x: int,
    y: int,
    out: Texel,
)
    requires
        tints(tint),
        tint.ensures((color, rendered.ink(x, y)), out),
    ensures
        marks(rendered, page, x, y) <==> page.has(x, y) && rendered.ink(x, y) > 0,
        marks(rendered, page, x, y) ==> tinted(tint, color, rendered.ink(x, y)) == out,
{
}

/// Text is laid out at the size it is set to, but never below half a pixel.
pub proof fn law_text_is_never_too_small_to_lay_out(block: TextBlock)
    ensures
        0x3F00_0000 <= block.size.bits <= 0x7F80_0000 ==> block.used_size() == block.size,
        block.size.bits < 0x3F00_0000 || block.size.bits > 0x7F80_0000 ==> block.used_size().bits
            == 0x3F00_0000,
{
}

/// A fresh block is empty, at the point it was put, 32 pixels high with lines a fifth further apart, in
/// the platform's own font, regular and upright, in nearly black ink, at the start of its line.
pub proof fn law_a_fresh_block_is_ready_to_type_into(block: TextBlock, x: Scalar, y: Scalar)
    requires
        block.fresh_at(x, y),
    ensures
        block.text@.len() == 0,
        block.font.family@.len() == 0,
        block.font.weight == 400,
        !block.font.italic,
        block.size.bits == 0x4200_0000,
        block.line_height.bits == 0x3F99_999A,
        block.letter_spacing.bits == 0,
        block.color_srgb8@ == seq![20u8, 20u8, 24u8],
        block.x == x,
        block.y == y,
        block.wrap_width is None,
        block.align == Align::Start,
        block.writing_mode == WritingMode::Horizontal,
        all_white(block.text@),
{
}

} // verus!
