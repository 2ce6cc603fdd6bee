//! A page: a rectangle, a stack of layers, and its print metadata.
//!
//! A page has exact pixel dimensions. Resizing it takes the target rectangle; extending, cropping
//! and dragging an edge are all just different rectangles, and the inverse of a resize is the two
//! rectangles swapped.

use vstd::prelude::*;

use crate::layer::{Content, Layer};
use crate::scalar::{Scalar, ONE};
use crate::text::TextBlock;
use crate::words::{
    all_white, chars_of, find_line_end, first_line, law_the_first_line_ends_at_the_first_break,
    law_trimming_takes_only_white_ends, text_of, trim_range, trimmed, white,
};

verus! {

/// The value of an unsigned length read as a signed one, as a cast reads it.
pub open spec fn signed(n: u32) -> int {
    if n <= i32::MAX {
        n as int
    } else {
        n - 0x1_0000_0000
    }
}

/// An unsigned length as a signed one.
pub fn as_signed(n: u32) -> (r: i32)
    ensures
        r == signed(n),
{
    assert(n <= 0x7FFF_FFFFu32 ==> (n as i32) == n) by (bit_vector);
    assert(n > 0x7FFF_FFFFu32 ==> (n as i32) == n - 0x1_0000_0000) by (bit_vector);
    #[verifier::truncate] (n as i32)
}

/// Whether a mathematical integer is a pixel coordinate.
pub open spec fn fits(n: int) -> bool {
    i32::MIN <= n <= i32::MAX
}

/// A rectangle in page coordinates. The corner may be negative, since extending leftward or upward
/// moves the origin.
#[derive(Clone, Copy, Debug, PartialEq, Eq, Structural)]
pub struct PageRect {
    pub x: i32,
    pub y: i32,
    pub w: u32,
    pub h: u32,
}

/// Which edge of a page an extend grows.
#[derive(Clone, Copy, Debug, PartialEq, Eq, Structural)]
pub enum Side {
    Top,
    Bottom,
    Left,
    Right,
}

/// `n`, but at least one.
pub open spec fn at_least_one(n: u32) -> u32 {
    if n == 0 {
        1
    } else {
        n
    }
}

impl PageRect {
    /// One past the right edge.
    pub open spec fn end_x(self) -> int {
        self.x + signed(self.w)
    }

    /// One past the bottom edge.
    pub open spec fn end_y(self) -> int {
        self.y + signed(self.h)
    }

    /// Whether the far corner is a pixel coordinate at all.
    pub open spec fn bounded(self) -> bool {
        fits(self.end_x()) && fits(self.end_y())
    }

    /// Whether the rectangle holds a pixel.
    pub open spec fn has(self, x: int, y: int) -> bool {
        self.x <= x < self.end_x() && self.y <= y < self.end_y()
    }

    /// Whether the rectangle reaches at least as far as `other` on every side.
    pub open spec fn spans(self, other: PageRect) -> bool {
        &&& self.x <= other.x
        &&& self.y <= other.y
        &&& self.end_x() >= other.end_x()
        &&& self.end_y() >= other.end_y()
    }

    /// Whether a side can be grown by `amount` within the range of coordinates and lengths.
    pub open spec fn extendable(self, side: Side, amount: u32) -> bool {
        match side {
            Side::Top => fits(self.y - signed(amount)) && self.h + amount <= u32::MAX,
            Side::Bottom => self.h + amount <= u32::MAX,
            Side::Left => fits(self.x - signed(amount)) && self.w + amount <= u32::MAX,
            Side::Right => self.w + amount <= u32::MAX,
        }
    }

    /// Whether the length that a side's growth adds to stays readable as a signed one.
    pub open spec fn has_room(self, side: Side, amount: u32) -> bool {
        match side {
            Side::Top | Side::Bottom => self.h + amount <= i32::MAX,
            Side::Left | Side::Right => self.w + amount <= i32::MAX,
        }
    }

    /// The rectangle grown by `amount` on one side.
    pub open spec fn extended_spec(self, side: Side, amount: u32) -> PageRect {
        let tall = at_least_one((self.h + amount) as u32);
        let wide = at_least_one((self.w + amount) as u32);
        let w = at_least_one(self.w);
        let h = at_least_one(self.h);
        match side {
            Side::Top => PageRect { x: self.x, y: (self.y - signed(amount)) as i32, w, h: tall },
            Side::Bottom => PageRect { x: self.x, y: self.y, w, h: tall },
            Side::Left => PageRect { x: (self.x - signed(amount)) as i32, y: self.y, w: wide, h },
            Side::Right => PageRect { x: self.x, y: self.y, w: wide, h },
        }
    }

    /// A rectangle, never degenerate: each side is at least one pixel.
    pub fn new(x: i32, y: i32, w: u32, h: u32) -> (r: PageRect)
        ensures
            r == (PageRect { x, y, w: at_least_one(w), h: at_least_one(h) }),
    {
        PageRect {
            x,
            y,
            w: if w == 0 { 1 } else { w },
            h: if h == 0 { 1 } else { h },
        }
    }

    /// A rectangle at the origin, for a fresh page.
    pub fn from_size(w: u32, h: u32) -> (r: PageRect)
        ensures
            r == (PageRect { x: 0, y: 0, w: at_least_one(w), h: at_least_one(h) }),
    {
        PageRect::new(0, 0, w, h)
    }

    /// The top-left corner.
    pub fn origin(&self) -> (r: (i32, i32))
        ensures
            r == (self.x, self.y),
    {
        (self.x, self.y)
    }

    /// One past the bottom-right corner.
    pub fn end(&self) -> (r: (i32, i32))
        requires
            self.bounded(),
        ensures
            r.0 == self.end_x(),
            r.1 == self.end_y(),
    {
        (self.x + as_signed(self.w), self.y + as_signed(self.h))
    }

    /// Whether a pixel is inside.
    pub fn contains(&self, x: i32, y: i32) -> (r: bool)
        requires
            self.bounded(),
        ensures
            r == self.has(x as int, y as int),
    {
        let (ex, ey) = self.end();
        x >= self.x && y >= self.y && x < ex && y < ey
    }

    /// Whether this rectangle fully covers `other`.
    ///
    /// Used to decide whether a resize loses pixels, which is more accurate than comparing sizes: a
    /// rectangle can move without shrinking and still drop content.
    pub fn covers(&self, other: &PageRect) -> (r: bool)
        requires
            self.bounded(),
            other.bounded(),
        ensures
            r == self.spans(*other),
    {
        let (ex, ey) = self.end();
        let (ox, oy) = other.end();
        self.x <= other.x && self.y <= other.y && ex >= ox && ey >= oy
    }

    /// This rectangle grown by `amount` on the given side.
    pub fn extended(&self, side: Side, amount: u32) -> (r: PageRect)
        requires
            self.extendable(side, amount),
        ensures
            r == self.extended_spec(side, amount),
    {
        let a: i32 = as_signed(amount);
        match side {
            Side::Top => PageRect::new(self.x, self.y - a, self.w, self.h + amount),
            Side::Bottom => PageRect::new(self.x, self.y, self.w, self.h + amount),
            Side::Left => PageRect::new(self.x - a, self.y, self.w + amount, self.h),
            Side::Right => PageRect::new(self.x, self.y, self.w + amount, self.h),
        }
    }
}

/// A page resize, expressed as the rectangle before and after.
///
/// Both offsets are derived by subtraction, which is why there is no anchor and no stored offset to
/// disagree with the sizes.
#[derive(Clone, Copy, Debug, PartialEq, Eq, Structural)]
pub struct PageResize {
    pub old: PageRect,
    pub new: PageRect,
}

impl PageResize {
    /// How far the origin moves, as mathematical integers.
    pub open spec fn shift(self) -> (int, int) {
        (self.new.x - self.old.x, self.new.y - self.old.y)
    }

    /// Whether content outside the new rectangle was inside the old one.
    pub open spec fn drops(self) -> bool {
        !self.new.spans(self.old)
    }

    /// The two rectangles swapped.
    pub open spec fn swapped(self) -> PageResize {
        PageResize { old: self.new, new: self.old }
    }

    /// How the page rectangle's origin moves. Content does not move.
    pub fn origin_shift(&self) -> (r: (i32, i32))
        requires
            fits(self.shift().0),
            fits(self.shift().1),
        ensures
            r.0 == self.shift().0,
            r.1 == self.shift().1,
    {
        (self.new.x - self.old.x, self.new.y - self.old.y)
    }

    /// Where old content lands inside a **zero-based texture** of the new size.
    ///
    /// A texture always starts at (0, 0), so growing upward means copying the old contents lower
    /// down. It is the negation of the origin shift.
    pub fn content_offset(&self) -> (r: (i32, i32))
        requires
            fits(-self.shift().0),
            fits(-self.shift().1),
        ensures
            r.0 == -self.shift().0,
            r.1 == -self.shift().1,
    {
        (self.old.x - self.new.x, self.old.y - self.new.y)
    }

    /// The inverse resize, for undoing this one: simply the two rectangles swapped.
    pub fn inverted(&self) -> (r: PageResize)
        ensures
            r == self.swapped(),
    {
        PageResize { old: self.new, new: self.old }
    }

    /// Whether this resize drops any content, and therefore needs pixels saved to be undone.
    pub fn loses_pixels(&self) -> (r: bool)
        requires
            self.old.bounded(),
            self.new.bounded(),
        ensures
            r == self.drops(),
    {
        !self.new.covers(&self.old)
    }
}

/// Inverting a resize reverses the way the origin moves, and inverting twice is doing nothing.
pub proof fn law_inverting_reverses(r: PageResize)
    ensures
        r.swapped().shift().0 == -r.shift().0,
        r.swapped().shift().1 == -r.shift().1,
        r.swapped().swapped() == r,
{
}

/// A rectangle covers another of at least one pixel exactly when it holds each of its pixels.
pub proof fn law_covering_is_holding_every_pixel(a: PageRect, b: PageRect)
    requires
        b.x < b.end_x(),
        b.y < b.end_y(),
    ensures
        a.spans(b) <==> (forall|x: int, y: int| #[trigger] b.has(x, y) ==> a.has(x, y)),
{
    if forall|x: int, y: int| #[trigger] b.has(x, y) ==> a.has(x, y) {
        assert(b.has(b.x as int, b.y as int));
        assert(b.has(b.end_x() - 1, b.end_y() - 1));
    }
}

/// Every rectangle covers itself, and covering carries over from one rectangle to the next.
pub proof fn law_covering_is_an_order(a: PageRect, b: PageRect, c: PageRect)
    ensures
        a.spans(a),
        a.spans(b) && b.spans(c) ==> a.spans(c),
        a.spans(b) && b.spans(a) ==> a.x == b.x && a.y == b.y && a.end_x() == b.end_x()
            && a.end_y() == b.end_y(),
{
}

/// Growing a page never loses a pixel, on any side.
///
/// For pages and amounts whose length along the side's axis is readable as a signed one, before and
/// after: a length past that range reads as negative.
pub proof fn law_growing_loses_nothing(rect: PageRect, side: Side, amount: u32)
    requires
        rect.extendable(side, amount),
        rect.has_room(side, amount),
    ensures
        !(PageResize { old: rect, new: rect.extended_spec(side, amount) }).drops(),
{
}

/// Extending the bottom or the right leaves the origin alone; extending the top or the left moves
/// only the coordinate of that side, and leaves the opposite edge where it was.
pub proof fn law_extending_moves_one_edge(rect: PageRect, side: Side, amount: u32)
    requires
        rect.extendable(side, amount),
        rect.w >= 1,
        rect.h >= 1,
        rect.has_room(side, amount),
    ensures
        ({
            let grown = rect.extended_spec(side, amount);
            match side {
                Side::Top => grown.x == rect.x && grown.y == rect.y - amount && grown.end_x()
                    == rect.end_x() && grown.end_y() == rect.end_y(),
                Side::Bottom => grown.x == rect.x && grown.y == rect.y && grown.end_x()
                    == rect.end_x() && grown.end_y() == rect.end_y() + amount,
                Side::Left => grown.x == rect.x - amount && grown.y == rect.y && grown.end_x()
                    == rect.end_x() && grown.end_y() == rect.end_y(),
                Side::Right => grown.x == rect.x && grown.y == rect.y && grown.end_x()
                    == rect.end_x() + amount && grown.end_y() == rect.end_y(),
            }
        }),
{
}

/// The pattern of the resolution a new page has: 72 dots per inch.
pub const DEFAULT_DPI: u32 = 0x4290_0000;

/// How much of a caption is used as its layer's name.
const NAME_FROM_TEXT_CHARS: usize = 24;

/// What a text layer is called: its own first line, cut short where it is long.
pub open spec fn caption(text: Seq<char>) -> Seq<char> {
    let first = trimmed(first_line(text));
    if first.len() == 0 {
        "Text"@
    } else if first.len() <= 24 {
        first
    } else {
        first.take(24).push('\u{2026}')
    }
}

/// Name a text layer after its own first line.
pub fn layer_name_for(block: &TextBlock) -> (name: String)
    ensures
        name@ == caption(block.text@),
{
    let chars = chars_of(block.text.as_str());
    let end: usize = find_line_end(&chars);
    let (from, to) = trim_range(&chars, end);
    let ghost first = trimmed(first_line(block.text@));
    assert(chars@.take(end as int) == first_line(block.text@));
    assert(chars@.subrange(from as int, to as int) == first);
    if from == to {
        return "Text".to_owned();
    }
    if to - from <= NAME_FROM_TEXT_CHARS {
        return text_of(&chars, from, to);
    }
    let mut name = text_of(&chars, from, from + NAME_FROM_TEXT_CHARS);
    assert(name@ =~= first.take(24));
    name.push('\u{2026}');
    name
}

/// A sequence with one item moved to another place, the rest closing up and making room.
pub open spec fn reordered<T>(items: Seq<T>, from: int, to: int) -> Seq<T> {
    items.remove(from).insert(to, items[from])
}

/// Where a marked item is after another, or it itself, has moved.
pub open spec fn followed(marked: int, from: int, to: int) -> int {
    if marked == from {
        to
    } else if from < marked && to >= marked {
        marked - 1
    } else if from > marked && to <= marked {
        marked + 1
    } else {
        marked
    }
}

/// The smaller of two numbers.
pub open spec fn lesser(a: int, b: int) -> int {
    if a <= b {
        a
    } else {
        b
    }
}

/// Moving an item keeps the mark on what it was on, and moving it back puts everything back.
pub proof fn law_moving_follows_the_mark<T>(items: Seq<T>, marked: int, from: int, to: int)
    requires
        0 <= marked < items.len(),
        0 <= from < items.len(),
        0 <= to < items.len(),
    ensures
        0 <= followed(marked, from, to) < items.len(),
        reordered(items, from, to).len() == items.len(),
        reordered(items, from, to)[followed(marked, from, to)] == items[marked],
        reordered(reordered(items, from, to), to, from) == items,
        followed(followed(marked, from, to), to, from) == marked,
{
    let once = reordered(items, from, to);
    assert(once[to] == items[from]);
    assert(reordered(once, to, from) =~= items);
}

/// Moving an item neither loses one nor makes one.
pub proof fn law_moving_keeps_every_item<T>(items: Seq<T>, from: int, to: int)
    requires
        0 <= from < items.len(),
        0 <= to < items.len(),
    ensures
        reordered(items, from, to).to_multiset() == items.to_multiset(),
{
    broadcast use vstd::seq_lib::group_to_multiset_ensures;

    let rest = items.remove(from);
    vstd::seq_lib::to_multiset_remove(items, from);
    vstd::seq_lib::to_multiset_insert(rest, to, items[from]);
    assert(items.contains(items[from]));
    assert(reordered(items, from, to).to_multiset() =~= items.to_multiset());
}

/// A page: its rectangle, its stack of layers, and its print metadata.
///
/// There is always at least one layer, and one of them is the layer being painted.
#[derive(Debug, PartialEq)]
pub struct Page {
    rect: PageRect,
    /// Bottom-first, so index 0 is the layer furthest back.
    layers: Vec<Layer>,
    /// Index into `layers` of the layer being painted.
    active: usize,
    /// Dots per inch, for print and export. Metadata only.
    dpi: Scalar,
}

impl Clone for Page {
    fn clone(&self) -> (r: Page)
        ensures
            r.alike(self),
    {
        let layers = self.layers.clone();
        assert(layers@ =~= self.layers@);
        Page { rect: self.rect, layers, active: self.active, dpi: self.dpi }
    }
}

impl Page {
    /// The rectangle.
    pub closed spec fn area(&self) -> PageRect {
        self.rect
    }

    /// The layers, bottom layer first.
    pub closed spec fn stack(&self) -> Seq<Layer> {
        self.layers@
    }

    /// The index of the layer being painted.
    pub closed spec fn current(&self) -> int {
        self.active as int
    }

    /// Dots per inch.
    pub closed spec fn resolution(&self) -> Scalar {
        self.dpi
    }

    /// There is a layer, and the one being painted is there.
    pub open spec fn wf(&self) -> bool {
        &&& self.stack().len() > 0
        &&& 0 <= self.current() < self.stack().len()
    }

    /// Whether two pages are the same in everything a page has.
    pub open spec fn alike(&self, other: &Page) -> bool {
        &&& self.area() == other.area()
        &&& self.stack() == other.stack()
        &&& self.current() == other.current()
        &&& self.resolution() == other.resolution()
    }

    /// Whether two pages differ in their layers alone.
    pub open spec fn around(&self, other: &Page) -> bool {
        self.area() == other.area() && self.resolution() == other.resolution()
    }

    pub fn new(width: u32, height: u32) -> (p: Page)
        ensures
            p.begins(width, height, 0),
            p.wf(),
    {
        Self::with_layer_id(width, height, 0)
    }

    /// Whether this is an untouched page of a size, with one layer of an id.
    pub open spec fn begins(&self, width: u32, height: u32, layer_id: u32) -> bool {
        &&& self.area() == (PageRect { x: 0, y: 0, w: at_least_one(width), h: at_least_one(height) })
        &&& self.stack().len() == 1
        &&& self.stack()[0].key() == layer_id
        &&& self.stack()[0].title() == "Layer 1"@
        &&& self.stack()[0].looks() == Layer::plain()
        &&& self.stack()[0].made_of() == Content::Raster
        &&& self.current() == 0
        &&& self.resolution().bits == DEFAULT_DPI
    }

    /// A page whose sole layer has a given id.
    ///
    /// Layer ids are unique across the document, not the page, so the document hands the id down.
    pub fn with_layer_id(width: u32, height: u32, layer_id: u32) -> (p: Page)
        ensures
            p.begins(width, height, layer_id),
            p.wf(),
    {
        let mut layers: Vec<Layer> = Vec::new();
        layers.push(Layer::new(layer_id, "Layer 1".to_owned()));
        Page {
            rect: PageRect::from_size(width, height),
            layers,
            active: 0,
            dpi: Scalar { bits: DEFAULT_DPI },
        }
    }

    /// Rebuild a page exactly as it was, for loading a document.
    ///
    /// Returns `None` with no layers, because a page must always have somewhere to paint.
    pub fn restored(rect: PageRect, dpi: Scalar, layers: Vec<Layer>, active: usize) -> (p: Option<
        Page,
    >)
        ensures
            p is None <==> layers@.len() == 0,
            p matches Some(page) ==> {
                &&& page.wf()
                &&& page.area() == rect
                &&& page.stack() == layers@
                &&& page.current() == lesser(active as int, layers@.len() - 1)
                &&& page.resolution() == dpi.at_least_spec(Scalar { bits: ONE })
            },
    {
        if layers.len() == 0 {
            return None;
        }
        let last: usize = layers.len() - 1;
        let active: usize = if active <= last {
            active
        } else {
            last
        };
        Some(Page { rect, layers, active, dpi: dpi.at_least(Scalar { bits: ONE }) })
    }

    /// The page's rectangle in page coordinates.
    pub fn rect(&self) -> (r: PageRect)
        ensures
            r == self.area(),
    {
        self.rect
    }

    pub fn width(&self) -> (r: u32)
        ensures
            r == self.area().w,
    {
        self.rect.w
    }

    pub fn height(&self) -> (r: u32)
        ensures
            r == self.area().h,
    {
        self.rect.h
    }

    pub fn origin(&self) -> (r: (i32, i32))
        ensures
            r == (self.area().x, self.area().y),
    {
        self.rect.origin()
    }

    pub fn dpi(&self) -> (r: Scalar)
        ensures
            r == self.resolution(),
    {
        self.dpi
    }

    /// Set the resolution, which is at least one dot per inch.
    pub fn set_dpi(&mut self, dpi: Scalar)
        ensures
            final(self).resolution() == dpi.at_least_spec(Scalar { bits: ONE }),
            final(self).area() == old(self).area(),
            final(self).stack() == old(self).stack(),
            final(self).current() == old(self).current(),
    {
        self.dpi = dpi.at_least(Scalar { bits: ONE });
    }

    /// Whether a number is the highest layer id of a stack.
    pub open spec fn tops(stack: Seq<Layer>, id: u32) -> bool {
        &&& forall|i: int| 0 <= i < stack.len() ==> (#[trigger] stack[i]).key() <= id
        &&& exists|i: int| 0 <= i < stack.len() && (#[trigger] stack[i]).key() == id
    }

    /// The highest layer id on this page, so the document can keep its counter ahead.
    pub fn highest_layer_id(&self) -> (id: u32)
        requires
            self.wf(),
        ensures
            Page::tops(self.stack(), id),
    {
        let mut id: u32 = self.layers[0].id();
        assert(self.stack()[0].key() == id);
        let mut i: usize = 1;
        while i < self.layers.len()
            invariant
                1 <= i <= self.stack().len(),
                self.stack() == self.layers@,
                forall|j: int| 0 <= j < i ==> (#[trigger] self.stack()[j]).key() <= id,
                exists|j: int| 0 <= j < i && (#[trigger] self.stack()[j]).key() == id,
            decreases self.stack().len() - i,
        {
            let other: u32 = self.layers[i].id();
            assert(self.stack()[i as int].key() == other);
            if other > id {
                id = other;
            }
            i += 1;
        }
        id
    }

    /// The stack, bottom layer first.
    pub fn layers(&self) -> (r: &Vec<Layer>)
        ensures
            r@ == self.stack(),
    {
        &self.layers
    }

    pub fn layer_count(&self) -> (r: usize)
        ensures
            r == self.stack().len(),
    {
        self.layers.len()
    }

    /// Index of the layer being painted. Always valid.
    pub fn active_index(&self) -> (r: usize)
        ensures
            r == self.current(),
    {
        self.active
    }

    pub fn active_layer(&self) -> (r: &Layer)
        requires
            self.wf(),
        ensures
            *r == self.stack()[self.current()],
    {
        &self.layers[self.active]
    }

    pub fn active_layer_mut(&mut self) -> (r: &mut Layer)
        requires
            old(self).wf(),
        ensures
            *r == old(self).stack()[old(self).current()],
            final(self).stack() == old(self).stack().update(old(self).current(), *final(r)),
            final(self).current() == old(self).current(),
            final(self).around(old(self)),
    {
        &mut self.layers[self.active]
    }

    pub fn layer(&self, index: usize) -> (r: Option<&Layer>)
        ensures
            match r {
                Some(layer) => index < self.stack().len() && *layer == self.stack()[index as int],
                None => index >= self.stack().len(),
            },
    {
        if index < self.layers.len() {
            Some(&self.layers[index])
        } else {
            None
        }
    }

    pub fn layer_mut(&mut self, index: usize) -> (r: Option<&mut Layer>)
        ensures
            match r {
                Some(layer) => {
                    &&& index < old(self).stack().len()
                    &&& *layer == old(self).stack()[index as int]
                    &&& final(self).stack() == old(self).stack().update(
                        index as int,
                        *final(layer),
                    )
                    &&& final(self).current() == old(self).current()
                    &&& final(self).around(old(self))
                },
                None => index >= old(self).stack().len() && *final(self) == *old(self),
            },
    {
        if index < self.layers.len() {
            Some(&mut self.layers[index])
        } else {
            None
        }
    }

    /// Select a layer to paint on. Returns `false` if the index does not exist, so a stale index
    /// cannot leave the page with nothing to paint on.
    pub fn set_active(&mut self, index: usize) -> (r: bool)
        requires
            old(self).wf(),
        ensures
            final(self).wf(),
            r == (index < old(self).stack().len()),
            final(self).current() == if r {
                index as int
            } else {
                old(self).current()
            },
            final(self).stack() == old(self).stack(),
            final(self).around(old(self)),
    {
        if index >= self.layers.len() {
            return false;
        }
        self.active = index;
        true
    }

    /// Put a layer in at an index and select it.
    fn place(&mut self, at: usize, layer: Layer)
        requires
            old(self).wf(),
            at <= old(self).stack().len(),
        ensures
            final(self).wf(),
            final(self).stack() == old(self).stack().insert(at as int, layer),
            final(self).current() == at,
            final(self).around(old(self)),
    {
        self.layers.insert(at, layer);
        self.active = at;
    }

    /// Insert a new empty layer directly above `above`, and select it. Returns its index.
    pub fn insert_layer_above(&mut self, above: usize, id: u32, name: String) -> (at: usize)
        requires
            old(self).wf(),
            above < usize::MAX,
        ensures
            final(self).wf(),
            at == lesser(above + 1, old(self).stack().len() as int),
            final(self).stack().len() == old(self).stack().len() + 1,
            final(self).stack().remove(at as int) == old(self).stack(),
            final(self).stack()[at as int].key() == id,
            final(self).stack()[at as int].title() == name@,
            final(self).stack()[at as int].looks() == Layer::plain(),
            final(self).stack()[at as int].made_of() == Content::Raster,
            final(self).current() == at,
            final(self).around(old(self)),
    {
        let at: usize = if above < self.layers.len() {
            above + 1
        } else {
            self.layers.len()
        };
        let layer = Layer::new(id, name);
        self.place(at, layer);
        assert(self.stack().remove(at as int) =~= old(self).stack());
        at
    }

    /// Insert a new text layer directly above `above`, and select it. Returns its index.
    ///
    /// Its name comes from the text itself. A block that is still empty gets a placeholder.
    pub fn insert_text_layer_above(&mut self, above: usize, id: u32, block: TextBlock) -> (at: usize)
        requires
            old(self).wf(),
            above < usize::MAX,
        ensures
            final(self).wf(),
            at == lesser(above + 1, old(self).stack().len() as int),
            final(self).stack().len() == old(self).stack().len() + 1,
            final(self).stack().remove(at as int) == old(self).stack(),
            final(self).stack()[at as int].key() == id,
            final(self).stack()[at as int].title() == caption(block.text@),
            final(self).stack()[at as int].looks() == Layer::plain(),
            final(self).stack()[at as int].made_of() == Content::Text(Box::new(block)),
            final(self).current() == at,
            final(self).around(old(self)),
    {
        let at: usize = if above < self.layers.len() {
            above + 1
        } else {
            self.layers.len()
        };
        let name = layer_name_for(&block);
        let layer = Layer::new(id, name).with_text(block);
        self.place(at, layer);
        assert(self.stack().remove(at as int) =~= old(self).stack());
        at
    }

    /// Remove a layer, returning its id so its tiles can be released.
    ///
    /// Refuses to remove the last one: a page with no layers has nowhere to paint. The selection stays
    /// on its layer, so removing one below it shifts it down with the stack; where it was on the layer
    /// that goes, it is on the one that takes its place, or on the topmost.
    pub fn remove_layer(&mut self, index: usize) -> (r: Option<u32>)
        requires
            old(self).wf(),
        ensures
            final(self).wf(),
            match r {
                Some(id) => {
                    &&& old(self).stack().len() > 1
                    &&& index < old(self).stack().len()
                    &&& id == old(self).stack()[index as int].key()
                    &&& final(self).stack() == old(self).stack().remove(index as int)
                    &&& final(self).current() == if index < old(self).current() {
                        old(self).current() - 1
                    } else {
                        lesser(old(self).current(), old(self).stack().len() - 2)
                    }
                    &&& index != old(self).current() ==> final(self).stack()[final(self).current()]
                        == old(self).stack()[old(self).current()]
                    &&& final(self).around(old(self))
                },
                None => {
                    &&& old(self).stack().len() <= 1 || index >= old(self).stack().len()
                    &&& *final(self) == *old(self)
                },
            },
    {
        if self.layers.len() <= 1 || index >= self.layers.len() {
            return None;
        }
        let layer = self.layers.remove(index);
        let last: usize = self.layers.len() - 1;
        if index < self.active {
            self.active = self.active - 1;
        } else if self.active > last {
            self.active = last;
        }
        Some(layer.id())
    }

    /// Put a previously removed layer back at `index`, keeping its id, and select it.
    pub fn restore_layer(&mut self, index: usize, layer: Layer) -> (at: usize)
        requires
            old(self).wf(),
        ensures
            final(self).wf(),
            at == lesser(index as int, old(self).stack().len() as int),
            final(self).stack() == old(self).stack().insert(at as int, layer),
            final(self).current() == at,
            final(self).around(old(self)),
    {
        let at: usize = if index < self.layers.len() {
            index
        } else {
            self.layers.len()
        };
        self.place(at, layer);
        at
    }

    /// Move a layer to a new index, shifting the rest. Returns where it ended up.
    pub fn move_layer(&mut self, from: usize, to: usize) -> (r: Option<usize>)
        requires
            old(self).wf(),
        ensures
            final(self).wf(),
            final(self).around(old(self)),
            match r {
                Some(at) => {
                    &&& from < old(self).stack().len()
                    &&& at == lesser(to as int, old(self).stack().len() - 1)
                    &&& final(self).stack() == reordered(
                        old(self).stack(),
                        from as int,
                        at as int,
                    )
                    &&& final(self).current() == followed(
                        old(self).current(),
                        from as int,
                        at as int,
                    )
                    // The layer being painted is still the same one.
                    &&& final(self).stack()[final(self).current()]
                        == old(self).stack()[old(self).current()]
                },
                None => from >= old(self).stack().len() && *final(self) == *old(self),
            },
    {
        if from >= self.layers.len() {
            return None;
        }
        let last: usize = self.layers.len() - 1;
        let to: usize = if to <= last {
            to
        } else {
            last
        };
        proof {
            law_moving_follows_the_mark(self.stack(), self.current(), from as int, to as int);
        }
        if from == to {
            assert(reordered(self.stack(), from as int, to as int) =~= self.stack());
            return Some(to);
        }
        let layer = self.layers.remove(from);
        self.layers.insert(to, layer);
        if self.active == from {
            self.active = to;
        } else if from < self.active && to >= self.active {
            self.active = self.active - 1;
        } else if from > self.active && to <= self.active {
            self.active = self.active + 1;
        }
        Some(to)
    }

    /// Move the page to a new rectangle, keeping existing content exactly where it is. Returns how
    /// far the origin moved.
    pub fn resize(&mut self, rect: PageRect) -> (shift: (i32, i32))
        requires
            fits(rect.x - old(self).area().x),
            fits(rect.y - old(self).area().y),
        ensures
            shift.0 == rect.x - old(self).area().x,
            shift.1 == rect.y - old(self).area().y,
            final(self).area() == rect,
            final(self).stack() == old(self).stack(),
            final(self).current() == old(self).current(),
            final(self).resolution() == old(self).resolution(),
    {
        let shift = (rect.x - self.rect.x, rect.y - self.rect.y);
        self.rect = rect;
        shift
    }

    /// Grow the page on one side by `amount` pixels. Returns how far the origin moved.
    pub fn extend(&mut self, side: Side, amount: u32) -> (shift: (i32, i32))
        requires
            old(self).area().extendable(side, amount),
            fits(old(self).area().extended_spec(side, amount).x - old(self).area().x),
            fits(old(self).area().extended_spec(side, amount).y - old(self).area().y),
        ensures
            final(self).area() == old(self).area().extended_spec(side, amount),
            shift.0 == final(self).area().x - old(self).area().x,
            shift.1 == final(self).area().y - old(self).area().y,
            final(self).stack() == old(self).stack(),
            final(self).current() == old(self).current(),
            final(self).resolution() == old(self).resolution(),
    {
        let rect = self.rect.extended(side, amount);
        self.resize(rect)
    }
}

/// Removing a layer and putting it back where it was leaves the stack as it was.
pub proof fn law_removal_is_undone_by_restoring(
    before: Page,
    without: Page,
    after: Page,
    index: int,
)
    requires
        before.wf(),
        0 <= index < before.stack().len(),
        without.stack() == before.stack().remove(index),
        after.stack() == without.stack().insert(index, before.stack()[index]),
    ensures
        after.stack() == before.stack(),
{
    assert(after.stack() =~= before.stack());
}

/// A rectangle holds the pixels from its corner on, as many across and down as it is wide and high: its
/// first row and column are in it, and those one past its last are not.
pub proof fn law_a_rectangle_holds_its_own_pixels(rect: PageRect, x: int, y: int)
    requires
        rect.w <= i32::MAX,
        rect.h <= i32::MAX,
    ensures
        rect.has(x, y) <==> 0 <= x - rect.x < rect.w && 0 <= y - rect.y < rect.h,
        rect.end_x() == rect.x + rect.w,
        rect.end_y() == rect.y + rect.h,
{
}

/// A length read as a signed one is itself up to 2^31 - 1, and 2^32 less above that.
pub proof fn law_a_length_reads_as_a_cast_does(n: u32)
    ensures
        n < 0x8000_0000 ==> signed(n) == n,
        n >= 0x8000_0000 ==> signed(n) == n - 0x1_0000_0000,
        at_least_one(n) >= 1,
        n >= 1 ==> at_least_one(n) == n,
{
}

/// Of two numbers the lesser is one of them, and is no more than either.
pub proof fn law_the_lesser_is_no_more_than_either(a: int, b: int)
    ensures
        lesser(a, b) <= a,
        lesser(a, b) <= b,
        lesser(a, b) == a || lesser(a, b) == b,
{
}

/// A resize loses pixels exactly when some pixel of the old rectangle is not in the new one, for an old
/// one that has any.
pub proof fn law_a_resize_loses_what_it_leaves_out(r: PageResize)
    requires
        1 <= r.old.w <= i32::MAX,
        1 <= r.old.h <= i32::MAX,
    ensures
        r.drops() <==> exists|x: int, y: int| #[trigger] r.old.has(x, y) && !r.new.has(x, y),
{
    law_covering_is_holding_every_pixel(r.new, r.old);
    if r.drops() {
        assert(!(forall|x: int, y: int| #[trigger] r.old.has(x, y) ==> r.new.has(x, y)));
    }
}

/// Content stays where it is in a resize, so in a picture that starts at the page's corner it moves the
/// other way from the corner: a pixel of the page is at the same place of the page before and after.
pub proof fn law_content_stays_put(r: PageResize, x: int, y: int)
    ensures
        (x - r.old.x) - r.shift().0 == x - r.new.x,
        (y - r.old.y) - r.shift().1 == y - r.new.y,
        r.swapped().old == r.new,
        r.swapped().new == r.old,
{
}

/// Moving an item puts it where it was sent, and leaves the order of all the others as it was.
pub proof fn law_moving_sends_one_item<T>(items: Seq<T>, from: int, to: int, i: int)
    requires
        0 <= from < items.len(),
        0 <= to < items.len(),
        0 <= i < items.len(),
    ensures
        reordered(items, from, to)[to] == items[from],
        i < from && i < to ==> reordered(items, from, to)[i] == items[i],
        i > from && i > to ==> reordered(items, from, to)[i] == items[i],
        from < i <= to ==> reordered(items, from, to)[i - 1] == items[i],
        to <= i < from ==> reordered(items, from, to)[i + 1] == items[i],
{
}

/// A text layer is called what the first line of its text says, without the white space around it,
/// and what comes after that line makes no difference. Past 24 characters it is cut there and ends in
/// an ellipsis, and a text whose first line says nothing is called "Text": a name is never empty, nor
/// longer than 25 characters.
pub proof fn law_a_caption_is_the_first_line(line: Seq<char>, rest: Seq<char>)
    requires
        forall|i: int| 0 <= i < line.len() ==> #[trigger] line[i] != '\n',
    ensures
        caption(line.push('\r').push('\n') + rest) == caption(line),
        line.len() == 0 || line[line.len() - 1] != '\r' ==> caption(line.push('\n') + rest) == caption(
            line,
        ),
        1 <= caption(line).len() <= 25,
        all_white(line) ==> caption(line) == seq!['T', 'e', 'x', 't'],
        line.len() > 0 && !white(line[0]) && !white(line[line.len() - 1]) ==> {
            &&& line.len() <= 24 ==> caption(line) == line
            &&& line.len() > 24 ==> caption(line) == line.take(24).push('\u{2026}')
        },
{
    reveal_strlit("Text");
    law_the_first_line_ends_at_the_first_break(line, rest);
    assert("Text"@ =~= seq!['T', 'e', 'x', 't']);
    if all_white(line) {
        law_trimming_takes_only_white_ends(line, 0, 0);
        assert(line.subrange(0, 0) =~= Seq::<char>::empty());
    }
    if line.len() > 0 && !white(line[0]) && !white(line[line.len() - 1]) {
        law_trimming_takes_only_white_ends(line, 0, line.len() as int);
        assert(line.subrange(0, line.len() as int) =~= line);
    }
}

/// White space around the first line of a caption makes no difference.
pub proof fn law_a_caption_ignores_the_white_around_it(line: Seq<char>, from: int, to: int)
    requires
        forall|i: int| 0 <= i < line.len() ==> #[trigger] line[i] != '\n',
        0 <= from < to <= line.len(),
        forall|i: int| 0 <= i < from ==> white(#[trigger] line[i]),
        forall|i: int| to <= i < line.len() ==> white(#[trigger] line[i]),
        !white(line[from]),
        !white(line[to - 1]),
    ensures
        caption(line) == caption(line.subrange(from, to)),
{
    let inner = line.subrange(from, to);
    assert forall|i: int| 0 <= i < inner.len() implies #[trigger] inner[i] != '\n' by {
        assert(inner[i] == line[from + i]);
    }
    law_the_first_line_ends_at_the_first_break(line, Seq::empty());
    law_the_first_line_ends_at_the_first_break(inner, Seq::empty());
    law_trimming_takes_only_white_ends(line, from, to);
    law_trimming_takes_only_white_ends(inner, 0, inner.len() as int);
    assert(inner.subrange(0, inner.len() as int) =~= inner);
}

/// A new page is as large as was asked for, at the origin, at 72 dots per inch, and has one layer, which
/// is the one painted on and nothing has been done to.
pub proof fn law_a_new_page_is_ready_to_paint_on(
    page: Page,
    width: u32,
    height: u32,
    layer_id: u32,
)
    requires
        page.begins(width, height, layer_id),
    ensures
        page.wf(),
        page.area().x == 0,
        page.area().y == 0,
        width >= 1 ==> page.area().w == width,
        height >= 1 ==> page.area().h == height,
        page.area().w >= 1,
        page.area().h >= 1,
        page.resolution().bits == 0x4290_0000,
        page.stack().len() == 1,
        page.current() == 0,
        page.stack()[0].key() == layer_id,
        page.stack()[0].paintable(),
{
    crate::layer::law_a_new_layer_takes_paint_and_shows_it(page.stack()[0]);
}

/// Two pages that are alike are the same in everything that can be asked of a page, and two that are the
/// same around their layers have the same rectangle and resolution.
pub proof fn law_pages_alike_are_the_same_throughout(a: Page, b: Page)
    ensures
        a.alike(&b) <==> a.area() == b.area() && a.stack() == b.stack() && a.current() == b.current()
            && a.resolution() == b.resolution(),
        a.around(&b) <==> a.area() == b.area() && a.resolution() == b.resolution(),
{
}

/// A page can be extended as far as its corner and its lengths can be told, and no less far.
pub proof fn law_a_page_extends_as_far_as_it_can_be_told(r: PageRect, side: Side, amount: u32)
    requires
        amount <= i32::MAX,
    ensures
        r.extendable(side, amount) <==> match side {
            Side::Top => r.y - amount >= -0x8000_0000 && r.h + amount <= 0xFFFF_FFFF,
            Side::Bottom => r.h + amount <= 0xFFFF_FFFF,
            Side::Left => r.x - amount >= -0x8000_0000 && r.w + amount <= 0xFFFF_FFFF,
            Side::Right => r.w + amount <= 0xFFFF_FFFF,
        },
        r.has_room(side, amount) <==> if side is Top || side is Bottom {
            r.h + amount <= 0x7FFF_FFFF
        } else {
            r.w + amount <= 0x7FFF_FFFF
        },
{
}

} // verus!
