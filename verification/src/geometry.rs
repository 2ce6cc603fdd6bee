//! Rectangles on the screen, and the rules about where windows and popups may be.
//!
//! Lengths are whole numbers of a small unit, [`PIXEL`] of them to a pixel, so that a sum or a
//! comparison is exact.

use vstd::prelude::*;

verus! {

/// How many units make a pixel.
pub const PIXEL: i64 = 256;

/// The furthest from the origin that is worked with: far beyond any screen.
pub const FAR: i64 = 0x100_0000_0000;

/// The largest size that is worked with.
pub const WIDE: i64 = 0x80_0000_0000;

/// Which way a split divides its space, or a seam between two panels moves.
#[derive(Clone, Copy, Debug, PartialEq, Eq, Structural)]
pub enum Axis {
    /// Side by side.
    Horizontal,
    /// One above the other.
    Vertical,
}

/// A rectangle: a corner and a size.
#[derive(Clone, Copy, Debug, PartialEq, Eq, Structural)]
pub struct Rect {
    pub x: i64,
    pub y: i64,
    pub w: i64,
    pub h: i64,
}

/// A point.
pub type Spot = (i64, i64);

/// The smaller of two lengths.
pub open spec fn least(a: int, b: int) -> int {
    if a <= b {
        a
    } else {
        b
    }
}

/// The larger of two lengths.
pub open spec fn most(a: int, b: int) -> int {
    if a >= b {
        a
    } else {
        b
    }
}

/// The smaller of two lengths.
pub fn lesser_of(a: i64, b: i64) -> (r: i64)
    ensures
        r == least(a as int, b as int),
{
    if a <= b {
        a
    } else {
        b
    }
}

/// The larger of two lengths.
pub fn larger_of(a: i64, b: i64) -> (r: i64)
    ensures
        r == most(a as int, b as int),
{
    if a >= b {
        a
    } else {
        b
    }
}

/// Whether a length is one that is worked with.
pub open spec fn near(n: int) -> bool {
    -FAR <= n <= FAR
}

/// Whether a point is near enough to be worked with.
pub open spec fn near_spot(p: Spot) -> bool {
    near(p.0 as int) && near(p.1 as int)
}

impl Rect {
    /// Whether the rectangle is near enough, and of no negative size.
    pub open spec fn tame(self) -> bool {
        near(self.x as int) && near(self.y as int) && 0 <= self.w <= WIDE && 0 <= self.h <= WIDE
    }

    /// Whether a point is inside: on the left and top edges it is, on the right and bottom it is not.
    pub open spec fn holds(self, x: int, y: int) -> bool {
        self.x <= x < self.x + self.w && self.y <= y < self.y + self.h
    }

    /// Whether another rectangle is inside.
    pub open spec fn encloses(self, other: Rect) -> bool {
        &&& self.x <= other.x && other.x + other.w <= self.x + self.w
        &&& self.y <= other.y && other.y + other.h <= self.y + self.h
    }

    /// Whether the rectangle is near enough, and of no negative size.
    pub fn is_tame(&self) -> (r: bool)
        ensures
            r == self.tame(),
    {
        -FAR <= self.x && self.x <= FAR && -FAR <= self.y && self.y <= FAR && 0 <= self.w && self.w
            <= WIDE && 0 <= self.h && self.h <= WIDE
    }

    pub fn new(x: i64, y: i64, w: i64, h: i64) -> (r: Rect)
        ensures
            r == (Rect { x, y, w, h }),
    {
        Rect { x, y, w, h }
    }

    /// Whether a point is inside.
    pub fn contains(&self, x: i64, y: i64) -> (r: bool)
        requires
            self.tame(),
        ensures
            r == self.holds(x as int, y as int),
    {
        self.x <= x && x < self.x + self.w && self.y <= y && y < self.y + self.h
    }
}

/// The lengths a look is built from, as far as the rules about space need them.
#[derive(Clone, Copy, Debug, PartialEq, Eq, Structural)]
pub struct Metrics {
    /// The height of a named header.
    pub header: i64,
    /// The thickness of a compact one.
    pub header_compact: i64,
    /// The height of a row of controls.
    pub row: i64,
    /// The space around controls.
    pub padding: i64,
    /// The space between panels.
    pub gutter: i64,
    /// How wide a divider or a window's border is to take hold of.
    pub splitter_grab: i64,
}

/// The largest length a look may have.
pub const LONG: i64 = 0x1000_0000;

impl Metrics {
    /// Whether the lengths are sensible: none negative, none absurd.
    pub open spec fn tame(self) -> bool {
        &&& 0 <= self.header <= LONG
        &&& 0 <= self.header_compact <= LONG
        &&& 0 <= self.row <= LONG
        &&& 0 <= self.padding <= LONG
        &&& 0 <= self.gutter <= LONG
        &&& 0 <= self.splitter_grab <= LONG
    }

    /// The smallest a floating window may be, on either axis.
    pub open spec fn smallest(self) -> int {
        most(self.header as int, self.row as int)
    }
}

/// The smallest a floating window may be, on either axis: something left to take hold of.
pub fn least_window(m: &Metrics) -> (r: i64)
    ensures
        r == m.smallest(),
{
    larger_of(m.header, m.row)
}

/// Which way a popup opens from the control it belongs to.
#[derive(Clone, Copy, Debug, PartialEq, Eq, Structural)]
pub enum Anchor {
    /// Under the control, for a menu bar running across.
    Below,
    /// Beside it, for a menu bar running down.
    Right,
}

/// A length moved as little as it takes to be within a range that starts at `low`, where a range
/// that is empty counts as its start.
pub open spec fn slid(n: int, low: int, high: int) -> int {
    most(least(n, high), low)
}

/// Where a popup of a size starts along one axis: after the control where it fits there or fits
/// nowhere, and else before it.
pub open spec fn opened(start: int, len: int, size: int, low: int, high: int) -> int {
    let after = start + len;
    if after + size <= high || start - size < low {
        after
    } else {
        start - size
    }
}

/// Where a popup goes when it belongs to a particular control.
pub open spec fn anchored(anchor: Rect, size: (i64, i64), side: Anchor, screen: Rect) -> (
    int,
    int,
    int,
    int,
) {
    let w = least(size.0 as int, screen.w as int);
    let h = least(size.1 as int, screen.h as int);
    let right = screen.x + screen.w;
    let bottom = screen.y + screen.h;
    let (x, y) = match side {
        Anchor::Below => (
            anchor.x as int,
            opened(anchor.y as int, anchor.h as int, h, screen.y as int, bottom),
        ),
        Anchor::Right => (
            opened(anchor.x as int, anchor.w as int, w, screen.x as int, right),
            anchor.y as int,
        ),
    };
    (slid(x, screen.x as int, right - w), slid(y, screen.y as int, bottom - h), w, h)
}

/// Where a popup goes when it belongs to a particular control.
///
/// It flips rather than sliding: clamping a menu to the bottom of the window would slide it up over
/// the button that opened it. Sliding is only the last resort, for a popup taller than the window.
pub fn anchored_rect(anchor: Rect, size: (i64, i64), side: Anchor, screen: Rect) -> (r: Rect)
    requires
        anchor.tame(),
        screen.on_a_desk(),
        0 <= size.0 <= WIDE,
        0 <= size.1 <= WIDE,
    ensures
        (r.x as int, r.y as int, r.w as int, r.h as int) == anchored(anchor, size, side, screen),
        r.tame(),
        // It is always somewhere it can be reached.
        screen.encloses(r),
{
    let w: i64 = lesser_of(size.0, screen.w);
    let h: i64 = lesser_of(size.1, screen.h);
    let right: i64 = screen.x + screen.w;
    let bottom: i64 = screen.y + screen.h;
    let (x, y): (i64, i64) = match side {
        Anchor::Below => {
            let below: i64 = anchor.y + anchor.h;
            let y: i64 = if below + h <= bottom || anchor.y - h < screen.y {
                below
            } else {
                anchor.y - h
            };
            (anchor.x, y)
        },
        Anchor::Right => {
            let beside: i64 = anchor.x + anchor.w;
            let x: i64 = if beside + w <= right || anchor.x - w < screen.x {
                beside
            } else {
                anchor.x - w
            };
            (x, anchor.y)
        },
    };
    Rect::new(
        larger_of(lesser_of(x, right - w), screen.x),
        larger_of(lesser_of(y, bottom - h), screen.y),
        w,
        h,
    )
}

/// A popup of a size, opened at a point and kept inside the window.
pub fn popup_rect(at: Spot, size: (i64, i64), screen: Rect) -> (r: Rect)
    requires
        near_spot(at),
        screen.on_a_desk(),
        0 <= size.0 <= WIDE,
        0 <= size.1 <= WIDE,
    ensures
        r.w == least(size.0 as int, screen.w as int),
        r.h == least(size.1 as int, screen.h as int),
        r.x == slid(at.0 as int, screen.x as int, screen.x + screen.w - r.w),
        r.y == slid(at.1 as int, screen.y as int, screen.y + screen.h - r.h),
        r.tame(),
        screen.encloses(r),
{
    let w: i64 = lesser_of(size.0, screen.w);
    let h: i64 = lesser_of(size.1, screen.h);
    Rect::new(
        larger_of(lesser_of(at.0, screen.x + screen.w - w), screen.x),
        larger_of(lesser_of(at.1, screen.y + screen.h - h), screen.y),
        w,
        h,
    )
}

/// How wide a popup is: room for its widest label, whatever sits beside it, and the padding, but no
/// wider than the window.
pub fn popup_width(widest: i64, m: &Metrics, screen: Rect) -> (r: i64)
    requires
        0 <= widest <= WIDE,
        m.tame(),
        screen.on_a_desk(),
    ensures
        r == least(widest + m.row * 8 / 5 + 4 * m.padding, screen.w as int),
{
    lesser_of(widest + m.row * 8 / 5 + m.padding * 4, screen.w)
}

/// How tall a popup is: what its controls take and the padding, but no taller than the window.
pub fn popup_height(extent: i64, m: &Metrics, screen: Rect) -> (r: i64)
    requires
        0 <= extent <= WIDE,
        m.tame(),
        screen.on_a_desk(),
    ensures
        r == least(extent + 2 * m.padding, screen.h as int),
{
    lesser_of(extent + m.padding * 2, screen.h)
}

/// A rectangle with `reach` added on every side.
pub open spec fn grown_by(rect: Rect, reach: int) -> (int, int, int, int) {
    (rect.x - reach, rect.y - reach, rect.w + 2 * reach, rect.h + 2 * reach)
}

/// A rectangle with `reach` added on every side.
pub fn grown(rect: Rect, reach: i64) -> (r: Rect)
    requires
        rect.tame(),
        0 <= reach <= LONG,
    ensures
        (r.x as int, r.y as int, r.w as int, r.h as int) == grown_by(rect, reach as int),
{
    Rect::new(rect.x - reach, rect.y - reach, rect.w + 2 * reach, rect.h + 2 * reach)
}

/// Whether a point is in a rectangle with `reach` added on every side.
pub open spec fn within(rect: Rect, reach: int, x: int, y: int) -> bool {
    rect.x - reach <= x < rect.x + rect.w + reach && rect.y - reach <= y < rect.y + rect.h + reach
}

/// Whether a point is in a rectangle with `reach` added on every side.
pub fn reaches(rect: Rect, reach: i64, x: i64, y: i64) -> (r: bool)
    requires
        rect.tame(),
        0 <= reach <= LONG,
    ensures
        r == within(rect, reach as int, x as int, y as int),
{
    rect.x - reach <= x && x < rect.x + rect.w + reach && rect.y - reach <= y && y < rect.y + rect.h
        + reach
}

/// A rectangle with `by` taken off every side.
pub open spec fn inset_by(rect: Rect, by: int) -> Rect {
    Rect {
        x: (rect.x + by) as i64,
        y: (rect.y + by) as i64,
        w: most(rect.w - 2 * by, 0) as i64,
        h: most(rect.h - 2 * by, 0) as i64,
    }
}

/// A rectangle with `by` taken off every side, and no size where it was too small for that.
pub fn inset(rect: Rect, by: i64) -> (r: Rect)
    requires
        rect.tame(),
        0 <= by <= LONG,
    ensures
        r == inset_by(rect, by as int),
{
    Rect::new(rect.x + by, rect.y + by, larger_of(rect.w - 2 * by, 0), larger_of(rect.h - 2 * by, 0))
}

/// A bar of thickness `t` down the middle of a divider's grab region.
pub fn centred(rect: Rect, axis: Axis, t: i64) -> (r: Rect)
    requires
        rect.tame(),
        0 <= t <= LONG,
    ensures
        match axis {
            Axis::Horizontal => r == (Rect {
                x: (rect.x + rect.w / 2 - t / 2) as i64,
                y: rect.y,
                w: t,
                h: rect.h,
            }),
            Axis::Vertical => r == (Rect {
                x: rect.x,
                y: (rect.y + rect.h / 2 - t / 2) as i64,
                w: rect.w,
                h: t,
            }),
        },
{
    match axis {
        Axis::Horizontal => Rect::new(rect.x + rect.w / 2 - t / 2, rect.y, t, rect.h),
        Axis::Vertical => Rect::new(rect.x, rect.y + rect.h / 2 - t / 2, rect.w, t),
    }
}

/// A window moved as little as it takes to be taken hold of again.
///
/// It may hang off an edge, but never so far that the bar it is dragged by is gone, and never above
/// the top, where that bar is.
pub open spec fn held(rect: Rect, screen: Rect, keep: int) -> Rect {
    Rect {
        x: slid(rect.x as int, screen.x + keep - rect.w, screen.x + screen.w - keep) as i64,
        y: slid(rect.y as int, screen.y as int, screen.y + screen.h - keep) as i64,
        w: most(rect.w as int, keep) as i64,
        h: most(rect.h as int, keep) as i64,
    }
}

/// A window that is held is one that can be worked with.
pub proof fn lemma_held(rect: Rect, screen: Rect, keep: int)
    requires
        -4 * FAR <= rect.x <= 4 * FAR,
        -4 * FAR <= rect.y <= 4 * FAR,
        0 <= rect.w <= WIDE,
        0 <= rect.h <= WIDE,
        screen.on_a_desk(),
        0 <= keep <= LONG,
    ensures
        held(rect, screen, keep).tame(),
{
}

/// Keep a floating panel somewhere it can be taken hold of again.
pub fn hold_on_screen(rect: Rect, screen: Rect, m: &Metrics) -> (r: Rect)
    requires
        -4 * FAR <= rect.x <= 4 * FAR,
        -4 * FAR <= rect.y <= 4 * FAR,
        0 <= rect.w <= WIDE,
        0 <= rect.h <= WIDE,
        screen.on_a_desk(),
        m.tame(),
    ensures
        r == held(rect, screen, m.smallest()),
        r.tame(),
{
    let keep: i64 = least_window(m);
    Rect::new(
        larger_of(
            lesser_of(rect.x, screen.x + screen.w - keep),
            screen.x + keep - rect.w,
        ),
        // Never above the top: the header is at the top of the panel, so letting it go up would put
        // the one grabbable part off screen entirely.
        larger_of(lesser_of(rect.y, screen.y + screen.h - keep), screen.y),
        larger_of(rect.w, keep),
        larger_of(rect.h, keep),
    )
}

impl Rect {
    /// Whether the rectangle is one that a screen can be: well inside what is worked with.
    pub open spec fn on_a_desk(self) -> bool {
        &&& -LONG <= self.x <= LONG
        &&& -LONG <= self.y <= LONG
        &&& 0 <= self.w <= LONG
        &&& 0 <= self.h <= LONG
    }
}

/// A window that is held keeps at least `keep` units of itself on the screen on both axes, and its
/// top edge is on the screen, so long as the screen is no smaller than twice that; and holding it
/// again changes nothing.
pub proof fn law_a_held_window_can_be_taken_hold_of(rect: Rect, screen: Rect, keep: int)
    requires
        rect.tame(),
        screen.on_a_desk(),
        0 <= keep <= LONG,
        2 * keep <= screen.w,
        2 * keep <= screen.h,
    ensures
        ({
            let r = held(rect, screen, keep);
            &&& r.x <= screen.x + screen.w - keep
            &&& r.x + r.w >= screen.x + keep
            &&& screen.y <= r.y <= screen.y + screen.h - keep
            &&& r.w >= keep
            &&& r.h >= keep
            &&& rect.w >= keep && rect.h >= keep ==> held(r, screen, keep) == r
        }),
{
}

/// Which edges of a window are being pulled: -1 for the left or the top, 1 for the right or the
/// bottom, 0 for neither.
#[derive(Clone, Copy, Debug, PartialEq, Eq, Structural)]
pub struct Pull {
    pub x: i8,
    pub y: i8,
}

/// One axis of a pull: the edge that is pulled moves by `by`, the other stays put, and the size
/// never falls below `floor`.
pub open spec fn pulled(low: int, size: int, side: int, by: int, floor: int) -> (int, int) {
    if side == -1 {
        let now = most(size - by, floor);
        (low + size - now, now)
    } else if side == 1 {
        (low, most(size + by, floor))
    } else {
        (low, size)
    }
}

/// Pull a window's edges by a distance, down to a smallest size.
pub fn pull_edges(was: Rect, pull: Pull, dx: i64, dy: i64, floor: i64) -> (r: Rect)
    requires
        was.tame(),
        -2 * FAR <= dx <= 2 * FAR,
        -2 * FAR <= dy <= 2 * FAR,
        0 <= floor <= LONG,
    ensures
        (r.x as int, r.w as int) == pulled(
            was.x as int,
            was.w as int,
            pull.x as int,
            dx as int,
            floor as int,
        ),
        (r.y as int, r.h as int) == pulled(
            was.y as int,
            was.h as int,
            pull.y as int,
            dy as int,
            floor as int,
        ),
        -4 * FAR <= r.x <= 4 * FAR,
        -4 * FAR <= r.y <= 4 * FAR,
        0 <= r.w <= 4 * FAR,
        0 <= r.h <= 4 * FAR,
{
    let (x, w): (i64, i64) = pull_axis(was.x, was.w, pull.x, dx, floor);
    let (y, h): (i64, i64) = pull_axis(was.y, was.h, pull.y, dy, floor);
    Rect::new(x, y, w, h)
}

/// One axis of a pull.
fn pull_axis(low: i64, size: i64, side: i8, by: i64, floor: i64) -> (r: (i64, i64))
    requires
        near(low as int),
        0 <= size <= FAR,
        -2 * FAR <= by <= 2 * FAR,
        0 <= floor <= LONG,
    ensures
        (r.0 as int, r.1 as int) == pulled(
            low as int,
            size as int,
            side as int,
            by as int,
            floor as int,
        ),
{
    if side == -1 {
        let now: i64 = larger_of(size - by, floor);
        (low + size - now, now)
    } else if side == 1 {
        (low, larger_of(size + by, floor))
    } else {
        (low, size)
    }
}

/// One axis of the rule for a window being sized: the edge that was pulled stops where `keep` units
/// of the window are still on the screen, and at the screen's start where `floor` says so; the other
/// edge stays put.
pub open spec fn sized(
    low: int,
    size: int,
    side: int,
    lo: int,
    hi: int,
    keep: int,
    floor: bool,
) -> (int, int) {
    let high = low + size;
    if side == -1 {
        let want = if floor {
            most(least(low, hi - keep), lo)
        } else {
            least(low, hi - keep)
        };
        (want, most(high - want, keep))
    } else if side == 1 {
        (low, most(most(high, lo + keep) - low, keep))
    } else {
        (low, size)
    }
}

/// Keep `keep` units on screen of a window being sized.
///
/// Only the edge that was pulled gives way: sliding the window back would shift the edge nobody
/// touched. The top is held to the screen as well, because a window's header is along its top.
pub fn hold_size_on_screen(rect: Rect, pull: Pull, screen: Rect, keep: i64) -> (r: Rect)
    requires
        -4 * FAR <= rect.x <= 4 * FAR,
        -4 * FAR <= rect.y <= 4 * FAR,
        0 <= rect.w <= 4 * FAR,
        0 <= rect.h <= 4 * FAR,
        screen.on_a_desk(),
        0 <= keep <= LONG,
    ensures
        (r.x as int, r.w as int) == sized(
            rect.x as int,
            rect.w as int,
            pull.x as int,
            screen.x as int,
            screen.x + screen.w,
            keep as int,
            false,
        ),
        (r.y as int, r.h as int) == sized(
            rect.y as int,
            rect.h as int,
            pull.y as int,
            screen.y as int,
            screen.y + screen.h,
            keep as int,
            true,
        ),
{
    let (x, w): (i64, i64) = size_axis(
        rect.x,
        rect.w,
        pull.x,
        screen.x,
        screen.x + screen.w,
        keep,
        false,
    );
    let (y, h): (i64, i64) = size_axis(
        rect.y,
        rect.h,
        pull.y,
        screen.y,
        screen.y + screen.h,
        keep,
        true,
    );
    Rect::new(x, y, w, h)
}

/// One axis of the rule for a window being sized.
fn size_axis(low: i64, size: i64, side: i8, lo: i64, hi: i64, keep: i64, floor: bool) -> (r: (
    i64,
    i64,
))
    requires
        -4 * FAR <= low <= 4 * FAR,
        0 <= size <= 4 * FAR,
        -LONG <= lo <= hi <= 2 * LONG,
        0 <= keep <= LONG,
    ensures
        (r.0 as int, r.1 as int) == sized(
            low as int,
            size as int,
            side as int,
            lo as int,
            hi as int,
            keep as int,
            floor,
        ),
{
    let high: i64 = low + size;
    if side == -1 {
        let near: i64 = lesser_of(low, hi - keep);
        let want: i64 = if floor {
            larger_of(near, lo)
        } else {
            near
        };
        (want, larger_of(high - want, keep))
    } else if side == 1 {
        (low, larger_of(larger_of(high, lo + keep) - low, keep))
    } else {
        (low, size)
    }
}

/// A rectangle held to what is worked with: its corner to [`FAR`] from the origin, and its size to
/// [`WIDE`].
pub open spec fn within_reach(x: int, y: int, w: int, h: int) -> Rect {
    Rect {
        x: most(least(x, FAR as int), -FAR) as i64,
        y: most(least(y, FAR as int), -FAR) as i64,
        w: most(least(w, WIDE as int), 0) as i64,
        h: most(least(h, WIDE as int), 0) as i64,
    }
}

/// A rectangle held to what is worked with. One that is already is left as it is.
pub fn bring_within_reach(rect: Rect) -> (r: Rect)
    ensures
        r == within_reach(rect.x as int, rect.y as int, rect.w as int, rect.h as int),
        r.tame(),
        rect.tame() ==> r == rect,
{
    Rect::new(
        larger_of(lesser_of(rect.x, FAR), -FAR),
        larger_of(lesser_of(rect.y, FAR), -FAR),
        larger_of(lesser_of(rect.w, WIDE), 0),
        larger_of(lesser_of(rect.h, WIDE), 0),
    )
}

/// Sizing a window moves only the edge that was pulled: pulling the right or the bottom leaves the
/// corner where it was, and an axis that is not pulled does not change at all.
pub proof fn law_only_the_pulled_edge_gives_way(
    low: int,
    size: int,
    side: int,
    lo: int,
    hi: int,
    keep: int,
    floor: bool,
)
    requires
        size >= 0,
        keep >= 0,
    ensures
        side != -1 ==> sized(low, size, side, lo, hi, keep, floor).0 == low,
        side != -1 && side != 1 ==> sized(low, size, side, lo, hi, keep, floor).1 == size,
        side == 1 || side == -1 ==> sized(low, size, side, lo, hi, keep, floor).1 >= keep,
        side == -1 && sized(low, size, side, lo, hi, keep, floor).1 > keep ==> sized(
            low,
            size,
            side,
            lo,
            hi,
            keep,
            floor,
        ).0 + sized(low, size, side, lo, hi, keep, floor).1 == low + size,
{
}

/// A window dragged past its smallest size and back comes out exactly as it went in: a pull is
/// worked out from the press, so a distance of nothing gives back the window at the press, whatever
/// was pulled in between.
pub proof fn law_pulling_back_restores(low: int, size: int, side: int, floor: int)
    requires
        size >= floor,
    ensures
        pulled(low, size, side, 0, floor) == (low, size),
{
}

/// Where a floating panel goes when it is first lifted out, with some windows already there.
pub open spec fn first_place(screen: Rect, already: int, m: Metrics) -> Rect {
    let step = m.header * (already % 6);
    let asked = Rect {
        x: (screen.x + 60 * PIXEL + step) as i64,
        y: (screen.y + 60 * PIXEL + step) as i64,
        w: least(screen.w * 22 / 100, 320 * PIXEL) as i64,
        h: least(screen.h * 35 / 100, 420 * PIXEL) as i64,
    };
    held(asked, screen, m.smallest())
}

/// A window that is first lifted out is one that can be worked with.
pub proof fn lemma_first_place(screen: Rect, already: int, m: Metrics)
    requires
        screen.on_a_desk(),
        m.tame(),
        already >= 0,
    ensures
        first_place(screen, already, m).tame(),
{
    let turn = already % 6;
    assert(0 <= m.header * turn <= 5 * LONG) by (nonlinear_arith)
        requires
            0 <= m.header <= LONG,
            0 <= turn <= 5,
    ;
}

/// Where a floating panel goes when it is first lifted out.
///
/// Offset from the top-left rather than centred, so several lifted in a row do not land exactly on
/// top of one another.
pub fn first_float(screen: Rect, already: usize, m: &Metrics) -> (r: Rect)
    requires
        screen.on_a_desk(),
        m.tame(),
    ensures
        r == first_place(screen, already as int, *m),
        r.tame(),
{
    let turn: i64 = (already % 6) as i64;
    proof {
        assert(0 <= m.header * turn <= 5 * LONG) by (nonlinear_arith)
            requires
                0 <= m.header <= LONG,
                0 <= turn <= 5,
        ;
    }
    let step: i64 = m.header * turn;
    let w: i64 = lesser_of(screen.w * 22 / 100, 320 * PIXEL);
    let h: i64 = lesser_of(screen.h * 35 / 100, 420 * PIXEL);
    hold_on_screen(
        Rect::new(screen.x + 60 * PIXEL + step, screen.y + 60 * PIXEL + step, w, h),
        screen,
        m,
    )
}

/// How much room a strip's contents need: one row and the padding around it.
pub fn strip_content_min(m: &Metrics) -> (r: i64)
    requires
        m.tame(),
    ensures
        r == m.row + 2 * m.padding,
{
    m.row + m.padding * 2
}

/// How tall the slot holding a strip has to be: the gutter is taken out of the slot before the panel
/// sees it.
pub fn strip_min(m: &Metrics) -> (r: i64)
    requires
        m.tame(),
    ensures
        r == m.row + 2 * m.padding + m.gutter,
{
    strip_content_min(m) + m.gutter
}

/// How wide the widest label of a tool is allowed to be, in pixels.
pub const WIDEST_TOOL_LABEL: i64 = 52;

/// How wide the tool rail's contents have to be: its widest button and the padding either side.
pub fn rail_content_min(m: &Metrics) -> (r: i64)
    requires
        m.tame(),
    ensures
        r == WIDEST_TOOL_LABEL * PIXEL + 4 * m.padding,
{
    WIDEST_TOOL_LABEL * PIXEL + m.padding * 4
}

/// How wide the slot holding the tool rail has to be, gutter and handle included.
pub fn rail_min(m: &Metrics) -> (r: i64)
    requires
        m.tame(),
    ensures
        r == WIDEST_TOOL_LABEL * PIXEL + 4 * m.padding + m.gutter + m.header_compact,
{
    rail_content_min(m) + m.gutter + m.header_compact
}

/// Some rectangles and one more, if that one has a size.
pub open spec fn with_band(bands: Seq<Rect>, band: Rect) -> Seq<Rect> {
    if band.w > 0 && band.h > 0 {
        bands.push(band)
    } else {
        bands
    }
}

/// The rectangles around the canvas: above it, below it, left of it and right of it.
pub open spec fn bands_around(screen: Rect, canvas: Option<Rect>) -> Seq<Rect> {
    match canvas {
        None => seq![screen],
        Some(c) => {
            let right = c.x + c.w;
            let bottom = c.y + c.h;
            let above = Rect { x: screen.x, y: screen.y, w: screen.w, h: (c.y - screen.y) as i64 };
            let below = Rect {
                x: screen.x,
                y: bottom as i64,
                w: screen.w,
                h: (screen.y + screen.h - bottom) as i64,
            };
            let left = Rect { x: screen.x, y: c.y, w: (c.x - screen.x) as i64, h: c.h };
            let beside = Rect {
                x: right as i64,
                y: c.y,
                w: (screen.x + screen.w - right) as i64,
                h: c.h,
            };
            with_band(
                with_band(with_band(with_band(Seq::empty(), above), below), left),
                beside,
            )
        },
    }
}

/// The rectangles to fill around the canvas, or the whole screen where there is no canvas.
///
/// The canvas is drawn underneath, so filling over it would paint over the artwork.
pub fn ground_bands(screen: Rect, canvas: Option<Rect>) -> (bands: Vec<Rect>)
    requires
        screen.on_a_desk(),
        canvas matches Some(c) ==> c.tame() && screen.encloses(c),
    ensures
        bands@ == bands_around(screen, canvas),
        forall|i: int| 0 <= i < bands@.len() ==> (#[trigger] bands@[i]).tame(),
        // Together they are the screen without the canvas, and no two of them overlap.
        forall|x: int, y: int|
            (exists|i: int| 0 <= i < bands@.len() && #[trigger] bands@[i].holds(x, y)) <==> (
            #[trigger] screen.holds(x, y) && !(canvas matches Some(c) && c.holds(x, y))),
        forall|i: int, j: int, x: int, y: int|
            0 <= i < j < bands@.len() && #[trigger] bands@[i].holds(x, y) ==> !(
            #[trigger] bands@[j].holds(x, y)),
        // None of them is empty, but for the one that is the whole screen.
        forall|i: int|
            0 <= i < bands@.len() && canvas is Some ==> (#[trigger] bands@[i]).w > 0 && bands@[i].h
                > 0,
{
    let mut bands: Vec<Rect> = Vec::new();
    match canvas {
        None => {
            bands.push(screen);
            assert(bands@ =~= seq![screen]);
            assert(bands@[0] == screen);
        },
        Some(c) => {
            let above = Rect::new(screen.x, screen.y, screen.w, c.y - screen.y);
            let below = Rect::new(
                screen.x,
                c.y + c.h,
                screen.w,
                (screen.y + screen.h) - (c.y + c.h),
            );
            let left = Rect::new(screen.x, c.y, c.x - screen.x, c.h);
            let right = Rect::new(c.x + c.w, c.y, (screen.x + screen.w) - (c.x + c.w), c.h);
            push_band(&mut bands, above);
            push_band(&mut bands, below);
            push_band(&mut bands, left);
            push_band(&mut bands, right);
            proof {
                assert forall|x: int, y: int| covered(bands@, x, y) <==> (
                #[trigger] screen.holds(x, y) && !c.holds(x, y)) by {
                    assert(!covered(Seq::<Rect>::empty(), x, y));
                    let inside = above.holds(x, y) || below.holds(x, y) || left.holds(x, y)
                        || right.holds(x, y);
                    assert(covered(bands@, x, y) == inside);
                }
            }
        },
    }
    bands
}

/// Whether a point is in one of some rectangles.
pub open spec fn covered(bands: Seq<Rect>, x: int, y: int) -> bool {
    exists|i: int| 0 <= i < bands.len() && #[trigger] bands[i].holds(x, y)
}

/// Add a rectangle that has a size.
fn push_band(bands: &mut Vec<Rect>, band: Rect)
    requires
        forall|i: int| 0 <= i < old(bands)@.len() ==> (#[trigger] old(bands)@[i]).tame(),
        band.tame(),
    ensures
        final(bands)@ == with_band(old(bands)@, band),
        forall|x: int, y: int| #[trigger]
            covered(final(bands)@, x, y) <==> covered(old(bands)@, x, y) || band.holds(x, y),
{
    let ghost before = bands@;
    if band.w > 0 && band.h > 0 {
        bands.push(band);
    }
    proof {
        assert forall|x: int, y: int| #[trigger]
            covered(bands@, x, y) <==> covered(before, x, y) || band.holds(x, y) by {
            if covered(before, x, y) {
                let i = choose|i: int| 0 <= i < before.len() && #[trigger] before[i].holds(x, y);
                assert(bands@[i] == before[i]);
            }
            if band.holds(x, y) {
                assert(bands@[before.len() as int] == band);
            }
            if covered(bands@, x, y) {
                let i = choose|i: int| 0 <= i < bands@.len() && #[trigger] bands@[i].holds(x, y);
                if i < before.len() {
                    assert(before[i] == bands@[i]);
                }
            }
        }
    }
}

/// A rectangle holds a point from its corner on, as far across and down as it is wide and high, its left
/// and top edges included and its right and bottom ones not; growing it by a reach holds the points that
/// far around it, and taking as much off again gives back what it was.
pub proof fn law_a_rectangle_holds_what_is_in_it(rect: Rect, other: Rect, reach: int, x: int, y: int)
    requires
        rect.tame(),
        other.tame(),
        0 <= reach <= LONG,
    ensures
        rect.holds(x, y) <==> 0 <= x - rect.x < rect.w && 0 <= y - rect.y < rect.h,
        within(rect, reach, x, y) <==> -reach <= x - rect.x < rect.w + reach && -reach <= y - rect.y
            < rect.h + reach,
        grown_by(rect, reach) == (
            rect.x - reach,
            rect.y - reach,
            rect.w + 2 * reach,
            rect.h + 2 * reach,
        ),
        other.w > 0 && other.h > 0 ==> (rect.encloses(other) <==> forall|u: int, v: int|
            #[trigger] other.holds(u, v) ==> rect.holds(u, v)),
        rect.w >= 2 * reach && rect.h >= 2 * reach ==> ({
            let r = inset_by(rect, reach);
            r.x == rect.x + reach && r.y == rect.y + reach && r.w == rect.w - 2 * reach && r.h
                == rect.h - 2 * reach
        }),
        rect.w < 2 * reach ==> inset_by(rect, reach).w == 0,
        rect.h < 2 * reach ==> inset_by(rect, reach).h == 0,
{
    if other.w > 0 && other.h > 0 {
        if forall|u: int, v: int| #[trigger] other.holds(u, v) ==> rect.holds(u, v) {
            assert(other.holds(other.x as int, other.y as int));
            assert(other.holds(other.x + other.w - 1, other.y + other.h - 1));
        }
    }
}

/// A length that has to be within a range moves as little as that takes: not at all where it is, and
/// else to the end it is past. A range that is empty counts as its start.
pub proof fn law_sliding_moves_no_more_than_it_must(n: int, low: int, high: int)
    ensures
        low <= n <= high ==> slid(n, low, high) == n,
        n < low ==> slid(n, low, high) == low,
        low <= high < n ==> slid(n, low, high) == high,
        high < low ==> slid(n, low, high) == low,
{
}

/// A popup that belongs to a control opens right after it where it fits there, and right before it where
/// it fits only there: it flips rather than covering the control. Only one that fits neither way slides.
/// On the other axis it starts with the control, as far as the screen lets it.
pub proof fn law_a_popup_flips_rather_than_slides(
    anchor: Rect,
    size: (i64, i64),
    side: Anchor,
    screen: Rect,
)
    requires
        anchor.tame(),
        screen.on_a_desk(),
        0 <= size.0 <= screen.w,
        0 <= size.1 <= screen.h,
        screen.encloses(anchor),
    ensures
        ({
            let (x, y, w, h) = anchored(anchor, size, side, screen);
            &&& w == size.0
            &&& h == size.1
            &&& side == Anchor::Below ==> {
                let (under, over) = (anchor.y + anchor.h, anchor.y - h);
                &&& under + h <= screen.y + screen.h ==> y == under
                &&& under + h > screen.y + screen.h && over >= screen.y ==> y == over
                &&& anchor.x + w <= screen.x + screen.w ==> x == anchor.x
                &&& anchor.x + w > screen.x + screen.w ==> x == screen.x + screen.w - w
            }
            &&& side == Anchor::Right ==> {
                let (after, before) = (anchor.x + anchor.w, anchor.x - w);
                &&& after + w <= screen.x + screen.w ==> x == after
                &&& after + w > screen.x + screen.w && before >= screen.x ==> x == before
                &&& anchor.y + h <= screen.y + screen.h ==> y == anchor.y
                &&& anchor.y + h > screen.y + screen.h ==> y == screen.y + screen.h - h
            }
        }),
{
}

/// A popup is never larger than the screen.
pub proof fn law_a_popup_fits_the_screen(anchor: Rect, size: (i64, i64), side: Anchor, screen: Rect)
    requires
        screen.on_a_desk(),
        size.0 >= 0,
        size.1 >= 0,
    ensures
        anchored(anchor, size, side, screen).2 <= screen.w,
        anchored(anchor, size, side, screen).3 <= screen.h,
        size.0 > screen.w ==> anchored(anchor, size, side, screen).2 == screen.w,
        size.1 > screen.h ==> anchored(anchor, size, side, screen).3 == screen.h,
{
}

/// A window that can be taken hold of is left where it is, and one that cannot moves no further than to
/// where it can: sideways until as much as its smallest size is on the screen, down until its top is,
/// and up until as much as its smallest size is. Its size changes only if it was too small.
pub proof fn law_a_held_window_moves_no_more_than_it_must(rect: Rect, screen: Rect, keep: int)
    requires
        rect.tame(),
        screen.on_a_desk(),
        0 <= keep <= LONG,
        keep <= screen.w,
        keep <= screen.h,
        rect.w >= keep,
        rect.h >= keep,
    ensures
        ({
            let r = held(rect, screen, keep);
            &&& r.w == rect.w
            &&& r.h == rect.h
            &&& screen.x + keep - rect.w <= rect.x <= screen.x + screen.w - keep ==> r.x == rect.x
            &&& rect.x > screen.x + screen.w - keep ==> r.x == screen.x + screen.w - keep
            &&& rect.x < screen.x + keep - rect.w ==> r.x + r.w == screen.x + keep
            &&& screen.y <= rect.y <= screen.y + screen.h - keep ==> r.y == rect.y
            &&& rect.y < screen.y ==> r.y == screen.y
            &&& rect.y > screen.y + screen.h - keep ==> r.y == screen.y + screen.h - keep
        }),
{
}

/// A window that is too small is held at the smallest size.
pub proof fn law_a_window_is_never_too_small(rect: Rect, screen: Rect, keep: int)
    requires
        0 <= keep <= LONG,
    ensures
        rect.w < keep ==> held(rect, screen, keep).w == keep,
        rect.h < keep ==> held(rect, screen, keep).h == keep,
{
}

/// A pulled edge goes where the pointer does, and the other stays, until the window is as small as it may
/// be: then the pulled edge stops there.
pub proof fn law_a_pulled_edge_follows_the_pointer(low: int, size: int, by: int, floor: int)
    ensures
        size + by >= floor ==> pulled(low, size, 1, by, floor) == (low, size + by),
        size + by < floor ==> pulled(low, size, 1, by, floor) == (low, floor),
        size - by >= floor ==> pulled(low, size, -1, by, floor) == (low + by, size - by),
        size - by < floor ==> pulled(low, size, -1, by, floor) == (low + size - floor, floor),
        pulled(low, size, 0, by, floor) == (low, size),
{
}

/// An edge that is pulled is left where it is while enough of the window is on the screen, and stops
/// where no more than that would be: a left or top edge short of the far end, a top edge at the
/// screen's own top too, and a right or bottom edge past the near end.
pub proof fn law_a_sized_edge_stops_at_the_screen(low: int, size: int, lo: int, hi: int, keep: int)
    requires
        0 <= keep <= size,
        lo + keep <= hi,
    ensures
        low + size >= lo + keep ==> sized(low, size, 1, lo, hi, keep, false) == (low, size),
        low + size < lo + keep ==> sized(low, size, 1, lo, hi, keep, false) == (low, lo + keep - low),
        low <= hi - keep ==> sized(low, size, -1, lo, hi, keep, false) == (low, size),
        low > hi - keep ==> sized(low, size, -1, lo, hi, keep, false).0 == hi - keep,
        lo <= low <= hi - keep ==> sized(low, size, -1, lo, hi, keep, true) == (low, size),
        low < lo && low + size >= lo + keep ==> sized(low, size, -1, lo, hi, keep, true) == (
            lo,
            low + size - lo,
        ),
        sized(low, size, 1, lo, hi, keep, true) == sized(low, size, 1, lo, hi, keep, false),
        sized(low, size, 0, lo, hi, keep, true) == (low, size),
{
}

/// Windows lifted out one after another land down a staircase from near the corner of the screen, a
/// header further each time and back at the start every sixth, about a fifth of the screen wide and a
/// third high but no more than 320 by 420 pixels, and the sixth after lands where the first did.
pub proof fn law_lifted_windows_land_down_a_staircase(screen: Rect, already: int, m: Metrics)
    requires
        screen.on_a_desk(),
        m.tame(),
        0 <= already,
        m.header <= 64 * 256,
        m.row <= 64 * 256,
        screen.w >= 1000 * 256,
        screen.h >= 1000 * 256,
    ensures
        ({
            let r = first_place(screen, already, m);
            &&& r.x == screen.x + 60 * 256 + m.header * (already % 6)
            &&& r.y == screen.y + 60 * 256 + m.header * (already % 6)
            &&& r.w == if screen.w * 22 / 100 <= 320 * 256 {
                screen.w * 22 / 100
            } else {
                320int * 256
            }
            &&& r.h == if screen.h * 35 / 100 <= 420 * 256 {
                screen.h * 35 / 100
            } else {
                420int * 256
            }
            &&& first_place(screen, already + 6, m) == r
        }),
        PIXEL == 256,
        WIDEST_TOOL_LABEL == 52,
{
    let k = already % 6;
    assert(0 <= m.header * k <= 5 * (64 * 256)) by (nonlinear_arith)
        requires
            0 <= k <= 5,
            0 <= m.header <= 64 * 256,
    ;
}

/// The smallest a window may be is the height of a header or of a row of controls, whichever is larger.
pub proof fn law_the_smallest_window_has_a_header_and_a_row(m: Metrics)
    ensures
        m.smallest() >= m.header,
        m.smallest() >= m.row,
        m.smallest() == m.header || m.smallest() == m.row,
{
}

/// Only what is beyond all that is worked with is brought back, and then to the edge of that.
pub proof fn law_what_is_within_reach_stays(x: int, y: int, w: int, h: int)
    ensures
        ({
            let r = within_reach(x, y, w, h);
            &&& -0x100_0000_0000 <= x <= 0x100_0000_0000 ==> r.x == x
            &&& -0x100_0000_0000 <= y <= 0x100_0000_0000 ==> r.y == y
            &&& 0 <= w <= 0x80_0000_0000 ==> r.w == w
            &&& 0 <= h <= 0x80_0000_0000 ==> r.h == h
        }),
{
}

} // verus!
