//! The dab: one stamp of the brush tip.
//!
//! A stroke is not a line. It is a sequence of overlapping stamps placed along the path at regular
//! spacing, and each stamp is a [`Dab`]. Deciding where a dab goes and what it looks like is per-dab
//! work; turning it into pixels belongs to [`crate::stroke`] and [`crate::raster`].
//!
//! How far a dab reaches and how it covers a pixel is arithmetic on real numbers, so it is handed in
//! as functions, gathered in a [`Marks`].

use vstd::prelude::*;

use crate::canvas::Canvas;
use crate::color::Rgba;
use crate::curve::in_unit;
use crate::scalar::{
    law_order_is_that_of_values, law_zero_and_one_are_themselves, Scalar, ONE, ZERO,
};

verus! {

/// One stamp of the brush tip: pure data.
#[derive(Clone, Copy, Debug, PartialEq, Eq, Structural)]
pub struct Dab {
    /// Centre in canvas pixels.
    pub x: Scalar,
    pub y: Scalar,
    /// Radius in canvas pixels, after modulation. The major axis of the dab.
    pub radius: Scalar,
    /// Edge hardness from 0 (fully soft falloff) to 1 (hard edge).
    pub hardness: Scalar,
    /// How much paint this dab deposits, from 0 to 1.
    pub flow: Scalar,
    /// Minor axis as a fraction of the major, from 0 to 1. One is a circle.
    pub roundness: Scalar,
    /// Rotation of the major axis, in radians, clockwise on screen.
    pub angle: Scalar,
    /// Colour, linear and premultiplied. Coverage and flow are applied when the dab is rasterized.
    pub color_linear_premul: Rgba,
}

/// The pixels a dab can touch, every bound among them.
#[derive(Clone, Copy, Debug, PartialEq, Eq, Structural)]
pub struct Bounds {
    pub min_x: i32,
    pub min_y: i32,
    pub max_x: i32,
    pub max_y: i32,
}

impl Bounds {
    /// Whether a pixel is within the bounds.
    pub open spec fn has(self, x: int, y: int) -> bool {
        self.min_x <= x <= self.max_x && self.min_y <= y <= self.max_y
    }
}

impl Dab {
    /// The flow held between nothing and everything.
    pub open spec fn steady_flow(self) -> Scalar {
        self.flow.clamped_spec(Scalar { bits: ZERO }, Scalar { bits: ONE })
    }

    /// The flow held between nothing and everything.
    pub fn held_flow(&self) -> (f: Scalar)
        ensures
            f == self.steady_flow(),
    {
        self.flow.clamped(Scalar { bits: ZERO }, Scalar { bits: ONE })
    }

    /// Coverage as a function of distance from the dab's centre.
    ///
    /// `inner` is the radius of the solid core, outside which coverage ramps to zero at the rim.
    /// `ramp` gives the coverage between the two.
    pub fn coverage_at_distance<R: Fn(Scalar, Scalar, Scalar) -> Scalar>(
        &self,
        dist: Scalar,
        inner: Scalar,
        ramp: &R,
    ) -> (c: Scalar)
        requires
            ramp.requires((dist, inner, self.radius)),
        ensures
            if dist.at_most(inner) {
                c.bits == ONE
            } else if self.radius.at_most(dist) {
                c.bits == ZERO
            } else {
                ramp.ensures((dist, inner, self.radius), c)
            },
    {
        if dist.le(inner) {
            Scalar { bits: ONE }
        } else if self.radius.le(dist) {
            Scalar { bits: ZERO }
        } else {
            ramp(dist, inner, self.radius)
        }
    }
}

/// What paint comes to when a flow at a coverage is added to it, in real arithmetic: that much of the
/// room that is left is taken.
pub open spec fn exact_deposit(flow: real, cover: real, paint: real) -> real {
    paint + flow * cover * (1 as real - paint)
}

/// A deposit never takes paint away, and never comes to more than all of it.
pub proof fn law_a_deposit_fills_what_is_left(flow: real, cover: real, paint: real)
    requires
        0 as real <= flow <= 1 as real,
        0 as real <= cover <= 1 as real,
        0 as real <= paint <= 1 as real,
    ensures
        paint <= exact_deposit(flow, cover, paint) <= 1 as real,
{
    let room = 1 as real - paint;
    let part = flow * cover;
    assert(0 as real <= part <= 1 as real) by (nonlinear_arith)
        requires
            part == flow * cover,
            0 as real <= flow <= 1 as real,
            0 as real <= cover <= 1 as real,
    ;
    assert(0 as real <= part * room <= room) by (nonlinear_arith)
        requires
            0 as real <= part <= 1 as real,
            0 as real <= room,
    ;
}

/// A deposit on a pixel leaves it with from the paint there was to all there can be.
pub proof fn lemma_deposit_is_held<
    B: Fn(Dab) -> Bounds,
    C: Fn(Dab, i32, i32) -> Scalar,
    D: Fn(Scalar, Scalar, Scalar) -> Scalar,
>(marks: &Marks<B, C, D>, f: Scalar, c: Scalar, p: Scalar)
    requires
        marks.rounds_deposits(),
        in_unit(f),
        in_unit(c),
        in_unit(p),
    ensures
        in_unit(marks.deposited(f, c, p)),
        p.at_most(marks.deposited(f, c, p)),
{
    let (none, all) = (Scalar { bits: ZERO }, Scalar { bits: ONE });
    law_zero_and_one_are_themselves();
    law_order_is_that_of_values(none, f);
    law_order_is_that_of_values(f, all);
    law_order_is_that_of_values(none, c);
    law_order_is_that_of_values(c, all);
    law_order_is_that_of_values(none, p);
    law_order_is_that_of_values(p, all);
    law_a_deposit_fills_what_is_left(f.value(), c.value(), p.value());
}

/// How dabs mark pixels: how far one reaches, how it covers a pixel, and what a pixel's paint comes
/// to when a flow at a coverage is added to what is there.
pub struct Marks<B, C, D> {
    pub bounds: B,
    pub coverage: C,
    pub deposit: D,
}

impl<
    B: Fn(Dab) -> Bounds,
    C: Fn(Dab, i32, i32) -> Scalar,
    D: Fn(Scalar, Scalar, Scalar) -> Scalar,
> Marks<B, C, D> {
    /// The pixels a dab can touch.
    pub open spec fn extent(&self, dab: Dab) -> Bounds {
        choose|b: Bounds| self.bounds.ensures((dab,), b)
    }

    /// How a dab covers a pixel.
    pub open spec fn cover(&self, dab: Dab, x: i32, y: i32) -> Scalar {
        choose|s: Scalar| self.coverage.ensures((dab, x, y), s)
    }

    /// What paint comes to when a flow at a coverage is added to it.
    pub open spec fn deposited(&self, flow: Scalar, cover: Scalar, paint: Scalar) -> Scalar {
        choose|s: Scalar| self.deposit.ensures((flow, cover, paint), s)
    }

    /// Whether the three functions answer always, and always the same about the same.
    pub open spec fn steady(&self) -> bool {
        &&& forall|dab: Dab| #[trigger] self.bounds.requires((dab,))
        &&& forall|dab: Dab, b: Bounds| #[trigger]
            self.bounds.ensures((dab,), b) ==> b == self.extent(dab)
        &&& forall|dab: Dab, x: i32, y: i32| #[trigger] self.coverage.requires((dab, x, y))
        &&& forall|dab: Dab, x: i32, y: i32, s: Scalar| #[trigger]
            self.coverage.ensures((dab, x, y), s) ==> s == self.cover(dab, x, y)
        &&& forall|f: Scalar, c: Scalar, p: Scalar| #[trigger] self.deposit.requires((f, c, p))
        &&& forall|f: Scalar, c: Scalar, p: Scalar, s: Scalar| #[trigger]
            self.deposit.ensures((f, c, p), s) ==> s == self.deposited(f, c, p)
    }

    /// Whether deposits are rounded no further than they may be: to no more than all of the paint
    /// there can be, nor to less than there was, where the real sum is neither.
    pub open spec fn rounds_deposits(&self) -> bool {
        forall|f: Scalar, c: Scalar, p: Scalar|
            in_unit(f) && in_unit(c) && in_unit(p) ==> {
                let exact = exact_deposit(f.value(), c.value(), p.value());
                let sum = #[trigger] self.deposited(f, c, p);
                &&& exact <= 1 as real ==> sum.at_most(Scalar { bits: ONE })
                &&& p.value() <= exact ==> p.at_most(sum)
            }
    }

    /// Whether a dab covers every pixel with from nothing to all of its flow.
    pub open spec fn covers_within(&self, dab: Dab) -> bool {
        &&& !dab.flow.nan()
        &&& forall|x: int, y: int| in_unit(#[trigger] self.cover_at(dab, x, y))
    }

    /// How a dab covers a pixel given by mathematical integers.
    pub open spec fn cover_at(&self, dab: Dab, x: int, y: int) -> Scalar {
        self.cover(dab, x as i32, y as i32)
    }

    /// Whether a dab leaves paint at a pixel of a canvas.
    pub open spec fn leaves_paint(&self, canvas: &Canvas, dab: Dab, x: int, y: int) -> bool {
        let none = Scalar { bits: ZERO };
        &&& !dab.radius.at_most(none)
        &&& !dab.flow.at_most(none)
        &&& self.extent(dab).has(x, y)
        &&& canvas.inside(x, y)
        &&& !self.cover_at(dab, x, y).at_most(none)
    }
}

/// A flow from nothing to everything is taken as it is, one below nothing as none, and one above
/// everything as all of it.
pub proof fn law_flow_is_from_nothing_to_everything(dab: Dab)
    ensures
        0 <= dab.flow.bits <= 0x3F80_0000 ==> dab.steady_flow() == dab.flow,
        0x3F80_0000 < dab.flow.bits <= 0x7F80_0000 ==> dab.steady_flow().bits == 0x3F80_0000,
        0x8000_0000 < dab.flow.bits <= 0xFF80_0000 ==> dab.steady_flow().bits == 0,
{
}

/// A deposit takes its share of the room that is left: what is left afterwards is what was left, less
/// that share of it. Nothing deposited changes nothing, and all of it fills the pixel.
pub proof fn law_a_deposit_takes_its_share_of_the_room(flow: real, cover: real, paint: real)
    ensures
        1 as real - exact_deposit(flow, cover, paint) == (1 as real - paint) * (1 as real - flow * cover),
        exact_deposit(0 as real, cover, paint) == paint,
        exact_deposit(flow, 0 as real, paint) == paint,
        exact_deposit(1 as real, 1 as real, paint) == 1 as real,
        exact_deposit(flow, cover, 0 as real) == flow * cover,
        exact_deposit(flow, cover, paint) == exact_deposit(cover, flow, paint),
{
    let share = flow * cover;
    assert(1 as real - (paint + share * (1 as real - paint)) == (1 as real - paint) * (1 as real
        - share)) by (nonlinear_arith);
    assert(0 as real * cover == 0 as real && flow * (0 as real) == 0 as real && flow * cover == cover
        * flow && (0 as real) * (1 as real - paint) == 0 as real && share * (1 as real - 0 as real)
        == share && (1 as real) * (1 as real) * (1 as real - paint) == 1 as real - paint)
        by (nonlinear_arith)
        requires
            share == flow * cover,
    ;
}

} // verus!
