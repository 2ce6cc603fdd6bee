//! Stamp-based brush.
//!
//! A stroke is not a polyline: it is a series of dabs stamped along the path at a fixed fraction of
//! the brush diameter. The brush decides where dabs go and what they look like, and touches no
//! pixels.
//!
//! The arithmetic on real numbers that this takes is handed in as a [`Walk`].

use std::sync::Arc;

use vstd::prelude::*;

use crate::color::Rgba;
use crate::curve::{Calculus, Curve, Point};
use crate::dab::Dab;
use crate::scalar::{
    law_order_is_that_of_values, law_the_other_sign_is_the_other_side, Scalar, HALF, ONE, ZERO,
};
use crate::stamp::Stamp;

verus! {

/// The shape of a dab: a disc whose edge follows a curve, or a bitmap.
#[derive(Debug, PartialEq)]
pub enum Tip {
    /// The procedural disc, shaped by an edge profile.
    Round(Curve),
    /// A bitmap. Brushes share tips, because a bitmap is large and a brush is cloned for every
    /// queued stroke.
    Stamp(Arc<Stamp>),
}

impl Tip {
    /// Whether two tips are the same, by what is in them.
    pub open spec fn alike(&self, other: &Tip) -> bool {
        match (*self, *other) {
            (Tip::Round(a), Tip::Round(b)) => a@ == b@,
            (Tip::Stamp(a), Tip::Stamp(b)) => a == b,
            _ => false,
        }
    }

    /// The edge profile, where the tip has one.
    pub fn falloff(&self) -> (r: Option<&Curve>)
        ensures
            match *self {
                Tip::Round(curve) => r == Some(&curve),
                Tip::Stamp(_) => r is None,
            },
    {
        match self {
            Tip::Round(curve) => Some(curve),
            Tip::Stamp(_) => None,
        }
    }
}

impl Clone for Tip {
    fn clone(&self) -> (r: Tip)
        ensures
            r.alike(self),
    {
        match self {
            Tip::Round(curve) => Tip::Round(curve.clone()),
            Tip::Stamp(stamp) => Tip::Stamp(stamp.clone()),
        }
    }
}

/// The pattern of the radius a fresh brush has, in pixels: 8.
pub const FRESH_RADIUS: u32 = 0x4100_0000;

/// The pattern of the spacing a fresh brush has: a quarter of the diameter.
pub const FRESH_SPACING: u32 = 0x3E80_0000;

/// Brush parameters. Sizes are in canvas pixels.
#[derive(Debug, PartialEq)]
pub struct Brush {
    /// Dab radius at full pressure, in pixels.
    pub radius: Scalar,
    /// Edge hardness from 0 (fully soft) to 1 (hard edge).
    pub hardness: Scalar,
    /// Dab spacing as a fraction of diameter.
    pub spacing: Scalar,
    /// How much paint each dab deposits, from 0 to 1.
    pub flow: Scalar,
    /// Ceiling the whole stroke may reach, from 0 to 1.
    pub opacity: Scalar,
    /// Minor axis of a dab as a fraction of the major, from 0 to 1.
    pub roundness: Scalar,
    /// Rotation of a dab's major axis, as a fraction of a turn.
    pub angle: Scalar,
    /// How far the line may trail the pen, in milliseconds.
    pub stabilization_ms: Scalar,
    /// How pressure drives dab size. A flat curve is "pressure does not affect size".
    pub size_response: Curve,
    /// How pressure drives flow: how much paint each dab lays down.
    pub flow_response: Curve,
    /// The shape of a dab.
    pub tip: Tip,
    /// Brush colour, linear and premultiplied.
    pub color_linear_premul: Rgba,
}

impl Brush {
    /// The response curves describe curves.
    pub open spec fn wf(&self) -> bool {
        self.size_response.wf() && self.flow_response.wf()
    }

    /// Whether two brushes are the same in everything but their colour and their tip.
    pub open spec fn set_like(&self, other: &Brush) -> bool {
        &&& self.radius == other.radius
        &&& self.hardness == other.hardness
        &&& self.spacing == other.spacing
        &&& self.flow == other.flow
        &&& self.opacity == other.opacity
        &&& self.roundness == other.roundness
        &&& self.angle == other.angle
        &&& self.stabilization_ms == other.stabilization_ms
        &&& self.size_response@ == other.size_response@
        &&& self.flow_response@ == other.flow_response@
    }

    /// A brush of a colour with everything else as it comes.
    pub fn fresh(color_linear_premul: Rgba) -> (b: Brush)
        ensures
            b.as_it_comes(),
            b.color_linear_premul == color_linear_premul,
    {
        Brush {
            radius: Scalar { bits: FRESH_RADIUS },
            hardness: Scalar { bits: HALF },
            spacing: Scalar { bits: FRESH_SPACING },
            flow: Scalar { bits: ONE },
            opacity: Scalar { bits: ONE },
            roundness: Scalar { bits: ONE },
            angle: Scalar { bits: ZERO },
            stabilization_ms: Scalar { bits: ZERO },
            size_response: Curve::linear(),
            flow_response: Curve::constant(Scalar { bits: ONE }),
            tip: Tip::Round(Curve::linear()),
            color_linear_premul,
        }
    }

    /// Set the brush colour.
    pub fn set_color_linear_premul(&mut self, color: Rgba)
        ensures
            final(self).color_linear_premul == color,
            final(self).set_like(old(self)),
            final(self).tip == old(self).tip,
    {
        self.color_linear_premul = color;
    }

    /// The brush colour as linear premultiplied RGBA.
    pub fn color_linear_premul(&self) -> (r: Rgba)
        ensures
            r == self.color_linear_premul,
    {
        self.color_linear_premul
    }
}

/// The pattern of the red and the green of the ink that a brush comes with: 20 of 255 as authored, in
/// linear light.
pub const INK_WARM: u32 = 0x3BE5_39C1;

/// The pattern of its blue: 24 of 255 as authored.
pub const INK_BLUE: u32 = 0x3C15_A703;

impl Brush {
    /// Whether a brush has every setting but its colour as it comes.
    pub open spec fn as_it_comes(&self) -> bool {
        &&& self.wf()
        &&& self.radius.bits == FRESH_RADIUS
        &&& self.hardness.bits == HALF
        &&& self.spacing.bits == FRESH_SPACING
        &&& self.flow.bits == ONE
        &&& self.opacity.bits == ONE
        &&& self.roundness.bits == ONE
        &&& self.angle.bits == ZERO
        &&& self.stabilization_ms.bits == ZERO
        &&& self.size_response@ == Curve::identity()
        &&& self.flow_response@ == Curve::level(Scalar { bits: ONE })
        &&& self.tip matches Tip::Round(edge) && edge@ == Curve::identity()
    }
}

impl Default for Brush {
    fn default() -> (b: Brush)
        ensures
            b.as_it_comes(),
            b.color_linear_premul == (Rgba {
                r: Scalar { bits: INK_WARM },
                g: Scalar { bits: INK_WARM },
                b: Scalar { bits: INK_BLUE },
                a: Scalar { bits: ONE },
            }),
    {
        Brush::fresh(
            Rgba {
                r: Scalar { bits: INK_WARM },
                g: Scalar { bits: INK_WARM },
                b: Scalar { bits: INK_BLUE },
                a: Scalar { bits: ONE },
            },
        )
    }
}

impl Clone for Brush {
    fn clone(&self) -> (r: Brush)
        ensures
            r.set_like(self),
            r.tip.alike(&self.tip),
            r.color_linear_premul == self.color_linear_premul,
            self.wf() ==> r.wf(),
    {
        Brush {
            radius: self.radius,
            hardness: self.hardness,
            spacing: self.spacing,
            flow: self.flow,
            opacity: self.opacity,
            roundness: self.roundness,
            angle: self.angle,
            stabilization_ms: self.stabilization_ms,
            size_response: self.size_response.clone(),
            flow_response: self.flow_response.clone(),
            tip: self.tip.clone(),
            color_linear_premul: self.color_linear_premul,
        }
    }
}

/// A position on the canvas.
#[derive(Clone, Copy, Debug, PartialEq, Eq, Structural)]
pub struct Spot {
    pub x: Scalar,
    pub y: Scalar,
}

/// Tracks stroke continuity so dabs are spaced correctly across successive input samples. Create
/// one per stroke.
#[derive(Clone, Copy, Debug, PartialEq, Eq, Structural)]
pub struct StrokeState {
    /// Last sample position.
    pub last: Option<Spot>,
    /// Distance accumulated since the previous stamped dab.
    pub residual: Scalar,
}

impl StrokeState {
    pub fn new() -> (s: StrokeState)
        ensures
            s == (StrokeState { last: None, residual: Scalar { bits: ZERO } }),
    {
        StrokeState { last: None, residual: Scalar { bits: ZERO } }
    }
}

impl Default for StrokeState {
    fn default() -> (s: StrokeState)
        ensures
            s == (StrokeState { last: None, residual: Scalar { bits: ZERO } }),
    {
        StrokeState::new()
    }
}

/// The arithmetic of a stroke: how curves are read, the product of a setting and a factor, how far
/// apart a radius and a spacing put two dabs, the distance between two samples, how far along one
/// more step is, the place that far along, and what is left of the way.
pub struct Walk<S, M, T, F, N, H, X, G, D, A, P, L> {
    pub calculus: Calculus<S, M, T, F, N, H>,
    pub product: X,
    pub stride: G,
    pub length: D,
    pub ahead: A,
    pub place: P,
    pub left: L,
}

/// The pattern of a full turn in radians. A brush's angle is a setting, in turns; a dab's is geometry,
/// in radians.
pub const TURN: u32 = 0x40C9_0FDB;

/// The pattern of the smallest step that makes a difference to one, as a number: a segment no longer
/// than this is a point.
pub const POINT_LIKE: u32 = 0x3400_0000;

impl<
    S: Fn(Point, Point) -> Scalar,
    M: Fn(Scalar, Scalar) -> Scalar,
    T: Fn(Scalar) -> Scalar,
    F: Fn(Scalar) -> bool,
    N: Fn(Scalar, Scalar) -> bool,
    H: Fn(Scalar, (Point, Point), (Scalar, Scalar)) -> Scalar,
    X: Fn(Scalar, Scalar) -> Scalar,
    G: Fn(Scalar, Scalar) -> Scalar,
    D: Fn(Spot, Spot) -> Scalar,
    A: Fn(Scalar, Scalar) -> Scalar,
    P: Fn(Spot, Spot, Scalar, Scalar) -> Spot,
    L: Fn(Scalar, Scalar) -> Scalar,
> Walk<S, M, T, F, N, H, X, G, D, A, P, L> {
    pub open spec fn product_of(&self, a: Scalar, b: Scalar) -> Scalar {
        choose|s: Scalar| self.product.ensures((a, b), s)
    }

    pub open spec fn stride_of(&self, radius: Scalar, spacing: Scalar) -> Scalar {
        choose|s: Scalar| self.stride.ensures((radius, spacing), s)
    }

    pub open spec fn length_of(&self, a: Spot, b: Spot) -> Scalar {
        choose|s: Scalar| self.length.ensures((a, b), s)
    }

    pub open spec fn ahead_of(&self, t: Scalar, step: Scalar) -> Scalar {
        choose|s: Scalar| self.ahead.ensures((t, step), s)
    }

    pub open spec fn place_of(&self, a: Spot, b: Spot, len: Scalar, t: Scalar) -> Spot {
        choose|s: Spot| self.place.ensures((a, b, len, t), s)
    }

    pub open spec fn left_of(&self, len: Scalar, t: Scalar) -> Scalar {
        choose|s: Scalar| self.left.ensures((len, t), s)
    }

    /// Whether the functions answer always, and always the same about the same.
    pub open spec fn steady(&self) -> bool {
        &&& self.calculus.steady()
        &&& forall|a: Scalar, b: Scalar| #[trigger] self.product.requires((a, b))
        &&& forall|a: Scalar, b: Scalar, s: Scalar| #[trigger]
            self.product.ensures((a, b), s) ==> s == self.product_of(a, b)
        &&& forall|a: Scalar, b: Scalar| #[trigger] self.stride.requires((a, b))
        &&& forall|a: Scalar, b: Scalar, s: Scalar| #[trigger]
            self.stride.ensures((a, b), s) ==> s == self.stride_of(a, b)
        &&& forall|a: Spot, b: Spot| #[trigger] self.length.requires((a, b))
        &&& forall|a: Spot, b: Spot, s: Scalar| #[trigger]
            self.length.ensures((a, b), s) ==> s == self.length_of(a, b)
        &&& forall|a: Scalar, b: Scalar| #[trigger] self.ahead.requires((a, b))
        &&& forall|a: Scalar, b: Scalar, s: Scalar| #[trigger]
            self.ahead.ensures((a, b), s) ==> s == self.ahead_of(a, b)
        &&& forall|a: Spot, b: Spot, l: Scalar, t: Scalar| #[trigger]
            self.place.requires((a, b, l, t))
        &&& forall|a: Spot, b: Spot, l: Scalar, t: Scalar, s: Spot| #[trigger]
            self.place.ensures((a, b, l, t), s) ==> s == self.place_of(a, b, l, t)
        &&& forall|a: Scalar, b: Scalar| #[trigger] self.left.requires((a, b))
        &&& forall|a: Scalar, b: Scalar, s: Scalar| #[trigger]
            self.left.ensures((a, b), s) ==> s == self.left_of(a, b)
    }

    /// Effective dab radius for a given pressure: the radius times what the size response makes of
    /// the pressure, but at least half a pixel.
    pub open spec fn radius_at(&self, brush: &Brush, pressure: Scalar) -> Scalar {
        self.product_of(
            brush.radius,
            self.calculus.value(brush.size_response@, pressure),
        ).at_least_spec(Scalar { bits: HALF })
    }

    /// Effective flow for a given pressure: the flow times what the flow response makes of the
    /// pressure, between nothing and everything.
    pub open spec fn flow_at(&self, brush: &Brush, pressure: Scalar) -> Scalar {
        self.product_of(
            brush.flow,
            self.calculus.value(brush.flow_response@, pressure),
        ).clamped_spec(Scalar { bits: ZERO }, Scalar { bits: ONE })
    }

    /// The dab a brush makes at a place and a pressure.
    pub open spec fn dab(&self, brush: &Brush, spot: Spot, pressure: Scalar) -> Dab {
        Dab {
            x: spot.x,
            y: spot.y,
            radius: self.radius_at(brush, pressure),
            hardness: brush.hardness,
            flow: self.flow_at(brush, pressure),
            roundness: brush.roundness,
            angle: self.product_of(brush.angle, Scalar { bits: TURN }),
            color_linear_premul: brush.color_linear_premul,
        }
    }

    /// How far apart a brush puts two dabs at a pressure: at least half a pixel.
    pub open spec fn step_at(&self, brush: &Brush, pressure: Scalar) -> Scalar {
        self.stride_of(self.radius_at(brush, pressure), brush.spacing).at_least_spec(
            Scalar { bits: HALF },
        )
    }

    /// Whether every step of a size goes further, from a start as far as a length: with steps too
    /// small to make a difference a walk would never end.
    pub open spec fn moves_on(&self, start: Scalar, step: Scalar, len: Scalar) -> bool {
        &&& start.nan() ==> !self.ahead_of(start, step).at_most(len)
        &&& forall|t: Scalar|
            start.at_most(t) && (#[trigger] self.ahead_of(t, step)).at_most(len) ==> t.below(
                self.ahead_of(t, step),
            )
    }

    /// Whether distances are those a walk of a step stops at from a start: each one step past the one
    /// before, none past the length, and no room for one more.
    pub open spec fn paced(
        &self,
        start: Scalar,
        step: Scalar,
        len: Scalar,
        stops: Seq<Scalar>,
    ) -> bool {
        &&& forall|i: int|
            0 <= i < stops.len() ==> #[trigger] stops[i] == self.ahead_of(
                self.reached(start, stops, i),
                step,
            ) && stops[i].at_most(len)
        &&& !self.ahead_of(self.reached(start, stops, stops.len() as int), step).at_most(len)
    }

    /// How far a walk has come after some of its stops.
    pub open spec fn reached(&self, start: Scalar, stops: Seq<Scalar>, n: int) -> Scalar {
        if n <= 0 {
            start
        } else {
            stops[n - 1]
        }
    }

    /// Whether every answer that decides a brush's radius at a pressure is one that was given.
    pub open spec fn radius_answered(&self, brush: &Brush, pressure: Scalar) -> bool {
        let factor = self.calculus.value(brush.size_response@, pressure);
        &&& self.calculus.answered(brush.size_response@, pressure)
        &&& self.product.ensures((brush.radius, factor), self.product_of(brush.radius, factor))
    }

    /// Whether every answer that decides a brush's flow at a pressure is one that was given.
    pub open spec fn flow_answered(&self, brush: &Brush, pressure: Scalar) -> bool {
        let factor = self.calculus.value(brush.flow_response@, pressure);
        &&& self.calculus.answered(brush.flow_response@, pressure)
        &&& self.product.ensures((brush.flow, factor), self.product_of(brush.flow, factor))
    }

    /// Whether every answer that decides the dab a brush makes at a pressure is one that was given.
    pub open spec fn dab_answered(&self, brush: &Brush, pressure: Scalar) -> bool {
        let turn = Scalar { bits: TURN };
        &&& self.radius_answered(brush, pressure)
        &&& self.flow_answered(brush, pressure)
        &&& self.product.ensures((brush.angle, turn), self.product_of(brush.angle, turn))
    }

    /// Whether every answer that decides the stops of a walk, and where they are, is one that was
    /// given.
    pub open spec fn stops_answered(
        &self,
        last: Spot,
        spot: Spot,
        start: Scalar,
        step: Scalar,
        len: Scalar,
        stops: Seq<Scalar>,
    ) -> bool {
        let end = self.reached(start, stops, stops.len() as int);
        &&& forall|i: int|
            0 <= i < stops.len() ==> {
                &&& self.ahead.ensures((self.reached(start, stops, i), step), #[trigger] stops[i])
                &&& self.place.ensures(
                    (last, spot, len, stops[i]),
                    self.place_of(last, spot, len, stops[i]),
                )
            }
        &&& self.ahead.ensures((end, step), self.ahead_of(end, step))
        &&& self.left.ensures((len, end), self.left_of(len, end))
    }

    /// Whether every answer that decides how a stroke goes on from one sample to the next is one that
    /// was given.
    pub open spec fn segment_answered(
        &self,
        brush: &Brush,
        was: StrokeState,
        last: Spot,
        spot: Spot,
        pressure: Scalar,
    ) -> bool {
        let len = self.length_of(last, spot);
        let radius = self.radius_at(brush, pressure);
        let step = self.step_at(brush, pressure);
        let start = was.residual.negation();
        &&& self.length.ensures((last, spot), len)
        &&& !len.at_most(Scalar { bits: POINT_LIKE }) ==> {
            &&& self.radius_answered(brush, pressure)
            &&& self.stride.ensures(
                (radius, brush.spacing),
                self.stride_of(radius, brush.spacing),
            )
            &&& exists|stops: Seq<Scalar>|
                {
                    &&& #[trigger] self.paced(start, step, len, stops)
                    &&& self.stops_answered(last, spot, start, step, len, stops)
                    &&& stops.len() > 0 ==> self.dab_answered(brush, pressure)
                }
        }
    }

    /// Whether a stroke that goes on to a sample leaves these dabs and this state behind: a dab at
    /// every stop along the segment, with the distance since the last carried over so that spacing is
    /// continuous across segments. A segment that is a point changes nothing.
    pub open spec fn continues(
        &self,
        brush: &Brush,
        was: StrokeState,
        last: Spot,
        spot: Spot,
        pressure: Scalar,
        dabs: Seq<Dab>,
        now: StrokeState,
    ) -> bool {
        let len = self.length_of(last, spot);
        let step = self.step_at(brush, pressure);
        let start = was.residual.negation();
        if len.at_most(Scalar { bits: POINT_LIKE }) {
            dabs.len() == 0 && now == was
        } else {
            exists|stops: Seq<Scalar>|
                {
                    &&& #[trigger] self.paced(start, step, len, stops)
                    &&& dabs.len() == stops.len()
                    &&& forall|i: int|
                        0 <= i < stops.len() ==> #[trigger] dabs[i] == self.dab(
                            brush,
                            self.place_of(last, spot, len, stops[i]),
                            pressure,
                        )
                    &&& now == (StrokeState {
                        last: Some(spot),
                        residual: self.left_of(
                            len,
                            self.reached(start, stops, stops.len() as int),
                        ),
                    })
                }
        }
    }
}

/// The stops of a walk are the only ones there can be.
pub proof fn law_a_walk_has_one_set_of_stops<
    S: Fn(Point, Point) -> Scalar,
    M: Fn(Scalar, Scalar) -> Scalar,
    T: Fn(Scalar) -> Scalar,
    F: Fn(Scalar) -> bool,
    N: Fn(Scalar, Scalar) -> bool,
    H: Fn(Scalar, (Point, Point), (Scalar, Scalar)) -> Scalar,
    X: Fn(Scalar, Scalar) -> Scalar,
    G: Fn(Scalar, Scalar) -> Scalar,
    D: Fn(Spot, Spot) -> Scalar,
    A: Fn(Scalar, Scalar) -> Scalar,
    P: Fn(Spot, Spot, Scalar, Scalar) -> Spot,
    L: Fn(Scalar, Scalar) -> Scalar,
>(
    walk: &Walk<S, M, T, F, N, H, X, G, D, A, P, L>,
    start: Scalar,
    step: Scalar,
    len: Scalar,
    a: Seq<Scalar>,
    b: Seq<Scalar>,
)
    requires
        walk.paced(start, step, len, a),
        walk.paced(start, step, len, b),
    ensures
        a == b,
{
    lemma_same_stops(walk, start, step, len, a, b, if a.len() <= b.len() {
        a.len() as int
    } else {
        b.len() as int
    });
    if a.len() < b.len() {
        assert(walk.reached(start, a, a.len() as int) == walk.reached(start, b, a.len() as int));
        assert(b[a.len() as int].at_most(len));
    } else if b.len() < a.len() {
        assert(walk.reached(start, b, b.len() as int) == walk.reached(start, a, b.len() as int));
        assert(a[b.len() as int].at_most(len));
    }
    assert(a =~= b);
}

proof fn lemma_same_stops<
    S: Fn(Point, Point) -> Scalar,
    M: Fn(Scalar, Scalar) -> Scalar,
    T: Fn(Scalar) -> Scalar,
    F: Fn(Scalar) -> bool,
    N: Fn(Scalar, Scalar) -> bool,
    H: Fn(Scalar, (Point, Point), (Scalar, Scalar)) -> Scalar,
    X: Fn(Scalar, Scalar) -> Scalar,
    G: Fn(Scalar, Scalar) -> Scalar,
    D: Fn(Spot, Spot) -> Scalar,
    A: Fn(Scalar, Scalar) -> Scalar,
    P: Fn(Spot, Spot, Scalar, Scalar) -> Spot,
    L: Fn(Scalar, Scalar) -> Scalar,
>(
    walk: &Walk<S, M, T, F, N, H, X, G, D, A, P, L>,
    start: Scalar,
    step: Scalar,
    len: Scalar,
    a: Seq<Scalar>,
    b: Seq<Scalar>,
    n: int,
)
    requires
        walk.paced(start, step, len, a),
        walk.paced(start, step, len, b),
        0 <= n <= a.len(),
        n <= b.len(),
    ensures
        forall|i: int| 0 <= i < n ==> a[i] == b[i],
    decreases n,
{
    if n > 0 {
        lemma_same_stops(walk, start, step, len, a, b, n - 1);
        assert(walk.reached(start, a, n - 1) == walk.reached(start, b, n - 1));
        assert(a[n - 1] == b[n - 1]);
    }
}

impl Brush {
    /// Effective dab radius for a given pressure.
    ///
    /// At least half a pixel, so the lightest touch still makes a mark.
    pub fn radius_for<
        S: Fn(Point, Point) -> Scalar,
        M: Fn(Scalar, Scalar) -> Scalar,
        T: Fn(Scalar) -> Scalar,
        F: Fn(Scalar) -> bool,
        N: Fn(Scalar, Scalar) -> bool,
        H: Fn(Scalar, (Point, Point), (Scalar, Scalar)) -> Scalar,
        X: Fn(Scalar, Scalar) -> Scalar,
        G: Fn(Scalar, Scalar) -> Scalar,
        D: Fn(Spot, Spot) -> Scalar,
        A: Fn(Scalar, Scalar) -> Scalar,
        P: Fn(Spot, Spot, Scalar, Scalar) -> Spot,
        L: Fn(Scalar, Scalar) -> Scalar,
    >(&self, pressure: Scalar, walk: &Walk<S, M, T, F, N, H, X, G, D, A, P, L>) -> (r: Scalar)
        requires
            self.wf(),
            walk.steady(),
        ensures
            r == walk.radius_at(self, pressure),
            walk.radius_answered(self, pressure),
    {
        let product = &walk.product;
        let raw = product(self.radius, self.size_response.at(pressure, &walk.calculus));
        raw.at_least(Scalar { bits: HALF })
    }

    /// Effective flow for a given pressure.
    pub fn flow_for<
        S: Fn(Point, Point) -> Scalar,
        M: Fn(Scalar, Scalar) -> Scalar,
        T: Fn(Scalar) -> Scalar,
        F: Fn(Scalar) -> bool,
        N: Fn(Scalar, Scalar) -> bool,
        H: Fn(Scalar, (Point, Point), (Scalar, Scalar)) -> Scalar,
        X: Fn(Scalar, Scalar) -> Scalar,
        G: Fn(Scalar, Scalar) -> Scalar,
        D: Fn(Spot, Spot) -> Scalar,
        A: Fn(Scalar, Scalar) -> Scalar,
        P: Fn(Spot, Spot, Scalar, Scalar) -> Spot,
        L: Fn(Scalar, Scalar) -> Scalar,
    >(&self, pressure: Scalar, walk: &Walk<S, M, T, F, N, H, X, G, D, A, P, L>) -> (r: Scalar)
        requires
            self.wf(),
            walk.steady(),
        ensures
            r == walk.flow_at(self, pressure),
            walk.flow_answered(self, pressure),
    {
        let product = &walk.product;
        let raw = product(self.flow, self.flow_response.at(pressure, &walk.calculus));
        raw.clamped(Scalar { bits: ZERO }, Scalar { bits: ONE })
    }

    /// Build one dab at a place for a given pressure.
    fn dab_at<
        S: Fn(Point, Point) -> Scalar,
        M: Fn(Scalar, Scalar) -> Scalar,
        T: Fn(Scalar) -> Scalar,
        F: Fn(Scalar) -> bool,
        N: Fn(Scalar, Scalar) -> bool,
        H: Fn(Scalar, (Point, Point), (Scalar, Scalar)) -> Scalar,
        X: Fn(Scalar, Scalar) -> Scalar,
        G: Fn(Scalar, Scalar) -> Scalar,
        D: Fn(Spot, Spot) -> Scalar,
        A: Fn(Scalar, Scalar) -> Scalar,
        P: Fn(Spot, Spot, Scalar, Scalar) -> Spot,
        L: Fn(Scalar, Scalar) -> Scalar,
    >(&self, spot: Spot, pressure: Scalar, walk: &Walk<S, M, T, F, N, H, X, G, D, A, P, L>) -> (dab: Dab)
        requires
            self.wf(),
            walk.steady(),
        ensures
            dab == walk.dab(self, spot, pressure),
            walk.dab_answered(self, pressure),
    {
        Dab {
            x: spot.x,
            y: spot.y,
            radius: self.radius_for(pressure, walk),
            hardness: self.hardness,
            flow: self.flow_for(pressure, walk),
            roundness: self.roundness,
            angle: (walk.product)(self.angle, Scalar { bits: TURN }),
            color_linear_premul: self.color_linear_premul,
        }
    }

    /// Begin a stroke: emit the initial dab at the first sample.
    pub fn stroke_begin<
        S: Fn(Point, Point) -> Scalar,
        M: Fn(Scalar, Scalar) -> Scalar,
        T: Fn(Scalar) -> Scalar,
        F: Fn(Scalar) -> bool,
        N: Fn(Scalar, Scalar) -> bool,
        H: Fn(Scalar, (Point, Point), (Scalar, Scalar)) -> Scalar,
        X: Fn(Scalar, Scalar) -> Scalar,
        G: Fn(Scalar, Scalar) -> Scalar,
        D: Fn(Spot, Spot) -> Scalar,
        A: Fn(Scalar, Scalar) -> Scalar,
        P: Fn(Spot, Spot, Scalar, Scalar) -> Spot,
        L: Fn(Scalar, Scalar) -> Scalar,
    >(
        &self,
        out: &mut Vec<Dab>,
        state: &mut StrokeState,
        spot: Spot,
        pressure: Scalar,
        walk: &Walk<S, M, T, F, N, H, X, G, D, A, P, L>,
    )
        requires
            self.wf(),
            walk.steady(),
        ensures
            final(out)@ == old(out)@.push(walk.dab(self, spot, pressure)),
            walk.dab_answered(self, pressure),
            *final(state) == (StrokeState { last: Some(spot), residual: Scalar { bits: ZERO } }),
    {
        let dab = self.dab_at(spot, pressure, walk);
        out.push(dab);
        state.last = Some(spot);
        state.residual = Scalar { bits: ZERO };
    }

    /// Continue a stroke to a new sample, emitting evenly spaced dabs along the segment from the
    /// previous sample so speed does not create gaps.
    ///
    /// The first sample of a stroke begins it. A sample at the place of the last one changes nothing.
    pub fn stroke_to<
        S: Fn(Point, Point) -> Scalar,
        M: Fn(Scalar, Scalar) -> Scalar,
        T: Fn(Scalar) -> Scalar,
        F: Fn(Scalar) -> bool,
        N: Fn(Scalar, Scalar) -> bool,
        H: Fn(Scalar, (Point, Point), (Scalar, Scalar)) -> Scalar,
        X: Fn(Scalar, Scalar) -> Scalar,
        G: Fn(Scalar, Scalar) -> Scalar,
        D: Fn(Spot, Spot) -> Scalar,
        A: Fn(Scalar, Scalar) -> Scalar,
        P: Fn(Spot, Spot, Scalar, Scalar) -> Spot,
        L: Fn(Scalar, Scalar) -> Scalar,
    >(
        &self,
        out: &mut Vec<Dab>,
        state: &mut StrokeState,
        spot: Spot,
        pressure: Scalar,
        walk: &Walk<S, M, T, F, N, H, X, G, D, A, P, L>,
    )
        requires
            self.wf(),
            walk.steady(),
            match old(state).last {
                Some(last) => walk.length_of(last, spot).at_most(Scalar { bits: POINT_LIKE })
                    || walk.moves_on(
                    old(state).residual.negation(),
                    walk.step_at(self, pressure),
                    walk.length_of(last, spot),
                ),
                None => true,
            },
        ensures
            final(out)@.len() >= old(out)@.len(),
            final(out)@.take(old(out)@.len() as int) == old(out)@,
            match old(state).last {
                None => {
                    &&& final(out)@ == old(out)@.push(walk.dab(self, spot, pressure))
                    &&& *final(state) == (StrokeState {
                        last: Some(spot),
                        residual: Scalar { bits: ZERO },
                    })
                },
                Some(last) => walk.continues(
                    self,
                    *old(state),
                    last,
                    spot,
                    pressure,
                    final(out)@.skip(old(out)@.len() as int),
                    *final(state),
                ),
            },
            match old(state).last {
                None => walk.dab_answered(self, pressure),
                Some(last) => walk.segment_answered(self, *old(state), last, spot, pressure),
            },
    {
        let ghost start_dabs = out@;
        let last = match state.last {
            None => {
                self.stroke_begin(out, state, spot, pressure, walk);
                assert(out@.take(start_dabs.len() as int) =~= start_dabs);
                return;
            },
            Some(last) => last,
        };
        let stride = &walk.stride;
        let length = &walk.length;
        let ahead = &walk.ahead;
        let place = &walk.place;
        let left = &walk.left;
        let radius = self.radius_for(pressure, walk);
        let step = stride(radius, self.spacing).at_least(Scalar { bits: HALF });
        let len = length(last, spot);
        if len.le(Scalar { bits: POINT_LIKE }) {
            assert(out@.take(start_dabs.len() as int) =~= start_dabs);
            assert(out@.skip(start_dabs.len() as int) =~= Seq::<Dab>::empty());
            return;
        }
        let start = state.residual.negated();
        let mut traveled = start;
        let ghost mut stops: Seq<Scalar> = Seq::empty();
        let mut next = ahead(traveled, step);
        while next.le(len)
            invariant
                self.wf(),
                walk.steady(),
                *ahead == walk.ahead,
                *place == walk.place,
                walk.moves_on(start, step, len),
                traveled == start || start.at_most(traveled),
                next == walk.ahead_of(traveled, step),
                traveled == walk.reached(start, stops, stops.len() as int),
                out@.len() == start_dabs.len() + stops.len(),
                out@.take(start_dabs.len() as int) == start_dabs,
                forall|i: int|
                    0 <= i < stops.len() ==> #[trigger] stops[i] == walk.ahead_of(
                        walk.reached(start, stops, i),
                        step,
                    ) && stops[i].at_most(len),
                forall|i: int|
                    0 <= i < stops.len() ==> out@[start_dabs.len() + i] == walk.dab(
                        self,
                        walk.place_of(last, spot, len, #[trigger] stops[i]),
                        pressure,
                    ),
                stops.len() > 0 ==> !traveled.nan(),
                stops.len() > 0 ==> walk.dab_answered(self, pressure),
                walk.ahead.ensures((traveled, step), next),
                forall|i: int|
                    0 <= i < stops.len() ==> {
                        &&& walk.ahead.ensures(
                            (walk.reached(start, stops, i), step),
                            #[trigger] stops[i],
                        )
                        &&& walk.place.ensures(
                            (last, spot, len, stops[i]),
                            walk.place_of(last, spot, len, stops[i]),
                        )
                    },
            decreases if traveled.nan() { 0x2_0000_0000 } else { len.rank() - traveled.rank() },
        {
            let ghost dabs = out@;
            let ghost earlier = stops;
            proof {
                assert(walk.ahead_of(traveled, step).at_most(len));
                stops = stops.push(next);
            }
            traveled = next;
            let dab = self.dab_at(place(last, spot, len, traveled), pressure, walk);
            out.push(dab);
            assert(out@.take(start_dabs.len() as int) =~= dabs.take(start_dabs.len() as int));
            assert forall|i: int| 0 <= i < stops.len() implies #[trigger] stops[i] == walk.ahead_of(
                walk.reached(start, stops, i),
                step,
            ) && stops[i].at_most(len) by {
                if i < earlier.len() {
                    assert(stops[i] == earlier[i]);
                    assert(walk.reached(start, stops, i) == walk.reached(start, earlier, i));
                }
            }
            assert forall|i: int| 0 <= i < stops.len() implies walk.ahead.ensures(
                (walk.reached(start, stops, i), step),
                #[trigger] stops[i],
            ) && walk.place.ensures(
                (last, spot, len, stops[i]),
                walk.place_of(last, spot, len, stops[i]),
            ) by {
                if i < earlier.len() {
                    assert(stops[i] == earlier[i]);
                    assert(walk.reached(start, stops, i) == walk.reached(start, earlier, i));
                }
            }
            assert forall|i: int| 0 <= i < stops.len() implies out@[start_dabs.len() + i]
                == walk.dab(
                self,
                walk.place_of(last, spot, len, #[trigger] stops[i]),
                pressure,
            ) by {
                if i < earlier.len() {
                    assert(stops[i] == earlier[i]);
                    assert(out@[start_dabs.len() + i] == dabs[start_dabs.len() + i]);
                }
            }
            next = ahead(traveled, step);
        }
        state.residual = left(len, traveled);
        state.last = Some(spot);
        proof {
            let dabs = out@.skip(start_dabs.len() as int);
            assert(walk.paced(start, step, len, stops));
            assert(walk.stops_answered(last, spot, start, step, len, stops));
            assert forall|i: int| 0 <= i < stops.len() implies #[trigger] dabs[i] == walk.dab(
                self,
                walk.place_of(last, spot, len, stops[i]),
                pressure,
            ) by {
                assert(dabs[i] == out@[start_dabs.len() + i]);
            }
        }
    }
}

/// The radius of a dab is the brush's own times what its size response makes of the pressure, and never
/// less than half a pixel, so the lightest touch still makes a mark.
pub proof fn law_a_dab_is_never_too_small_to_see<
    S: Fn(Point, Point) -> Scalar,
    M: Fn(Scalar, Scalar) -> Scalar,
    T: Fn(Scalar) -> Scalar,
    F: Fn(Scalar) -> bool,
    N: Fn(Scalar, Scalar) -> bool,
    H: Fn(Scalar, (Point, Point), (Scalar, Scalar)) -> Scalar,
    X: Fn(Scalar, Scalar) -> Scalar,
    G: Fn(Scalar, Scalar) -> Scalar,
    D: Fn(Spot, Spot) -> Scalar,
    A: Fn(Scalar, Scalar) -> Scalar,
    P: Fn(Spot, Spot, Scalar, Scalar) -> Spot,
    L: Fn(Scalar, Scalar) -> Scalar,
>(walk: &Walk<S, M, T, F, N, H, X, G, D, A, P, L>, brush: &Brush, pressure: Scalar, raw: Scalar)
    requires
        walk.steady(),
        walk.product.ensures(
            (brush.radius, walk.calculus.value(brush.size_response@, pressure)),
            raw,
        ),
    ensures
        0x3F00_0000 <= raw.bits <= 0x7F80_0000 ==> walk.radius_at(brush, pressure) == raw,
        raw.bits < 0x3F00_0000 || raw.bits > 0x7F80_0000 ==> walk.radius_at(brush, pressure).bits
            == 0x3F00_0000,
{
}

/// The flow of a dab is the brush's own times what its flow response makes of the pressure, held from
/// none to all of it.
pub proof fn law_a_dab_flows_as_it_is_pressed<
    S: Fn(Point, Point) -> Scalar,
    M: Fn(Scalar, Scalar) -> Scalar,
    T: Fn(Scalar) -> Scalar,
    F: Fn(Scalar) -> bool,
    N: Fn(Scalar, Scalar) -> bool,
    H: Fn(Scalar, (Point, Point), (Scalar, Scalar)) -> Scalar,
    X: Fn(Scalar, Scalar) -> Scalar,
    G: Fn(Scalar, Scalar) -> Scalar,
    D: Fn(Spot, Spot) -> Scalar,
    A: Fn(Scalar, Scalar) -> Scalar,
    P: Fn(Spot, Spot, Scalar, Scalar) -> Spot,
    L: Fn(Scalar, Scalar) -> Scalar,
>(walk: &Walk<S, M, T, F, N, H, X, G, D, A, P, L>, brush: &Brush, pressure: Scalar, raw: Scalar)
    requires
        walk.steady(),
        walk.product.ensures(
            (brush.flow, walk.calculus.value(brush.flow_response@, pressure)),
            raw,
        ),
    ensures
        raw.bits <= 0x3F80_0000 ==> walk.flow_at(brush, pressure) == raw,
        0x3F80_0000 < raw.bits <= 0x7F80_0000 ==> walk.flow_at(brush, pressure).bits == 0x3F80_0000,
        0x8000_0000 < raw.bits <= 0xFF80_0000 ==> walk.flow_at(brush, pressure).bits == 0,
{
}

/// A dab lies where it was put, in the brush's hardness, roundness and colour, turned by the brush's
/// angle in full turns of two pi, and is as large and flows as much as the pressure makes it.
pub proof fn law_a_dab_is_the_brush_where_it_was_put<
    S: Fn(Point, Point) -> Scalar,
    M: Fn(Scalar, Scalar) -> Scalar,
    T: Fn(Scalar) -> Scalar,
    F: Fn(Scalar) -> bool,
    N: Fn(Scalar, Scalar) -> bool,
    H: Fn(Scalar, (Point, Point), (Scalar, Scalar)) -> Scalar,
    X: Fn(Scalar, Scalar) -> Scalar,
    G: Fn(Scalar, Scalar) -> Scalar,
    D: Fn(Spot, Spot) -> Scalar,
    A: Fn(Scalar, Scalar) -> Scalar,
    P: Fn(Spot, Spot, Scalar, Scalar) -> Spot,
    L: Fn(Scalar, Scalar) -> Scalar,
>(walk: &Walk<S, M, T, F, N, H, X, G, D, A, P, L>, brush: &Brush, spot: Spot, pressure: Scalar, turned: Scalar)
    requires
        walk.steady(),
        walk.product.ensures((brush.angle, Scalar { bits: 0x40C9_0FDB }), turned),
    ensures
        ({
            let dab = walk.dab(brush, spot, pressure);
            &&& dab.x == spot.x
            &&& dab.y == spot.y
            &&& dab.radius == walk.radius_at(brush, pressure)
            &&& dab.flow == walk.flow_at(brush, pressure)
            &&& dab.hardness == brush.hardness
            &&& dab.roundness == brush.roundness
            &&& dab.angle == turned
            &&& dab.color_linear_premul == brush.color_linear_premul
        }),
{
}

/// Two dabs are as far apart as the stride of their radius and the brush's spacing says, and never less
/// than half a pixel.
pub proof fn law_dabs_keep_their_distance<
    S: Fn(Point, Point) -> Scalar,
    M: Fn(Scalar, Scalar) -> Scalar,
    T: Fn(Scalar) -> Scalar,
    F: Fn(Scalar) -> bool,
    N: Fn(Scalar, Scalar) -> bool,
    H: Fn(Scalar, (Point, Point), (Scalar, Scalar)) -> Scalar,
    X: Fn(Scalar, Scalar) -> Scalar,
    G: Fn(Scalar, Scalar) -> Scalar,
    D: Fn(Spot, Spot) -> Scalar,
    A: Fn(Scalar, Scalar) -> Scalar,
    P: Fn(Spot, Spot, Scalar, Scalar) -> Spot,
    L: Fn(Scalar, Scalar) -> Scalar,
>(walk: &Walk<S, M, T, F, N, H, X, G, D, A, P, L>, brush: &Brush, pressure: Scalar, stride: Scalar)
    requires
        walk.steady(),
        walk.stride.ensures((walk.radius_at(brush, pressure), brush.spacing), stride),
    ensures
        0x3F00_0000 <= stride.bits <= 0x7F80_0000 ==> walk.step_at(brush, pressure) == stride,
        stride.bits < 0x3F00_0000 || stride.bits > 0x7F80_0000 ==> walk.step_at(brush, pressure).bits
            == 0x3F00_0000,
{
}

/// Whether the sums of a walk are exact: each stop, and the one that no longer fits, is a step on from
/// the one before, as real numbers, and what is left is the rest of the length.
pub open spec fn exactly_paced<
    S: Fn(Point, Point) -> Scalar,
    M: Fn(Scalar, Scalar) -> Scalar,
    T: Fn(Scalar) -> Scalar,
    F: Fn(Scalar) -> bool,
    N: Fn(Scalar, Scalar) -> bool,
    H: Fn(Scalar, (Point, Point), (Scalar, Scalar)) -> Scalar,
    X: Fn(Scalar, Scalar) -> Scalar,
    G: Fn(Scalar, Scalar) -> Scalar,
    D: Fn(Spot, Spot) -> Scalar,
    A: Fn(Scalar, Scalar) -> Scalar,
    P: Fn(Spot, Spot, Scalar, Scalar) -> Spot,
    L: Fn(Scalar, Scalar) -> Scalar,
>(
    walk: &Walk<S, M, T, F, N, H, X, G, D, A, P, L>,
    start: Scalar,
    step: Scalar,
    len: Scalar,
    stops: Seq<Scalar>,
) -> bool {
    &&& forall|i: int|
        0 <= i <= stops.len() ==> {
            let here = #[trigger] walk.reached(start, stops, i);
            let next = walk.ahead_of(here, step);
            !next.nan() && next.value() == here.value() + step.value()
        }
    &&& walk.left_of(len, walk.reached(start, stops, stops.len() as int)).value() == len.value()
        - walk.reached(start, stops, stops.len() as int).value()
}

/// The stops of a walk lie a step apart, as real numbers, the first of them a step from the start.
proof fn lemma_stops_are_even<
    S: Fn(Point, Point) -> Scalar,
    M: Fn(Scalar, Scalar) -> Scalar,
    T: Fn(Scalar) -> Scalar,
    F: Fn(Scalar) -> bool,
    N: Fn(Scalar, Scalar) -> bool,
    H: Fn(Scalar, (Point, Point), (Scalar, Scalar)) -> Scalar,
    X: Fn(Scalar, Scalar) -> Scalar,
    G: Fn(Scalar, Scalar) -> Scalar,
    D: Fn(Spot, Spot) -> Scalar,
    A: Fn(Scalar, Scalar) -> Scalar,
    P: Fn(Spot, Spot, Scalar, Scalar) -> Spot,
    L: Fn(Scalar, Scalar) -> Scalar,
>(
    walk: &Walk<S, M, T, F, N, H, X, G, D, A, P, L>,
    start: Scalar,
    step: Scalar,
    len: Scalar,
    stops: Seq<Scalar>,
    n: int,
)
    requires
        walk.paced(start, step, len, stops),
        exactly_paced(walk, start, step, len, stops),
        0 <= n <= stops.len(),
    ensures
        walk.reached(start, stops, n).value() == start.value() + n as real * step.value(),
    decreases n,
{
    let s = step.value();
    if n > 0 {
        lemma_stops_are_even(walk, start, step, len, stops, n - 1);
        assert(stops[n - 1] == walk.ahead_of(walk.reached(start, stops, n - 1), step));
        let (a, b) = ((n - 1) as real, n as real);
        assert(a * s + s == b * s) by (nonlinear_arith)
            requires
                b == a + 1 as real,
        ;
    } else {
        assert(0 as real * s == 0 as real) by (nonlinear_arith);
    }
}

/// Dabs are evenly spaced, along a segment and on from one segment to the next. Where the sums are
/// exact, the dabs of a segment lie one step apart, the first of them where the way since the last dab
/// of the segment before comes to one step; there are as many as fit, and what is left of the way
/// after the last of them is carried over. So however a way is cut into segments, the number of dabs
/// on it and the way left at its end come to the same.
pub proof fn law_dabs_are_evenly_spaced<
    S: Fn(Point, Point) -> Scalar,
    M: Fn(Scalar, Scalar) -> Scalar,
    T: Fn(Scalar) -> Scalar,
    F: Fn(Scalar) -> bool,
    N: Fn(Scalar, Scalar) -> bool,
    H: Fn(Scalar, (Point, Point), (Scalar, Scalar)) -> Scalar,
    X: Fn(Scalar, Scalar) -> Scalar,
    G: Fn(Scalar, Scalar) -> Scalar,
    D: Fn(Spot, Spot) -> Scalar,
    A: Fn(Scalar, Scalar) -> Scalar,
    P: Fn(Spot, Spot, Scalar, Scalar) -> Spot,
    L: Fn(Scalar, Scalar) -> Scalar,
>(
    walk: &Walk<S, M, T, F, N, H, X, G, D, A, P, L>,
    brush: &Brush,
    was: StrokeState,
    last: Spot,
    spot: Spot,
    pressure: Scalar,
    dabs: Seq<Dab>,
    now: StrokeState,
    stops: Seq<Scalar>,
    i: int,
)
    requires
        walk.continues(brush, was, last, spot, pressure, dabs, now),
        0x3400_0000 < walk.length_of(last, spot).bits <= 0x7F80_0000,
        walk.paced(
            was.residual.negation(),
            walk.step_at(brush, pressure),
            walk.length_of(last, spot),
            stops,
        ),
        exactly_paced(
            walk,
            was.residual.negation(),
            walk.step_at(brush, pressure),
            walk.length_of(last, spot),
            stops,
        ),
    ensures
        ({
            let way = was.residual.value() + walk.length_of(last, spot).value();
            let step = walk.step_at(brush, pressure).value();
            let n = dabs.len() as int;
            &&& n > 0 ==> n as real * step <= way
            &&& way < (n + 1) as real * step
            &&& now.residual.value() == way - n as real * step
            &&& now.last == Some(spot)
            &&& stops.len() == n
            &&& 0 <= i < n ==> {
                &&& stops[i].value() == (i + 1) as real * step - was.residual.value()
                &&& dabs[i] == walk.dab(
                    brush,
                    walk.place_of(last, spot, walk.length_of(last, spot), stops[i]),
                    pressure,
                )
            }
        }),
{
    let len = walk.length_of(last, spot);
    let step = walk.step_at(brush, pressure);
    let start = was.residual.negation();
    assert(!len.at_most(Scalar { bits: POINT_LIKE }));
    let found = choose|stops: Seq<Scalar>|
        {
            &&& #[trigger] walk.paced(start, step, len, stops)
            &&& dabs.len() == stops.len()
            &&& forall|i: int|
                0 <= i < stops.len() ==> #[trigger] dabs[i] == walk.dab(
                    brush,
                    walk.place_of(last, spot, len, stops[i]),
                    pressure,
                )
            &&& now == (StrokeState {
                last: Some(spot),
                residual: walk.left_of(len, walk.reached(start, stops, stops.len() as int)),
            })
        };
    law_a_walk_has_one_set_of_stops(walk, start, step, len, found, stops);
    law_the_other_sign_is_the_other_side(was.residual);
    let n = stops.len() as int;
    let end = walk.reached(start, stops, n);
    let s = step.value();
    lemma_stops_are_even(walk, start, step, len, stops, n);
    if n > 0 {
        assert(stops[n - 1].at_most(len));
        law_order_is_that_of_values(stops[n - 1], len);
    }
    let next = walk.ahead_of(end, step);
    assert(!next.nan());
    law_order_is_that_of_values(next, len);
    let (a, b) = (n as real, (n + 1) as real);
    assert(a * s + s == b * s) by (nonlinear_arith)
        requires
            b == a + 1 as real,
    ;
    if 0 <= i < n {
        lemma_stops_are_even(walk, start, step, len, stops, i + 1);
        assert(walk.reached(start, stops, i + 1) == stops[i]);
        assert(dabs[i] == walk.dab(brush, walk.place_of(last, spot, len, found[i]), pressure));
    }
}

/// A sample where the last one was leaves no dab and changes nothing: a length is a point's when it is
/// at most 2^-23.
pub proof fn law_a_pen_that_stays_leaves_nothing<
    S: Fn(Point, Point) -> Scalar,
    M: Fn(Scalar, Scalar) -> Scalar,
    T: Fn(Scalar) -> Scalar,
    F: Fn(Scalar) -> bool,
    N: Fn(Scalar, Scalar) -> bool,
    H: Fn(Scalar, (Point, Point), (Scalar, Scalar)) -> Scalar,
    X: Fn(Scalar, Scalar) -> Scalar,
    G: Fn(Scalar, Scalar) -> Scalar,
    D: Fn(Spot, Spot) -> Scalar,
    A: Fn(Scalar, Scalar) -> Scalar,
    P: Fn(Spot, Spot, Scalar, Scalar) -> Spot,
    L: Fn(Scalar, Scalar) -> Scalar,
>(
    walk: &Walk<S, M, T, F, N, H, X, G, D, A, P, L>,
    brush: &Brush,
    was: StrokeState,
    last: Spot,
    spot: Spot,
    pressure: Scalar,
    len: Scalar,
    dabs: Seq<Dab>,
    now: StrokeState,
)
    requires
        walk.steady(),
        walk.continues(brush, was, last, spot, pressure, dabs, now),
        walk.length.ensures((last, spot), len),
    ensures
        len.bits <= 0x3400_0000 ==> dabs.len() == 0 && now == was,
        0x3400_0000 < len.bits <= 0x7F80_0000 ==> now.last == Some(spot),
{
}

/// Two brushes that are set alike are the same in every setting.
pub proof fn law_brushes_set_alike_agree_in_every_setting(a: Brush, b: Brush)
    ensures
        a.set_like(&b) <==> a.radius == b.radius && a.hardness == b.hardness && a.spacing == b.spacing
            && a.flow == b.flow && a.opacity == b.opacity && a.roundness == b.roundness && a.angle
            == b.angle && a.stabilization_ms == b.stabilization_ms && a.size_response@
            == b.size_response@ && a.flow_response@ == b.flow_response@,
{
}

/// A brush as it comes is round and 8 pixels across its radius, half hard, a quarter of its diameter
/// from dab to dab, flows and covers fully, neither flattened nor turned nor smoothed, grows with the
/// pressure, and flows the same at any.
pub proof fn law_a_brush_comes_ready_to_draw(brush: Brush)
    requires
        brush.as_it_comes(),
    ensures
        brush.wf(),
        brush.radius.bits == 0x4100_0000,
        brush.hardness.bits == 0x3F00_0000,
        brush.spacing.bits == 0x3E80_0000,
        brush.flow.bits == 0x3F80_0000,
        brush.opacity.bits == 0x3F80_0000,
        brush.roundness.bits == 0x3F80_0000,
        brush.angle.bits == 0,
        brush.stabilization_ms.bits == 0,
        brush.size_response@ == Curve::identity(),
        brush.flow_response@ == Curve::level(Scalar { bits: 0x3F80_0000 }),
        brush.tip is Round,
        brush.tip->Round_0@ == Curve::identity(),
{
}

} // verus!
