//! Response curves: how an input like pressure drives a brush parameter.
//!
//! A curve is a list of control points, interpolated with monotone cubic Hermite pieces. It passes
//! through its points and never overshoots: between widely spaced points an ordinary cubic dips and
//! bulges, which on a size curve would mean that pressing harder briefly makes a thinner line.
//!
//! Which piece answers an input, where the ends hold, and how a tangent is limited are decided here.
//! Adding and multiplying the numbers is handed in, gathered in a [`Calculus`].

use vstd::prelude::*;

use crate::scalar::{
    law_order_is_that_of_values, law_zero_and_one_are_themselves, Scalar, ONE, ZERO,
};
use crate::smooth::{
    blend, close, fraction, held, hermite, law_a_held_piece_goes_one_way,
    law_a_piece_joins_its_ends, lemma_fractions, lemma_limit_nearly_holds, lemma_nearly_held,
};

verus! {

/// A control point: an input and the output it maps to.
pub type Point = (Scalar, Scalar);

/// Whether a number is from zero to one.
pub open spec fn in_unit(s: Scalar) -> bool {
    (Scalar { bits: ZERO }).at_most(s) && s.at_most(Scalar { bits: ONE })
}

/// A number held between zero and one.
pub open spec fn unit(s: Scalar) -> Scalar {
    s.clamped_spec(Scalar { bits: ZERO }, Scalar { bits: ONE })
}

/// Whether points describe a curve: at least two, in order of their inputs, all within the unit
/// square.
pub open spec fn describes_curve(points: Seq<Point>) -> bool {
    &&& points.len() >= 2
    &&& forall|i: int, j: int|
        0 <= i < j < points.len() ==> (#[trigger] points[i]).0.below((#[trigger] points[j]).0)
    &&& forall|i: int|
        0 <= i < points.len() ==> in_unit((#[trigger] points[i]).0) && in_unit(points[i].1)
}

/// A mapping from an input in `0..=1` to an output in `0..=1`.
#[derive(Debug, PartialEq)]
pub struct Curve {
    /// At least two points, sorted by x, all within `0..=1`.
    points: Vec<Point>,
}

impl View for Curve {
    type V = Seq<Point>;

    closed spec fn view(&self) -> Seq<Point> {
        self.points@
    }
}

impl Clone for Curve {
    fn clone(&self) -> (r: Curve)
        ensures
            r@ == self@,
    {
        let mut points: Vec<Point> = Vec::new();
        let mut i: usize = 0;
        while i < self.points.len()
            invariant
                i <= self.points@.len(),
                points@ == self.points@.take(i as int),
            decreases self.points@.len() - i,
        {
            let p = self.points[i];
            points.push(p);
            assert(points@ =~= self.points@.take(i + 1));
            i += 1;
        }
        assert(points@ =~= self.points@);
        Curve { points }
    }
}

impl Default for Curve {
    fn default() -> (r: Curve)
        ensures
            r.wf(),
            r@ == Curve::identity(),
    {
        Curve::linear()
    }
}

/// The arithmetic of a curve: the slope between two points, the mean of two slopes, three times a
/// slope, whether a slope counts as flat, whether two inputs are too close to tell apart, and the
/// Hermite piece between two points with a tangent at each.
pub struct Calculus<S, M, T, F, N, H> {
    pub slope: S,
    pub mean: M,
    pub thrice: T,
    pub flat: F,
    pub narrow: N,
    pub piece: H,
}

impl<
    S: Fn(Point, Point) -> Scalar,
    M: Fn(Scalar, Scalar) -> Scalar,
    T: Fn(Scalar) -> Scalar,
    F: Fn(Scalar) -> bool,
    N: Fn(Scalar, Scalar) -> bool,
    H: Fn(Scalar, (Point, Point), (Scalar, Scalar)) -> Scalar,
> Calculus<S, M, T, F, N, H> {
    pub open spec fn slope_of(&self, p: Point, q: Point) -> Scalar {
        choose|s: Scalar| self.slope.ensures((p, q), s)
    }

    pub open spec fn mean_of(&self, a: Scalar, b: Scalar) -> Scalar {
        choose|s: Scalar| self.mean.ensures((a, b), s)
    }

    pub open spec fn thrice_of(&self, a: Scalar) -> Scalar {
        choose|s: Scalar| self.thrice.ensures((a,), s)
    }

    pub open spec fn is_flat(&self, a: Scalar) -> bool {
        choose|s: bool| self.flat.ensures((a,), s)
    }

    pub open spec fn is_narrow(&self, a: Scalar, b: Scalar) -> bool {
        choose|s: bool| self.narrow.ensures((a, b), s)
    }

    pub open spec fn piece_of(
        &self,
        x: Scalar,
        ends: (Point, Point),
        tangents: (Scalar, Scalar),
    ) -> Scalar {
        choose|s: Scalar| self.piece.ensures((x, ends, tangents), s)
    }

    /// Whether the functions answer always, and always the same about the same.
    pub open spec fn steady(&self) -> bool {
        &&& forall|p: Point, q: Point| #[trigger] self.slope.requires((p, q))
        &&& forall|p: Point, q: Point, s: Scalar| #[trigger]
            self.slope.ensures((p, q), s) ==> s == self.slope_of(p, q)
        &&& forall|a: Scalar, b: Scalar| #[trigger] self.mean.requires((a, b))
        &&& forall|a: Scalar, b: Scalar, s: Scalar| #[trigger]
            self.mean.ensures((a, b), s) ==> s == self.mean_of(a, b)
        &&& forall|a: Scalar| #[trigger] self.thrice.requires((a,))
        &&& forall|a: Scalar, s: Scalar| #[trigger]
            self.thrice.ensures((a,), s) ==> s == self.thrice_of(a)
        &&& forall|a: Scalar| #[trigger] self.flat.requires((a,))
        &&& forall|a: Scalar, s: bool| #[trigger]
            self.flat.ensures((a,), s) ==> s == self.is_flat(a)
        &&& forall|a: Scalar, b: Scalar| #[trigger] self.narrow.requires((a, b))
        &&& forall|a: Scalar, b: Scalar, s: bool| #[trigger]
            self.narrow.ensures((a, b), s) ==> s == self.is_narrow(a, b)
        &&& forall|x: Scalar, e: (Point, Point), t: (Scalar, Scalar)| #[trigger]
            self.piece.requires((x, e, t))
        &&& forall|x: Scalar, e: (Point, Point), t: (Scalar, Scalar), s: Scalar| #[trigger]
            self.piece.ensures((x, e, t), s) ==> s == self.piece_of(x, e, t)
    }

    /// The tangents at the two ends of a piece.
    pub open spec fn tangents_of(&self, points: Seq<Point>, i: int) -> (Scalar, Scalar) {
        let d = self.slope_of(points[i], points[i + 1]);
        if self.is_flat(d) {
            (Scalar { bits: ZERO }, Scalar { bits: ZERO })
        } else {
            let start = if i == 0 {
                d
            } else {
                self.mean_of(self.slope_of(points[i - 1], points[i]), d)
            };
            let end = if i + 2 >= points.len() {
                d
            } else {
                self.mean_of(d, self.slope_of(points[i + 1], points[i + 2]))
            };
            (limited(start, d, self.thrice_of(d)), limited(end, d, self.thrice_of(d)))
        }
    }

    /// Whether every answer that decides the tangents of a piece is one that was given.
    pub open spec fn tangents_answered(&self, points: Seq<Point>, i: int) -> bool {
        let d = self.slope_of(points[i], points[i + 1]);
        &&& self.slope.ensures((points[i], points[i + 1]), d)
        &&& self.flat.ensures((d,), self.is_flat(d))
        &&& !self.is_flat(d) ==> {
            &&& self.thrice.ensures((d,), self.thrice_of(d))
            &&& i > 0 ==> {
                let before = self.slope_of(points[i - 1], points[i]);
                &&& self.slope.ensures((points[i - 1], points[i]), before)
                &&& self.mean.ensures((before, d), self.mean_of(before, d))
            }
            &&& i + 2 < points.len() ==> {
                let after = self.slope_of(points[i + 1], points[i + 2]);
                &&& self.slope.ensures((points[i + 1], points[i + 2]), after)
                &&& self.mean.ensures((d, after), self.mean_of(d, after))
            }
        }
    }

    /// Whether every answer that decides what a curve makes of an input is one that was given.
    pub open spec fn answered(&self, points: Seq<Point>, input: Scalar) -> bool {
        let x = unit(input);
        let i = segment(points, x);
        !x.at_most(points[0].0) && !points.last().0.at_most(x) ==> {
            let ends = (points[i], points[i + 1]);
            &&& self.narrow.ensures((ends.0.0, ends.1.0), self.is_narrow(ends.0.0, ends.1.0))
            &&& !self.is_narrow(ends.0.0, ends.1.0) ==> {
                &&& self.tangents_answered(points, i)
                &&& self.piece.ensures(
                    (x, ends, self.tangents_of(points, i)),
                    self.piece_of(x, ends, self.tangents_of(points, i)),
                )
            }
        }
    }

    /// What a curve makes of an input.
    pub open spec fn value(&self, points: Seq<Point>, input: Scalar) -> Scalar {
        let x = unit(input);
        if x.at_most(points[0].0) {
            points[0].1
        } else if points.last().0.at_most(x) {
            points.last().1
        } else {
            let i = segment(points, x);
            if self.is_narrow(points[i].0, points[i + 1].0) {
                points[i].1
            } else {
                unit(self.piece_of(x, (points[i], points[i + 1]), self.tangents_of(points, i)))
            }
        }
    }
}

/// Whether an input lies between two neighbouring points.
pub open spec fn spans(points: Seq<Point>, i: int, x: Scalar) -> bool {
    points[i].0.at_most(x) && x.at_most(points[i + 1].0)
}

/// The first piece that an input lies on, and the first of all where it lies on none.
pub open spec fn segment(points: Seq<Point>, x: Scalar) -> int {
    segment_from(points, x, 0)
}

/// The first piece from a place on that an input lies on, and the first of all where it lies on
/// none.
pub open spec fn segment_from(points: Seq<Point>, x: Scalar, i: int) -> int
    decreases points.len() - i,
{
    if i + 1 >= points.len() {
        0
    } else if spans(points, i, x) {
        i
    } else {
        segment_from(points, x, i + 1)
    }
}

/// Whether a number is above zero.
pub open spec fn positive(s: Scalar) -> bool {
    (Scalar { bits: ZERO }).below(s)
}

/// A tangent held to its piece: one that points against the piece would make the curve reverse
/// inside it, and one beyond the limit would make it bulge.
pub open spec fn limited(m: Scalar, d: Scalar, limit: Scalar) -> Scalar {
    if positive(m) != positive(d) {
        Scalar { bits: ZERO }
    } else if positive(d) {
        if m.nan() || limit.below(m) {
            limit
        } else {
            m
        }
    } else {
        if m.nan() || m.below(limit) {
            limit
        } else {
            m
        }
    }
}

/// A tangent held to its piece.
fn limited_tangent(m: Scalar, d: Scalar, limit: Scalar) -> (r: Scalar)
    ensures
        r == limited(m, d, limit),
{
    let none = Scalar { bits: ZERO };
    if none.lt(m) != none.lt(d) {
        none
    } else if none.lt(d) {
        if m.is_nan() || limit.lt(m) {
            limit
        } else {
            m
        }
    } else {
        if m.is_nan() || m.lt(limit) {
            limit
        } else {
            m
        }
    }
}

/// Whether a tangent goes with its piece: on a rising piece from zero to the limit, and on any other
/// from the limit to zero.
pub open spec fn restrained(m: Scalar, d: Scalar, limit: Scalar) -> bool {
    let none = Scalar { bits: ZERO };
    if positive(d) {
        none.at_most(m) && m.at_most(limit)
    } else {
        limit.at_most(m) && m.at_most(none)
    }
}

/// A limited tangent never points against its piece, and never passes the limit.
pub proof fn law_tangents_cannot_overshoot(m: Scalar, d: Scalar, limit: Scalar)
    requires
        !limit.nan(),
        // The limit is a multiple of the slope, so it has the slope's sign.
        positive(d) == positive(limit),
    ensures
        restrained(limited(m, d, limit), d, limit),
{
}

/// Whether a number comes no sooner than another on the way up, or on the way down.
pub open spec fn onward(up: bool, a: Scalar, b: Scalar) -> bool {
    if up {
        a.at_most(b)
    } else {
        b.at_most(a)
    }
}

/// Whether the outputs of a stretch of a curve only ever go one way.
pub open spec fn one_way(points: Seq<Point>, from: int, to: int, up: bool) -> bool {
    forall|i: int, j: int|
        from <= i <= j <= to ==> onward(up, (#[trigger] points[i]).1, (#[trigger] points[j]).1)
}

impl Curve {
    /// The points describe a curve.
    pub open spec fn wf(&self) -> bool {
        describes_curve(self@)
    }

    /// The points of the identity.
    pub open spec fn identity() -> Seq<Point> {
        let low = Scalar { bits: ZERO };
        let high = Scalar { bits: ONE };
        seq![(low, low), (high, high)]
    }

    /// The points of a curve with one output throughout.
    pub open spec fn level(y: Scalar) -> Seq<Point> {
        seq![(Scalar { bits: ZERO }, y), (Scalar { bits: ONE }, y)]
    }

    /// The identity: output follows input exactly.
    pub fn linear() -> (r: Curve)
        ensures
            r.wf(),
            r@ == Curve::identity(),
    {
        let low = Scalar { bits: ZERO };
        let high = Scalar { bits: ONE };
        let mut points: Vec<Point> = Vec::new();
        points.push((low, low));
        points.push((high, high));
        let r = Curve { points };
        assert(r@ =~= Curve::identity());
        r
    }

    /// A constant output, for a parameter its input should not touch.
    pub fn constant(y: Scalar) -> (r: Curve)
        ensures
            r@ == Curve::level(unit(y)),
            !y.nan() ==> r.wf(),
    {
        let held = y.clamped(Scalar { bits: ZERO }, Scalar { bits: ONE });
        let mut points: Vec<Point> = Vec::new();
        points.push((Scalar { bits: ZERO }, held));
        points.push((Scalar { bits: ONE }, held));
        let r = Curve { points };
        assert(r@ =~= Curve::level(unit(y)));
        r
    }

    /// Build from control points, or `None` if they do not describe a curve.
    ///
    /// Rejects fewer than two points, any x out of order and any point outside the unit square.
    /// Sorting them silently would hide an editor's mistake rather than surface it.
    pub fn from_points(points: Vec<Point>) -> (r: Option<Curve>)
        ensures
            r is Some <==> describes_curve(points@),
            r matches Some(c) ==> c.wf() && c@ == points@,
    {
        if points.len() < 2 {
            return None;
        }
        let low = Scalar { bits: ZERO };
        let high = Scalar { bits: ONE };
        let mut i: usize = 0;
        while i < points.len()
            invariant
                i <= points@.len(),
                low.bits == ZERO,
                high.bits == ONE,
                points@.len() >= 2,
                forall|j: int|
                    0 <= j < i ==> in_unit((#[trigger] points@[j]).0) && in_unit(points@[j].1),
            decreases points@.len() - i,
        {
            let p = points[i];
            if !(low.le(p.0) && p.0.le(high) && low.le(p.1) && p.1.le(high)) {
                assert(!(in_unit(points@[i as int].0) && in_unit(points@[i as int].1)));
                return None;
            }
            i += 1;
        }
        let mut k: usize = 0;
        while k + 1 < points.len()
            invariant
                k < points@.len(),
                points@.len() >= 2,
                points@.len() <= usize::MAX,
                forall|a: int, b: int|
                    0 <= a < b <= k ==> (#[trigger] points@[a]).0.below((#[trigger] points@[b]).0),
            decreases points@.len() - k,
        {
            if !points[k].0.lt(points[k + 1].0) {
                assert(!points@[k as int].0.below(points@[k + 1].0));
                return None;
            }
            k += 1;
        }
        Some(Curve { points })
    }

    /// The control points, for an editor to draw and drag.
    pub fn points(&self) -> (r: &Vec<Point>)
        ensures
            r@ == self@,
    {
        &self.points
    }

    /// Evaluate the curve.
    ///
    /// Inputs outside `0..=1` are clamped. Outside the authored range the end value holds rather
    /// than the last slope extending.
    pub fn at<
        S: Fn(Point, Point) -> Scalar,
        M: Fn(Scalar, Scalar) -> Scalar,
        T: Fn(Scalar) -> Scalar,
        F: Fn(Scalar) -> bool,
        N: Fn(Scalar, Scalar) -> bool,
        H: Fn(Scalar, (Point, Point), (Scalar, Scalar)) -> Scalar,
    >(&self, x: Scalar, calculus: &Calculus<S, M, T, F, N, H>) -> (r: Scalar)
        requires
            self.wf(),
            calculus.steady(),
        ensures
            r == calculus.value(self@, x),
            !r.nan() ==> in_unit(r),
            calculus.answered(self@, x),
    {
        let x = x.clamped(Scalar { bits: ZERO }, Scalar { bits: ONE });
        let last: usize = self.points.len() - 1;
        if x.le(self.points[0].0) {
            return self.points[0].1;
        }
        if self.points[last].0.le(x) {
            return self.points[last].1;
        }
        let i: usize = self.segment_at(x);
        let from = self.points[i];
        let to = self.points[i + 1];
        let narrow = &calculus.narrow;
        if narrow(from.0, to.0) {
            return from.1;
        }
        let tangents = self.tangents(i, calculus);
        let piece = &calculus.piece;
        let value = piece(x, (from, to), tangents);
        value.clamped(Scalar { bits: ZERO }, Scalar { bits: ONE })
    }

    /// The first piece that an input lies on, and the first of all where it lies on none.
    fn segment_at(&self, x: Scalar) -> (i: usize)
        requires
            self@.len() >= 2,
        ensures
            i == segment(self@, x),
            i + 1 < self@.len(),
    {
        let mut i: usize = 0;
        let last: usize = self.points.len() - 1;
        while i < last
            invariant
                2 <= self@.len(),
                i <= last,
                last == self@.len() - 1,
                self@ == self.points@,
                segment_from(self@, x, i as int) == segment(self@, x),
            decreases self@.len() - i,
        {
            if self.points[i].0.le(x) && x.le(self.points[i + 1].0) {
                return i;
            }
            i += 1;
        }
        0
    }

    /// Tangents at the ends of piece `i`, limited so the curve cannot overshoot.
    ///
    /// Where a piece is flat both its tangents are zero, and elsewhere a tangent is limited to three
    /// times the piece's own slope.
    pub fn tangents<
        S: Fn(Point, Point) -> Scalar,
        M: Fn(Scalar, Scalar) -> Scalar,
        T: Fn(Scalar) -> Scalar,
        F: Fn(Scalar) -> bool,
        N: Fn(Scalar, Scalar) -> bool,
        H: Fn(Scalar, (Point, Point), (Scalar, Scalar)) -> Scalar,
    >(&self, i: usize, calculus: &Calculus<S, M, T, F, N, H>) -> (r: (Scalar, Scalar))
        requires
            self.wf(),
            i + 1 < self@.len(),
            calculus.steady(),
        ensures
            r == calculus.tangents_of(self@, i as int),
            calculus.tangents_answered(self@, i as int),
    {
        assert(self.points.len() == self.points@.len());
        let slope = &calculus.slope;
        let mean = &calculus.mean;
        let thrice = &calculus.thrice;
        let flat = &calculus.flat;
        let d = slope(self.points[i], self.points[i + 1]);
        if flat(d) {
            // A flat piece must stay flat, or the curve wanders off it and comes back.
            return (Scalar { bits: ZERO }, Scalar { bits: ZERO });
        }
        let start = if i == 0 {
            d
        } else {
            mean(slope(self.points[i - 1], self.points[i]), d)
        };
        let end = if self.points.len() - i <= 2 {
            d
        } else {
            mean(d, slope(self.points[i + 1], self.points[i + 2]))
        };
        let limit = thrice(d);
        (limited_tangent(start, d, limit), limited_tangent(end, d, limit))
    }
}

/// An input at or before the first point gives the first output, and one at or after the last gives
/// the last: a curve holds its ends.
pub proof fn law_a_curve_holds_its_ends<
    S: Fn(Point, Point) -> Scalar,
    M: Fn(Scalar, Scalar) -> Scalar,
    T: Fn(Scalar) -> Scalar,
    F: Fn(Scalar) -> bool,
    N: Fn(Scalar, Scalar) -> bool,
    H: Fn(Scalar, (Point, Point), (Scalar, Scalar)) -> Scalar,
>(calculus: &Calculus<S, M, T, F, N, H>, points: Seq<Point>, x: Scalar)
    requires
        describes_curve(points),
        !x.nan(),
    ensures
        x.at_most(points[0].0) ==> calculus.value(points, x) == points[0].1,
        points.last().0.at_most(x) ==> calculus.value(points, x) == points.last().1,
{
    assert(in_unit(points[0].0));
    assert(in_unit(points[points.len() - 1].0));
    assert(points[0].0.below(points[points.len() - 1].0));
}

/// The input of a point inside a curve lies on the piece before it.
proof fn lemma_piece_before(points: Seq<Point>, k: int, i: int)
    requires
        describes_curve(points),
        0 <= i < k < points.len(),
    ensures
        segment_from(points, points[k].0, i) == k - 1,
    decreases k - i,
{
    assert(points[k - 1].0.below(points[k].0));
    if i < k - 1 {
        assert(points[i + 1].0.below(points[k].0));
        lemma_piece_before(points, k, i + 1);
    }
}

/// A curve passes through its control points: what the artist places is what they get. It does at a
/// point that is not too close to the one before to tell them apart, where the piece between the two
/// ends at that point.
pub proof fn law_a_curve_passes_through_its_points<
    S: Fn(Point, Point) -> Scalar,
    M: Fn(Scalar, Scalar) -> Scalar,
    T: Fn(Scalar) -> Scalar,
    F: Fn(Scalar) -> bool,
    N: Fn(Scalar, Scalar) -> bool,
    H: Fn(Scalar, (Point, Point), (Scalar, Scalar)) -> Scalar,
>(calculus: &Calculus<S, M, T, F, N, H>, points: Seq<Point>, k: int)
    requires
        describes_curve(points),
        0 <= k < points.len(),
        0 < k < points.len() - 1 ==> !calculus.is_narrow(points[k - 1].0, points[k].0)
            && calculus.piece_of(
            points[k].0,
            (points[k - 1], points[k]),
            calculus.tangents_of(points, k - 1),
        ) == points[k].1,
    ensures
        calculus.value(points, points[k].0) == points[k].1,
{
    let x = points[k].0;
    assert(in_unit(x) && in_unit(points[k].1));
    assert(unit(x) == x);
    if 0 < k < points.len() - 1 {
        assert(points[0].0.below(x));
        assert(x.below(points.last().0));
        lemma_piece_before(points, k, 0);
        let ends = (points[k - 1], points[k]);
        let tangents = calculus.tangents_of(points, k - 1);
        assert(calculus.piece_of(ends.1.0, ends, tangents) == ends.1.1);
    } else if k == points.len() - 1 {
        assert(points[0].0.below(x));
    }
}

impl<
    S: Fn(Point, Point) -> Scalar,
    M: Fn(Scalar, Scalar) -> Scalar,
    T: Fn(Scalar) -> Scalar,
    F: Fn(Scalar) -> bool,
    N: Fn(Scalar, Scalar) -> bool,
    H: Fn(Scalar, (Point, Point), (Scalar, Scalar)) -> Scalar,
> Calculus<S, M, T, F, N, H> {
    /// What a piece comes to in real arithmetic, with the tangents it has.
    pub open spec fn exact_piece(&self, points: Seq<Point>, i: int, x: Scalar) -> real {
        let (p, q) = (points[i], points[i + 1]);
        let tangents = self.tangents_of(points, i);
        hermite(
            x.value(),
            (p.0.value(), p.1.value()),
            (q.0.value(), q.1.value()),
            (tangents.0.value(), tangents.1.value()),
        )
    }

    /// Whether the arithmetic of a piece rounds by no more than it may. Its points are far enough apart
    /// to tell; the limit of its tangents has the sign of its slope, and over the width of the piece
    /// comes to three times its rise but for a slack; and everywhere on it the answer is the real
    /// number but for an error.
    pub open spec fn rounds_within(
        &self,
        points: Seq<Point>,
        i: int,
        slack: real,
        error: real,
    ) -> bool {
        let (p, q) = (points[i], points[i + 1]);
        let d = self.slope_of(p, q);
        let limit = self.thrice_of(d);
        &&& !self.is_narrow(p.0, q.0)
        &&& limit.finite()
        &&& positive(limit) == positive(d)
        &&& close(
            limit.value() * (q.0.value() - p.0.value()),
            3 as real * (q.1.value() - p.1.value()),
            slack,
        )
        &&& forall|x: Scalar|
            p.0.at_most(x) && x.at_most(q.0) ==> {
                let answer = #[trigger] self.piece_of(x, (p, q), self.tangents_of(points, i));
                answer.finite() && close(answer.value(), self.exact_piece(points, i, x), error)
            }
    }

    /// Whether the arithmetic of every piece of a curve rounds by no more than it may.
    pub open spec fn accurate(&self, points: Seq<Point>, slack: real, error: real) -> bool {
        forall|i: int|
            0 <= i < points.len() - 1 ==> #[trigger] self.rounds_within(points, i, slack, error)
    }

    /// The piece that real arithmetic makes of a piece with its tangents held exactly.
    spec fn ideal(&self, points: Seq<Point>, i: int, x: Scalar) -> real {
        let (p, q) = (points[i], points[i + 1]);
        let tangents = self.tangents_of(points, i);
        let width = q.0.value() - p.0.value();
        let by = q.1.value() - p.1.value();
        blend(
            fraction(x.value(), p.0.value(), q.0.value()),
            p.1.value(),
            q.1.value(),
            held(tangents.0.value() * width, by),
            held(tangents.1.value() * width, by),
        )
    }
}

/// An input past the first point and short of the last lies on its piece.
proof fn lemma_lies_on_its_piece(points: Seq<Point>, x: Scalar, i: int)
    requires
        describes_curve(points),
        0 <= i < points.len() - 1,
        points[i].0.at_most(x),
        x.at_most(points.last().0),
    ensures
        i <= segment_from(points, x, i) < points.len() - 1,
        spans(points, segment_from(points, x, i), x),
        segment_from(points, x, i) > i ==> points[segment_from(points, x, i)].0.below(x),
    decreases points.len() - i,
{
    if !spans(points, i, x) {
        assert(points[i + 1].0.below(x)) by {
            assert(in_unit(points[i + 1].0));
        }
        lemma_lies_on_its_piece(points, x, i + 1);
    }
}

/// A number held between zero and one is no further from any number between them.
proof fn lemma_holding_brings_no_further(s: Scalar, r: real, tolerance: real)
    requires
        s.finite(),
        0 as real <= r <= 1 as real,
        close(s.value(), r, tolerance),
    ensures
        close(unit(s).value(), r, tolerance),
{
    law_zero_and_one_are_themselves();
    law_order_is_that_of_values(s, Scalar { bits: ZERO });
    law_order_is_that_of_values(Scalar { bits: ONE }, s);
}

/// The values of the ends of a piece.
proof fn lemma_ends(points: Seq<Point>, i: int)
    requires
        describes_curve(points),
        0 <= i < points.len() - 1,
    ensures
        points[i].0.value() < points[i + 1].0.value(),
        0 as real <= points[i].1.value() <= 1 as real,
        0 as real <= points[i + 1].1.value() <= 1 as real,
{
    let (p, q) = (points[i], points[i + 1]);
    let (low, high) = (Scalar { bits: ZERO }, Scalar { bits: ONE });
    assert(p.0.below(q.0));
    assert(in_unit(p.1) && in_unit(q.1));
    law_zero_and_one_are_themselves();
    law_order_is_that_of_values(p.0, q.0);
    law_order_is_that_of_values(low, p.1);
    law_order_is_that_of_values(p.1, high);
    law_order_is_that_of_values(low, q.1);
    law_order_is_that_of_values(q.1, high);
}

/// The tangents of a piece are nearly held.
proof fn lemma_tangents_are_nearly_held<
    S: Fn(Point, Point) -> Scalar,
    M: Fn(Scalar, Scalar) -> Scalar,
    T: Fn(Scalar) -> Scalar,
    F: Fn(Scalar) -> bool,
    N: Fn(Scalar, Scalar) -> bool,
    H: Fn(Scalar, (Point, Point), (Scalar, Scalar)) -> Scalar,
>(
    calculus: &Calculus<S, M, T, F, N, H>,
    points: Seq<Point>,
    i: int,
    slack: real,
    error: real,
)
    requires
        describes_curve(points),
        calculus.rounds_within(points, i, slack, error),
        0 <= i < points.len() - 1,
    ensures
        ({
            let (p, q) = (points[i], points[i + 1]);
            let tangents = calculus.tangents_of(points, i);
            let width = q.0.value() - p.0.value();
            let by = q.1.value() - p.1.value();
            &&& close(tangents.0.value() * width, held(tangents.0.value() * width, by), slack)
            &&& close(tangents.1.value() * width, held(tangents.1.value() * width, by), slack)
        }),
{
    let (p, q) = (points[i], points[i + 1]);
    let d = calculus.slope_of(p, q);
    let limit = calculus.thrice_of(d);
    let none = Scalar { bits: ZERO };
    let start = if i == 0 {
        d
    } else {
        calculus.mean_of(calculus.slope_of(points[i - 1], points[i]), d)
    };
    let end = if i + 2 >= points.len() {
        d
    } else {
        calculus.mean_of(d, calculus.slope_of(points[i + 1], points[i + 2]))
    };
    law_tangents_cannot_overshoot(start, d, limit);
    law_tangents_cannot_overshoot(end, d, limit);
    let tangents = calculus.tangents_of(points, i);
    assert(restrained(tangents.0, d, limit) && restrained(tangents.1, d, limit));
    lemma_ends(points, i);
    law_zero_and_one_are_themselves();
    let width = q.0.value() - p.0.value();
    let by = q.1.value() - p.1.value();
    law_order_is_that_of_values(none, tangents.0);
    law_order_is_that_of_values(tangents.0, none);
    law_order_is_that_of_values(tangents.0, limit);
    law_order_is_that_of_values(limit, tangents.0);
    lemma_limit_nearly_holds(tangents.0.value(), limit.value(), width, by, slack);
    law_order_is_that_of_values(none, tangents.1);
    law_order_is_that_of_values(tangents.1, none);
    law_order_is_that_of_values(tangents.1, limit);
    law_order_is_that_of_values(limit, tangents.1);
    lemma_limit_nearly_holds(tangents.1.value(), limit.value(), width, by, slack);
}

/// Along an ideal piece inputs in order have outputs in the order of its ends, and between them.
proof fn lemma_ideal_goes_one_way<
    S: Fn(Point, Point) -> Scalar,
    M: Fn(Scalar, Scalar) -> Scalar,
    T: Fn(Scalar) -> Scalar,
    F: Fn(Scalar) -> bool,
    N: Fn(Scalar, Scalar) -> bool,
    H: Fn(Scalar, (Point, Point), (Scalar, Scalar)) -> Scalar,
>(
    calculus: &Calculus<S, M, T, F, N, H>,
    points: Seq<Point>,
    i: int,
    x: Scalar,
    y: Scalar,
)
    requires
        describes_curve(points),
        0 <= i < points.len() - 1,
        spans(points, i, x),
        spans(points, i, y),
        x.at_most(y),
    ensures
        ({
            let (a, b) = (calculus.ideal(points, i, x), calculus.ideal(points, i, y));
            let (p, q) = (points[i].1.value(), points[i + 1].1.value());
            if p <= q {
                p <= a <= b <= q
            } else {
                q <= b <= a <= p
            }
        }),
        x.rank() == points[i].0.rank() ==> calculus.ideal(points, i, x) == points[i].1.value(),
        x.rank() == points[i + 1].0.rank() ==> calculus.ideal(points, i, x) == points[i
            + 1].1.value(),
{
    let (p, q) = (points[i], points[i + 1]);
    lemma_ends(points, i);
    law_order_is_that_of_values(p.0, x);
    law_order_is_that_of_values(x, p.0);
    law_order_is_that_of_values(x, y);
    law_order_is_that_of_values(y, q.0);
    law_order_is_that_of_values(x, q.0);
    law_order_is_that_of_values(q.0, x);
    lemma_fractions(x.value(), y.value(), p.0.value(), q.0.value());
    let tangents = calculus.tangents_of(points, i);
    let width = q.0.value() - p.0.value();
    let by = q.1.value() - p.1.value();
    let (m, n) = (tangents.0.value() * width, tangents.1.value() * width);
    law_a_held_piece_goes_one_way(
        fraction(x.value(), p.0.value(), q.0.value()),
        fraction(y.value(), p.0.value(), q.0.value()),
        p.1.value(),
        q.1.value(),
        m,
        n,
    );
    law_a_piece_joins_its_ends(p.1.value(), q.1.value(), held(m, by), held(n, by));
}

/// A reading is near the ideal piece that its input lies on.
proof fn lemma_reading_is_near_ideal<
    S: Fn(Point, Point) -> Scalar,
    M: Fn(Scalar, Scalar) -> Scalar,
    T: Fn(Scalar) -> Scalar,
    F: Fn(Scalar) -> bool,
    N: Fn(Scalar, Scalar) -> bool,
    H: Fn(Scalar, (Point, Point), (Scalar, Scalar)) -> Scalar,
>(
    calculus: &Calculus<S, M, T, F, N, H>,
    points: Seq<Point>,
    slack: real,
    error: real,
    i: int,
    x: Scalar,
)
    requires
        describes_curve(points),
        calculus.accurate(points, slack, error),
        0 as real <= slack,
        0 as real <= error,
        0 <= i < points.len() - 1,
        spans(points, i, x),
    ensures
        close(
            calculus.value(points, x).value(),
            calculus.ideal(points, i, x),
            error + 2 as real * slack,
        ),
{
    let last = points.len() - 1;
    assert(in_unit(points[i].0) && in_unit(points[i + 1].0));
    assert(unit(x) == x);
    lemma_ideal_goes_one_way(calculus, points, i, x, x);
    if x.at_most(points[0].0) {
        if i > 0 {
            assert(points[0].0.below(points[i].0));
        }
    } else if points.last().0.at_most(x) {
        if i + 1 < last {
            assert(points[i + 1].0.below(points[last].0));
        }
        assert(points.last() == points[i + 1]);
    } else {
        lemma_lies_on_its_piece(points, x, 0);
        let k = segment(points, x);
        lemma_segment_is_first(points, x, 0, i);
        if k < i {
            if k + 1 < i {
                assert(points[k + 1].0.below(points[i].0));
            }
            assert(k + 1 == i);
            lemma_ideal_goes_one_way(calculus, points, k, x, x);
        }
        assert(calculus.ideal(points, k, x) == calculus.ideal(points, i, x));
        lemma_piece_is_near_ideal(calculus, points, slack, error, k, x);
    }
}

/// No piece before the first one that an input lies on has it.
proof fn lemma_segment_is_first(points: Seq<Point>, x: Scalar, from: int, i: int)
    requires
        0 <= from <= i < points.len() - 1,
        spans(points, i, x),
    ensures
        from <= segment_from(points, x, from) <= i,
    decreases i - from,
{
    if !spans(points, from, x) {
        lemma_segment_is_first(points, x, from + 1, i);
    }
}

/// What a piece gives, held between zero and one, is near the ideal one.
proof fn lemma_piece_is_near_ideal<
    S: Fn(Point, Point) -> Scalar,
    M: Fn(Scalar, Scalar) -> Scalar,
    T: Fn(Scalar) -> Scalar,
    F: Fn(Scalar) -> bool,
    N: Fn(Scalar, Scalar) -> bool,
    H: Fn(Scalar, (Point, Point), (Scalar, Scalar)) -> Scalar,
>(
    calculus: &Calculus<S, M, T, F, N, H>,
    points: Seq<Point>,
    slack: real,
    error: real,
    k: int,
    x: Scalar,
)
    requires
        describes_curve(points),
        calculus.accurate(points, slack, error),
        0 as real <= slack,
        0 as real <= error,
        0 <= k < points.len() - 1,
        spans(points, k, x),
    ensures
        close(
            unit(
                calculus.piece_of(
                    x,
                    (points[k], points[k + 1]),
                    calculus.tangents_of(points, k),
                ),
            ).value(),
            calculus.ideal(points, k, x),
            error + 2 as real * slack,
        ),
        !calculus.is_narrow(points[k].0, points[k + 1].0),
{
    let (p, q) = (points[k], points[k + 1]);
    let tangents = calculus.tangents_of(points, k);
    assert(calculus.rounds_within(points, k, slack, error));
    lemma_ends(points, k);
    lemma_tangents_are_nearly_held(calculus, points, k, slack, error);
    law_order_is_that_of_values(p.0, x);
    law_order_is_that_of_values(x, q.0);
    lemma_fractions(x.value(), x.value(), p.0.value(), q.0.value());
    let width = q.0.value() - p.0.value();
    lemma_nearly_held(
        fraction(x.value(), p.0.value(), q.0.value()),
        p.1.value(),
        q.1.value(),
        tangents.0.value() * width,
        tangents.1.value() * width,
        slack,
    );
    let answer = calculus.piece_of(x, (p, q), tangents);
    assert(answer.finite() && close(answer.value(), calculus.exact_piece(points, k, x), error));
    lemma_ideal_goes_one_way(calculus, points, k, x, x);
    lemma_holding_brings_no_further(
        answer,
        calculus.ideal(points, k, x),
        error + 2 as real * slack,
    );
}

/// A curve never overshoots: between two neighbouring points it stays between their outputs, but for
/// what the arithmetic rounds by.
pub proof fn law_a_curve_never_overshoots<
    S: Fn(Point, Point) -> Scalar,
    M: Fn(Scalar, Scalar) -> Scalar,
    T: Fn(Scalar) -> Scalar,
    F: Fn(Scalar) -> bool,
    N: Fn(Scalar, Scalar) -> bool,
    H: Fn(Scalar, (Point, Point), (Scalar, Scalar)) -> Scalar,
>(
    calculus: &Calculus<S, M, T, F, N, H>,
    points: Seq<Point>,
    slack: real,
    error: real,
    i: int,
    x: Scalar,
)
    requires
        describes_curve(points),
        calculus.accurate(points, slack, error),
        0 as real <= slack,
        0 as real <= error,
        0 <= i < points.len() - 1,
        spans(points, i, x),
    ensures
        ({
            let (p, q) = (points[i].1.value(), points[i + 1].1.value());
            let v = calculus.value(points, x).value();
            let tolerance = error + 2 as real * slack;
            if p <= q {
                p - tolerance <= v <= q + tolerance
            } else {
                q - tolerance <= v <= p + tolerance
            }
        }),
{
    lemma_reading_is_near_ideal(calculus, points, slack, error, i, x);
    lemma_ideal_goes_one_way(calculus, points, i, x, x);
}

/// A curve passes through its control points, but for what the arithmetic rounds by.
pub proof fn law_a_curve_passes_close_to_its_points<
    S: Fn(Point, Point) -> Scalar,
    M: Fn(Scalar, Scalar) -> Scalar,
    T: Fn(Scalar) -> Scalar,
    F: Fn(Scalar) -> bool,
    N: Fn(Scalar, Scalar) -> bool,
    H: Fn(Scalar, (Point, Point), (Scalar, Scalar)) -> Scalar,
>(
    calculus: &Calculus<S, M, T, F, N, H>,
    points: Seq<Point>,
    slack: real,
    error: real,
    k: int,
)
    requires
        describes_curve(points),
        calculus.accurate(points, slack, error),
        0 as real <= slack,
        0 as real <= error,
        0 <= k < points.len(),
    ensures
        close(
            calculus.value(points, points[k].0).value(),
            points[k].1.value(),
            error + 2 as real * slack,
        ),
{
    let x = points[k].0;
    let i = if k == 0 {
        0
    } else {
        k - 1
    };
    assert(in_unit(points[i].0) && in_unit(points[i + 1].0));
    assert(points[i].0.below(points[i + 1].0));
    lemma_reading_is_near_ideal(calculus, points, slack, error, i, x);
    lemma_ideal_goes_one_way(calculus, points, i, x, x);
}

/// An input beyond the ends of a curve reads as the end.
proof fn lemma_beyond_reads_as_the_end<
    S: Fn(Point, Point) -> Scalar,
    M: Fn(Scalar, Scalar) -> Scalar,
    T: Fn(Scalar) -> Scalar,
    F: Fn(Scalar) -> bool,
    N: Fn(Scalar, Scalar) -> bool,
    H: Fn(Scalar, (Point, Point), (Scalar, Scalar)) -> Scalar,
>(
    calculus: &Calculus<S, M, T, F, N, H>,
    points: Seq<Point>,
    from: int,
    to: int,
    x: Scalar,
)
    requires
        describes_curve(points),
        0 <= from < to < points.len(),
        !x.nan(),
        from == 0 || points[from].0.at_most(x),
        to == points.len() - 1 || x.at_most(points[to].0),
    ensures
        ({
            let w = x.clamped_spec(points[from].0, points[to].0);
            calculus.value(points, x) == calculus.value(points, w)
        }),
{
    assert(in_unit(points[from].0) && in_unit(points[to].0));
    assert(points[from].0.below(points[to].0));
    assert(points[0].0.at_most(points[from].0));
    if to < points.len() - 1 {
        assert(points[to].0.below(points[points.len() - 1].0));
    }
}

/// A curve never dips on the way up, nor bulges on the way down: over a stretch whose points only
/// ever rise, more input never gives less, and over one whose points only ever fall, never more, but
/// for what the arithmetic rounds by. A stretch is anything from one piece to the whole of a curve.
pub proof fn law_a_curve_never_turns_back<
    S: Fn(Point, Point) -> Scalar,
    M: Fn(Scalar, Scalar) -> Scalar,
    T: Fn(Scalar) -> Scalar,
    F: Fn(Scalar) -> bool,
    N: Fn(Scalar, Scalar) -> bool,
    H: Fn(Scalar, (Point, Point), (Scalar, Scalar)) -> Scalar,
>(
    calculus: &Calculus<S, M, T, F, N, H>,
    points: Seq<Point>,
    slack: real,
    error: real,
    from: int,
    to: int,
    up: bool,
    x: Scalar,
    y: Scalar,
)
    requires
        describes_curve(points),
        calculus.accurate(points, slack, error),
        0 as real <= slack,
        0 as real <= error,
        0 <= from < to < points.len(),
        one_way(points, from, to, up),
        from == 0 || points[from].0.at_most(x),
        to == points.len() - 1 || y.at_most(points[to].0),
        x.at_most(y),
    ensures
        ({
            let (v, w) = (calculus.value(points, x).value(), calculus.value(points, y).value());
            let tolerance = 2 as real * (error + 2 as real * slack);
            if up {
                v <= w + tolerance
            } else {
                w <= v + tolerance
            }
        }),
{
    let (low, high) = (points[from].0, points[to].0);
    assert(in_unit(low) && in_unit(high));
    assert(low.below(high));
    if from > 0 {
        assert(low.at_most(y));
    }
    if to < points.len() - 1 {
        assert(x.at_most(high));
    }
    lemma_beyond_reads_as_the_end(calculus, points, from, to, x);
    lemma_beyond_reads_as_the_end(calculus, points, from, to, y);
    let a = x.clamped_spec(low, high);
    let b = y.clamped_spec(low, high);
    assert(a.at_most(b));
    lemma_stretch_has_its_pieces(points, from, to, a);
    lemma_stretch_has_its_pieces(points, from, to, b);
    let i = segment_from(points, a, from);
    let j = segment_from(points, b, from);
    lemma_reading_is_near_ideal(calculus, points, slack, error, i, a);
    lemma_reading_is_near_ideal(calculus, points, slack, error, j, b);
    lemma_ideal_goes_one_way(calculus, points, i, a, a);
    lemma_ideal_goes_one_way(calculus, points, j, b, b);
    lemma_values_go_one_way(points, from, to, up, i, i + 1);
    lemma_values_go_one_way(points, from, to, up, j, j + 1);
    if i == j {
        lemma_ideal_goes_one_way(calculus, points, i, a, b);
    } else if i < j {
        lemma_values_go_one_way(points, from, to, up, i + 1, j);
    } else {
        assert(points[i].0.below(a));
        assert(points[j + 1].0.at_most(points[i].0));
    }
}

/// Outputs of a stretch that goes one way, as real numbers.
proof fn lemma_values_go_one_way(
    points: Seq<Point>,
    from: int,
    to: int,
    up: bool,
    i: int,
    j: int,
)
    requires
        describes_curve(points),
        one_way(points, from, to, up),
        0 <= from <= i <= j <= to < points.len(),
    ensures
        up ==> points[i].1.value() <= points[j].1.value(),
        !up ==> points[j].1.value() <= points[i].1.value(),
{
    assert(in_unit(points[i].1) && in_unit(points[j].1));
    assert(onward(up, points[i].1, points[j].1));
    law_order_is_that_of_values(points[i].1, points[j].1);
    law_order_is_that_of_values(points[j].1, points[i].1);
}

/// An input of a stretch lies on a piece of it.
proof fn lemma_stretch_has_its_pieces(points: Seq<Point>, from: int, to: int, x: Scalar)
    requires
        describes_curve(points),
        0 <= from < to < points.len(),
        points[from].0.at_most(x),
        x.at_most(points[to].0),
    ensures
        from <= segment_from(points, x, from) < to,
        spans(points, segment_from(points, x, from), x),
        segment_from(points, x, from) > from ==> points[segment_from(points, x, from)].0.below(x),
{
    let last = points.len() - 1;
    assert(in_unit(points[to].0));
    if to < last {
        assert(points[to].0.below(points[last].0));
    }
    lemma_lies_on_its_piece(points, x, from);
    let i = segment_from(points, x, from);
    if to < i {
        assert(points[to].0.below(points[i].0));
    }
}

/// Between two points a curve is the piece that joins them, with the tangents of that piece, held from
/// zero to one. Beyond its ends it is the output there.
pub proof fn law_a_curve_is_its_pieces<
    S: Fn(Point, Point) -> Scalar,
    M: Fn(Scalar, Scalar) -> Scalar,
    T: Fn(Scalar) -> Scalar,
    F: Fn(Scalar) -> bool,
    N: Fn(Scalar, Scalar) -> bool,
    H: Fn(Scalar, (Point, Point), (Scalar, Scalar)) -> Scalar,
>(
    calculus: &Calculus<S, M, T, F, N, H>,
    points: Seq<Point>,
    i: int,
    x: Scalar,
    y: Scalar,
)
    requires
        describes_curve(points),
        calculus.steady(),
        0 <= i < points.len() - 1,
        points[i].0.below(x),
        x.below(points[i + 1].0) || (x.rank() == points[i + 1].0.rank() && !x.nan() && i + 2
            < points.len()),
        calculus.narrow.ensures((points[i].0, points[i + 1].0), false),
        calculus.piece.ensures(
            (x, (points[i], points[i + 1]), calculus.tangents_of(points, i)),
            y,
        ),
    ensures
        y.bits <= 0x3F80_0000 ==> calculus.value(points, x) == y,
        0x3F80_0000 < y.bits <= 0x7F80_0000 ==> calculus.value(points, x).bits == 0x3F80_0000,
        0x8000_0000 < y.bits <= 0xFF80_0000 ==> calculus.value(points, x).bits == 0,
{
    let last = points.len() - 1;
    assert(in_unit(points[i].0) && in_unit(points[i + 1].0));
    assert(in_unit(points[0].0) && in_unit(points[last].0));
    assert(unit(x) == x);
    if i > 0 {
        assert(points[0].0.below(points[i].0));
    }
    if i + 1 < last {
        assert(points[i + 1].0.below(points[last].0));
    }
    lemma_lies_on_its_piece(points, x, 0);
    let k = segment(points, x);
    lemma_segment_is_first(points, x, 0, i);
    if k < i {
        if k + 1 < i {
            assert(points[k + 1].0.below(points[i].0));
        }
    }
    assert(k == i);
}

/// A tangent inside a curve is the mean of the slopes to its two sides, and one at an end the slope of
/// the piece there, so long as it goes the way of the piece and is no steeper than the limit; a steeper
/// one is the limit, one that goes against the piece is none, and on a flat piece both are none.
pub proof fn law_a_tangent_is_the_mean_of_its_slopes<
    S: Fn(Point, Point) -> Scalar,
    M: Fn(Scalar, Scalar) -> Scalar,
    T: Fn(Scalar) -> Scalar,
    F: Fn(Scalar) -> bool,
    N: Fn(Scalar, Scalar) -> bool,
    H: Fn(Scalar, (Point, Point), (Scalar, Scalar)) -> Scalar,
>(
    calculus: &Calculus<S, M, T, F, N, H>,
    points: Seq<Point>,
    i: int,
    d: Scalar,
    before: Scalar,
    after: Scalar,
    start: Scalar,
    end: Scalar,
    limit: Scalar,
    level: bool,
)
    requires
        calculus.steady(),
        0 <= i < points.len() - 1,
        calculus.slope.ensures((points[i], points[i + 1]), d),
        calculus.flat.ensures((d,), level),
        calculus.thrice.ensures((d,), limit),
        i > 0 ==> calculus.slope.ensures((points[i - 1], points[i]), before)
            && calculus.mean.ensures((before, d), start),
        i == 0 ==> start == d,
        i + 2 < points.len() ==> calculus.slope.ensures((points[i + 1], points[i + 2]), after)
            && calculus.mean.ensures((d, after), end),
        i + 2 >= points.len() ==> end == d,
    ensures
        level ==> calculus.tangents_of(points, i).0.bits == 0 && calculus.tangents_of(
            points,
            i,
        ).1.bits == 0,
        // A rising piece.
        !level && 0 < d.bits <= 0x7F80_0000 ==> {
            let (m, n) = calculus.tangents_of(points, i);
            &&& 0 < start.bits <= limit.bits <= 0x7F80_0000 ==> m == start
            &&& 0 < limit.bits < start.bits <= 0x7F80_0000 ==> m == limit
            &&& start.bits == 0 || 0x8000_0000 <= start.bits <= 0xFF80_0000 ==> m.bits == 0
            &&& 0 < end.bits <= limit.bits <= 0x7F80_0000 ==> n == end
            &&& 0 < limit.bits < end.bits <= 0x7F80_0000 ==> n == limit
            &&& end.bits == 0 || 0x8000_0000 <= end.bits <= 0xFF80_0000 ==> n.bits == 0
        },
        // A falling piece.
        !level && 0x8000_0000 < d.bits <= 0xFF80_0000 ==> {
            let (m, n) = calculus.tangents_of(points, i);
            &&& 0x8000_0000 < start.bits <= limit.bits <= 0xFF80_0000 ==> m == start
            &&& 0x8000_0000 < limit.bits < start.bits <= 0xFF80_0000 ==> m == limit
            &&& 0 < start.bits <= 0x7F80_0000 ==> m.bits == 0
            &&& 0x8000_0000 < end.bits <= limit.bits <= 0xFF80_0000 ==> n == end
            &&& 0x8000_0000 < limit.bits < end.bits <= 0xFF80_0000 ==> n == limit
            &&& 0 < end.bits <= 0x7F80_0000 ==> n.bits == 0
        },
{
}

/// Points make a curve exactly when there are two or more, each further along than the one before, and
/// all of them from zero to one both ways.
pub proof fn law_a_curve_is_points_in_order(points: Seq<Point>)
    ensures
        describes_curve(points) <==> points.len() >= 2 && (forall|i: int, j: int|
            0 <= i < j < points.len() ==> (#[trigger] points[i]).0.below((#[trigger] points[j]).0)) && (
        forall|i: int|
            0 <= i < points.len() ==> {
                let p = #[trigger] points[i];
                &&& p.0.bits <= 0x3F80_0000 || p.0.bits == 0x8000_0000
                &&& p.1.bits <= 0x3F80_0000 || p.1.bits == 0x8000_0000
            }),
{
    assert forall|s: Scalar| #[trigger] in_unit(s) == (s.bits <= 0x3F80_0000 || s.bits
        == 0x8000_0000) by {}
}

} // verus!
