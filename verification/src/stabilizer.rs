//! Stroke stabilization: smoothing the input path without lying about where it ended.
//!
//! The drawn point chases the pen, by however much time has passed. Because it trails, at the instant
//! the pen lifts the drawn point is short of the pen's real final position; [`Stabilizer::finish`]
//! converges the remaining distance and then lands exactly on the true endpoint.
//!
//! When a stroke begins, moves, waits and ends is decided here. How far the point moves in a time,
//! and how far two points are apart, is arithmetic on real numbers and is handed in, gathered in a
//! [`Motion`].

use vstd::arithmetic::power2::{lemma2_to64, pow2};
use vstd::prelude::*;

use crate::scalar::{lemma_value_by_exponent, Scalar, ZERO};

verus! {

/// The pattern of the largest lag a control should offer, in milliseconds: 200.
pub const MAX_LAG_MS: u32 = 0x4348_0000;

/// How many convergence steps [`Stabilizer::finish`] takes before it simply lands.
pub const MAX_TAIL_STEPS: usize = 64;

/// The pattern of how close to the pen counts as arrived, in pixels: a quarter.
pub const ARRIVED_PX: u32 = 0x3E80_0000;

/// The pattern of how close to the pen the tail stops converging, in pixels: a twentieth.
pub const LANDED_PX: u32 = 0x3D4C_CCCD;

/// The pattern of the interval of the convergence tail's steps, in milliseconds: 8.
pub const TAIL_STEP_MS: u32 = 0x4100_0000;

/// A moment in milliseconds, as the bit pattern of a double-precision number. Moments are only ever
/// compared by [`Motion::elapsed`].
#[derive(Clone, Copy, Debug, PartialEq, Eq, Structural)]
pub struct Moment {
    pub bits: u64,
}

/// One point on the smoothed path.
#[derive(Clone, Copy, Debug, PartialEq, Eq, Structural)]
pub struct Smoothed {
    pub x: Scalar,
    pub y: Scalar,
    pub pressure: Scalar,
}

/// How points move: the time from one moment to another, where a point that chases a target is after
/// a time with a lag, and how far two points are apart.
pub struct Motion<E, C, D> {
    pub elapsed: E,
    pub chase: C,
    pub distance: D,
}

impl<
    E: Fn(Moment, Moment) -> Scalar,
    C: Fn(Smoothed, Smoothed, Scalar, Scalar) -> Smoothed,
    D: Fn(Smoothed, Smoothed) -> Scalar,
> Motion<E, C, D> {
    /// The time from one moment to a later one. Time that goes backwards counts as none.
    pub open spec fn between(&self, earlier: Moment, later: Moment) -> Scalar {
        (choose|s: Scalar| self.elapsed.ensures((earlier, later), s)).at_least_spec(
            Scalar { bits: ZERO },
        )
    }

    /// Where a point is after a time.
    pub open spec fn chased(
        &self,
        point: Smoothed,
        target: Smoothed,
        time: Scalar,
        lag: Scalar,
    ) -> Smoothed {
        choose|p: Smoothed| self.chase.ensures((point, target, time, lag), p)
    }

    /// How far two points are apart.
    pub open spec fn apart(&self, a: Smoothed, b: Smoothed) -> Scalar {
        choose|s: Scalar| self.distance.ensures((a, b), s)
    }

    /// Whether the functions answer always, and always the same about the same.
    pub open spec fn steady(&self) -> bool {
        &&& forall|a: Moment, b: Moment| #[trigger] self.elapsed.requires((a, b))
        &&& forall|a: Moment, b: Moment, s: Scalar| #[trigger]
            self.elapsed.ensures((a, b), s) ==> s.at_least_spec(Scalar { bits: ZERO })
                == self.between(a, b)
        &&& forall|p: Smoothed, q: Smoothed, t: Scalar, l: Scalar| #[trigger]
            self.chase.requires((p, q, t, l))
        &&& forall|p: Smoothed, q: Smoothed, t: Scalar, l: Scalar, r: Smoothed| #[trigger]
            self.chase.ensures((p, q, t, l), r) ==> r == self.chased(p, q, t, l)
        &&& forall|p: Smoothed, q: Smoothed| #[trigger] self.distance.requires((p, q))
        &&& forall|p: Smoothed, q: Smoothed, s: Scalar| #[trigger]
            self.distance.ensures((p, q), s) ==> s == self.apart(p, q)
    }

    /// Where a point that chases a target is at a moment: where it was if no time has passed.
    pub open spec fn moved(
        &self,
        point: Smoothed,
        from: Moment,
        target: Smoothed,
        to: Moment,
        lag: Scalar,
    ) -> Smoothed {
        let none = Scalar { bits: ZERO };
        let time = self.between(from, to);
        if none.below(time) && none.below(lag) {
            self.chased(point, target, time, lag)
        } else {
            point
        }
    }

    /// Whether every answer that decides where a point is at a moment is one that was given.
    pub open spec fn moved_answered(
        &self,
        point: Smoothed,
        from: Moment,
        target: Smoothed,
        to: Moment,
        lag: Scalar,
    ) -> bool {
        let none = Scalar { bits: ZERO };
        let time = self.between(from, to);
        &&& exists|s: Scalar| #[trigger]
            self.elapsed.ensures((from, to), s) && s.at_least_spec(none) == time
        &&& none.below(time) && none.below(lag) ==> self.chase.ensures(
            (point, target, time, lag),
            self.chased(point, target, time, lag),
        )
    }

    /// Whether every answer that decides the points that carry a stroke to its target is one that was
    /// given.
    pub open spec fn tail_answered(
        &self,
        point: Smoothed,
        target: Smoothed,
        lag: Scalar,
        steps: nat,
    ) -> bool
        decreases steps,
    {
        let next = self.chased(point, target, Scalar { bits: TAIL_STEP_MS }, lag);
        &&& self.distance.ensures((target, point), self.apart(target, point))
        &&& steps > 0 && !self.apart(target, point).below(Scalar { bits: LANDED_PX }) ==> {
            &&& self.chase.ensures((point, target, Scalar { bits: TAIL_STEP_MS }, lag), next)
            &&& self.tail_answered(next, target, lag, (steps - 1) as nat)
        }
    }

    /// The points that carry a stroke toward its target, at most `steps` of them.
    pub open spec fn tail(
        &self,
        point: Smoothed,
        target: Smoothed,
        lag: Scalar,
        steps: nat,
    ) -> Seq<Smoothed>
        decreases steps,
    {
        if steps == 0 || self.apart(target, point).below(Scalar { bits: LANDED_PX }) {
            Seq::empty()
        } else {
            let next = self.chased(point, target, Scalar { bits: TAIL_STEP_MS }, lag);
            seq![next] + self.tail(next, target, lag, (steps - 1) as nat)
        }
    }
}

/// Smooths an input path in time. One per stroke sequence; [`Stabilizer::begin`] resets it.
///
/// Pressure is filtered alongside position, with the same time constant.
#[derive(Clone, Copy, Debug, PartialEq, Eq)]
pub struct Stabilizer {
    /// Time constant in milliseconds. Zero is a pass-through.
    pub tau_ms: Scalar,
    /// The smoothed point, and the moment it was last advanced to.
    pub at: Option<(Smoothed, Moment)>,
    /// The latest raw sample, which the tail converges onto.
    pub target: Option<Smoothed>,
}

impl Default for Stabilizer {
    fn default() -> (s: Stabilizer)
        ensures
            s == (Stabilizer { tau_ms: Scalar { bits: ZERO }, at: None, target: None }),
    {
        Stabilizer { tau_ms: Scalar { bits: ZERO }, at: None, target: None }
    }
}

impl Stabilizer {
    /// Whether smoothing is doing anything at all.
    pub open spec fn active(&self) -> bool {
        (Scalar { bits: ZERO }).below(self.tau_ms)
    }

    /// The lag is a number. It is: [`Stabilizer::set_lag_ms`] lets nothing else through.
    pub open spec fn wf(&self) -> bool {
        !self.tau_ms.nan() && (self.at is Some ==> self.target is Some)
    }

    /// Set how far the line may trail the pen, in milliseconds. Zero disables smoothing entirely, and
    /// negative values count as zero.
    pub fn set_lag_ms(&mut self, lag_ms: Scalar)
        ensures
            final(self).tau_ms == lag_ms.at_least_spec(Scalar { bits: ZERO }),
            final(self).at == old(self).at,
            final(self).target == old(self).target,
            old(self).wf() ==> final(self).wf(),
    {
        self.tau_ms = lag_ms.at_least(Scalar { bits: ZERO });
    }

    /// Whether smoothing is doing anything at all.
    pub fn is_active(&self) -> (r: bool)
        ensures
            r == self.active(),
    {
        (Scalar { bits: ZERO }).lt(self.tau_ms)
    }

    /// Start a stroke. The first point is never moved: a stroke has to begin under the pen.
    pub fn begin(&mut self, x: Scalar, y: Scalar, pressure: Scalar, t_ms: Moment) -> (first: Smoothed)
        ensures
            first == (Smoothed { x, y, pressure }),
            *final(self) == (Stabilizer {
                tau_ms: old(self).tau_ms,
                at: Some((first, t_ms)),
                target: Some(first),
            }),
            old(self).wf() ==> final(self).wf(),
    {
        let first = Smoothed { x, y, pressure };
        self.at = Some((first, t_ms));
        self.target = Some(first);
        first
    }

    /// Advance the smoothed point toward a new sample and return where it now is.
    pub fn push<
        E: Fn(Moment, Moment) -> Scalar,
        C: Fn(Smoothed, Smoothed, Scalar, Scalar) -> Smoothed,
        D: Fn(Smoothed, Smoothed) -> Scalar,
    >(
        &mut self,
        x: Scalar,
        y: Scalar,
        pressure: Scalar,
        t_ms: Moment,
        motion: &Motion<E, C, D>,
    ) -> (point: Smoothed)
        requires
            old(self).wf(),
            motion.steady(),
        ensures
            final(self).wf(),
            final(self).tau_ms == old(self).tau_ms,
            final(self).target == Some(Smoothed { x, y, pressure }),
            final(self).at == Some((point, t_ms)),
            point == match old(self).at {
                None => Smoothed { x, y, pressure },
                Some((was, last)) => if old(self).active() {
                    motion.moved(was, last, Smoothed { x, y, pressure }, t_ms, old(self).tau_ms)
                } else {
                    Smoothed { x, y, pressure }
                },
            },
            match old(self).at {
                None => true,
                Some((was, last)) => old(self).active() ==> motion.moved_answered(
                    was,
                    last,
                    Smoothed { x, y, pressure },
                    t_ms,
                    old(self).tau_ms,
                ),
            },
    {
        let raw = Smoothed { x, y, pressure };
        self.target = Some(raw);
        match self.at {
            None => self.begin(x, y, pressure, t_ms),
            Some((point, _)) => {
                if !self.is_active() {
                    self.at = Some((raw, t_ms));
                    return raw;
                }
                match self.step(t_ms, motion) {
                    Some(moved) => moved,
                    None => point,
                }
            },
        }
    }

    /// Let time pass without a new sample, and report the new point if it is not there yet.
    ///
    /// A filter defined in time has to be driven by time. `None` means "nothing worth a frame"; the
    /// moment still advances in that case, so idle time is not handed to the next sample.
    pub fn advance<
        E: Fn(Moment, Moment) -> Scalar,
        C: Fn(Smoothed, Smoothed, Scalar, Scalar) -> Smoothed,
        D: Fn(Smoothed, Smoothed) -> Scalar,
    >(&mut self, t_ms: Moment, motion: &Motion<E, C, D>) -> (r: Option<Smoothed>)
        requires
            old(self).wf(),
            motion.steady(),
        ensures
            final(self).wf(),
            final(self).tau_ms == old(self).tau_ms,
            final(self).target == old(self).target,
            match (old(self).at, old(self).target) {
                (Some((was, last)), Some(target)) => if old(self).active() {
                    let point = motion.moved(was, last, target, t_ms, old(self).tau_ms);
                    &&& final(self).at == Some((point, t_ms))
                    &&& motion.moved_answered(was, last, target, t_ms, old(self).tau_ms)
                    &&& motion.distance.ensures((target, point), motion.apart(target, point))
                    &&& r == if (Scalar { bits: ARRIVED_PX }).at_most(motion.apart(target, point)) {
                        Some(point)
                    } else {
                        None
                    }
                } else {
                    r is None && final(self).at == old(self).at
                },
                _ => r is None && final(self).at == old(self).at,
            },
    {
        if !self.is_active() {
            return None;
        }
        let target = match self.target {
            None => {
                return None;
            },
            Some(target) => target,
        };
        let point = match self.step(t_ms, motion) {
            None => {
                return None;
            },
            Some(point) => point,
        };
        let distance = &motion.distance;
        if (Scalar { bits: ARRIVED_PX }).le(distance(target, point)) {
            Some(point)
        } else {
            None
        }
    }

    /// Move the point toward the target by however much time has passed. `None` only when there is
    /// no stroke.
    fn step<
        E: Fn(Moment, Moment) -> Scalar,
        C: Fn(Smoothed, Smoothed, Scalar, Scalar) -> Smoothed,
        D: Fn(Smoothed, Smoothed) -> Scalar,
    >(&mut self, t_ms: Moment, motion: &Motion<E, C, D>) -> (r: Option<Smoothed>)
        requires
            motion.steady(),
        ensures
            final(self).tau_ms == old(self).tau_ms,
            final(self).target == old(self).target,
            match (old(self).at, old(self).target) {
                (Some((was, last)), Some(target)) => {
                    let point = motion.moved(was, last, target, t_ms, old(self).tau_ms);
                    &&& r == Some(point)
                    &&& final(self).at == Some((point, t_ms))
                    &&& motion.moved_answered(was, last, target, t_ms, old(self).tau_ms)
                },
                _ => r is None && final(self).at == old(self).at,
            },
    {
        match (self.at, self.target) {
            (Some((point, last)), Some(target)) => {
                let none = Scalar { bits: ZERO };
                let elapsed = &motion.elapsed;
                // Held at zero rather than trusted: a clock that ever went backwards would otherwise
                // fling the point away from the pen.
                let time = elapsed(last, t_ms).at_least(none);
                let moved = if none.lt(time) && none.lt(self.tau_ms) {
                    let chase = &motion.chase;
                    chase(point, target, time, self.tau_ms)
                } else {
                    point
                };
                self.at = Some((moved, t_ms));
                Some(moved)
            },
            _ => None,
        }
    }

    /// End the stroke, returning the points that carry it to where the pen actually finished.
    ///
    /// Empty when smoothing is off, because then the path was never behind.
    pub fn finish<
        E: Fn(Moment, Moment) -> Scalar,
        C: Fn(Smoothed, Smoothed, Scalar, Scalar) -> Smoothed,
        D: Fn(Smoothed, Smoothed) -> Scalar,
    >(&mut self, motion: &Motion<E, C, D>) -> (tail: Vec<Smoothed>)
        requires
            motion.steady(),
        ensures
            *final(self) == (Stabilizer { tau_ms: old(self).tau_ms, at: None, target: None }),
            tail@ == match (old(self).at, old(self).target) {
                (Some((point, _)), Some(target)) => if old(self).active() {
                    motion.tail(point, target, old(self).tau_ms, MAX_TAIL_STEPS as nat).push(target)
                } else {
                    Seq::empty()
                },
                _ => Seq::empty(),
            },
            match (old(self).at, old(self).target) {
                (Some((point, _)), Some(target)) => old(self).active() ==> motion.tail_answered(
                    point,
                    target,
                    old(self).tau_ms,
                    MAX_TAIL_STEPS as nat,
                ),
                _ => true,
            },
    {
        let mut tail: Vec<Smoothed> = Vec::new();
        match (self.at, self.target) {
            (Some((first, _)), Some(target)) => {
                if self.is_active() {
                    let lag = self.tau_ms;
                    let ghost whole = motion.tail(first, target, lag, MAX_TAIL_STEPS as nat);
                    let mut point = first;
                    let mut left: usize = MAX_TAIL_STEPS;
                    let distance = &motion.distance;
                    let chase = &motion.chase;
                    let landed = Scalar { bits: LANDED_PX };
                    let mut short = !distance(target, point).lt(landed);
                    while left > 0 && short
                        invariant
                            motion.steady(),
                            *distance == motion.distance,
                            *chase == motion.chase,
                            landed.bits == LANDED_PX,
                            short == !motion.apart(target, point).below(landed),
                            tail@ + motion.tail(point, target, lag, left as nat) == whole,
                            motion.distance.ensures(
                                (target, point),
                                motion.apart(target, point),
                            ),
                            motion.tail_answered(point, target, lag, left as nat)
                                ==> motion.tail_answered(
                                first,
                                target,
                                lag,
                                MAX_TAIL_STEPS as nat,
                            ),
                        decreases left,
                    {
                        let ghost before = tail@;
                        let ghost rest = motion.tail(point, target, lag, left as nat);
                        point = chase(point, target, Scalar { bits: TAIL_STEP_MS }, lag);
                        left -= 1;
                        tail.push(point);
                        short = !distance(target, point).lt(landed);
                        assert(rest == seq![point] + motion.tail(point, target, lag, left as nat));
                        assert(tail@ + motion.tail(point, target, lag, left as nat) =~= before
                            + rest);
                    }
                    assert(tail@ =~= whole);
                    assert(motion.tail_answered(point, target, lag, left as nat));
                    // Land exactly, rather than wherever the loop happened to stop.
                    tail.push(target);
                }
            },
            _ => {},
        }
        self.at = None;
        self.target = None;
        tail
    }
}

/// A smoothed stroke ends exactly where the pen did, in no more than a bounded number of points: the
/// last point of the tail is the target, whatever the arithmetic.
pub proof fn law_a_stroke_ends_under_the_pen<
    E: Fn(Moment, Moment) -> Scalar,
    C: Fn(Smoothed, Smoothed, Scalar, Scalar) -> Smoothed,
    D: Fn(Smoothed, Smoothed) -> Scalar,
>(motion: &Motion<E, C, D>, point: Smoothed, target: Smoothed, lag: Scalar, steps: nat)
    ensures
        motion.tail(point, target, lag, steps).len() <= steps,
        motion.tail(point, target, lag, steps).push(target).last() == target,
    decreases steps,
{
    if steps > 0 && !motion.apart(target, point).below(Scalar { bits: LANDED_PX }) {
        let next = motion.chased(point, target, Scalar { bits: TAIL_STEP_MS }, lag);
        law_a_stroke_ends_under_the_pen(motion, next, target, lag, (steps - 1) as nat);
    }
}

/// A smoothed point moves with the time that has passed: by what the chase makes of that time and the
/// lag where both are above zero, and not at all where no time has passed, or it went backwards, or
/// there is no lag to trail by.
pub proof fn law_a_point_moves_only_as_time_passes<
    E: Fn(Moment, Moment) -> Scalar,
    C: Fn(Smoothed, Smoothed, Scalar, Scalar) -> Smoothed,
    D: Fn(Smoothed, Smoothed) -> Scalar,
>(
    motion: &Motion<E, C, D>,
    point: Smoothed,
    from: Moment,
    target: Smoothed,
    to: Moment,
    lag: Scalar,
    time: Scalar,
    there: Smoothed,
)
    requires
        motion.steady(),
        motion.elapsed.ensures((from, to), time),
        motion.chase.ensures((point, target, time, lag), there),
    ensures
        0 < time.bits <= 0x7F80_0000 && 0 < lag.bits <= 0x7F80_0000 ==> motion.moved(
            point,
            from,
            target,
            to,
            lag,
        ) == there,
        time.bits == 0 || time.bits > 0x7F80_0000 || lag.bits == 0 || lag.bits > 0x7F80_0000
            ==> motion.moved(point, from, target, to, lag) == point,
{
    assert(time.at_least_spec(Scalar { bits: ZERO }) == motion.between(from, to));
}

/// Smoothing does something exactly when its lag is above zero.
pub proof fn law_a_lag_is_what_smooths(s: Stabilizer)
    ensures
        s.active() <==> 0 < s.tau_ms.bits <= 0x7F80_0000,
{
}

/// The way to where the pen lifted is taken in steps of eight milliseconds, each a chase on from the
/// one before, until a point is less than a twentieth of a pixel from there, or there have been as
/// many steps as are allowed.
pub proof fn law_the_tail_is_chased_step_by_step<
    E: Fn(Moment, Moment) -> Scalar,
    C: Fn(Smoothed, Smoothed, Scalar, Scalar) -> Smoothed,
    D: Fn(Smoothed, Smoothed) -> Scalar,
>(
    motion: &Motion<E, C, D>,
    point: Smoothed,
    target: Smoothed,
    lag: Scalar,
    steps: nat,
    gap: Scalar,
    next: Smoothed,
)
    requires
        motion.steady(),
        motion.distance.ensures((target, point), gap),
        motion.chase.ensures((point, target, Scalar { bits: 0x4100_0000 }, lag), next),
    ensures
        motion.tail(point, target, lag, 0).len() == 0,
        gap.bits < 0x3D4C_CCCD ==> motion.tail(point, target, lag, steps).len() == 0,
        0x3D4C_CCCD <= gap.bits <= 0x7F80_0000 ==> motion.tail(point, target, lag, steps + 1) == seq![
            next,
        ] + motion.tail(next, target, lag, steps),
{
}

/// A point has arrived when it is less than a quarter of a pixel away, the tail lands below a twentieth
/// of one, a step of the tail is eight milliseconds, there are at most 64 of them, and the most a line
/// may be asked to trail by is 200 milliseconds.
pub proof fn law_a_tail_is_short(gap: Scalar)
    ensures
        gap.bits <= 0x7F80_0000 ==> ((Scalar { bits: ARRIVED_PX }).at_most(gap) <==> gap.bits
            >= 0x3E80_0000),
        gap.bits <= 0x7F80_0000 ==> (gap.below(Scalar { bits: LANDED_PX }) <==> gap.bits
            < 0x3D4C_CCCD),
        (Scalar { bits: ARRIVED_PX }).value() * 4 as real == 1 as real,
        (Scalar { bits: TAIL_STEP_MS }).value() == 8 as real,
        (Scalar { bits: MAX_LAG_MS }).value() == 200 as real,
        MAX_TAIL_STEPS == 64,
{
    lemma_value_by_exponent(Scalar { bits: ARRIVED_PX }, 125);
    lemma_value_by_exponent(Scalar { bits: TAIL_STEP_MS }, 130);
    lemma_value_by_exponent(Scalar { bits: MAX_LAG_MS }, 134);
    lemma2_to64();
    assert(pow2(25) == 0x200_0000 && pow2(20) == 0x10_0000 && pow2(16) == 0x1_0000);
    let (a, b, c) = (
        (Scalar { bits: ARRIVED_PX }).value(),
        (Scalar { bits: TAIL_STEP_MS }).value(),
        (Scalar { bits: MAX_LAG_MS }).value(),
    );
    assert(a * (0x200_0000int as real) == 0x80_0000int as real);
    assert(b * (0x10_0000int as real) == 0x80_0000int as real);
    assert(c * (0x1_0000int as real) == 0xC8_0000int as real);
}

} // verus!
