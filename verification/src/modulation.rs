//! What drives a brush parameter, and how.
//!
//! Every parameter that can be driven is a [`Response`]: a [`Source`] to read, and a [`Curve`]
//! mapping it to a multiplier of the parameter's own setting. The slider is what you get at full
//! input, and the curve says what fraction of it arrives.

use vstd::prelude::*;

use crate::curve::{in_unit, unit, Calculus, Curve, Point};
use crate::scalar::{Scalar, ONE, ZERO};

verus! {

/// The pattern of the speed at which [`Source::Velocity`] reads 1, in page pixels per millisecond: 3.
pub const VELOCITY_FULL: u32 = 0x4040_0000;

/// The pattern of the tilt at which [`Source::Tilt`] reads 1, in radians from vertical: a third of
/// a half turn.
pub const TILT_FULL: u32 = 0x3F86_0A92;

/// Where a parameter looks for its input. Every one yields a number from zero to one, so any source
/// can drive any parameter.
#[derive(Clone, Copy, Debug, PartialEq, Eq, Structural)]
pub enum Source {
    /// How hard the pen is pressed.
    Pressure,
    /// How far the pen is tilted from vertical, against [`TILT_FULL`].
    Tilt,
    /// How fast the pen is travelling, against [`VELOCITY_FULL`].
    Velocity,
    /// Which way the stroke is heading, as a fraction of a full turn.
    Direction,
    /// A different value per dab.
    Random,
}

/// Everything the sources can read, for one dab.
#[derive(Clone, Copy, Debug, PartialEq, Eq, Structural)]
pub struct Input {
    /// Normalised pen pressure.
    pub pressure: Scalar,
    /// Tilt from vertical, in radians.
    pub tilt: Scalar,
    /// Speed in page pixels per millisecond.
    pub velocity: Scalar,
    /// Heading as a fraction of a turn.
    pub direction: Scalar,
    /// A fresh value per dab.
    pub random: Scalar,
}

impl Default for Input {
    fn default() -> (r: Input)
        ensures
            r.pressure.bits == ZERO && r.tilt.bits == ZERO && r.velocity.bits == ZERO
                && r.direction.bits == ZERO && r.random.bits == ZERO,
    {
        let none = Scalar { bits: ZERO };
        Input { pressure: none, tilt: none, velocity: none, direction: none, random: none }
    }
}

/// What one number divided by another is.
pub open spec fn quotient<Q: Fn(Scalar, Scalar) -> Scalar>(
    ratio: &Q,
    a: Scalar,
    b: Scalar,
) -> Scalar {
    choose|s: Scalar| ratio.ensures((a, b), s)
}

/// Whether a function divides any two numbers, and always gives the same for the same two.
pub open spec fn divides<Q: Fn(Scalar, Scalar) -> Scalar>(ratio: &Q) -> bool {
    &&& forall|a: Scalar, b: Scalar| #[trigger] ratio.requires((a, b))
    &&& forall|a: Scalar, b: Scalar, s: Scalar| #[trigger]
        ratio.ensures((a, b), s) ==> s == quotient(ratio, a, b)
}

impl Source {
    /// Every source, for an interface to offer.
    pub fn all() -> (r: [Source; 5])
        ensures
            r@ == seq![
                Source::Pressure,
                Source::Tilt,
                Source::Velocity,
                Source::Direction,
                Source::Random,
            ],
    {
        [Source::Pressure, Source::Tilt, Source::Velocity, Source::Direction, Source::Random]
    }

    pub fn label(self) -> (r: &'static str)
        ensures
            r@ == match self {
                Source::Pressure => "Pressure"@,
                Source::Tilt => "Tilt"@,
                Source::Velocity => "Velocity"@,
                Source::Direction => "Direction"@,
                Source::Random => "Random"@,
            },
    {
        match self {
            Source::Pressure => "Pressure",
            Source::Tilt => "Tilt",
            Source::Velocity => "Velocity",
            Source::Direction => "Direction",
            Source::Random => "Random",
        }
    }

    /// What this source makes of one dab's worth of input.
    pub open spec fn reading<Q: Fn(Scalar, Scalar) -> Scalar>(
        self,
        input: &Input,
        ratio: &Q,
    ) -> Scalar {
        unit(
            match self {
                Source::Pressure => input.pressure,
                Source::Tilt => quotient(ratio, input.tilt, Scalar { bits: TILT_FULL }),
                Source::Velocity => quotient(ratio, input.velocity, Scalar { bits: VELOCITY_FULL }),
                Source::Direction => input.direction,
                Source::Random => input.random,
            },
        )
    }

    /// Whether the quotient that decides a reading, where there is one, is one that was given.
    pub open spec fn answered<Q: Fn(Scalar, Scalar) -> Scalar>(
        self,
        input: &Input,
        ratio: &Q,
    ) -> bool {
        let tilt = (input.tilt, Scalar { bits: TILT_FULL });
        let velocity = (input.velocity, Scalar { bits: VELOCITY_FULL });
        &&& self == Source::Tilt ==> ratio.ensures(tilt, quotient(ratio, tilt.0, tilt.1))
        &&& self == Source::Velocity ==> ratio.ensures(
            velocity,
            quotient(ratio, velocity.0, velocity.1),
        )
    }

    /// Read this source out of one dab's worth of input. `ratio` divides two numbers.
    pub fn read<Q: Fn(Scalar, Scalar) -> Scalar>(self, input: &Input, ratio: &Q) -> (r: Scalar)
        requires
            divides(ratio),
        ensures
            r == self.reading(input, ratio),
            !r.nan() ==> in_unit(r),
            self.answered(input, ratio),
    {
        let raw = match self {
            Source::Pressure => input.pressure,
            Source::Tilt => ratio(input.tilt, Scalar { bits: TILT_FULL }),
            Source::Velocity => ratio(input.velocity, Scalar { bits: VELOCITY_FULL }),
            Source::Direction => input.direction,
            Source::Random => input.random,
        };
        raw.clamped(Scalar { bits: ZERO }, Scalar { bits: ONE })
    }
}

/// How one parameter answers its input.
#[derive(Debug, PartialEq)]
pub struct Response {
    pub source: Source,
    pub curve: Curve,
}

impl Clone for Response {
    fn clone(&self) -> (r: Response)
        ensures
            r.source == self.source,
            r.curve@ == self.curve@,
    {
        Response { source: self.source, curve: self.curve.clone() }
    }
}

impl Response {
    /// A parameter that ignores its input entirely.
    ///
    /// A flat curve, so "off" is a shape the same editor draws.
    pub fn fixed() -> (r: Response)
        ensures
            r.source == Source::Pressure,
            r.curve.wf(),
            r.curve@ == Curve::level(Scalar { bits: ONE }),
    {
        Response { source: Source::Pressure, curve: Curve::constant(Scalar { bits: ONE }) }
    }

    /// A parameter that follows its source exactly.
    pub fn following(source: Source) -> (r: Response)
        ensures
            r.source == source,
            r.curve.wf(),
            r.curve@ == Curve::identity(),
    {
        Response { source, curve: Curve::linear() }
    }

    /// The multiplier to apply to a parameter's setting for this dab.
    pub fn factor<
        Q: Fn(Scalar, Scalar) -> Scalar,
        S: Fn(Point, Point) -> Scalar,
        M: Fn(Scalar, Scalar) -> Scalar,
        T: Fn(Scalar) -> Scalar,
        F: Fn(Scalar) -> bool,
        N: Fn(Scalar, Scalar) -> bool,
        H: Fn(Scalar, (Point, Point), (Scalar, Scalar)) -> Scalar,
    >(&self, input: &Input, ratio: &Q, calculus: &Calculus<S, M, T, F, N, H>) -> (r: Scalar)
        requires
            self.curve.wf(),
            divides(ratio),
            calculus.steady(),
        ensures
            r == calculus.value(self.curve@, self.source.reading(input, ratio)),
            self.source.answered(input, ratio),
            calculus.answered(self.curve@, self.source.reading(input, ratio)),
    {
        self.curve.at(self.source.read(input, ratio), calculus)
    }
}

/// One step of the generator.
pub open spec fn stirred(state: u32) -> u32 {
    let a = state ^ (state << 13);
    let b = a ^ (a >> 17);
    b ^ (b << 5)
}

/// A small deterministic generator, for [`Source::Random`].
#[derive(Clone, Copy, Debug, PartialEq, Eq, Structural)]
pub struct Noise {
    pub state: u32,
}

impl Noise {
    /// The state is never zero: the generator would be stuck there, which would make every dab
    /// identical.
    pub open spec fn wf(&self) -> bool {
        self.state != 0
    }

    pub fn new(seed: u32) -> (n: Noise)
        ensures
            n.wf(),
            n.state == seed | 1,
    {
        assert(seed | 1 != 0) by (bit_vector);
        Noise { state: seed | 1 }
    }

    /// The next value, as a number of parts of 2^24: always less than a whole.
    pub fn draw(&mut self) -> (parts: u32)
        ensures
            final(self).state == stirred(old(self).state),
            old(self).wf() ==> final(self).wf(),
            parts == final(self).state >> 8,
            parts < 0x100_0000,
    {
        let ghost s = self.state;
        let a: u32 = self.state ^ (self.state << 13);
        let b: u32 = a ^ (a >> 17);
        self.state = b ^ (b << 5);
        proof {
            law_noise_never_sticks(s);
            let t = self.state;
            assert(t >> 8 < 0x100_0000u32) by (bit_vector);
        }
        self.state >> 8
    }
}

impl Default for Noise {
    fn default() -> (n: Noise)
        ensures
            n.wf(),
            n.state == 0x2545_F491,
    {
        let seed: u32 = 0x2545_F491;
        assert(seed | 1 == 0x2545_F491u32) by (bit_vector)
            requires
                seed == 0x2545_F491u32,
        ;
        Noise::new(seed)
    }
}

/// A step of the generator never reaches zero from anywhere else.
pub proof fn law_noise_never_sticks(state: u32)
    ensures
        stirred(state) == 0 <==> state == 0,
{
    assert(({
        let a = state ^ (state << 13);
        let b = a ^ (a >> 17);
        (b ^ (b << 5)) == 0
    }) <==> state == 0) by (bit_vector);
}

/// A source reads its own input and no other: two inputs that agree in it read the same, whatever else
/// they hold.
pub proof fn law_a_source_reads_only_its_own_input<Q: Fn(Scalar, Scalar) -> Scalar>(
    source: Source,
    a: Input,
    b: Input,
    ratio: &Q,
)
    requires
        match source {
            Source::Pressure => a.pressure == b.pressure,
            Source::Tilt => a.tilt == b.tilt,
            Source::Velocity => a.velocity == b.velocity,
            Source::Direction => a.direction == b.direction,
            Source::Random => a.random == b.random,
        },
    ensures
        source.reading(&a, ratio) == source.reading(&b, ratio),
{
}

/// A source reads its input as a share of the most it may be, held from none to all: of pressure,
/// heading and chance as they come, of a tilt against a third of a half turn, and of a speed against
/// three pixels in a millisecond.
pub proof fn law_a_reading_is_a_share_of_the_most<Q: Fn(Scalar, Scalar) -> Scalar>(
    source: Source,
    input: Input,
    ratio: &Q,
    raw: Scalar,
)
    requires
        divides(ratio),
        match source {
            Source::Pressure => raw == input.pressure,
            Source::Tilt => ratio.ensures((input.tilt, Scalar { bits: 0x3F86_0A92 }), raw),
            Source::Velocity => ratio.ensures((input.velocity, Scalar { bits: 0x4040_0000 }), raw),
            Source::Direction => raw == input.direction,
            Source::Random => raw == input.random,
        },
    ensures
        raw.bits <= 0x3F80_0000 ==> source.reading(&input, ratio) == raw,
        0x3F80_0000 < raw.bits <= 0x7F80_0000 ==> source.reading(&input, ratio).bits == 0x3F80_0000,
        0x8000_0000 < raw.bits <= 0xFF80_0000 ==> source.reading(&input, ratio).bits == 0,
{
}

/// A step of the generator can be undone, from every state: so no two states lead to the same one, and
/// the way back is this.
pub proof fn law_a_step_of_noise_can_be_undone(state: u32)
    ensures
        ({
            let c = stirred(state);
            let b = c ^ (c << 5) ^ (c << 10) ^ (c << 15) ^ (c << 20) ^ (c << 25) ^ (c << 30);
            let a = b ^ (b >> 17);
            state == a ^ (a << 13) ^ (a << 26)
        }),
{
    let a = state ^ (state << 13);
    let b = a ^ (a >> 17);
    let c = b ^ (b << 5);
    assert(b == c ^ (c << 5) ^ (c << 10) ^ (c << 15) ^ (c << 20) ^ (c << 25) ^ (c << 30))
        by (bit_vector)
        requires
            c == b ^ (b << 5),
    ;
    assert(a == b ^ (b >> 17)) by (bit_vector)
        requires
            b == a ^ (a >> 17),
    ;
    assert(state == a ^ (a << 13) ^ (a << 26)) by (bit_vector)
        requires
            a == state ^ (state << 13),
    ;
}

} // verus!
