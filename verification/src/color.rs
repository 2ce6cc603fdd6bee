//! Colours as they pass through the engine, and the arithmetic they are blended with.
//!
//! Pixels are linear, and their alpha is premultiplied. Blending is arithmetic on real numbers, so
//! it is handed to this crate as a function: what a function of this module's kind returns is taken
//! to depend on its arguments alone, which is what [`blends`] asks for and [`blended`] names.

use vstd::arithmetic::power2::pow2;
use vstd::prelude::*;

use crate::scalar::{Scalar, ONE, ZERO};
use crate::tile::Texel;

verus! {

/// A linear premultiplied colour in single precision, as a brush or a dab carries it.
#[derive(Clone, Copy, Debug, PartialEq, Eq, Structural)]
pub struct Rgba {
    pub r: Scalar,
    pub g: Scalar,
    pub b: Scalar,
    pub a: Scalar,
}

impl Rgba {
    /// What the four channels stand for.
    pub open spec fn values(self) -> Seq<real> {
        seq![self.r.value(), self.g.value(), self.b.value(), self.a.value()]
    }

    /// What a channel is with all of the colour over it, in real arithmetic.
    pub open spec fn covering(self, c: int, under: real) -> real {
        self.values()[c] + under * (1 as real - self.values()[3])
    }

    /// Whether the colour has no coverage, so it cannot change what it is put over.
    pub open spec fn uncovered(self) -> bool {
        self.a.at_most(Scalar { bits: ZERO })
    }

    /// Whether the colour has no coverage, so it cannot change what it is put over.
    pub fn is_uncovered(&self) -> (r: bool)
        ensures
            r == self.uncovered(),
    {
        self.a.le(Scalar { bits: ZERO })
    }

    /// Opaque black.
    pub fn black() -> (c: Rgba)
        ensures
            c == (Rgba {
                r: Scalar { bits: ZERO },
                g: Scalar { bits: ZERO },
                b: Scalar { bits: ZERO },
                a: Scalar { bits: ONE },
            }),
    {
        let none = Scalar { bits: ZERO };
        Rgba { r: none, g: none, b: none, a: Scalar { bits: ONE } }
    }
}

/// The real number that a finite half-precision pattern stands for.
pub open spec fn half_value(half: u16) -> real {
    let magnitude: int = if half < 0x8000 {
        half as int
    } else {
        half - 0x8000
    };
    let exponent = magnitude / 0x400;
    let fraction = magnitude % 0x400;
    let steps = if exponent == 0 {
        fraction
    } else {
        (0x400 + fraction) * pow2((exponent - 1) as nat)
    };
    let whole = if half < 0x8000 {
        steps
    } else {
        -steps
    };
    whole as real / pow2(24) as real
}

impl Texel {
    /// What the four channels stand for.
    pub open spec fn values(self) -> Seq<real> {
        seq![half_value(self.r), half_value(self.g), half_value(self.b), half_value(self.a)]
    }

    /// Whether every channel is from nothing to all there is of it.
    pub open spec fn in_range(self) -> bool {
        forall|c: int| 0 <= c < 4 ==> 0 as real <= #[trigger] self.values()[c] <= 1 as real
    }
}

/// What putting a colour over a texel gives.
pub open spec fn blended<F: Fn(Rgba, Texel) -> Texel>(over: &F, src: Rgba, dst: Texel) -> Texel {
    choose|t: Texel| over.ensures((src, dst), t)
}

/// Whether a function puts any colour over any texel, and always gives the same for the same two.
pub open spec fn blends<F: Fn(Rgba, Texel) -> Texel>(over: &F) -> bool {
    &&& forall|src: Rgba, dst: Texel| #[trigger] over.requires((src, dst))
    &&& forall|src: Rgba, dst: Texel, t: Texel| #[trigger]
        over.ensures((src, dst), t) ==> t == blended(over, src, dst)
}

/// A colour covers nothing exactly when its coverage is at or below zero, whatever its channels are.
pub proof fn law_coverage_is_all_that_covers(c: Rgba)
    ensures
        c.a.bits <= 0x7F80_0000 || 0x8000_0000 <= c.a.bits <= 0xFF80_0000 ==> (c.uncovered() <==> c.a.bits
            == 0 || c.a.bits >= 0x8000_0000),
        c.uncovered() ==> c.a.value() <= 0 as real,
{
    crate::scalar::law_zero_and_one_are_themselves();
    if c.uncovered() {
        crate::scalar::law_order_is_that_of_values(c.a, Scalar { bits: ZERO });
    }
}

/// A half-precision pattern with one more in its exponent stands for twice as much; the other sign for
/// the other side of zero; and no bits for nothing, which has no side.
pub proof fn law_a_half_with_an_exponent_more_is_twice(half: u16)
    ensures
        0x400 <= half < 0x7800 ==> half_value((half + 0x400) as u16) == 2 as real * half_value(half),
        half < 0x7C00 ==> half_value((half + 0x8000) as u16) == -half_value(half),
        half_value(0) == 0 as real,
{
    vstd::arithmetic::power2::lemma_pow2_pos(24);
    let u = pow2(24) as int as real;
    if 0x400 <= half < 0x7800 {
        let e = half as int / 0x400;
        let f = half as int % 0x400;
        let next = (half + 0x400) as u16;
        assert(next as int / 0x400 == e + 1 && next as int % 0x400 == f);
        vstd::arithmetic::power2::lemma_pow2_unfold(e as nat);
        let (m, p) = (0x400 + f, pow2((e - 1) as nat) as int);
        assert(pow2(e as nat) == 2 * p);
        assert(m * (2 * p) == 2 * (m * p)) by (nonlinear_arith);
        let n = (m * p) as real;
        assert((2 as real * n) / u == 2 as real * (n / u)) by (nonlinear_arith)
            requires
                u > 0 as real,
        ;
        assert((m * (2 * p)) as real == 2 as real * n);
    }
    if half < 0x7C00 {
        let e = half as int / 0x400;
        let f = half as int % 0x400;
        let steps = if e == 0 {
            f
        } else {
            (0x400 + f) * pow2((e - 1) as nat)
        };
        let n = steps as real;
        assert((-n) / u == -(n / u)) by (nonlinear_arith)
            requires
                u > 0 as real,
        ;
        assert((-steps) as real == -n);
    }
    assert(0 as real / u == 0 as real) by (nonlinear_arith)
        requires
            u > 0 as real,
    ;
}

/// A half-precision pattern from nothing up to the smallest exponent counts steps of one 2^24th, and the
/// pattern of one stands for one.
pub proof fn law_a_half_counts_the_smallest_steps(half: u16)
    ensures
        half < 0x400 ==> half_value(half) == half as int as real / (0x100_0000 as int as real),
        half_value(0x3C00) == 1 as real,
{
    vstd::arithmetic::power2::lemma2_to64();
    vstd::arithmetic::power2::lemma_pow2_adds(10, 14);
    assert(pow2(24) == 0x100_0000);
    assert(pow2(14) == 0x4000);
    let u = 0x100_0000 as int as real;
    assert(u / u == 1 as real) by (nonlinear_arith)
        requires
            u > 0 as real,
    ;
    assert(0x3C00int / 0x400 == 15 && 0x3C00int % 0x400 == 0);
}

/// An opaque colour hides what is under it, and one of no coverage adds itself to it.
pub proof fn law_an_opaque_colour_hides_what_is_under_it(colour: Rgba, c: int, under: real)
    requires
        0 <= c < 4,
    ensures
        colour.values()[3] == 1 as real ==> colour.covering(c, under) == colour.values()[c],
        colour.values()[3] == 0 as real ==> colour.covering(c, under) == colour.values()[c] + under,
        colour.covering(c, 0 as real) == colour.values()[c],
{
    let rest = 1 as real - colour.values()[3];
    assert(under * (0 as real) == 0 as real && under * (1 as real) == under && (0 as real) * rest
        == 0 as real) by (nonlinear_arith);
}

} // verus!
