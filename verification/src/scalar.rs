//! Real-valued settings, as the bit patterns they are stored in.
//!
//! An opacity, a resolution or a pressure is an IEEE 754 single-precision number. Comparing two of
//! them, clamping one into a range and telling whether one is positive are exact operations on the
//! bit pattern, and that is all this module does: the order of two finite numbers is the order of
//! their magnitudes read as integers, with the sign bit deciding the side of zero.
//!
//! Two facts of the format shape every function here. A pattern that is not a number ([`nan`]) is
//! neither above nor below anything, and the two zeros are equal although their patterns differ.

use vstd::arithmetic::power2::{
    lemma_pow2_adds, lemma_pow2_pos, lemma_pow2_strictly_increases, lemma_pow2_unfold, pow2,
};
use vstd::prelude::*;

verus! {

/// A single-precision number, by its bit pattern.
#[derive(Clone, Copy, Debug, PartialEq, Eq, Structural)]
pub struct Scalar {
    pub bits: u32,
}

/// The pattern of the number zero, positive.
pub const ZERO: u32 = 0;

/// The pattern of the number one.
pub const ONE: u32 = 0x3F80_0000;

/// The pattern of one half.
pub const HALF: u32 = 0x3F00_0000;

/// The pattern of positive infinity: every larger magnitude is not a number.
pub const INFINITE: u32 = 0x7F80_0000;

/// Where the sign bit is set.
pub const NEGATIVE: u32 = 0x8000_0000;

impl Scalar {
    /// The pattern without its sign bit.
    pub open spec fn magnitude(self) -> int {
        if self.bits < NEGATIVE {
            self.bits as int
        } else {
            self.bits - NEGATIVE
        }
    }

    /// Whether the pattern is not a number.
    pub open spec fn nan(self) -> bool {
        self.magnitude() > INFINITE
    }

    /// Where the number stands among all the others. Both zeros rank 0.
    pub open spec fn rank(self) -> int {
        if self.bits < NEGATIVE {
            self.magnitude()
        } else {
            -self.magnitude()
        }
    }

    /// `self < other`, as numbers.
    pub open spec fn below(self, other: Scalar) -> bool {
        !self.nan() && !other.nan() && self.rank() < other.rank()
    }

    /// `self <= other`, as numbers.
    pub open spec fn at_most(self, other: Scalar) -> bool {
        !self.nan() && !other.nan() && self.rank() <= other.rank()
    }

    /// Whether the pattern is that of a finite number.
    pub open spec fn finite(self) -> bool {
        self.magnitude() < INFINITE
    }

    /// How often the least positive number there is goes into the number, without its sign.
    pub open spec fn steps(self) -> int {
        let exponent = self.magnitude() / 0x80_0000;
        let fraction = self.magnitude() % 0x80_0000;
        if exponent == 0 {
            fraction
        } else {
            (0x80_0000 + fraction) * pow2((exponent - 1) as nat)
        }
    }

    /// The real number that a finite pattern stands for.
    pub open spec fn value(self) -> real {
        let whole = if self.bits < NEGATIVE {
            self.steps()
        } else {
            -self.steps()
        };
        whole as real / pow2(149) as real
    }

    /// `self`, but `floor` where `self` is below it or is not a number.
    pub open spec fn at_least_spec(self, floor: Scalar) -> Scalar {
        if self.nan() || self.below(floor) {
            floor
        } else {
            self
        }
    }

    /// `self` held between `low` and `high`; what is not a number stays as it is.
    pub open spec fn clamped_spec(self, low: Scalar, high: Scalar) -> Scalar {
        if self.below(low) {
            low
        } else if high.below(self) {
            high
        } else {
            self
        }
    }

    /// A number from its bit pattern.
    pub fn from_bits(bits: u32) -> (s: Scalar)
        ensures
            s.bits == bits,
    {
        Scalar { bits }
    }

    /// The bit pattern.
    pub fn to_bits(self) -> (bits: u32)
        ensures
            bits == self.bits,
    {
        self.bits
    }

    /// Whether the pattern is not a number.
    pub fn is_nan(self) -> (r: bool)
        ensures
            r == self.nan(),
    {
        if self.bits < NEGATIVE {
            self.bits > INFINITE
        } else {
            self.bits - NEGATIVE > INFINITE
        }
    }

    /// The rank, as a machine integer.
    fn rank_exec(self) -> (r: i64)
        ensures
            r == self.rank(),
    {
        if self.bits < NEGATIVE {
            self.bits as i64
        } else {
            -((self.bits - NEGATIVE) as i64)
        }
    }

    /// The same number with the other sign.
    pub open spec fn negation(self) -> Scalar {
        if self.bits < NEGATIVE {
            Scalar { bits: (self.bits + NEGATIVE) as u32 }
        } else {
            Scalar { bits: (self.bits - NEGATIVE) as u32 }
        }
    }

    /// The same number with the other sign.
    pub fn negated(self) -> (r: Scalar)
        ensures
            r == self.negation(),
            r.rank() == -self.rank(),
            r.nan() == self.nan(),
    {
        if self.bits < NEGATIVE {
            Scalar { bits: self.bits + NEGATIVE }
        } else {
            Scalar { bits: self.bits - NEGATIVE }
        }
    }

    /// `self < other`. False where either is not a number.
    pub fn lt(self, other: Scalar) -> (r: bool)
        ensures
            r == self.below(other),
    {
        !self.is_nan() && !other.is_nan() && self.rank_exec() < other.rank_exec()
    }

    /// `self <= other`. False where either is not a number.
    pub fn le(self, other: Scalar) -> (r: bool)
        ensures
            r == self.at_most(other),
    {
        !self.is_nan() && !other.is_nan() && self.rank_exec() <= other.rank_exec()
    }

    /// The larger of the two, and `floor` where `self` is not a number.
    ///
    /// Where both are zero, `self` is returned whatever its sign.
    pub fn at_least(self, floor: Scalar) -> (r: Scalar)
        requires
            !floor.nan(),
        ensures
            r == self.at_least_spec(floor),
            !r.nan(),
            floor.at_most(r),
    {
        if self.is_nan() || self.lt(floor) {
            floor
        } else {
            self
        }
    }

    /// The number held inside a range. What is not a number stays as it is.
    pub fn clamped(self, low: Scalar, high: Scalar) -> (r: Scalar)
        requires
            low.at_most(high),
        ensures
            r == self.clamped_spec(low, high),
            !self.nan() ==> low.at_most(r) && r.at_most(high),
    {
        if self.lt(low) {
            low
        } else if high.lt(self) {
            high
        } else {
            self
        }
    }
}

/// Clamping twice is clamping once.
pub proof fn law_clamping_settles(s: Scalar, low: Scalar, high: Scalar)
    requires
        low.at_most(high),
    ensures
        s.clamped_spec(low, high).clamped_spec(low, high) == s.clamped_spec(low, high),
{
}

/// Of two numbers exactly one order holds: one is below the other, or they rank the same.
pub proof fn law_order_is_total(a: Scalar, b: Scalar)
    requires
        !a.nan(),
        !b.nan(),
    ensures
        a.below(b) || b.below(a) || a.rank() == b.rank(),
        !(a.below(b) && b.below(a)),
        a.at_most(b) <==> !b.below(a),
{
}

/// A larger magnitude is more of the least number.
proof fn lemma_steps_rise(a: Scalar, b: Scalar)
    requires
        a.magnitude() < b.magnitude(),
    ensures
        0 <= a.steps() < b.steps(),
{
    let (e, f) = (a.magnitude() / 0x80_0000, a.magnitude() % 0x80_0000);
    let (g, h) = (b.magnitude() / 0x80_0000, b.magnitude() % 0x80_0000);
    assert(e <= g);
    if e > 0 {
        lemma_pow2_pos((e - 1) as nat);
    }
    if g > 0 {
        lemma_pow2_pos((g - 1) as nat);
    }
    if e == g {
        if e > 0 {
            let p = pow2((e - 1) as nat) as int;
            assert((0x80_0000 + f) * p < (0x80_0000 + h) * p) by (nonlinear_arith)
                requires
                    f < h,
                    p > 0,
            ;
            assert(0 <= (0x80_0000 + f) * p) by (nonlinear_arith)
                requires
                    0 <= f,
                    p > 0,
            ;
        }
    } else if e == 0 {
        let p = pow2((g - 1) as nat) as int;
        assert((0x80_0000 + h) * p >= 0x80_0000) by (nonlinear_arith)
            requires
                0 <= h,
                p >= 1,
        ;
    } else {
        let p = pow2((e - 1) as nat) as int;
        let q = pow2((g - 1) as nat) as int;
        lemma_pow2_unfold(e as nat);
        assert(pow2(e as nat) == 2 * p);
        if e < g - 1 {
            lemma_pow2_strictly_increases(e as nat, (g - 1) as nat);
        }
        assert(2 * p <= q);
        assert(0 <= (0x80_0000 + f) * p < (0x80_0000 + h) * q) by (nonlinear_arith)
            requires
                0 <= f < 0x80_0000,
                0 <= h,
                p > 0,
                2 * p <= q,
        ;
    }
}

/// The order of patterns is the order of the real numbers they stand for.
pub proof fn law_order_is_that_of_values(a: Scalar, b: Scalar)
    requires
        !a.nan(),
        !b.nan(),
    ensures
        a.below(b) <==> a.value() < b.value(),
        a.at_most(b) <==> a.value() <= b.value(),
{
    lemma_pow2_pos(149);
    let unit = pow2(149) as int;
    let none = Scalar { bits: ZERO };
    if a.magnitude() < b.magnitude() {
        lemma_steps_rise(a, b);
    }
    if b.magnitude() < a.magnitude() {
        lemma_steps_rise(b, a);
    }
    if a.magnitude() > 0 {
        lemma_steps_rise(none, a);
    }
    if b.magnitude() > 0 {
        lemma_steps_rise(none, b);
    }
    let i = if a.bits < NEGATIVE {
        a.steps()
    } else {
        -a.steps()
    };
    let j = if b.bits < NEGATIVE {
        b.steps()
    } else {
        -b.steps()
    };
    assert(a.rank() < b.rank() <==> i < j);
    let (x, y, u) = (i as real, j as real, unit as real);
    assert(i < j <==> x < y);
    assert(x / u < y / u <==> x < y) by (nonlinear_arith)
        requires
            u > 0 as real,
    ;
    assert(b.rank() < a.rank() <==> j < i);
    assert(y / u < x / u <==> y < x) by (nonlinear_arith)
        requires
            u > 0 as real,
    ;
}

/// The patterns of zero and one stand for zero and one.
pub proof fn law_zero_and_one_are_themselves()
    ensures
        (Scalar { bits: ZERO }).value() == 0 as real,
        (Scalar { bits: ONE }).value() == 1 as real,
{
    lemma_pow2_pos(149);
    lemma_pow2_adds(23, 126);
    let u = pow2(149) as int as real;
    assert(pow2(23) == 0x80_0000) by {
        vstd::arithmetic::power2::lemma2_to64();
    }
    assert((Scalar { bits: ONE }).steps() == pow2(149));
    assert(u / u == 1 as real) by (nonlinear_arith)
        requires
            u > 0 as real,
    ;
    assert(0 as real / u == 0 as real) by (nonlinear_arith)
        requires
            u > 0 as real,
    ;
}

/// Holding a number in a range gives the number itself where it is in the range, and else the end of
/// the range that it is past; a least value gives the number itself where it is no less, and else the
/// least. Both are never out of bounds.
pub proof fn law_holding_takes_the_nearest(s: Scalar, low: Scalar, high: Scalar)
    requires
        !s.nan(),
        !low.nan(),
        !high.nan(),
        low.value() <= high.value(),
    ensures
        low.value() <= s.value() <= high.value() ==> s.clamped_spec(low, high) == s,
        s.value() < low.value() ==> s.clamped_spec(low, high) == low,
        s.value() > high.value() ==> s.clamped_spec(low, high) == high,
        s.value() >= low.value() ==> s.at_least_spec(low) == s,
        s.value() < low.value() ==> s.at_least_spec(low) == low,
{
    law_order_is_that_of_values(s, low);
    law_order_is_that_of_values(low, s);
    law_order_is_that_of_values(s, high);
    law_order_is_that_of_values(high, s);
}

/// What is not a number is neither above nor below anything, and gives way to a least value.
pub proof fn law_what_is_no_number_has_no_order(s: Scalar, other: Scalar)
    ensures
        s.nan() <==> 0x7F80_0000 < s.bits < 0x8000_0000 || 0xFF80_0000 < s.bits,
        s.nan() ==> !s.below(other) && !other.below(s) && !s.at_most(other) && !other.at_most(s),
        s.nan() ==> s.at_least_spec(other) == other,
{
}

/// The pattern of a number with the other sign differs in the first bit alone, and stands for the
/// number that much on the other side of zero.
pub proof fn law_the_other_sign_is_the_other_side(s: Scalar)
    ensures
        s.negation().value() == -s.value(),
        s.negation().negation() == s,
        s.negation().nan() == s.nan(),
{
    assert(s.negation().magnitude() == s.magnitude());
    assert(s.negation().steps() == s.steps());
    lemma_pow2_pos(149);
    let (n, u) = (s.steps() as real, pow2(149) as int as real);
    assert(-n / u == -(n / u)) by (nonlinear_arith)
        requires
            u > 0 as real,
    ;
    assert(-s.steps() as real == -n);
}

/// Twice the number is one exponent more: patterns 2^23 apart, between the least normal number and half
/// the greatest, stand for numbers of which one is twice the other.
pub proof fn law_an_exponent_more_is_twice(s: Scalar)
    requires
        0x0080_0000 <= s.bits < 0x7F00_0000,
    ensures
        (Scalar { bits: (s.bits + 0x0080_0000) as u32 }).value() == 2 as real * s.value(),
{
    let t = Scalar { bits: (s.bits + 0x0080_0000) as u32 };
    let e = s.bits as int / 0x80_0000;
    let f = s.bits as int % 0x80_0000;
    assert(t.magnitude() / 0x80_0000 == e + 1 && t.magnitude() % 0x80_0000 == f);
    lemma_pow2_unfold(e as nat);
    let (m, p) = (0x80_0000 + f, pow2((e - 1) as nat) as int);
    assert(pow2(e as nat) == 2 * p);
    assert(m * (2 * p) == 2 * (m * p)) by (nonlinear_arith);
    assert(t.steps() == 2 * s.steps());
    lemma_pow2_pos(149);
    let (n, u) = (s.steps() as real, pow2(149) as int as real);
    assert((2 as real * n) / u == 2 as real * (n / u)) by (nonlinear_arith)
        requires
            u > 0 as real,
    ;
    assert(t.steps() as real == 2 as real * n);
}

/// What a normal number up to 2^24 stands for: its fraction, as often as its exponent says.
pub proof fn lemma_value_by_exponent(s: Scalar, e: nat)
    requires
        s.bits < NEGATIVE,
        1 <= e <= 150,
        s.bits as int / 0x80_0000 == e,
    ensures
        s.value() * (pow2((150 - e) as nat) as int as real) == (0x80_0000 + s.bits as int % 0x80_0000)
            as real,
{
    let m = 0x80_0000 + s.bits as int % 0x80_0000;
    let (p, q) = (pow2((e - 1) as nat) as int, pow2((150 - e) as nat) as int);
    lemma_pow2_adds((e - 1) as nat, (150 - e) as nat);
    lemma_pow2_pos((e - 1) as nat);
    lemma_pow2_pos((150 - e) as nat);
    lemma_pow2_pos(149);
    let u = pow2(149) as int;
    assert(u == p * q);
    assert(s.steps() == m * p);
    let (mr, pr, qr, ur) = (m as real, p as real, q as real, u as real);
    assert((m * p) as real == mr * pr) by (nonlinear_arith)
        requires
            mr == m as real,
            pr == p as real,
    ;
    assert(ur == pr * qr) by (nonlinear_arith)
        requires
            ur == u as real,
            u == p * q,
            pr == p as real,
            qr == q as real,
    ;
    let v = (mr * pr) / ur;
    assert(v * ur == mr * pr) by (nonlinear_arith)
        requires
            v == (mr * pr) / ur,
            ur > 0 as real,
    ;
    assert(v * qr == mr) by (nonlinear_arith)
        requires
            v * ur == mr * pr,
            ur == pr * qr,
            pr > 0 as real,
            qr > 0 as real,
    ;
}

} // verus!
