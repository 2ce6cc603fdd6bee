//! Bitmap brush tips.
//!
//! A [`Stamp`] is the shape of a single dab, as a grayscale image: how much ink lands at each point
//! of the mark. One byte per texel, coverage and not colour: the tip says where ink lands, and the
//! brush says what colour it is.

use vstd::prelude::*;

use crate::words::{decimal, decimal_text, joined};

verus! {

/// The largest tip that is accepted, per side.
pub const MAX_STAMP_SIDE: u32 = 2048;

/// A bitmap brush tip: one byte of coverage per texel, row-major. Immutable once built.
#[derive(Debug, PartialEq, Eq)]
pub struct Stamp {
    width: u32,
    height: u32,
    coverage: Vec<u8>,
}

impl Clone for Stamp {
    fn clone(&self) -> (r: Stamp)
        ensures
            r.size() == self.size(),
            r.ink() == self.ink(),
    {
        Stamp { width: self.width, height: self.height, coverage: self.coverage.clone() }
    }
}

/// Why an image could not be used as a brush tip.
#[derive(Clone, Copy, Debug, PartialEq, Eq, Structural)]
pub enum StampError {
    /// Zero width or height. Nothing to stamp.
    Empty,
    /// Larger than [`MAX_STAMP_SIDE`] on one side.
    TooLarge { width: u32, height: u32 },
    /// The pixel data does not match the stated size.
    WrongLength { expected: usize, found: usize },
}

impl StampError {
    /// The error as a sentence.
    pub open spec fn sentence(self) -> Seq<char> {
        match self {
            StampError::Empty => "a brush tip cannot be empty"@,
            StampError::TooLarge {
                width,
                height,
            } => "a brush tip may be at most 2048px on a side; this one is "@ + decimal(
                width as nat,
            ) + "x"@ + decimal(height as nat),
            StampError::WrongLength { expected, found } => "expected "@ + decimal(expected as nat)
                + " bytes of coverage, found "@ + decimal(found as nat),
        }
    }

    /// The error as a sentence, because it reaches the user.
    pub fn message(&self) -> (r: String)
        ensures
            r@ == self.sentence(),
    {
        match self {
            StampError::Empty => "a brush tip cannot be empty".to_owned(),
            StampError::TooLarge { width, height } => {
                let w = decimal_text(*width as u64);
                let h = decimal_text(*height as u64);
                let start = joined(
                    "a brush tip may be at most 2048px on a side; this one is ",
                    w.as_str(),
                );
                let cross = joined(start.as_str(), "x");
                joined(cross.as_str(), h.as_str())
            },
            StampError::WrongLength { expected, found } => {
                let wanted = decimal_text(*expected as u64);
                let got = decimal_text(*found as u64);
                let start = joined("expected ", wanted.as_str());
                let middle = joined(start.as_str(), " bytes of coverage, found ");
                joined(middle.as_str(), got.as_str())
            },
        }
    }
}

/// What is wrong with a tip of a size and a number of coverage values, if anything is.
pub open spec fn fault(width: u32, height: u32, found: nat) -> Option<StampError> {
    if width == 0 || height == 0 {
        Some(StampError::Empty)
    } else if width > MAX_STAMP_SIDE || height > MAX_STAMP_SIDE {
        Some(StampError::TooLarge { width, height })
    } else if found != width * height {
        Some(
            StampError::WrongLength { expected: (width * height) as usize, found: found as usize },
        )
    } else {
        None
    }
}

/// How far apart single-precision numbers are around `n`, in units that leave room for 24 bits.
pub open spec fn spacing(n: nat) -> nat
    decreases n,
{
    if n < 0x100_0000 {
        1
    } else {
        2 * spacing(n / 2)
    }
}

/// The single-precision number nearest to `n`, the even one of two that are equally near.
pub open spec fn single(n: nat) -> nat {
    let unit = spacing(n);
    let whole = n / unit;
    let rest = n % unit;
    if 2 * rest < unit || (2 * rest == unit && whole % 2 == 0) {
        whole * unit
    } else {
        (whole + 1) * unit
    }
}

/// The Rec. 709 weights of red, green and blue (0.2126, 0.7152 and 0.0722) in single precision, in
/// units of 2^-27.
pub const RED_WEIGHT: u64 = 28_534_688;

pub const GREEN_WEIGHT: u64 = 95_992_520;

pub const BLUE_WEIGHT: u64 = 9_690_520;

/// The luminance of a colour, summed in single precision, in units of 2^-27.
pub open spec fn luma(r: u8, g: u8, b: u8) -> nat {
    let warm = single(
        (single((RED_WEIGHT * r) as nat) + single((GREEN_WEIGHT * g) as nat)) as nat,
    );
    single((warm + single((BLUE_WEIGHT * b) as nat)) as nat)
}

/// How dark a colour is, from 0 for white to 255 for black.
pub open spec fn darkness(r: u8, g: u8, b: u8) -> int {
    255 - (luma(r, g, b) + 0x400_0000) / 0x800_0000
}

/// The spacing is a power of two's worth: the number is below 2^24 of it.
proof fn lemma_spacing(n: nat)
    ensures
        spacing(n) >= 1,
        n < 0x100_0000 * spacing(n),
        n >= 0x100_0000 ==> spacing(n) <= n / 0x80_0000,
    decreases n,
{
    if n >= 0x100_0000 {
        lemma_spacing(n / 2);
        if n / 2 < 0x100_0000 {
            assert(spacing(n / 2) == 1);
        }
    }
}

/// Rounding moves a number up by no more than one part in 2^24, and one.
proof fn lemma_single(n: nat)
    ensures
        single(n) <= n + n / 0x100_0000 + 1,
{
    lemma_spacing(n);
    let unit = spacing(n);
    let whole = n / unit;
    let rest = n % unit;
    assert(n == whole * unit + rest && 0 <= rest < unit && (whole + 1) * unit == whole * unit
        + unit) by (nonlinear_arith)
        requires
            unit >= 1,
            whole == n / unit,
            rest == n % unit,
    ;
    if n < 0x100_0000 {
        assert(unit == 1);
    }
}

/// The luminance of a colour is that of a byte.
proof fn lemma_luma_is_a_byte(r: u8, g: u8, b: u8)
    ensures
        (luma(r, g, b) + 0x400_0000) / 0x800_0000 <= 255,
{
    let red = (RED_WEIGHT * r) as nat;
    let green = (GREEN_WEIGHT * g) as nat;
    let blue = (BLUE_WEIGHT * b) as nat;
    lemma_single(red);
    lemma_single(green);
    lemma_single(blue);
    let warm = (single(red) + single(green)) as nat;
    lemma_single(warm);
    let all = (single(warm) + single(blue)) as nat;
    lemma_single(all);
}

/// How far apart single-precision numbers are around `n`.
fn spacing_of(n: u64) -> (unit: u64)
    ensures
        unit == spacing(n as nat),
    decreases n,
{
    if n < 0x100_0000 {
        1
    } else {
        proof {
            lemma_spacing(n as nat);
        }
        let unit: u64 = spacing_of(n / 2);
        2 * unit
    }
}

/// The single-precision number nearest to `n`.
fn nearest_single(n: u64) -> (r: u64)
    requires
        n <= 0x10_0000_0000,
    ensures
        r == single(n as nat),
{
    let unit: u64 = spacing_of(n);
    proof {
        lemma_spacing(n as nat);
    }
    let whole: u64 = n / unit;
    let rest: u64 = n % unit;
    proof {
        assert(n == whole * unit + rest && 0 <= rest < unit && (whole + 1) * unit == whole * unit
            + unit && whole * unit <= n && whole <= n) by (nonlinear_arith)
            requires
                unit >= 1,
                whole == n / unit,
                rest == n % unit,
        ;
    }
    if 2 * rest < unit || (2 * rest == unit && whole % 2 == 0) {
        whole * unit
    } else {
        (whole + 1) * unit
    }
}

/// How dark a colour is, from 0 for white to 255 for black.
fn darkness_of(r: u8, g: u8, b: u8) -> (d: u8)
    ensures
        d == darkness(r, g, b),
{
    proof {
        lemma_single((RED_WEIGHT * r) as nat);
        lemma_single((GREEN_WEIGHT * g) as nat);
        lemma_single((BLUE_WEIGHT * b) as nat);
        lemma_single(
            (single((RED_WEIGHT * r) as nat) + single((GREEN_WEIGHT * g) as nat)) as nat,
        );
        lemma_luma_is_a_byte(r, g, b);
    }
    let red: u64 = nearest_single(RED_WEIGHT * r as u64);
    let green: u64 = nearest_single(GREEN_WEIGHT * g as u64);
    let blue: u64 = nearest_single(BLUE_WEIGHT * b as u64);
    let warm: u64 = nearest_single(red + green);
    let sum: u64 = nearest_single(warm + blue);
    let light: u64 = (sum + 0x400_0000) / 0x800_0000;
    (255 - light) as u8
}

/// The coverage that a pixel of an image stands for: its alpha where the image uses alpha at all,
/// and how dark it is where it does not.
pub open spec fn covered(rgba: Seq<u8>, alpha: bool, i: int) -> int {
    if alpha {
        rgba[4 * i + 3] as int
    } else {
        darkness(rgba[4 * i], rgba[4 * i + 1], rgba[4 * i + 2])
    }
}

/// Whether some pixel of an image is not fully opaque.
pub open spec fn uses_alpha(rgba: Seq<u8>) -> bool {
    exists|i: int| 0 <= i && 4 * i + 3 < rgba.len() && #[trigger] rgba[4 * i + 3] != 255
}

/// A number held inside a range that starts at zero.
pub open spec fn inside(n: int, len: int) -> int {
    if n < 0 {
        0
    } else if n >= len {
        len - 1
    } else {
        n
    }
}

impl Stamp {
    /// The width and height in texels.
    pub closed spec fn size(&self) -> (u32, u32) {
        (self.width, self.height)
    }

    /// The coverage, row by row.
    pub closed spec fn ink(&self) -> Seq<u8> {
        self.coverage@
    }

    /// A tip has a size within the limit, and one coverage value for each texel.
    pub open spec fn wf(&self) -> bool {
        fault(self.size().0, self.size().1, self.ink().len()) is None
    }

    /// The coverage at a texel, and beyond the edge that of the nearest one.
    pub open spec fn at(&self, x: int, y: int) -> u8 {
        self.ink()[inside(y, self.size().1 as int) * self.size().0 + inside(
            x,
            self.size().0 as int,
        )]
    }

    /// Build a tip from coverage values, `width * height` of them, row-major.
    pub fn new(width: u32, height: u32, coverage: Vec<u8>) -> (r: Result<Stamp, StampError>)
        ensures
            match r {
                Ok(stamp) => {
                    &&& fault(width, height, coverage@.len()) is None
                    &&& stamp.wf()
                    &&& stamp.size() == (width, height)
                    &&& stamp.ink() == coverage@
                },
                Err(e) => fault(width, height, coverage@.len()) == Some(e),
            },
    {
        if width == 0 || height == 0 {
            return Err(StampError::Empty);
        }
        if width > MAX_STAMP_SIDE || height > MAX_STAMP_SIDE {
            return Err(StampError::TooLarge { width, height });
        }
        proof {
            assert(width * height <= 2048 * 2048) by (nonlinear_arith)
                requires
                    width <= 2048,
                    height <= 2048,
            ;
        }
        let expected: usize = width as usize * height as usize;
        if coverage.len() != expected {
            return Err(StampError::WrongLength { expected, found: coverage.len() });
        }
        Ok(Stamp { width, height, coverage })
    }

    /// Build a tip from RGBA pixels, taking coverage from whichever channel carries the mark.
    ///
    /// What looks like ink is ink: an image that uses its alpha channel is read from alpha, and one
    /// that is fully opaque is read from inverted luminance. Luminance is the Rec. 709 weighting, so
    /// a coloured tip converts the way an eye would judge it.
    pub fn from_rgba(width: u32, height: u32, rgba: &[u8]) -> (r: Result<Stamp, StampError>)
        requires
            width * height * 4 <= usize::MAX,
        ensures
            rgba@.len() != width * height * 4 ==> r == Err::<Stamp, StampError>(
                StampError::WrongLength {
                    expected: (width * height * 4) as usize,
                    found: rgba@.len() as usize,
                },
            ),
            rgba@.len() == width * height * 4 ==> match r {
                Ok(stamp) => {
                    &&& fault(width, height, (width * height) as nat) is None
                    &&& stamp.wf()
                    &&& stamp.size() == (width, height)
                    &&& forall|i: int|
                        0 <= i < width * height ==> #[trigger] stamp.ink()[i] == covered(
                            rgba@,
                            uses_alpha(rgba@),
                            i,
                        )
                },
                Err(e) => fault(width, height, (width * height) as nat) == Some(e),
            },
    {
        proof {
            assert(0 <= width * height) by (nonlinear_arith)
                requires
                    0 <= width,
                    0 <= height,
            ;
        }
        let texels: usize = width as usize * height as usize;
        let expected: usize = texels * 4;
        if rgba.len() != expected {
            return Err(StampError::WrongLength { expected, found: rgba.len() });
        }
        let mut alpha = false;
        let mut i: usize = 0;
        while i < texels
            invariant
                i <= texels,
                rgba@.len() == texels * 4,
                texels * 4 <= usize::MAX,
                alpha ==> uses_alpha(rgba@),
                !alpha ==> forall|j: int| 0 <= j < i ==> #[trigger] rgba@[4 * j + 3] == 255,
            decreases texels - i,
        {
            if rgba[4 * i + 3] != 255 {
                assert(rgba@[4 * (i as int) + 3] != 255);
                alpha = true;
            }
            i += 1;
        }
        assert(alpha == uses_alpha(rgba@));
        let mut coverage: Vec<u8> = Vec::new();
        let mut n: usize = 0;
        while n < texels
            invariant
                n <= texels,
                rgba@.len() == texels * 4,
                texels * 4 <= usize::MAX,
                coverage@.len() == n,
                forall|j: int|
                    0 <= j < n ==> #[trigger] coverage@[j] == covered(rgba@, alpha, j),
            decreases texels - n,
        {
            let c: u8 = if alpha {
                rgba[4 * n + 3]
            } else {
                darkness_of(rgba[4 * n], rgba[4 * n + 1], rgba[4 * n + 2])
            };
            coverage.push(c);
            n += 1;
        }
        Stamp::new(width, height, coverage)
    }

    pub fn width(&self) -> (r: u32)
        ensures
            r == self.size().0,
    {
        self.width
    }

    pub fn height(&self) -> (r: u32)
        ensures
            r == self.size().1,
    {
        self.height
    }

    /// The raw coverage, for uploading to a texture.
    pub fn coverage(&self) -> (r: &[u8])
        ensures
            r@ == self.ink(),
    {
        self.coverage.as_slice()
    }

    /// One texel, clamped to the edge.
    pub fn texel(&self, x: i32, y: i32) -> (r: u8)
        requires
            self.wf(),
        ensures
            r == self.at(x as int, y as int),
    {
        let (w, h): (i32, i32) = (self.width as i32, self.height as i32);
        let cx: usize = if x < 0 {
            0
        } else if x >= w {
            (w - 1) as usize
        } else {
            x as usize
        };
        let cy: usize = if y < 0 {
            0
        } else if y >= h {
            (h - 1) as usize
        } else {
            y as usize
        };
        proof {
            let width = self.width as int;
            let height = self.height as int;
            assert(cy * width + cx < width * height && cy * width <= width * height
                && width * height <= 2048 * 2048 && 0 <= cy * width) by (nonlinear_arith)
                requires
                    0 <= cx < width <= 2048,
                    0 <= cy < height <= 2048,
            ;
        }
        self.coverage[cy * self.width as usize + cx]
    }

    /// The four texels that a point between them is mixed from: the one it is in and those to the
    /// right, below, and below right, each clamped to the edge.
    pub fn corners(&self, x: i32, y: i32) -> (r: (u8, u8, u8, u8))
        requires
            self.wf(),
            x < i32::MAX,
            y < i32::MAX,
        ensures
            r.0 == self.at(x as int, y as int),
            r.1 == self.at(x + 1, y as int),
            r.2 == self.at(x as int, y + 1),
            r.3 == self.at(x + 1, y + 1),
    {
        (self.texel(x, y), self.texel(x + 1, y), self.texel(x, y + 1), self.texel(x + 1, y + 1))
    }
}

/// Larger numbers are no closer together, and where the spacing grows it at least doubles.
proof fn lemma_spacing_grows(n: nat, m: nat)
    requires
        n <= m,
    ensures
        spacing(n) == spacing(m) || 2 * spacing(n) <= spacing(m),
    decreases m,
{
    if n >= 0x100_0000 {
        lemma_spacing_grows(n / 2, m / 2);
    } else if m >= 0x100_0000 {
        lemma_spacing(m / 2);
    }
}

/// Rounding keeps the order.
proof fn lemma_single_keeps_order(n: nat, m: nat)
    requires
        n <= m,
    ensures
        single(n) <= single(m),
{
    lemma_spacing_grows(n, m);
    lemma_spacing(n);
    lemma_spacing(m);
    let (u, v) = (spacing(n), spacing(m));
    let (p, q) = (n / u, m / v);
    let (r, t) = (n % u, m % v);
    assert(n == p * u + r && 0 <= r < u && (p + 1) * u == p * u + u) by (nonlinear_arith)
        requires
            u >= 1,
            p == n / u,
            r == n % u,
    ;
    assert(m == q * v + t && 0 <= t < v && (q + 1) * v == q * v + v) by (nonlinear_arith)
        requires
            v >= 1,
            q == m / v,
            t == m % v,
    ;
    if u == v {
        if p < q {
            assert((p + 1) * u <= q * u) by (nonlinear_arith)
                requires
                    p + 1 <= q,
                    u >= 1,
            ;
        } else {
            assert(p == q) by (nonlinear_arith)
                requires
                    p * u + r <= q * u + t,
                    0 <= r,
                    0 <= t < u,
                    p >= q,
            ;
        }
    } else {
        assert(p + 1 <= 0x100_0000) by (nonlinear_arith)
            requires
                p * u + r < 0x100_0000 * u,
                0 <= r,
                u >= 1,
        ;
        assert((p + 1) * u <= 0x100_0000 * u) by (nonlinear_arith)
            requires
                p + 1 <= 0x100_0000,
                u >= 1,
        ;
        assert(m >= 0x100_0000);
        assert(q >= 0x80_0000) by (nonlinear_arith)
            requires
                q * v + t >= 0x80_0000 * v,
                t < v,
                v >= 1,
        ;
        assert(q * v >= 0x80_0000 * v) by (nonlinear_arith)
            requires
                q >= 0x80_0000,
                v >= 1,
        ;
    }
}

/// A darker colour never lays less ink: lowering any channel of an opaque pixel never lowers the
/// coverage it stands for.
pub proof fn law_darker_is_more_ink(r: u8, g: u8, b: u8, r2: u8, g2: u8, b2: u8)
    requires
        r <= r2,
        g <= g2,
        b <= b2,
    ensures
        darkness(r, g, b) >= darkness(r2, g2, b2),
        0 <= darkness(r, g, b) <= 255,
{
    lemma_luma_is_a_byte(r, g, b);
    lemma_single_keeps_order((RED_WEIGHT * r) as nat, (RED_WEIGHT * r2) as nat);
    lemma_single_keeps_order((GREEN_WEIGHT * g) as nat, (GREEN_WEIGHT * g2) as nat);
    lemma_single_keeps_order((BLUE_WEIGHT * b) as nat, (BLUE_WEIGHT * b2) as nat);
    let warm = (single((RED_WEIGHT * r) as nat) + single((GREEN_WEIGHT * g) as nat)) as nat;
    let warm2 = (single((RED_WEIGHT * r2) as nat) + single((GREEN_WEIGHT * g2) as nat)) as nat;
    lemma_single_keeps_order(warm, warm2);
    lemma_single_keeps_order(
        (single(warm) + single((BLUE_WEIGHT * b) as nat)) as nat,
        (single(warm2) + single((BLUE_WEIGHT * b2) as nat)) as nat,
    );
}

/// An image that uses its alpha channel is read from alpha. Where any one pixel is not fully opaque,
/// the coverage of each is its own alpha byte, whatever the colours are: an image of other colours
/// with the same alpha makes the same tip.
pub proof fn law_alpha_is_the_mark(rgba: Seq<u8>, other: Seq<u8>, j: int, i: int)
    requires
        0 <= j,
        4 * j + 3 < rgba.len(),
        rgba[4 * j + 3] != 255,
        0 <= i,
        4 * i + 3 < rgba.len(),
        other.len() == rgba.len(),
        forall|k: int| 0 <= k < rgba.len() && k % 4 == 3 ==> #[trigger] other[k] == rgba[k],
    ensures
        covered(rgba, uses_alpha(rgba), i) == rgba[4 * i + 3],
        covered(other, uses_alpha(other), i) == covered(rgba, uses_alpha(rgba), i),
{
    assert(other[4 * j + 3] == rgba[4 * j + 3]);
    assert(other[4 * i + 3] == rgba[4 * i + 3]);
}

/// An image that is opaque throughout is read from how dark it is, and a pixel then counts for the same
/// wherever it stands and whatever is around it.
pub proof fn law_an_opaque_image_is_read_from_its_darkness(
    rgba: Seq<u8>,
    other: Seq<u8>,
    i: int,
    j: int,
)
    requires
        forall|k: int| 0 <= k < rgba.len() && k % 4 == 3 ==> #[trigger] rgba[k] == 255,
        forall|k: int| 0 <= k < other.len() && k % 4 == 3 ==> #[trigger] other[k] == 255,
        0 <= i,
        4 * i + 3 < rgba.len(),
        0 <= j,
        4 * j + 3 < other.len(),
        rgba[4 * i] >= other[4 * j],
        rgba[4 * i + 1] >= other[4 * j + 1],
        rgba[4 * i + 2] >= other[4 * j + 2],
    ensures
        covered(rgba, uses_alpha(rgba), i) <= covered(other, uses_alpha(other), j),
        covered(rgba, uses_alpha(rgba), i) == darkness(
            rgba[4 * i],
            rgba[4 * i + 1],
            rgba[4 * i + 2],
        ),
{
    if uses_alpha(rgba) {
        let k = choose|k: int| 0 <= k && 4 * k + 3 < rgba.len() && #[trigger] rgba[4 * k + 3] != 255;
        assert(rgba[4 * k + 3] == 255);
    }
    if uses_alpha(other) {
        let k = choose|k: int|
            0 <= k && 4 * k + 3 < other.len() && #[trigger] other[4 * k + 3] != 255;
        assert(other[4 * k + 3] == 255);
    }
    law_darker_is_more_ink(
        other[4 * j],
        other[4 * j + 1],
        other[4 * j + 2],
        rgba[4 * i],
        rgba[4 * i + 1],
        rgba[4 * i + 2],
    );
}

/// Rounding moves a number by no more than one part in 2^24, and one, either way.
proof fn lemma_single_is_near(n: nat)
    ensures
        n <= single(n) + n / 0x100_0000 + 1,
        single(n) <= n + n / 0x100_0000 + 1,
{
    lemma_single(n);
    lemma_spacing(n);
    let unit = spacing(n);
    let whole = n / unit;
    let rest = n % unit;
    assert(n == whole * unit + rest && 0 <= rest < unit && (whole + 1) * unit == whole * unit
        + unit) by (nonlinear_arith)
        requires
            unit >= 1,
            whole == n / unit,
            rest == n % unit,
    ;
    if n < 0x100_0000 {
        assert(unit == 1);
    }
}

/// How dark a colour is follows the eye: but for rounding it is what is left of 255 when 2126 parts of
/// red, 7152 of green and 722 of blue in ten thousand are taken away. Black is all of it and white is
/// none.
pub proof fn law_darkness_is_what_luminance_leaves(r: u8, g: u8, b: u8)
    ensures
        10000 * darkness(r, g, b) <= 10000 * 255 - (2126 * r + 7152 * g + 722 * b) + 5001,
        10000 * darkness(r, g, b) >= 10000 * 255 - (2126 * r + 7152 * g + 722 * b) - 5001,
        darkness(0, 0, 0) == 255,
        darkness(255, 255, 255) == 0,
{
    lemma_darkness_near(r, g, b);
    lemma_darkness_near(0, 0, 0);
    lemma_darkness_near(255, 255, 255);
    law_darker_is_more_ink(0, 0, 0, 255, 255, 255);
    law_darker_is_more_ink(255, 255, 255, 255, 255, 255);
}

proof fn lemma_darkness_near(r: u8, g: u8, b: u8)
    ensures
        10000 * darkness(r, g, b) <= 10000 * 255 - (2126 * r + 7152 * g + 722 * b) + 5001,
        10000 * darkness(r, g, b) >= 10000 * 255 - (2126 * r + 7152 * g + 722 * b) - 5001,
{
    let red = (RED_WEIGHT * r) as nat;
    let green = (GREEN_WEIGHT * g) as nat;
    let blue = (BLUE_WEIGHT * b) as nat;
    lemma_single_is_near(red);
    lemma_single_is_near(green);
    lemma_single_is_near(blue);
    let warm = (single(red) + single(green)) as nat;
    lemma_single_is_near(warm);
    let all = (single(warm) + single(blue)) as nat;
    lemma_single_is_near(all);
}

/// A tip reads the same beyond its edge as at it: within it a texel is the one of its row and column,
/// and a step further out on either axis changes nothing.
pub proof fn law_a_tip_goes_on_past_its_edge(stamp: &Stamp, x: int, y: int)
    requires
        stamp.wf(),
    ensures
        0 <= x < stamp.size().0 && 0 <= y < stamp.size().1 ==> stamp.at(x, y) == stamp.ink()[y
            * stamp.size().0 + x],
        x <= 0 ==> stamp.at(x - 1, y) == stamp.at(x, y),
        x >= stamp.size().0 - 1 ==> stamp.at(x + 1, y) == stamp.at(x, y),
        y <= 0 ==> stamp.at(x, y - 1) == stamp.at(x, y),
        y >= stamp.size().1 - 1 ==> stamp.at(x, y + 1) == stamp.at(x, y),
{
}

/// A tip is refused exactly where it has nothing to stamp, is past the limit on a side, or its bytes do
/// not fill it; and emptiness is said first, the length last.
pub proof fn law_a_tip_is_refused_for_one_of_three_reasons(width: u32, height: u32, found: nat)
    ensures
        width == 0 || height == 0 ==> fault(width, height, found) == Some(StampError::Empty),
        0 < width && 0 < height && (width > 2048 || height > 2048) ==> fault(width, height, found)
            == Some(StampError::TooLarge { width, height }),
        1 <= width <= 2048 && 1 <= height <= 2048 ==> (fault(width, height, found) is None <==> found
            == width * height),
        1 <= width <= 2048 && 1 <= height <= 2048 && found != width * height ==> fault(
            width,
            height,
            found,
        ) == Some(
            StampError::WrongLength { expected: (width * height) as usize, found: found as usize },
        ),
{
}

/// The numbers of single precision have twenty-four binary digits: below that many every one is there,
/// and above it they are so far apart that as many are left.
pub proof fn law_single_precision_has_twenty_four_digits(n: nat)
    ensures
        n < 0x100_0000 ==> spacing(n) == 1,
        n >= 0x100_0000 ==> 0x80_0000 * spacing(n) <= n < 0x100_0000 * spacing(n),
        spacing(2 * n) == spacing(n) || spacing(2 * n) == 2 * spacing(n),
        n >= 0x100_0000 ==> spacing(2 * n) == 2 * spacing(n),
    decreases n,
{
    lemma_spacing(n);
    assert((2 * n) / 2 == n);
    if n >= 0x100_0000 {
        law_single_precision_has_twenty_four_digits(n / 2);
    }
}

/// A number is rounded to one of those that are there, no further off than half of how far apart they
/// are, and to the even one of two that are as near; one that is there is itself.
pub proof fn law_rounding_goes_to_the_nearest(n: nat)
    ensures
        ({
            let unit = spacing(n);
            let (low, high) = ((n / unit) * unit, (n / unit + 1) * unit);
            let r = single(n);
            &&& low <= n < high
            &&& high - low == unit
            &&& r == low || r == high
            &&& n - low < high - n ==> r == low
            &&& n - low > high - n ==> r == high
            &&& n - low == high - n ==> (r == low <==> (n / unit) % 2 == 0)
            &&& n % unit == 0 ==> r == n
        }),
{
    lemma_spacing(n);
    let unit = spacing(n);
    let whole = n / unit;
    let rest = n % unit;
    vstd::arithmetic::div_mod::lemma_fundamental_div_mod(n as int, unit as int);
    assert(unit * whole == whole * unit && (whole + 1) * unit == whole * unit + unit)
        by (nonlinear_arith);
}

} // verus!
