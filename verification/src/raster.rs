//! Dab rasterization: turning [`Dab`]s into pixels, one dab straight over another.
//!
//! Direct compositing is not how strokes are painted: overlapping dabs darken on every overlap
//! instead of building toward the stroke's ceiling, which is what [`crate::stroke`] is for. It is
//! the simplest expression of coverage and blending, and right for a single isolated dab.

use vstd::prelude::*;

use crate::canvas::{
    lemma_nothing_painted, lemma_one_pixel_more, lemma_painting_on, lemma_same_hits, Canvas, Hits,
    Shades,
};
use crate::color::{blended, blends, Rgba};
use crate::dab::{Bounds, Dab};
use crate::page::as_signed;
use crate::scalar::{Scalar, ZERO};
use crate::stroke::before_scan;
use crate::tile::Texel;

verus! {

/// How dabs are inked: how far one reaches, how it covers a pixel, and the colour that a coverage
/// and a flow make of its own.
pub struct Ink<B, C, T> {
    pub bounds: B,
    pub coverage: C,
    pub tint: T,
}

impl<
    B: Fn(Dab) -> Bounds,
    C: Fn(Dab, i32, i32) -> Scalar,
    T: Fn(Rgba, Scalar, Scalar) -> Rgba,
> Ink<B, C, T> {
    /// The pixels a dab can touch.
    pub open spec fn extent(&self, dab: Dab) -> Bounds {
        choose|b: Bounds| self.bounds.ensures((dab,), b)
    }

    /// How a dab covers a pixel.
    pub open spec fn cover(&self, dab: Dab, x: i32, y: i32) -> Scalar {
        choose|s: Scalar| self.coverage.ensures((dab, x, y), s)
    }

    /// What a coverage and a flow make of a colour.
    pub open spec fn tinted(&self, color: Rgba, cover: Scalar, flow: Scalar) -> Rgba {
        choose|t: Rgba| self.tint.ensures((color, cover, flow), t)
    }

    /// Whether the three functions answer always, and always the same about the same.
    pub open spec fn steady(&self) -> bool {
        &&& forall|dab: Dab| #[trigger] self.bounds.requires((dab,))
        &&& forall|dab: Dab, b: Bounds| #[trigger]
            self.bounds.ensures((dab,), b) ==> b == self.extent(dab)
        &&& forall|dab: Dab, x: i32, y: i32| #[trigger] self.coverage.requires((dab, x, y))
        &&& forall|dab: Dab, x: i32, y: i32, s: Scalar| #[trigger]
            self.coverage.ensures((dab, x, y), s) ==> s == self.cover(dab, x, y)
        &&& forall|c: Rgba, s: Scalar, f: Scalar| #[trigger] self.tint.requires((c, s, f))
        &&& forall|c: Rgba, s: Scalar, f: Scalar, t: Rgba| #[trigger]
            self.tint.ensures((c, s, f), t) ==> t == self.tinted(c, s, f)
    }

    /// How a dab covers a pixel given by mathematical integers.
    pub open spec fn cover_at(&self, dab: Dab, x: int, y: int) -> Scalar {
        self.cover(dab, x as i32, y as i32)
    }

    /// The colour a dab puts on a pixel.
    pub open spec fn ink_at(&self, dab: Dab, x: int, y: int) -> Rgba {
        self.tinted(dab.color_linear_premul, self.cover_at(dab, x, y), dab.steady_flow())
    }

    /// Whether a dab changes a pixel of a canvas.
    pub open spec fn inks(&self, canvas: &Canvas, dab: Dab, x: int, y: int) -> bool {
        let none = Scalar { bits: ZERO };
        &&& !dab.radius.at_most(none)
        &&& !dab.color_linear_premul.uncovered()
        &&& self.extent(dab).has(x, y)
        &&& canvas.inside(x, y)
        &&& none.below(self.cover_at(dab, x, y))
        &&& !self.ink_at(dab, x, y).uncovered()
    }
}

/// Whether every answer that decides what a dab makes of a canvas is one that was given: how far it
/// reaches, how it covers each pixel within that, and what its colour comes to where it covers one
/// and where that is put over what is there.
pub open spec fn dab_answered<
    B: Fn(Dab) -> Bounds,
    C: Fn(Dab, i32, i32) -> Scalar,
    T: Fn(Rgba, Scalar, Scalar) -> Rgba,
    F: Fn(Rgba, Texel) -> Texel,
>(ink: &Ink<B, C, T>, over: &F, canvas: &Canvas, dab: Dab, under: Shades) -> bool {
    !dab.radius.at_most(Scalar { bits: ZERO }) && !dab.color_linear_premul.uncovered() ==> {
        &&& ink.bounds.ensures((dab,), ink.extent(dab))
        &&& forall|x: int, y: int| #[trigger]
            ink.extent(dab).has(x, y) && canvas.inside(x, y) ==> pixel_answered(
                ink,
                over,
                dab,
                under,
                x,
                y,
            )
    }
}

/// Whether every answer that decides what a dab makes of a pixel within its reach is one that was
/// given.
pub open spec fn pixel_answered<
    B: Fn(Dab) -> Bounds,
    C: Fn(Dab, i32, i32) -> Scalar,
    T: Fn(Rgba, Scalar, Scalar) -> Rgba,
    F: Fn(Rgba, Texel) -> Texel,
>(ink: &Ink<B, C, T>, over: &F, dab: Dab, under: Shades, x: int, y: int) -> bool {
    let cover = ink.cover_at(dab, x, y);
    let color = ink.ink_at(dab, x, y);
    &&& ink.coverage.ensures((dab, x as i32, y as i32), cover)
    &&& (Scalar { bits: ZERO }).below(cover) ==> {
        &&& ink.tint.ensures((dab.color_linear_premul, cover, dab.steady_flow()), color)
        &&& !color.uncovered() ==> over.ensures(
            (color, under(x, y)),
            blended(over, color, under(x, y)),
        )
    }
}

/// The pixels a dab changes.
pub open spec fn dab_inks<
    B: Fn(Dab) -> Bounds,
    C: Fn(Dab, i32, i32) -> Scalar,
    T: Fn(Rgba, Scalar, Scalar) -> Rgba,
>(ink: &Ink<B, C, T>, canvas: &Canvas, dab: Dab) -> Hits {
    |x: int, y: int| ink.inks(canvas, dab, x, y)
}

/// What a dab makes of the pixels it changes.
pub open spec fn dab_shades<
    B: Fn(Dab) -> Bounds,
    C: Fn(Dab, i32, i32) -> Scalar,
    T: Fn(Rgba, Scalar, Scalar) -> Rgba,
    F: Fn(Rgba, Texel) -> Texel,
>(ink: &Ink<B, C, T>, over: &F, before: &Canvas, dab: Dab) -> Shades {
    |x: int, y: int| blended(over, ink.ink_at(dab, x, y), before.pixel(x, y))
}

/// What a batch of dabs, in order, makes of a pixel.
pub open spec fn inked<
    B: Fn(Dab) -> Bounds,
    C: Fn(Dab, i32, i32) -> Scalar,
    T: Fn(Rgba, Scalar, Scalar) -> Rgba,
    F: Fn(Rgba, Texel) -> Texel,
>(
    ink: &Ink<B, C, T>,
    over: &F,
    canvas: &Canvas,
    dabs: Seq<Dab>,
    x: int,
    y: int,
    under: Texel,
) -> Texel
    decreases dabs.len(),
{
    if dabs.len() == 0 {
        under
    } else {
        let below = inked(ink, over, canvas, dabs.drop_last(), x, y, under);
        if ink.inks(canvas, dabs.last(), x, y) {
            blended(over, ink.ink_at(dabs.last(), x, y), below)
        } else {
            below
        }
    }
}

/// The pixels that at least one of a batch of dabs changes.
pub open spec fn batch_inks<
    B: Fn(Dab) -> Bounds,
    C: Fn(Dab, i32, i32) -> Scalar,
    T: Fn(Rgba, Scalar, Scalar) -> Rgba,
>(ink: &Ink<B, C, T>, canvas: &Canvas, dabs: Seq<Dab>) -> Hits {
    |x: int, y: int|
        exists|i: int| 0 <= i < dabs.len() && ink.inks(canvas, #[trigger] dabs[i], x, y)
}

/// What a batch of dabs makes of a canvas.
pub open spec fn batch_shades<
    B: Fn(Dab) -> Bounds,
    C: Fn(Dab, i32, i32) -> Scalar,
    T: Fn(Rgba, Scalar, Scalar) -> Rgba,
    F: Fn(Rgba, Texel) -> Texel,
>(ink: &Ink<B, C, T>, over: &F, before: &Canvas, dabs: Seq<Dab>) -> Shades {
    |x: int, y: int| inked(ink, over, before, dabs, x, y, before.pixel(x, y))
}

/// A pixel that no dab of a batch changes stays as it is.
proof fn lemma_inked_elsewhere<
    B: Fn(Dab) -> Bounds,
    C: Fn(Dab, i32, i32) -> Scalar,
    T: Fn(Rgba, Scalar, Scalar) -> Rgba,
    F: Fn(Rgba, Texel) -> Texel,
>(
    ink: &Ink<B, C, T>,
    over: &F,
    canvas: &Canvas,
    dabs: Seq<Dab>,
    x: int,
    y: int,
    under: Texel,
)
    requires
        !batch_inks(ink, canvas, dabs)(x, y),
    ensures
        inked(ink, over, canvas, dabs, x, y, under) == under,
    decreases dabs.len(),
{
    if dabs.len() > 0 {
        let fewer = dabs.drop_last();
        assert(dabs.last() == dabs[dabs.len() - 1]);
        if batch_inks(ink, canvas, fewer)(x, y) {
            let i = choose|i: int|
                0 <= i < fewer.len() && ink.inks(canvas, #[trigger] fewer[i], x, y);
            assert(dabs[i] == fewer[i]);
        }
        lemma_inked_elsewhere(ink, over, canvas, fewer, x, y, under);
    }
}

/// Rasterize one dab onto a canvas, compositing it directly.
pub fn rasterize_dab<
    B: Fn(Dab) -> Bounds,
    C: Fn(Dab, i32, i32) -> Scalar,
    T: Fn(Rgba, Scalar, Scalar) -> Rgba,
    F: Fn(Rgba, Texel) -> Texel,
>(canvas: &mut Canvas, dab: &Dab, ink: &Ink<B, C, T>, over: &F)
    requires
        old(canvas).wf(),
        ink.steady(),
        blends(over),
    ensures
        final(canvas).wf(),
        final(canvas).paints(
            old(canvas),
            dab_inks(ink, old(canvas), *dab),
            dab_shades(ink, over, old(canvas), *dab),
        ),
        dab_answered(ink, over, old(canvas), *dab, old(canvas).colours()),
{
    let ghost before = *canvas;
    let ghost hits = dab_inks(ink, &before, *dab);
    let ghost shades = dab_shades(ink, over, &before, *dab);
    let ghost under = before.colours();
    if dab.radius.le(Scalar { bits: ZERO }) || dab.color_linear_premul.is_uncovered() {
        proof {
            lemma_nothing_painted(before, hits, shades);
        }
        return;
    }
    let bounds_of = &ink.bounds;
    let bounds = bounds_of(*dab);
    let flow = dab.held_flow();
    let left: i64 = if bounds.min_x < 0 {
        0
    } else {
        bounds.min_x as i64
    };
    let top: i64 = if bounds.min_y < 0 {
        0
    } else {
        bounds.min_y as i64
    };
    let width: i32 = as_signed(canvas.width());
    let height: i32 = as_signed(canvas.height());
    let right: i64 = if bounds.max_x < width {
        bounds.max_x as i64 + 1
    } else {
        width as i64
    };
    let bottom: i64 = if bounds.max_y < height {
        bounds.max_y as i64 + 1
    } else {
        height as i64
    };
    proof {
        assert(bounds == ink.extent(*dab));
        assert forall|x: int, y: int| #[trigger] hits(x, y) implies left <= x < right && top <= y
            < bottom by {}
        lemma_nothing_painted(before, before_scan(hits, top as int, left as int), shades);
    }
    let mut y: i64 = top;
    while y < bottom
        invariant
            before.wf(),
            ink.steady(),
            blends(over),
            hits == dab_inks(ink, &before, *dab),
            shades == dab_shades(ink, over, &before, *dab),
            flow == dab.steady_flow(),
            bounds == ink.extent(*dab),
            !dab.radius.at_most(Scalar { bits: ZERO }),
            !dab.color_linear_premul.uncovered(),
            0 <= left,
            right <= 0x8000_0000,
            bottom <= 0x8000_0000,
            left as int >= bounds.min_x,
            top as int >= bounds.min_y,
            right - 1 <= bounds.max_x,
            bottom - 1 <= bounds.max_y,
            forall|px: int, py: int|
                left <= px < right && top <= py < bottom ==> #[trigger] before.inside(px, py),
            forall|px: int, py: int| #[trigger]
                hits(px, py) ==> left <= px < right && top <= py < bottom,
            0 <= top <= y,
            ink.bounds.ensures((*dab,), bounds),
            under == before.colours(),
            forall|px: int, py: int|
                left <= px < right && top <= py < y ==> #[trigger] pixel_answered(
                    ink,
                    over,
                    *dab,
                    under,
                    px,
                    py,
                ),
            canvas.wf(),
            canvas.paints(&before, before_scan(hits, y as int, left as int), shades),
        decreases bottom - y,
    {
        let mut x: i64 = left;
        while x < right
            invariant
                before.wf(),
                ink.steady(),
                blends(over),
                hits == dab_inks(ink, &before, *dab),
                shades == dab_shades(ink, over, &before, *dab),
                flow == dab.steady_flow(),
                bounds == ink.extent(*dab),
                !dab.radius.at_most(Scalar { bits: ZERO }),
                !dab.color_linear_premul.uncovered(),
                0 <= left,
                right <= 0x8000_0000,
                bottom <= 0x8000_0000,
                left as int >= bounds.min_x,
                top as int >= bounds.min_y,
                right - 1 <= bounds.max_x,
                bottom - 1 <= bounds.max_y,
                forall|px: int, py: int|
                    left <= px < right && top <= py < bottom ==> #[trigger] before.inside(px, py),
                0 <= top <= y < bottom,
                left <= x,
                ink.bounds.ensures((*dab,), bounds),
                under == before.colours(),
                forall|px: int, py: int|
                    left <= px < right && top <= py && (py < y || (py == y && px < x))
                        ==> #[trigger] pixel_answered(ink, over, *dab, under, px, py),
                canvas.wf(),
                canvas.paints(&before, before_scan(hits, y as int, x as int), shades),
            decreases right - x,
        {
            let ghost mid = *canvas;
            let ghost sofar = before_scan(hits, y as int, x as int);
            let ghost next = before_scan(hits, y as int, x + 1);
            let (px, py): (i32, i32) = (x as i32, y as i32);
            assert(before.inside(x as int, y as int));
            let coverage_of = &ink.coverage;
            let coverage = coverage_of(*dab, px, py);
            assert(coverage == ink.cover_at(*dab, x as int, y as int));
            if (Scalar { bits: ZERO }).lt(coverage) {
                let tint = &ink.tint;
                let color = tint(dab.color_linear_premul, coverage, flow);
                assert(color == ink.ink_at(*dab, x as int, y as int));
                assert(mid.inside(x as int, y as int));
                assert(mid.pixel(x as int, y as int) == before.pixel(x as int, y as int));
                canvas.blend_pixel(px, py, color, over);
                proof {
                    if !color.uncovered() {
                        assert(hits(x as int, y as int));
                        assert(blended(over, color, mid.pixel(x as int, y as int)) == shades(
                            x as int,
                            y as int,
                        ));
                        lemma_one_pixel_more(
                            before,
                            mid,
                            *canvas,
                            sofar,
                            next,
                            shades,
                            x as int,
                            y as int,
                        );
                    } else {
                        lemma_same_hits(before, *canvas, sofar, next, shades, shades);
                    }
                }
            } else {
                proof {
                    lemma_same_hits(before, *canvas, sofar, next, shades, shades);
                }
            }
            assert(pixel_answered(ink, over, *dab, under, x as int, y as int));
            x += 1;
        }
        proof {
            lemma_same_hits(
                before,
                *canvas,
                before_scan(hits, y as int, x as int),
                before_scan(hits, y + 1, left as int),
                shades,
                shades,
            );
        }
        y += 1;
    }
    proof {
        lemma_same_hits(
            before,
            *canvas,
            before_scan(hits, y as int, left as int),
            hits,
            shades,
            shades,
        );
        assert forall|px: int, py: int| #[trigger]
            ink.extent(*dab).has(px, py) && before.inside(px, py) implies pixel_answered(
            ink,
            over,
            *dab,
            under,
            px,
            py,
        ) by {
            assert(left <= px < right && top <= py < bottom);
        }
    }
}

/// Rasterize a whole batch of dabs in order.
///
/// Order matters and is preserved: dabs composite over one another.
pub fn rasterize_dabs<
    B: Fn(Dab) -> Bounds,
    C: Fn(Dab, i32, i32) -> Scalar,
    T: Fn(Rgba, Scalar, Scalar) -> Rgba,
    F: Fn(Rgba, Texel) -> Texel,
>(canvas: &mut Canvas, dabs: &Vec<Dab>, ink: &Ink<B, C, T>, over: &F)
    requires
        old(canvas).wf(),
        ink.steady(),
        blends(over),
    ensures
        final(canvas).wf(),
        final(canvas).paints(
            old(canvas),
            batch_inks(ink, old(canvas), dabs@),
            batch_shades(ink, over, old(canvas), dabs@),
        ),
        forall|i: int|
            0 <= i < dabs@.len() ==> dab_answered(
                ink,
                over,
                old(canvas),
                #[trigger] dabs@[i],
                batch_shades(ink, over, old(canvas), dabs@.take(i)),
            ),
{
    let ghost before = *canvas;
    proof {
        lemma_nothing_painted(
            before,
            batch_inks(ink, &before, dabs@.take(0)),
            batch_shades(ink, over, &before, dabs@.take(0)),
        );
    }
    let mut n: usize = 0;
    while n < dabs.len()
        invariant
            before.wf(),
            ink.steady(),
            blends(over),
            n <= dabs@.len(),
            canvas.wf(),
            canvas.paints(
                &before,
                batch_inks(ink, &before, dabs@.take(n as int)),
                batch_shades(ink, over, &before, dabs@.take(n as int)),
            ),
            forall|i: int|
                0 <= i < n ==> dab_answered(
                    ink,
                    over,
                    &before,
                    #[trigger] dabs@[i],
                    batch_shades(ink, over, &before, dabs@.take(i)),
                ),
        decreases dabs@.len() - n,
    {
        let ghost mid = *canvas;
        rasterize_dab(canvas, &dabs[n], ink, over);
        proof {
            let dab = dabs@[n as int];
            let done = dabs@.take(n as int);
            let next = dabs@.take(n + 1);
            assert(next.drop_last() =~= done);
            assert(next.last() == dab);
            let first = batch_inks(ink, &before, done);
            let first_shades = batch_shades(ink, over, &before, done);
            let then = dab_inks(ink, &mid, dab);
            let then_shades = dab_shades(ink, over, &mid, dab);
            let both = batch_inks(ink, &before, next);
            let shades = batch_shades(ink, over, &before, next);
            assert forall|x: int, y: int| #[trigger] both(x, y) == (first(x, y) || then(x, y)) by {
                assert(mid.inside(x, y) == before.inside(x, y));
                if first(x, y) {
                    let i = choose|i: int|
                        0 <= i < done.len() && ink.inks(&before, #[trigger] done[i], x, y);
                    assert(next[i] == done[i]);
                }
                if then(x, y) {
                    assert(next[n as int] == dab);
                }
                if both(x, y) {
                    let i = choose|i: int|
                        0 <= i < next.len() && ink.inks(&before, #[trigger] next[i], x, y);
                    if i < n {
                        assert(done[i] == next[i]);
                    }
                }
            }
            assert forall|x: int, y: int| #[trigger] mid.pixel(x, y) == inked(
                ink,
                over,
                &before,
                done,
                x,
                y,
                before.pixel(x, y),
            ) by {
                if !first(x, y) {
                    lemma_inked_elsewhere(ink, over, &before, done, x, y, before.pixel(x, y));
                } else {
                    let s = first_shades(x, y);
                }
            }
            let known = mid.colours();
            assert forall|x: int, y: int| #[trigger]
                ink.extent(dab).has(x, y) && before.inside(x, y) && !dab.radius.at_most(
                    Scalar { bits: ZERO },
                ) && !dab.color_linear_premul.uncovered() implies pixel_answered(
                ink,
                over,
                dab,
                first_shades,
                x,
                y,
            ) by {
                assert(mid.inside(x, y));
                assert(pixel_answered(ink, over, dab, known, x, y));
                let m = mid.pixel(x, y);
            }
            assert forall|x: int, y: int| then(x, y) implies #[trigger] shades(x, y)
                == then_shades(x, y) by {
                assert(mid.inside(x, y) == before.inside(x, y));
                let m = mid.pixel(x, y);
            }
            assert forall|x: int, y: int| first(x, y) && !then(x, y) implies #[trigger] shades(x, y)
                == first_shades(x, y) by {
                assert(mid.inside(x, y) == before.inside(x, y));
            }
            lemma_painting_on(
                before,
                mid,
                *canvas,
                first,
                first_shades,
                then,
                then_shades,
                both,
                shades,
            );
        }
        n += 1;
    }
    assert(dabs@.take(n as int) =~= dabs@);
}

/// A dab inks every pixel it covers. Whatever its radius and its colour's coverage, so long as both are
/// above zero, each canvas pixel within its bounds that it covers at all, and for which its colour at
/// that coverage and its flow, held to at most one, still has any, becomes that colour over what was
/// there.
pub proof fn law_a_dab_inks_what_it_covers<
    B: Fn(Dab) -> Bounds,
    C: Fn(Dab, i32, i32) -> Scalar,
    T: Fn(Rgba, Scalar, Scalar) -> Rgba,
    F: Fn(Rgba, Texel) -> Texel,
>(
    ink: &Ink<B, C, T>,
    over: &F,
    dab: Dab,
    before: &Canvas,
    after: &Canvas,
    x: i32,
    y: i32,
    bounds: Bounds,
    flow: Scalar,
    cover: Scalar,
    color: Rgba,
    out: Texel,
)
    requires
        ink.steady(),
        blends(over),
        after.paints(
            before,
            dab_inks(ink, before, dab),
            dab_shades(ink, over, before, dab),
        ),
        ink.bounds.ensures((dab,), bounds),
        ink.coverage.ensures((dab, x, y), cover),
        ink.tint.ensures((dab.color_linear_premul, cover, flow), color),
        over.ensures((color, before.pixel(x as int, y as int)), out),
        0 < dab.radius.bits <= 0x7F80_0000,
        0 < dab.color_linear_premul.a.bits <= 0x7F80_0000,
        dab.flow.bits <= 0x7F80_0000,
        flow.bits == if dab.flow.bits <= 0x3F80_0000 {
            dab.flow.bits
        } else {
            0x3F80_0000
        },
        0 < cover.bits <= 0x7F80_0000,
        0 < color.a.bits <= 0x7F80_0000,
        bounds.min_x <= x <= bounds.max_x,
        bounds.min_y <= y <= bounds.max_y,
        before.size().0 <= i32::MAX,
        before.size().1 <= i32::MAX,
        0 <= x < before.size().0,
        0 <= y < before.size().1,
    ensures
        after.pixel(x as int, y as int) == out,
{
    let hits = dab_inks(ink, before, dab);
    let shades = dab_shades(ink, over, before, dab);
    assert(ink.cover_at(dab, x as int, y as int) == cover);
    assert(dab.steady_flow() == flow);
    assert(ink.ink_at(dab, x as int, y as int) == color);
    assert(hits(x as int, y as int));
    assert(shades(x as int, y as int) == out);
}

/// A dab inks nothing else. A pixel off the canvas, or outside the dab's bounds, or that it does not
/// cover, stays as it was, and so does every pixel where the dab has no radius or no colour.
pub proof fn law_a_dab_inks_nothing_else<
    B: Fn(Dab) -> Bounds,
    C: Fn(Dab, i32, i32) -> Scalar,
    T: Fn(Rgba, Scalar, Scalar) -> Rgba,
    F: Fn(Rgba, Texel) -> Texel,
>(
    ink: &Ink<B, C, T>,
    over: &F,
    dab: Dab,
    before: &Canvas,
    after: &Canvas,
    x: i32,
    y: i32,
    bounds: Bounds,
    cover: Scalar,
)
    requires
        ink.steady(),
        after.paints(
            before,
            dab_inks(ink, before, dab),
            dab_shades(ink, over, before, dab),
        ),
        ink.bounds.ensures((dab,), bounds),
        ink.coverage.ensures((dab, x, y), cover),
        before.size().0 <= i32::MAX,
        before.size().1 <= i32::MAX,
        ({
            ||| x < 0 || y < 0 || x >= before.size().0 || y >= before.size().1
            ||| x < bounds.min_x || x > bounds.max_x || y < bounds.min_y || y > bounds.max_y
            ||| dab.radius.bits == 0 || 0x8000_0000 <= dab.radius.bits <= 0xFF80_0000
            ||| dab.color_linear_premul.a.bits == 0 || 0x8000_0000
                <= dab.color_linear_premul.a.bits <= 0xFF80_0000
            ||| cover.bits == 0 || 0x8000_0000 <= cover.bits <= 0xFF80_0000
        }),
    ensures
        after.pixel(x as int, y as int) == before.pixel(x as int, y as int),
{
    let hits = dab_inks(ink, before, dab);
    assert(ink.cover_at(dab, x as int, y as int) == cover);
    assert(!hits(x as int, y as int));
}

/// A batch of dabs is its dabs in order, each over the one before: inking all of them and inking the
/// last by itself over the others leave the same canvas, and no dabs leave it as it was.
pub proof fn law_a_batch_inks_its_dabs_in_order<
    B: Fn(Dab) -> Bounds,
    C: Fn(Dab, i32, i32) -> Scalar,
    T: Fn(Rgba, Scalar, Scalar) -> Rgba,
    F: Fn(Rgba, Texel) -> Texel,
>(
    ink: &Ink<B, C, T>,
    over: &F,
    dabs: Seq<Dab>,
    more: Dab,
    before: &Canvas,
    idle: &Canvas,
    some: &Canvas,
    one_on: &Canvas,
    all: &Canvas,
    x: int,
    y: int,
)
    requires
        idle.paints(
            before,
            batch_inks(ink, before, Seq::empty()),
            batch_shades(ink, over, before, Seq::empty()),
        ),
        some.paints(
            before,
            batch_inks(ink, before, dabs),
            batch_shades(ink, over, before, dabs),
        ),
        one_on.paints(some, dab_inks(ink, some, more), dab_shades(ink, over, some, more)),
        all.paints(
            before,
            batch_inks(ink, before, dabs.push(more)),
            batch_shades(ink, over, before, dabs.push(more)),
        ),
    ensures
        idle.pixel(x, y) == before.pixel(x, y),
        all.pixel(x, y) == one_on.pixel(x, y),
{
    let longer = dabs.push(more);
    let under = before.pixel(x, y);
    assert(longer.drop_last() =~= dabs);
    let first = batch_inks(ink, before, dabs);
    let both = batch_inks(ink, before, longer);
    if !first(x, y) {
        lemma_inked_elsewhere(ink, over, before, dabs, x, y, under);
    }
    if first(x, y) {
        let i = choose|i: int|
            0 <= i < dabs.len() && ink.inks(before, #[trigger] dabs[i], x, y);
        assert(longer[i] == dabs[i]);
    }
    if ink.inks(before, more, x, y) {
        assert(longer[dabs.len() as int] == more);
    }
    if both(x, y) {
        let i = choose|i: int|
            0 <= i < longer.len() && ink.inks(before, #[trigger] longer[i], x, y);
        assert(i < dabs.len() ==> longer[i] == dabs[i]);
    }
    assert(some.pixel(x, y) == inked(ink, over, before, dabs, x, y, under));
    assert(ink.inks(some, more, x, y) == ink.inks(before, more, x, y));
}

} // verus!
