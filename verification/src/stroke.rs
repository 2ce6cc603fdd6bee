//! Per-stroke accumulation: what makes *flow* and *opacity* mean what they mean.
//!
//! Flow is how much paint each individual dab deposits. Opacity is the ceiling the whole stroke may
//! reach, no matter how many dabs land on the same pixel. Compositing each dab straight onto the
//! canvas cannot express that, so a stroke keeps two pieces of state: how much paint it has deposited
//! at each pixel, before the ceiling, and the tiles it touches as they were before it began.
//!
//! The visible result is recomputed from the two rather than progressively darkened, which is why
//! live feedback mid-stroke and the final result agree exactly. Only tiles touched since the last
//! composite are recomputed.

use vstd::prelude::*;

use crate::canvas::{
    hit_in, lemma_nothing_painted, lemma_one_pixel_more, lemma_same_hits, tile_holding, Canvas, Hits,
    Shades,
};
use crate::color::Rgba;
use crate::curve::in_unit;
use crate::dab::{lemma_deposit_is_held, Bounds, Dab, Marks};
use crate::lifted::{lemma_scan_texel, lemma_scan_tile, scanned, whole};
use crate::page::as_signed;
use crate::scalar::{
    law_order_is_that_of_values, law_zero_and_one_are_themselves, Scalar, ONE, ZERO,
};
use crate::smooth::close;
use crate::tile::{
    local_index, local_of, reachable, texel_index, tile_index, Texel, Tile, TileCoord, TILE_SIZE,
    TILE_TEXELS,
};
use crate::tile_map::{ints, TileMap};

verus! {

/// An amount of paint for each canvas pixel.
pub type Amounts = spec_fn(int, int) -> Scalar;

/// No paint at all.
pub open spec fn none() -> Scalar {
    Scalar { bits: ZERO }
}

/// Whether a tile shows what a canvas shows at a tile coordinate.
pub open spec fn pictures(tile: Tile, canvas: &Canvas, c: (int, int)) -> bool {
    forall|lx: int, ly: int|
        0 <= lx < 256 && 0 <= ly < 256 ==> #[trigger] tile.pixel(lx, ly) == canvas.pixel(
            c.0 * 256 + lx,
            c.1 * 256 + ly,
        )
}

/// What a texel becomes under a colour at an amount and a ceiling.
pub open spec fn shaded<S: Fn(Rgba, Scalar, Scalar, Texel) -> Texel>(
    shade: &S,
    color: Rgba,
    amount: Scalar,
    ceiling: Scalar,
    under: Texel,
) -> Texel {
    choose|t: Texel| shade.ensures((color, amount, ceiling, under), t)
}

/// Whether a function shades always, and always gives the same for the same.
pub open spec fn shades_steadily<S: Fn(Rgba, Scalar, Scalar, Texel) -> Texel>(shade: &S) -> bool {
    &&& forall|color: Rgba, amount: Scalar, ceiling: Scalar, under: Texel| #[trigger]
        shade.requires((color, amount, ceiling, under))
    &&& forall|color: Rgba, amount: Scalar, ceiling: Scalar, under: Texel, t: Texel| #[trigger]
        shade.ensures((color, amount, ceiling, under), t) ==> t == shaded(
            shade,
            color,
            amount,
            ceiling,
            under,
        )
}

/// Per-stroke paint accumulation and the pre-stroke snapshot it composites over.
///
/// Create one and reuse it across strokes; call [`StrokePainter::begin`] at the start of each.
pub struct StrokePainter {
    /// How much paint this stroke has deposited, per pixel, before opacity.
    accum: TileMap<Vec<Scalar>>,
    /// Canvas tiles as they were before this stroke touched them.
    snapshot: TileMap<Tile>,
    /// Tiles whose accumulation changed since the last composite.
    pending: TileMap<()>,
}

impl Default for StrokePainter {
    fn default() -> (p: StrokePainter)
        ensures
            p.fresh(),
            p.wf(),
    {
        StrokePainter::new()
    }
}

impl StrokePainter {
    /// The paint deposited, tile by tile.
    pub closed spec fn painted(&self) -> Map<(int, int), Vec<Scalar>> {
        self.accum@
    }

    /// The tiles as they were before the stroke touched them.
    pub closed spec fn kept(&self) -> Map<(int, int), Tile> {
        self.snapshot@
    }

    /// The tiles that wait to be composited.
    pub closed spec fn waiting(&self) -> Set<(int, int)> {
        self.pending@.dom()
    }

    /// The tiles painted are those kept, each whole, and only they can wait.
    pub open spec fn wf(&self) -> bool {
        &&& forall|c: (int, int)| #[trigger]
            self.painted().contains_key(c) ==> reachable(c) && self.painted()[c]@.len()
                == TILE_TEXELS
        &&& forall|c: (int, int)| #[trigger]
            self.kept().contains_key(c) <==> self.painted().contains_key(c)
        &&& whole(self.kept())
        &&& forall|c: (int, int)| #[trigger]
            self.waiting().contains(c) ==> self.painted().contains_key(c)
    }

    /// How much paint the stroke has deposited at a pixel.
    pub open spec fn amount(&self, x: int, y: int) -> Scalar {
        let c = tile_holding(x, y);
        if self.painted().contains_key(c) {
            self.painted()[c]@[texel_index(local_of(x), local_of(y))]
        } else {
            none()
        }
    }

    /// How much paint the stroke has deposited at every pixel.
    pub open spec fn amounts(&self) -> Amounts {
        |x: int, y: int| self.amount(x, y)
    }

    /// The colour a pixel had before the stroke touched its tile.
    pub open spec fn earlier(&self, x: int, y: int) -> Texel {
        self.kept()[tile_holding(x, y)].pixel(local_of(x), local_of(y))
    }

    /// Whether this is `before` with paint laid at each pixel that is hit: their amounts, a snapshot
    /// of every tile touched for the first time, and every tile touched waiting.
    pub open spec fn lays(
        &self,
        before: &StrokePainter,
        canvas: &Canvas,
        hits: Hits,
        amounts: Amounts,
    ) -> bool {
        &&& forall|c: (int, int)| #[trigger]
            self.painted().contains_key(c) <==> before.painted().contains_key(c) || hit_in(hits, c)
        &&& forall|c: (int, int)| #[trigger]
            self.waiting().contains(c) <==> before.waiting().contains(c) || hit_in(hits, c)
        &&& forall|x: int, y: int| #[trigger]
            self.amount(x, y) == if hits(x, y) {
                amounts(x, y)
            } else {
                before.amount(x, y)
            }
        &&& forall|c: (int, int)| #[trigger]
            self.kept().contains_key(c) ==> if before.kept().contains_key(c) {
                self.kept()[c] == before.kept()[c]
            } else {
                pictures(self.kept()[c], canvas, c)
            }
    }

    pub fn new() -> (p: StrokePainter)
        ensures
            p.fresh(),
            p.wf(),
    {
        let p = StrokePainter {
            accum: TileMap::new(),
            snapshot: TileMap::new(),
            pending: TileMap::new(),
        };
        assert(p.waiting() =~= Set::<(int, int)>::empty());
        p
    }

    /// Whether nothing has been painted yet.
    pub open spec fn fresh(&self) -> bool {
        &&& self.painted() == Map::<(int, int), Vec<Scalar>>::empty()
        &&& self.kept() == Map::<(int, int), Tile>::empty()
        &&& self.waiting() == Set::<(int, int)>::empty()
    }

    /// Start a new stroke, discarding any previous stroke's state.
    pub fn begin(&mut self)
        ensures
            final(self).fresh(),
            final(self).wf(),
    {
        self.accum.clear();
        self.snapshot.clear();
        self.pending.clear();
        assert(self.waiting() =~= Set::<(int, int)>::empty());
    }

    /// Whether this stroke has deposited nothing yet.
    pub fn is_empty(&self) -> (r: bool)
        ensures
            r == (self.painted() == Map::<(int, int), Vec<Scalar>>::empty()),
    {
        self.accum.is_empty()
    }

    /// Tiles this stroke has touched, each once. This is the set undo would need to restore.
    pub fn touched_tiles(&self) -> (v: Vec<TileCoord>)
        ensures
            forall|i: int| 0 <= i < v@.len() ==> self.kept().contains_key(ints(#[trigger] v@[i])),
            forall|c: (int, int)| #[trigger]
                self.kept().contains_key(c) ==> exists|i: int|
                    0 <= i < v@.len() && ints(#[trigger] v@[i]) == c,
            forall|i: int, j: int|
                0 <= i < j < v@.len() ==> ints(#[trigger] v@[i]) != ints(#[trigger] v@[j]),
    {
        self.snapshot.coords()
    }

    /// How much paint the stroke has deposited at a pixel.
    fn paint_at(&self, x: i32, y: i32) -> (a: Scalar)
        requires
            self.wf(),
        ensures
            a == self.amount(x as int, y as int),
    {
        match self.accum.get((tile_index(x), tile_index(y))) {
            Some(tile) => {
                assert(self.painted().contains_key(tile_holding(x as int, y as int)));
                tile[local_index(y) * TILE_SIZE + local_index(x)]
            },
            None => Scalar { bits: ZERO },
        }
    }

    /// Lay an amount of paint at one pixel.
    fn lay(&mut self, canvas: &Canvas, x: i32, y: i32, amount: Scalar)
        requires
            old(self).wf(),
            canvas.wf(),
        ensures
            final(self).wf(),
            final(self).lays(
                old(self),
                canvas,
                only(x as int, y as int),
                |px: int, py: int| amount,
            ),
    {
        let coord = (tile_index(x), tile_index(y));
        let ghost c = tile_holding(x as int, y as int);
        let ghost hits = only(x as int, y as int);
        assert(ints(coord) == c);
        // Snapshot before this stroke changes anything in the tile.
        if !self.snapshot.contains(coord) {
            let tile = match canvas.tile(coord) {
                Some(tile) => {
                    assert(canvas.held().contains_key(c));
                    tile.clone()
                },
                None => Tile::filled(Canvas::paper_texel()),
            };
            proof {
                assert forall|lx: int, ly: int|
                    0 <= lx < 256 && 0 <= ly < 256 implies #[trigger] tile.pixel(lx, ly)
                    == canvas.pixel(c.0 * 256 + lx, c.1 * 256 + ly) by {
                    assert(tile_holding(c.0 * 256 + lx, c.1 * 256 + ly) == c);
                    assert(local_of(c.0 * 256 + lx) == lx && local_of(c.1 * 256 + ly) == ly);
                }
            }
            self.snapshot.insert(coord, tile);
        }
        let mut tile = match self.accum.remove(coord) {
            Some(tile) => {
                assert(old(self).painted().contains_key(c));
                tile
            },
            None => vec![Scalar { bits: ZERO }; TILE_TEXELS],
        };
        let i: usize = local_index(y) * TILE_SIZE + local_index(x);
        tile.set(i, amount);
        self.accum.insert(coord, tile);
        self.pending.insert(coord, ());
        proof {
            assert(self.painted() =~= old(self).painted().insert(c, tile));
            assert(self.waiting() =~= old(self).waiting().insert(c));
            assert forall|d: (int, int)| #[trigger] self.kept().contains_key(d) implies reachable(d)
                && self.kept()[d].wf() by {
                if old(self).kept().contains_key(d) {
                    assert(self.kept()[d] == old(self).kept()[d]);
                }
            }
            assert forall|d: (int, int)| #[trigger] self.painted().contains_key(d) implies reachable(
                d,
            ) && self.painted()[d]@.len() == TILE_TEXELS by {
                if d != c {
                    assert(old(self).painted().contains_key(d));
                }
            }
            assert forall|d: (int, int)| #[trigger]
                self.kept().contains_key(d) <==> self.painted().contains_key(d) by {
                assert(old(self).kept().contains_key(d) <==> old(self).painted().contains_key(d));
            }
            assert forall|d: (int, int)| #[trigger] self.waiting().contains(d) implies self.painted().contains_key(
                d,
            ) by {
                if d != c {
                    assert(old(self).waiting().contains(d));
                }
            }
            assert(hits(x as int, y as int));
            assert forall|d: (int, int)| hit_in(hits, d) == (d == c) by {
                if d == c {
                    assert(hits(x as int, y as int) && tile_holding(x as int, y as int) == d);
                }
            }
            assert forall|px: int, py: int| #[trigger] self.amount(px, py) == if hits(px, py) {
                amount
            } else {
                old(self).amount(px, py)
            } by {
                let was = old(self).amount(px, py);
                if tile_holding(px, py) == c {
                    let j = texel_index(local_of(px), local_of(py));
                    assert(0 <= j < TILE_TEXELS);
                    if j == i {
                        assert(local_of(px) == local_of(x as int) && local_of(py) == local_of(
                            y as int,
                        ));
                        assert(px == x && py == y);
                    }
                }
            }
        }
    }

    /// Accumulate one dab's paint, snapshotting any tile it touches for the first time.
    pub fn add_dab<
        B: Fn(Dab) -> Bounds,
        C: Fn(Dab, i32, i32) -> Scalar,
        D: Fn(Scalar, Scalar, Scalar) -> Scalar,
    >(&mut self, canvas: &Canvas, dab: &Dab, marks: &Marks<B, C, D>)
        requires
            old(self).wf(),
            canvas.wf(),
            marks.steady(),
        ensures
            final(self).wf(),
            final(self).lays(
                old(self),
                canvas,
                dab_hits(marks, canvas, *dab),
                dab_amounts(marks, *dab, old(self)),
            ),
            dab_answered(marks, canvas, *dab, old(self).amounts()),
    {
        let ghost before = *self;
        let ghost hits = dab_hits(marks, canvas, *dab);
        let ghost amounts = dab_amounts(marks, *dab, &before);
        let ghost under = before.amounts();
        if dab.radius.le(Scalar { bits: ZERO }) || dab.flow.le(Scalar { bits: ZERO }) {
            proof {
                lemma_nothing_laid(before, canvas, hits, amounts);
            }
            return;
        }
        let bounds_of = &marks.bounds;
        let bounds = bounds_of(*dab);
        let flow = dab.held_flow();
        let left: i64 = if bounds.min_x < 0 {
            0
        } else {
            bounds.min_x as i64
        };
        let top: i64 = if bounds.min_y < 0 {
            0
        } else {
            bounds.min_y as i64
        };
        let width: i32 = as_signed(canvas.width());
        let height: i32 = as_signed(canvas.height());
        let right: i64 = if bounds.max_x < width {
            bounds.max_x as i64 + 1
        } else {
            width as i64
        };
        let bottom: i64 = if bounds.max_y < height {
            bounds.max_y as i64 + 1
        } else {
            height as i64
        };
        proof {
            assert(bounds == marks.extent(*dab));
            assert forall|x: int, y: int| #[trigger] hits(x, y) implies left <= x < right && top
                <= y < bottom by {}
            lemma_nothing_laid(before, canvas, before_scan(hits, top as int, left as int), amounts);
        }
        let mut y: i64 = top;
        while y < bottom
            invariant
                canvas.wf(),
                marks.steady(),
                hits == dab_hits(marks, canvas, *dab),
                amounts == dab_amounts(marks, *dab, &before),
                before.wf(),
                flow == dab.steady_flow(),
                bounds == marks.extent(*dab),
                !dab.radius.at_most(none()),
                !dab.flow.at_most(none()),
                0 <= left,
                0 <= top,
                right <= 0x8000_0000,
                bottom <= 0x8000_0000,
                left as int >= bounds.min_x,
                top as int >= bounds.min_y,
                right - 1 <= bounds.max_x,
                bottom - 1 <= bounds.max_y,
                forall|px: int, py: int|
                    left <= px < right && top <= py < bottom ==> #[trigger] canvas.inside(px, py),
                forall|px: int, py: int| #[trigger]
                    hits(px, py) ==> left <= px < right && top <= py < bottom,
                top <= y,
                marks.bounds.ensures((*dab,), bounds),
                under == before.amounts(),
                forall|px: int, py: int|
                    left <= px < right && top <= py < y ==> #[trigger] pixel_answered(
                        marks,
                        *dab,
                        under,
                        px,
                        py,
                    ),
                self.wf(),
                self.lays(&before, canvas, before_scan(hits, y as int, left as int), amounts),
            decreases bottom - y,
        {
            let mut x: i64 = left;
            while x < right
                invariant
                    canvas.wf(),
                    marks.steady(),
                    hits == dab_hits(marks, canvas, *dab),
                    amounts == dab_amounts(marks, *dab, &before),
                    before.wf(),
                    flow == dab.steady_flow(),
                    bounds == marks.extent(*dab),
                    !dab.radius.at_most(none()),
                    !dab.flow.at_most(none()),
                    0 <= left,
                    right <= 0x8000_0000,
                    bottom <= 0x8000_0000,
                    left as int >= bounds.min_x,
                    top as int >= bounds.min_y,
                    right - 1 <= bounds.max_x,
                    bottom - 1 <= bounds.max_y,
                    forall|px: int, py: int|
                        left <= px < right && top <= py < bottom ==> #[trigger] canvas.inside(
                            px,
                            py,
                        ),
                    0 <= top <= y < bottom,
                    left <= x,
                    marks.bounds.ensures((*dab,), bounds),
                    under == before.amounts(),
                    forall|px: int, py: int|
                        left <= px < right && top <= py && (py < y || (py == y && px < x))
                            ==> #[trigger] pixel_answered(marks, *dab, under, px, py),
                    self.wf(),
                    self.lays(&before, canvas, before_scan(hits, y as int, x as int), amounts),
                decreases right - x,
            {
                let ghost mid = *self;
                let ghost sofar = before_scan(hits, y as int, x as int);
                let ghost next = before_scan(hits, y as int, x + 1);
                let (px, py): (i32, i32) = (x as i32, y as i32);
                assert(canvas.inside(x as int, y as int));
                let coverage_of = &marks.coverage;
                let coverage = coverage_of(*dab, px, py);
                assert(coverage == marks.cover_at(*dab, x as int, y as int));
                if !coverage.le(Scalar { bits: ZERO }) {
                    assert(hits(x as int, y as int));
                    assert(!sofar(x as int, y as int));
                    let paint = self.paint_at(px, py);
                    assert(paint == before.amount(x as int, y as int));
                    let deposit = &marks.deposit;
                    let laid = deposit(flow, coverage, paint);
                    assert(laid == amounts(x as int, y as int));
                    self.lay(canvas, px, py, laid);
                    proof {
                        lemma_laying_on(
                            before,
                            mid,
                            *self,
                            canvas,
                            canvas,
                            sofar,
                            amounts,
                            only(x as int, y as int),
                            |qx: int, qy: int| laid,
                            next,
                            amounts,
                        );
                    }
                } else {
                    proof {
                        lemma_laid_alike(before, mid, canvas, sofar, next, amounts);
                    }
                }
                assert(pixel_answered(marks, *dab, under, x as int, y as int));
                x += 1;
            }
            proof {
                lemma_laid_alike(
                    before,
                    *self,
                    canvas,
                    before_scan(hits, y as int, x as int),
                    before_scan(hits, y + 1, left as int),
                    amounts,
                );
            }
            y += 1;
        }
        proof {
            lemma_laid_alike(
                before,
                *self,
                canvas,
                before_scan(hits, y as int, left as int),
                hits,
                amounts,
            );
        }
    }
}

/// Whether every answer that decides what paint a dab lays on a canvas is one that was given: how far
/// it reaches, how it covers each pixel within that, and what paint comes to where it covers one.
pub open spec fn dab_answered<
    B: Fn(Dab) -> Bounds,
    C: Fn(Dab, i32, i32) -> Scalar,
    D: Fn(Scalar, Scalar, Scalar) -> Scalar,
>(marks: &Marks<B, C, D>, canvas: &Canvas, dab: Dab, under: Amounts) -> bool {
    !dab.radius.at_most(none()) && !dab.flow.at_most(none()) ==> {
        &&& marks.bounds.ensures((dab,), marks.extent(dab))
        &&& forall|x: int, y: int| #[trigger]
            marks.extent(dab).has(x, y) && canvas.inside(x, y) ==> pixel_answered(
                marks,
                dab,
                under,
                x,
                y,
            )
    }
}

/// Whether every answer that decides what paint a dab lays on a pixel within its reach is one that
/// was given.
pub open spec fn pixel_answered<
    B: Fn(Dab) -> Bounds,
    C: Fn(Dab, i32, i32) -> Scalar,
    D: Fn(Scalar, Scalar, Scalar) -> Scalar,
>(marks: &Marks<B, C, D>, dab: Dab, under: Amounts, x: int, y: int) -> bool {
    let cover = marks.cover_at(dab, x, y);
    let flow = dab.steady_flow();
    &&& marks.coverage.ensures((dab, x as i32, y as i32), cover)
    &&& !cover.at_most(none()) ==> marks.deposit.ensures(
        (flow, cover, under(x, y)),
        marks.deposited(flow, cover, under(x, y)),
    )
}

/// Whether what a composite writes at a pixel is what the shading function gave.
pub open spec fn shade_answered<S: Fn(Rgba, Scalar, Scalar, Texel) -> Texel>(
    p: &StrokePainter,
    shade: &S,
    color: Rgba,
    opacity: Scalar,
    x: int,
    y: int,
) -> bool {
    shade.ensures(
        (
            color,
            p.amount(x, y),
            opacity.clamped_spec(none(), Scalar { bits: ONE }),
            p.earlier(x, y),
        ),
        composite_shades(p, shade, color, opacity)(x, y),
    )
}

/// What a batch of dabs, in order, makes of the paint at a pixel.
pub open spec fn built<
    B: Fn(Dab) -> Bounds,
    C: Fn(Dab, i32, i32) -> Scalar,
    D: Fn(Scalar, Scalar, Scalar) -> Scalar,
>(
    marks: &Marks<B, C, D>,
    canvas: &Canvas,
    dabs: Seq<Dab>,
    x: int,
    y: int,
    paint: Scalar,
) -> Scalar
    decreases dabs.len(),
{
    if dabs.len() == 0 {
        paint
    } else {
        let under = built(marks, canvas, dabs.drop_last(), x, y, paint);
        if marks.leaves_paint(canvas, dabs.last(), x, y) {
            marks.deposited(
                dabs.last().steady_flow(),
                marks.cover_at(dabs.last(), x, y),
                under,
            )
        } else {
            under
        }
    }
}

/// The pixels that at least one of a batch of dabs leaves paint at.
pub open spec fn batch_hits<
    B: Fn(Dab) -> Bounds,
    C: Fn(Dab, i32, i32) -> Scalar,
    D: Fn(Scalar, Scalar, Scalar) -> Scalar,
>(marks: &Marks<B, C, D>, canvas: &Canvas, dabs: Seq<Dab>) -> Hits {
    |x: int, y: int|
        exists|i: int|
            0 <= i < dabs.len() && marks.leaves_paint(canvas, #[trigger] dabs[i], x, y)
}

/// What a batch of dabs makes of the paint that a stroke had deposited.
pub open spec fn batch_amounts<
    B: Fn(Dab) -> Bounds,
    C: Fn(Dab, i32, i32) -> Scalar,
    D: Fn(Scalar, Scalar, Scalar) -> Scalar,
>(marks: &Marks<B, C, D>, canvas: &Canvas, dabs: Seq<Dab>, before: &StrokePainter) -> Amounts {
    |x: int, y: int| built(marks, canvas, dabs, x, y, before.amount(x, y))
}

/// A pixel that no dab of a batch reaches keeps its paint.
proof fn lemma_built_elsewhere<
    B: Fn(Dab) -> Bounds,
    C: Fn(Dab, i32, i32) -> Scalar,
    D: Fn(Scalar, Scalar, Scalar) -> Scalar,
>(marks: &Marks<B, C, D>, canvas: &Canvas, dabs: Seq<Dab>, x: int, y: int, paint: Scalar)
    requires
        !batch_hits(marks, canvas, dabs)(x, y),
    ensures
        built(marks, canvas, dabs, x, y, paint) == paint,
    decreases dabs.len(),
{
    if dabs.len() > 0 {
        let fewer = dabs.drop_last();
        assert(dabs.last() == dabs[dabs.len() - 1]);
        if batch_hits(marks, canvas, fewer)(x, y) {
            let i = choose|i: int|
                0 <= i < fewer.len() && marks.leaves_paint(canvas, #[trigger] fewer[i], x, y);
            assert(dabs[i] == fewer[i]);
        }
        lemma_built_elsewhere(marks, canvas, fewer, x, y, paint);
    }
}

/// The pixels a composite writes: those of the waiting tiles that are on the canvas and have paint.
pub open spec fn composite_hits(p: &StrokePainter, canvas: &Canvas) -> Hits {
    |x: int, y: int|
        p.waiting().contains(tile_holding(x, y)) && canvas.inside(x, y) && !p.amount(
            x,
            y,
        ).at_most(none())
}

/// What a composite writes: the stroke's colour at the amount deposited and under the ceiling, over
/// the pixel as it was before the stroke.
pub open spec fn composite_shades<S: Fn(Rgba, Scalar, Scalar, Texel) -> Texel>(
    p: &StrokePainter,
    shade: &S,
    color: Rgba,
    opacity: Scalar,
) -> Shades {
    |x: int, y: int|
        shaded(
            shade,
            color,
            p.amount(x, y),
            opacity.clamped_spec(none(), Scalar { bits: ONE }),
            p.earlier(x, y),
        )
}

/// The pixels a composite has written so far.
spec fn composite_scan(
    p: &StrokePainter,
    canvas: &Canvas,
    coords: Seq<TileCoord>,
    n: int,
    k: int,
) -> Hits {
    |x: int, y: int|
        scanned(coords, n, k, x, y) && canvas.inside(x, y) && !p.amount(x, y).at_most(none())
}

impl StrokePainter {
    /// Accumulate a batch of dabs, in order.
    pub fn add_dabs<
        B: Fn(Dab) -> Bounds,
        C: Fn(Dab, i32, i32) -> Scalar,
        D: Fn(Scalar, Scalar, Scalar) -> Scalar,
    >(&mut self, canvas: &Canvas, dabs: &Vec<Dab>, marks: &Marks<B, C, D>)
        requires
            old(self).wf(),
            canvas.wf(),
            marks.steady(),
        ensures
            final(self).wf(),
            final(self).lays(
                old(self),
                canvas,
                batch_hits(marks, canvas, dabs@),
                batch_amounts(marks, canvas, dabs@, old(self)),
            ),
            forall|i: int|
                0 <= i < dabs@.len() ==> dab_answered(
                    marks,
                    canvas,
                    #[trigger] dabs@[i],
                    batch_amounts(marks, canvas, dabs@.take(i), old(self)),
                ),
    {
        let ghost before = *self;
        proof {
            lemma_nothing_laid(
                before,
                canvas,
                batch_hits(marks, canvas, dabs@.take(0)),
                batch_amounts(marks, canvas, dabs@.take(0), &before),
            );
        }
        let mut n: usize = 0;
        while n < dabs.len()
            invariant
                before.wf(),
                canvas.wf(),
                marks.steady(),
                n <= dabs@.len(),
                self.wf(),
                self.lays(
                    &before,
                    canvas,
                    batch_hits(marks, canvas, dabs@.take(n as int)),
                    batch_amounts(marks, canvas, dabs@.take(n as int), &before),
                ),
                forall|i: int|
                    0 <= i < n ==> dab_answered(
                        marks,
                        canvas,
                        #[trigger] dabs@[i],
                        batch_amounts(marks, canvas, dabs@.take(i), &before),
                    ),
            decreases dabs@.len() - n,
        {
            let ghost mid = *self;
            self.add_dab(canvas, &dabs[n], marks);
            proof {
                let done = dabs@.take(n as int);
                let next = dabs@.take(n + 1);
                assert(next.drop_last() =~= done);
                assert(next.last() == dabs@[n as int]);
                let first = batch_hits(marks, canvas, done);
                let then = dab_hits(marks, canvas, dabs@[n as int]);
                let both = batch_hits(marks, canvas, next);
                assert forall|x: int, y: int| #[trigger]
                    both(x, y) == (first(x, y) || then(x, y)) by {
                    if first(x, y) {
                        let i = choose|i: int|
                            0 <= i < done.len() && marks.leaves_paint(
                                canvas,
                                #[trigger] done[i],
                                x,
                                y,
                            );
                        assert(next[i] == done[i]);
                    }
                    if then(x, y) {
                        assert(next[n as int] == dabs@[n as int]);
                    }
                    if both(x, y) {
                        let i = choose|i: int|
                            0 <= i < next.len() && marks.leaves_paint(
                                canvas,
                                #[trigger] next[i],
                                x,
                                y,
                            );
                        if i < n {
                            assert(done[i] == next[i]);
                        }
                    }
                }
                assert forall|x: int, y: int| !first(x, y) implies #[trigger] mid.amount(x, y)
                    == built(marks, canvas, done, x, y, before.amount(x, y)) by {
                    lemma_built_elsewhere(marks, canvas, done, x, y, before.amount(x, y));
                }
                assert forall|x: int, y: int| #[trigger] mid.amount(x, y) == built(
                    marks,
                    canvas,
                    done,
                    x,
                    y,
                    before.amount(x, y),
                ) by {
                    if first(x, y) {
                        assert(batch_amounts(marks, canvas, done, &before)(x, y) == built(
                            marks,
                            canvas,
                            done,
                            x,
                            y,
                            before.amount(x, y),
                        ));
                    }
                }
                let dab = dabs@[n as int];
                let known = mid.amounts();
                let first_amounts = batch_amounts(marks, canvas, done, &before);
                assert forall|x: int, y: int| #[trigger]
                    marks.extent(dab).has(x, y) && canvas.inside(x, y) && !dab.radius.at_most(
                        none(),
                    ) && !dab.flow.at_most(none()) implies pixel_answered(
                    marks,
                    dab,
                    first_amounts,
                    x,
                    y,
                ) by {
                    assert(pixel_answered(marks, dab, known, x, y));
                    let m = mid.amount(x, y);
                }
                let then_amounts = dab_amounts(marks, dabs@[n as int], &mid);
                let amounts = batch_amounts(marks, canvas, next, &before);
                assert forall|x: int, y: int| then(x, y) implies #[trigger] amounts(x, y)
                    == then_amounts(x, y) by {
                    let m = mid.amount(x, y);
                }
                lemma_laying_on(
                    before,
                    mid,
                    *self,
                    canvas,
                    canvas,
                    first,
                    batch_amounts(marks, canvas, done, &before),
                    then,
                    then_amounts,
                    both,
                    amounts,
                );
            }
            n += 1;
        }
        assert(dabs@.take(n as int) =~= dabs@);
    }

    /// Re-composite tiles changed since the last call, over the canvas as it was before the stroke.
    ///
    /// `color_linear_premul` is the stroke colour and `opacity` is the stroke's ceiling. `shade` puts
    /// the colour, at an amount and under the ceiling, over a texel.
    pub fn composite<S: Fn(Rgba, Scalar, Scalar, Texel) -> Texel>(
        &mut self,
        canvas: &mut Canvas,
        color_linear_premul: Rgba,
        opacity: Scalar,
        shade: &S,
    )
        requires
            old(self).wf(),
            old(canvas).wf(),
            shades_steadily(shade),
        ensures
            final(self).wf(),
            final(self).painted() == old(self).painted(),
            final(self).kept() == old(self).kept(),
            final(self).waiting() == Set::<(int, int)>::empty(),
            final(canvas).wf(),
            final(canvas).paints(
                old(canvas),
                composite_hits(old(self), old(canvas)),
                composite_shades(old(self), shade, color_linear_premul, opacity),
            ),
            forall|x: int, y: int| #[trigger]
                composite_hits(old(self), old(canvas))(x, y) ==> shade_answered(
                    old(self),
                    shade,
                    color_linear_premul,
                    opacity,
                    x,
                    y,
                ),
    {
        let ghost before = *canvas;
        let ghost stroke = *self;
        let ceiling = opacity.clamped(Scalar { bits: ZERO }, Scalar { bits: ONE });
        let coords = self.pending.coords();
        let ghost shades = composite_shades(&stroke, shade, color_linear_premul, opacity);
        proof {
            lemma_nothing_painted(before, composite_scan(&stroke, &before, coords@, 0, 0), shades);
        }
        let mut n: usize = 0;
        while n < coords.len()
            invariant
                stroke == *self,
                self.wf(),
                before.wf(),
                canvas.wf(),
                shades_steadily(shade),
                ceiling == opacity.clamped_spec(none(), Scalar { bits: ONE }),
                shades == composite_shades(&stroke, shade, color_linear_premul, opacity),
                n <= coords@.len(),
                forall|i: int|
                    0 <= i < coords@.len() ==> self.waiting().contains(ints(#[trigger] coords@[i])),
                forall|i: int, j: int|
                    0 <= i < j < coords@.len() ==> ints(#[trigger] coords@[i]) != ints(
                        #[trigger] coords@[j],
                    ),
                canvas.paints(
                    &before,
                    composite_scan(&stroke, &before, coords@, n as int, 0),
                    shades,
                ),
                forall|x: int, y: int| #[trigger]
                    composite_scan(&stroke, &before, coords@, n as int, 0)(x, y) ==> shade_answered(
                        &stroke,
                        shade,
                        color_linear_premul,
                        opacity,
                        x,
                        y,
                    ),
            decreases coords@.len() - n,
        {
            let coord = coords[n];
            assert(self.waiting().contains(ints(coord)));
            assert(self.painted().contains_key(ints(coord)));
            assert(self.kept().contains_key(ints(coord)));
            match (self.accum.get(coord), self.snapshot.get(coord)) {
                (Some(accum), Some(snapshot)) => {
                    let mut k: usize = 0;
                    while k < TILE_TEXELS
                        invariant
                            stroke == *self,
                            self.wf(),
                            before.wf(),
                            canvas.wf(),
                            shades_steadily(shade),
                            ceiling == opacity.clamped_spec(none(), Scalar { bits: ONE }),
                            shades == composite_shades(
                                &stroke,
                                shade,
                                color_linear_premul,
                                opacity,
                            ),
                            n < coords@.len(),
                            coord == coords@[n as int],
                            reachable(ints(coord)),
                            self.painted().contains_key(ints(coord)),
                            *accum == self.painted()[ints(coord)],
                            accum@.len() == TILE_TEXELS,
                            *snapshot == self.kept()[ints(coord)],
                            snapshot.wf(),
                            forall|i: int, j: int|
                                0 <= i < j < coords@.len() ==> ints(#[trigger] coords@[i]) != ints(
                                    #[trigger] coords@[j],
                                ),
                            k <= TILE_TEXELS,
                            canvas.paints(
                                &before,
                                composite_scan(&stroke, &before, coords@, n as int, k as int),
                                shades,
                            ),
                            forall|px: int, py: int| #[trigger]
                                composite_scan(&stroke, &before, coords@, n as int, k as int)(
                                    px,
                                    py,
                                ) ==> shade_answered(
                                    &stroke,
                                    shade,
                                    color_linear_premul,
                                    opacity,
                                    px,
                                    py,
                                ),
                        decreases TILE_TEXELS - k,
                    {
                        let ghost sofar = composite_scan(
                            &stroke,
                            &before,
                            coords@,
                            n as int,
                            k as int,
                        );
                        let ghost next = composite_scan(&stroke, &before, coords@, n as int, k + 1);
                        let ghost mid = *canvas;
                        let x: i32 = coord.0 * 256 + (k % TILE_SIZE) as i32;
                        let y: i32 = coord.1 * 256 + (k / TILE_SIZE) as i32;
                        let a = accum[k];
                        proof {
                            assert(tile_holding(x as int, y as int) == ints(coord));
                            assert(local_of(x as int) == k % 256 && local_of(y as int) == k / 256);
                            assert(a == stroke.amount(x as int, y as int));
                            assert forall|px: int, py: int| #[trigger]
                                next(px, py) == (sofar(px, py) || (px == x && py == y
                                    && before.inside(px, py) && !a.at_most(none()))) by {
                                lemma_scan_texel(coords@, n as int, k as int, px, py);
                            }
                        }
                        if !a.le(Scalar { bits: ZERO }) {
                            let under = snapshot.texel(k % TILE_SIZE, k / TILE_SIZE);
                            assert(under == stroke.earlier(x as int, y as int));
                            let out = shade(color_linear_premul, a, ceiling, under);
                            assert(out == shades(x as int, y as int));
                            canvas.replace_pixel(x, y, out);
                        }
                        proof {
                            if before.inside(x as int, y as int) && !a.at_most(none()) {
                                assert(mid.inside(x as int, y as int));
                                lemma_one_pixel_more(
                                    before,
                                    mid,
                                    *canvas,
                                    sofar,
                                    next,
                                    shades,
                                    x as int,
                                    y as int,
                                );
                            } else {
                                assert(!mid.inside(x as int, y as int) || a.at_most(none()));
                                lemma_same_hits(before, *canvas, sofar, next, shades, shades);
                            }
                            assert forall|px: int, py: int| #[trigger]
                                next(px, py) implies shade_answered(
                                &stroke,
                                shade,
                                color_linear_premul,
                                opacity,
                                px,
                                py,
                            ) by {
                                assert(next(px, py) == (sofar(px, py) || (px == x && py == y
                                    && before.inside(px, py) && !a.at_most(none()))));
                            }
                        }
                        k += 1;
                    }
                },
                _ => {},
            }
            proof {
                let sofar = composite_scan(
                    &stroke,
                    &before,
                    coords@,
                    n as int,
                    TILE_TEXELS as int,
                );
                let next = composite_scan(&stroke, &before, coords@, n + 1, 0);
                assert forall|x: int, y: int| #[trigger] next(x, y) == sofar(x, y) by {
                    lemma_scan_tile(coords@, n as int, x, y);
                }
                lemma_same_hits(before, *canvas, sofar, next, shades, shades);
            }
            n += 1;
        }
        proof {
            let sofar = composite_scan(&stroke, &before, coords@, n as int, 0);
            let all = composite_hits(&stroke, &before);
            assert forall|x: int, y: int| #[trigger] all(x, y) == sofar(x, y) by {
                if stroke.waiting().contains(tile_holding(x, y)) {
                    assert(stroke.pending@.contains_key(tile_holding(x, y)));
                }
            }
            lemma_same_hits(before, *canvas, sofar, all, shades, shades);
        }
        self.pending.clear();
        proof {
            assert(self.waiting() =~= Set::<(int, int)>::empty());
            assert(self.painted() == stroke.painted() && self.kept() == stroke.kept());
            assert forall|c: (int, int)| #[trigger] self.painted().contains_key(c) implies reachable(
                c,
            ) && self.painted()[c]@.len() == TILE_TEXELS by {
                assert(stroke.painted().contains_key(c));
            }
            assert forall|c: (int, int)| #[trigger]
                self.kept().contains_key(c) <==> self.painted().contains_key(c) by {
                assert(stroke.kept().contains_key(c) <==> stroke.painted().contains_key(c));
            }
        }
    }
}

/// One pixel.
pub open spec fn only(x: int, y: int) -> Hits {
    |px: int, py: int| px == x && py == y
}

/// The pixels that a scan by rows has passed when it stands at a pixel.
pub open spec fn before_scan(hits: Hits, row: int, col: int) -> Hits {
    |x: int, y: int| hits(x, y) && (y < row || (y == row && x < col))
}

/// The pixels a dab leaves paint at.
pub open spec fn dab_hits<
    B: Fn(Dab) -> Bounds,
    C: Fn(Dab, i32, i32) -> Scalar,
    D: Fn(Scalar, Scalar, Scalar) -> Scalar,
>(marks: &Marks<B, C, D>, canvas: &Canvas, dab: Dab) -> Hits {
    |x: int, y: int| marks.leaves_paint(canvas, dab, x, y)
}

/// What a dab's paint comes to where it lands, over what the stroke had deposited.
pub open spec fn dab_amounts<
    B: Fn(Dab) -> Bounds,
    C: Fn(Dab, i32, i32) -> Scalar,
    D: Fn(Scalar, Scalar, Scalar) -> Scalar,
>(marks: &Marks<B, C, D>, dab: Dab, before: &StrokePainter) -> Amounts {
    |x: int, y: int|
        marks.deposited(dab.steady_flow(), marks.cover_at(dab, x, y), before.amount(x, y))
}

/// What a stroke has touched can be put back: from a fresh start, every pixel of a touched tile is
/// kept as the canvas had it, and a composite leaves every pixel of every other tile alone.
pub proof fn law_the_snapshot_undoes_the_stroke(
    start: StrokePainter,
    laid: StrokePainter,
    canvas: Canvas,
    after: Canvas,
    hits: Hits,
    amounts: Amounts,
    shades: Shades,
    x: int,
    y: int,
)
    requires
        start.fresh(),
        laid.wf(),
        laid.lays(&start, &canvas, hits, amounts),
        after.paints(&canvas, composite_hits(&laid, &canvas), shades),
    ensures
        if laid.kept().contains_key(tile_holding(x, y)) {
            laid.earlier(x, y) == canvas.pixel(x, y)
        } else {
            after.pixel(x, y) == canvas.pixel(x, y)
        },
{
    let c = tile_holding(x, y);
    if laid.kept().contains_key(c) {
        assert(pictures(laid.kept()[c], &canvas, c));
        assert(x == c.0 * 256 + local_of(x) && y == c.1 * 256 + local_of(y));
        let p = laid.kept()[c].pixel(local_of(x), local_of(y));
    } else {
        assert(!laid.painted().contains_key(c));
        assert(!laid.waiting().contains(c));
    }
}

/// Whether painters and canvases are those of a stroke that is composited after each batch of dabs:
/// `laid` is the painter after each batch, `seen` the one that each composite left, and `shown` the
/// canvas, each beginning with what there was.
pub open spec fn previewed<
    B: Fn(Dab) -> Bounds,
    C: Fn(Dab, i32, i32) -> Scalar,
    D: Fn(Scalar, Scalar, Scalar) -> Scalar,
    S: Fn(Rgba, Scalar, Scalar, Texel) -> Texel,
>(
    marks: &Marks<B, C, D>,
    shade: &S,
    color: Rgba,
    opacity: Scalar,
    batches: Seq<Seq<Dab>>,
    laid: Seq<StrokePainter>,
    seen: Seq<StrokePainter>,
    shown: Seq<Canvas>,
) -> bool {
    &&& laid.len() == batches.len()
    &&& seen.len() == batches.len() + 1
    &&& shown.len() == batches.len() + 1
    &&& forall|k: int|
        0 <= k < batches.len() ==> {
            &&& (#[trigger] laid[k]).wf()
            &&& laid[k].lays(
                &seen[k],
                &shown[k],
                batch_hits(marks, &shown[k], batches[k]),
                batch_amounts(marks, &shown[k], batches[k], &seen[k]),
            )
            &&& seen[k + 1].painted() == laid[k].painted()
            &&& seen[k + 1].kept() == laid[k].kept()
            &&& seen[k + 1].waiting() == Set::<(int, int)>::empty()
            &&& shown[k + 1].paints(
                &shown[k],
                composite_hits(&laid[k], &shown[k]),
                composite_shades(&laid[k], shade, color, opacity),
            )
        }
}

/// Whether painters are those of a stroke over a canvas before and after each batch of dabs, with no
/// composite between them.
pub open spec fn undisturbed<
    B: Fn(Dab) -> Bounds,
    C: Fn(Dab, i32, i32) -> Scalar,
    D: Fn(Scalar, Scalar, Scalar) -> Scalar,
>(
    marks: &Marks<B, C, D>,
    canvas: &Canvas,
    batches: Seq<Seq<Dab>>,
    painters: Seq<StrokePainter>,
) -> bool {
    &&& painters.len() == batches.len() + 1
    &&& forall|k: int|
        0 <= k < batches.len() ==> {
            &&& painters[k + 1].wf()
            &&& painters[k + 1].lays(
                #[trigger] &painters[k],
                canvas,
                batch_hits(marks, canvas, batches[k]),
                batch_amounts(marks, canvas, batches[k], &painters[k]),
            )
        }
}

/// A canvas's pixel under a stroke that began on another: the stroke's colour over what was there
/// where there is paint, and what was there elsewhere.
pub open spec fn under_stroke<S: Fn(Rgba, Scalar, Scalar, Texel) -> Texel>(
    shade: &S,
    color: Rgba,
    opacity: Scalar,
    canvas: &Canvas,
    p: &StrokePainter,
    x: int,
    y: int,
) -> Texel {
    if canvas.inside(x, y) && !p.amount(x, y).at_most(none()) {
        shaded(
            shade,
            color,
            p.amount(x, y),
            opacity.clamped_spec(none(), Scalar { bits: ONE }),
            canvas.pixel(x, y),
        )
    } else {
        canvas.pixel(x, y)
    }
}

/// Whether every tile a stroke keeps shows what a canvas shows.
spec fn keeps(p: &StrokePainter, canvas: &Canvas) -> bool {
    forall|c: (int, int)| #[trigger]
        p.kept().contains_key(c) ==> pictures(p.kept()[c], canvas, c)
}

/// A pixel of a tile that pictures a canvas was the canvas's.
proof fn lemma_earlier(p: &StrokePainter, canvas: &Canvas, x: int, y: int)
    requires
        keeps(p, canvas),
        p.kept().contains_key(tile_holding(x, y)),
    ensures
        p.earlier(x, y) == canvas.pixel(x, y),
{
    let c = tile_holding(x, y);
    assert(pictures(p.kept()[c], canvas, c));
    assert(x == c.0 * 256 + local_of(x) && y == c.1 * 256 + local_of(y));
    assert(p.kept()[c].pixel(local_of(x), local_of(y)) == canvas.pixel(x, y));
}

/// Where there is paint there is a tile of it.
proof fn lemma_paint_is_kept(p: &StrokePainter, x: int, y: int)
    requires
        !p.amount(x, y).at_most(none()),
    ensures
        p.painted().contains_key(tile_holding(x, y)),
{
}

/// Dabs build paint alike over canvases of one size.
proof fn lemma_built_alike<
    B: Fn(Dab) -> Bounds,
    C: Fn(Dab, i32, i32) -> Scalar,
    D: Fn(Scalar, Scalar, Scalar) -> Scalar,
>(
    marks: &Marks<B, C, D>,
    a: &Canvas,
    b: &Canvas,
    dabs: Seq<Dab>,
    x: int,
    y: int,
    paint: Scalar,
)
    requires
        a.size() == b.size(),
    ensures
        built(marks, a, dabs, x, y, paint) == built(marks, b, dabs, x, y, paint),
    decreases dabs.len(),
{
    if dabs.len() > 0 {
        lemma_built_alike(marks, a, b, dabs.drop_last(), x, y, paint);
    }
}

/// Dabs hit the same pixels of canvases of one size.
proof fn lemma_hits_alike<
    B: Fn(Dab) -> Bounds,
    C: Fn(Dab, i32, i32) -> Scalar,
    D: Fn(Scalar, Scalar, Scalar) -> Scalar,
>(marks: &Marks<B, C, D>, a: &Canvas, b: &Canvas, dabs: Seq<Dab>)
    requires
        a.size() == b.size(),
    ensures
        forall|x: int, y: int| #[trigger]
            batch_hits(marks, a, dabs)(x, y) == batch_hits(marks, b, dabs)(x, y),
        forall|c: (int, int)| #[trigger]
            hit_in(batch_hits(marks, a, dabs), c) == hit_in(batch_hits(marks, b, dabs), c),
{
    let ha = batch_hits(marks, a, dabs);
    let hb = batch_hits(marks, b, dabs);
    assert forall|x: int, y: int| #[trigger] ha(x, y) == hb(x, y) by {
        if ha(x, y) {
            let i = choose|i: int|
                0 <= i < dabs.len() && marks.leaves_paint(a, #[trigger] dabs[i], x, y);
            assert(marks.leaves_paint(b, dabs[i], x, y));
        }
        if hb(x, y) {
            let i = choose|i: int|
                0 <= i < dabs.len() && marks.leaves_paint(b, #[trigger] dabs[i], x, y);
            assert(marks.leaves_paint(a, dabs[i], x, y));
        }
    }
    assert forall|c: (int, int)| #[trigger] hit_in(ha, c) == hit_in(hb, c) by {
        if hit_in(ha, c) {
            let (px, py) = choose|px: int, py: int| #[trigger]
                ha(px, py) && tile_holding(px, py) == c;
            assert(hb(px, py));
        }
        if hit_in(hb, c) {
            let (px, py) = choose|px: int, py: int| #[trigger]
                hb(px, py) && tile_holding(px, py) == c;
            assert(ha(px, py));
        }
    }
}

/// What holds after each composite of a stroke, against the stroke without any.
spec fn in_step<S: Fn(Rgba, Scalar, Scalar, Texel) -> Texel>(
    shade: &S,
    color: Rgba,
    opacity: Scalar,
    canvas: &Canvas,
    plain: &StrokePainter,
    seen: &StrokePainter,
    shown: &Canvas,
) -> bool {
    &&& shown.size() == canvas.size()
    &&& seen.wf()
    &&& keeps(seen, canvas)
    &&& keeps(plain, canvas)
    &&& seen.waiting() == Set::<(int, int)>::empty()
    &&& forall|c: (int, int)| #[trigger]
        plain.painted().contains_key(c) <==> seen.painted().contains_key(c)
    &&& forall|c: (int, int)| #[trigger]
        plain.waiting().contains(c) <==> plain.painted().contains_key(c)
    &&& forall|x: int, y: int| #[trigger] seen.amount(x, y) == plain.amount(x, y)
    &&& forall|x: int, y: int| #[trigger]
        shown.pixel(x, y) == under_stroke(shade, color, opacity, canvas, plain, x, y)
}

/// One batch and one composite more.
proof fn lemma_one_batch_more<
    B: Fn(Dab) -> Bounds,
    C: Fn(Dab, i32, i32) -> Scalar,
    D: Fn(Scalar, Scalar, Scalar) -> Scalar,
    S: Fn(Rgba, Scalar, Scalar, Texel) -> Texel,
>(
    marks: &Marks<B, C, D>,
    shade: &S,
    color: Rgba,
    opacity: Scalar,
    dabs: Seq<Dab>,
    canvas: &Canvas,
    plain: &StrokePainter,
    more: &StrokePainter,
    seen: &StrokePainter,
    shown: &Canvas,
    laid: &StrokePainter,
    now_seen: &StrokePainter,
    now_shown: &Canvas,
)
    requires
        in_step(shade, color, opacity, canvas, plain, seen, shown),
        plain.wf(),
        more.wf(),
        more.lays(
            plain,
            canvas,
            batch_hits(marks, canvas, dabs),
            batch_amounts(marks, canvas, dabs, plain),
        ),
        laid.wf(),
        laid.lays(
            seen,
            shown,
            batch_hits(marks, shown, dabs),
            batch_amounts(marks, shown, dabs, seen),
        ),
        now_seen.painted() == laid.painted(),
        now_seen.kept() == laid.kept(),
        now_seen.waiting() == Set::<(int, int)>::empty(),
        now_shown.paints(
            shown,
            composite_hits(laid, shown),
            composite_shades(laid, shade, color, opacity),
        ),
        forall|x: int, y: int|
            !plain.amount(x, y).at_most(none()) ==> !(#[trigger] more.amount(x, y)).at_most(none()),
    ensures
        in_step(shade, color, opacity, canvas, more, now_seen, now_shown),
{
    lemma_hits_alike(marks, canvas, shown, dabs);
    let hits = batch_hits(marks, canvas, dabs);
    let there = batch_hits(marks, shown, dabs);
    assert forall|x: int, y: int| #[trigger] laid.amount(x, y) == more.amount(x, y) by {
        lemma_built_alike(marks, canvas, shown, dabs, x, y, plain.amount(x, y));
        assert(seen.amount(x, y) == plain.amount(x, y));
        assert(hits(x, y) == there(x, y));
    }
    assert forall|x: int, y: int| #[trigger] now_seen.amount(x, y) == more.amount(x, y) by {
        assert(laid.amount(x, y) == more.amount(x, y));
    }
    assert forall|c: (int, int)| #[trigger]
        more.painted().contains_key(c) <==> now_seen.painted().contains_key(c) by {
        assert(plain.painted().contains_key(c) <==> seen.painted().contains_key(c));
        assert(hit_in(hits, c) == hit_in(there, c));
    }
    assert forall|c: (int, int)| #[trigger]
        more.waiting().contains(c) <==> more.painted().contains_key(c) by {
        assert(plain.waiting().contains(c) <==> plain.painted().contains_key(c));
    }
    assert forall|c: (int, int)| #[trigger] more.kept().contains_key(c) implies pictures(
        more.kept()[c],
        canvas,
        c,
    ) by {
        if plain.kept().contains_key(c) {
            assert(pictures(plain.kept()[c], canvas, c));
        }
    }
    assert forall|c: (int, int)| #[trigger] now_seen.kept().contains_key(c) implies pictures(
        now_seen.kept()[c],
        canvas,
        c,
    ) by {
        if seen.kept().contains_key(c) {
            assert(pictures(seen.kept()[c], canvas, c));
        } else {
            assert(pictures(laid.kept()[c], shown, c));
            assert(!seen.painted().contains_key(c));
            assert(!plain.painted().contains_key(c));
            assert forall|lx: int, ly: int| 0 <= lx < 256 && 0 <= ly < 256 implies #[trigger] laid.kept()[c].pixel(
                lx,
                ly,
            ) == canvas.pixel(c.0 * 256 + lx, c.1 * 256 + ly) by {
                let (x, y) = (c.0 * 256 + lx, c.1 * 256 + ly);
                assert(tile_holding(x, y) == c);
                assert(shown.pixel(x, y) == under_stroke(
                    shade,
                    color,
                    opacity,
                    canvas,
                    plain,
                    x,
                    y,
                ));
            }
        }
    }
    assert forall|x: int, y: int| #[trigger] now_shown.pixel(x, y) == under_stroke(
        shade,
        color,
        opacity,
        canvas,
        more,
        x,
        y,
    ) by {
        let c = tile_holding(x, y);
        assert(shown.pixel(x, y) == under_stroke(shade, color, opacity, canvas, plain, x, y));
        assert(laid.amount(x, y) == more.amount(x, y));
        assert(laid.painted().contains_key(c) == now_seen.painted().contains_key(c));
        if laid.waiting().contains(c) {
            assert(laid.painted().contains_key(c));
            assert(laid.kept().contains_key(c));
            assert(keeps(laid, canvas)) by {
                assert forall|d: (int, int)| #[trigger] laid.kept().contains_key(d) implies pictures(
                    laid.kept()[d],
                    canvas,
                    d,
                ) by {
                    assert(now_seen.kept().contains_key(d));
                }
            }
            lemma_earlier(laid, canvas, x, y);
        } else {
            // No dab of the batch reached the tile.
            assert(!hit_in(there, c));
            assert(!there(x, y));
            assert(seen.amount(x, y) == plain.amount(x, y));
            assert(laid.amount(x, y) == seen.amount(x, y));
        }
    }
}

/// Previews do not disturb a stroke. Compositing after every batch of dabs, however many batches
/// there are, leaves exactly the canvas that laying all of them and compositing once leaves, so long
/// as laying paint on top of paint never takes paint away.
///
/// `painters` are those of the stroke with no composite before its end, and `at_once` is the canvas
/// after that one. A composite after each dab is the case of batches of one.
pub proof fn law_previews_are_the_result<
    B: Fn(Dab) -> Bounds,
    C: Fn(Dab, i32, i32) -> Scalar,
    D: Fn(Scalar, Scalar, Scalar) -> Scalar,
    S: Fn(Rgba, Scalar, Scalar, Texel) -> Texel,
>(
    marks: &Marks<B, C, D>,
    shade: &S,
    color: Rgba,
    opacity: Scalar,
    batches: Seq<Seq<Dab>>,
    laid: Seq<StrokePainter>,
    seen: Seq<StrokePainter>,
    shown: Seq<Canvas>,
    painters: Seq<StrokePainter>,
    at_once: Canvas,
)
    requires
        previewed(marks, shade, color, opacity, batches, laid, seen, shown),
        undisturbed(marks, &shown[0], batches, painters),
        painters[0] == seen[0],
        seen[0].fresh(),
        seen[0].wf(),
        at_once.paints(
            &shown[0],
            composite_hits(&painters.last(), &shown[0]),
            composite_shades(&painters.last(), shade, color, opacity),
        ),
        // Paint on paint is paint.
        forall|k: int, x: int, y: int|
            0 <= k < batches.len() && !(#[trigger] painters[k].amount(x, y)).at_most(none())
                ==> !painters[k + 1].amount(x, y).at_most(none()),
    ensures
        forall|x: int, y: int| #[trigger] shown.last().pixel(x, y) == at_once.pixel(x, y),
{
    let canvas = shown[0];
    let n = batches.len() as int;
    lemma_in_step(marks, shade, color, opacity, batches, laid, seen, shown, painters, n);
    assert(shown.last() == shown[n] && painters.last() == painters[n]);
    let plain = painters[n];
    assert forall|x: int, y: int| #[trigger] shown[n].pixel(x, y) == at_once.pixel(x, y) by {
        let c = tile_holding(x, y);
        assert(plain.waiting().contains(c) <==> plain.painted().contains_key(c));
        if !plain.amount(x, y).at_most(none()) {
            lemma_paint_is_kept(&plain, x, y);
            assert(plain.kept().contains_key(c));
            lemma_earlier(&plain, &canvas, x, y);
        }
    }
}

/// After some batches, a stroke with previews is in step with one without.
proof fn lemma_in_step<
    B: Fn(Dab) -> Bounds,
    C: Fn(Dab, i32, i32) -> Scalar,
    D: Fn(Scalar, Scalar, Scalar) -> Scalar,
    S: Fn(Rgba, Scalar, Scalar, Texel) -> Texel,
>(
    marks: &Marks<B, C, D>,
    shade: &S,
    color: Rgba,
    opacity: Scalar,
    batches: Seq<Seq<Dab>>,
    laid: Seq<StrokePainter>,
    seen: Seq<StrokePainter>,
    shown: Seq<Canvas>,
    painters: Seq<StrokePainter>,
    k: int,
)
    requires
        previewed(marks, shade, color, opacity, batches, laid, seen, shown),
        undisturbed(marks, &shown[0], batches, painters),
        painters[0] == seen[0],
        seen[0].fresh(),
        seen[0].wf(),
        forall|k: int, x: int, y: int|
            0 <= k < batches.len() && !(#[trigger] painters[k].amount(x, y)).at_most(none())
                ==> !painters[k + 1].amount(x, y).at_most(none()),
        0 <= k <= batches.len(),
    ensures
        painters[k].wf(),
        in_step(shade, color, opacity, &shown[0], &painters[k], &seen[k], &shown[k]),
    decreases k,
{
    if k > 0 {
        lemma_in_step(marks, shade, color, opacity, batches, laid, seen, shown, painters, k - 1);
        assert(laid[k - 1].wf());
        let was = painters[k - 1];
        assert(painters[k - 1 + 1].wf());
        assert forall|x: int, y: int| !was.amount(x, y).at_most(none()) implies !(
        #[trigger] painters[k].amount(x, y)).at_most(none()) by {
            assert(!painters[k - 1].amount(x, y).at_most(none()));
        }
        lemma_one_batch_more(
            marks,
            shade,
            color,
            opacity,
            batches[k - 1],
            &shown[0],
            &painters[k - 1],
            &painters[k],
            &seen[k - 1],
            &shown[k - 1],
            &laid[k - 1],
            &seen[k],
            &shown[k],
        );
    }
}

/// A batch of one dab is that dab: it hits the same pixels, and comes to the same paint at them.
pub proof fn law_a_batch_of_one_is_a_dab<
    B: Fn(Dab) -> Bounds,
    C: Fn(Dab, i32, i32) -> Scalar,
    D: Fn(Scalar, Scalar, Scalar) -> Scalar,
>(marks: &Marks<B, C, D>, canvas: &Canvas, dab: Dab, before: &StrokePainter)
    ensures
        forall|x: int, y: int| #[trigger]
            batch_hits(marks, canvas, seq![dab])(x, y) == dab_hits(marks, canvas, dab)(x, y),
        forall|x: int, y: int| #[trigger]
            dab_hits(marks, canvas, dab)(x, y) ==> batch_amounts(
                marks,
                canvas,
                seq![dab],
                before,
            )(x, y) == dab_amounts(marks, dab, before)(x, y),
{
    let one = seq![dab];
    assert(one.last() == dab && one.drop_last() =~= Seq::<Dab>::empty());
    assert forall|x: int, y: int| #[trigger]
        batch_hits(marks, canvas, one)(x, y) == dab_hits(marks, canvas, dab)(x, y) by {
        if marks.leaves_paint(canvas, dab, x, y) {
            assert(marks.leaves_paint(canvas, one[0], x, y));
        }
    }
    assert forall|x: int, y: int| #[trigger]
        dab_hits(marks, canvas, dab)(x, y) implies batch_amounts(marks, canvas, one, before)(x, y)
        == dab_amounts(marks, dab, before)(x, y) by {
        reveal_with_fuel(built, 2);
    }
}

/// Nothing hit is nothing laid.
proof fn lemma_nothing_laid(p: StrokePainter, canvas: &Canvas, hits: Hits, amounts: Amounts)
    requires
        forall|x: int, y: int| !#[trigger] hits(x, y),
    ensures
        p.lays(&p, canvas, hits, amounts),
{
}

/// The same pixels hit is the same paint laid.
proof fn lemma_laid_alike(
    before: StrokePainter,
    after: StrokePainter,
    canvas: &Canvas,
    hits: Hits,
    same: Hits,
    amounts: Amounts,
)
    requires
        after.lays(&before, canvas, hits, amounts),
        forall|x: int, y: int| #[trigger] same(x, y) == hits(x, y),
    ensures
        after.lays(&before, canvas, same, amounts),
{
    assert forall|c: (int, int)| #[trigger] hit_in(same, c) == hit_in(hits, c) by {
        if hit_in(hits, c) {
            let (px, py) = choose|px: int, py: int| #[trigger]
                hits(px, py) && tile_holding(px, py) == c;
            assert(same(px, py));
        }
    }
}

/// Laying paint, and then laying more, is laying all of it; the later amount stands where both hit.
///
/// The two may be laid over different canvases, so long as both show the same in a tile that only
/// the later one touches.
proof fn lemma_laying_on(
    before: StrokePainter,
    mid: StrokePainter,
    after: StrokePainter,
    first_canvas: &Canvas,
    then_canvas: &Canvas,
    first: Hits,
    first_amounts: Amounts,
    then: Hits,
    then_amounts: Amounts,
    both: Hits,
    amounts: Amounts,
)
    requires
        mid.wf(),
        after.wf(),
        before.wf(),
        mid.lays(&before, first_canvas, first, first_amounts),
        after.lays(&mid, then_canvas, then, then_amounts),
        forall|x: int, y: int| #[trigger] both(x, y) == (first(x, y) || then(x, y)),
        forall|x: int, y: int|
            then(x, y) ==> #[trigger] amounts(x, y) == then_amounts(x, y),
        forall|x: int, y: int|
            first(x, y) && !then(x, y) ==> #[trigger] amounts(x, y) == first_amounts(x, y),
        forall|x: int, y: int|
            !mid.painted().contains_key(tile_holding(x, y)) ==> #[trigger] then_canvas.pixel(x, y)
                == first_canvas.pixel(x, y),
    ensures
        after.lays(&before, first_canvas, both, amounts),
{
    assert forall|c: (int, int)| #[trigger]
        hit_in(both, c) == (hit_in(first, c) || hit_in(then, c)) by {
        if hit_in(first, c) {
            let (px, py) = choose|px: int, py: int| #[trigger]
                first(px, py) && tile_holding(px, py) == c;
            assert(both(px, py));
        }
        if hit_in(then, c) {
            let (px, py) = choose|px: int, py: int| #[trigger]
                then(px, py) && tile_holding(px, py) == c;
            assert(both(px, py));
        }
        if hit_in(both, c) {
            let (px, py) = choose|px: int, py: int| #[trigger]
                both(px, py) && tile_holding(px, py) == c;
            if first(px, py) {
                assert(hit_in(first, c));
            } else {
                assert(hit_in(then, c));
            }
        }
    }
    assert forall|c: (int, int)| #[trigger] after.painted().contains_key(c)
        <==> before.painted().contains_key(c) || hit_in(both, c) by {
        assert(mid.painted().contains_key(c) == (before.painted().contains_key(c) || hit_in(
            first,
            c,
        )));
    }
    assert forall|c: (int, int)| #[trigger] after.waiting().contains(c)
        <==> before.waiting().contains(c) || hit_in(both, c) by {
        assert(mid.waiting().contains(c) == (before.waiting().contains(c) || hit_in(first, c)));
    }
    assert forall|x: int, y: int| #[trigger] after.amount(x, y) == if both(x, y) {
        amounts(x, y)
    } else {
        before.amount(x, y)
    } by {
        let m = mid.amount(x, y);
    }
    assert forall|c: (int, int)| #[trigger] after.kept().contains_key(c) implies if before.kept().contains_key(
        c,
    ) {
        after.kept()[c] == before.kept()[c]
    } else {
        pictures(after.kept()[c], first_canvas, c)
    } by {
        if before.kept().contains_key(c) {
            assert(before.painted().contains_key(c));
            assert(mid.painted().contains_key(c));
            assert(mid.kept().contains_key(c));
        } else if mid.kept().contains_key(c) {
            assert(pictures(mid.kept()[c], first_canvas, c));
        } else {
            assert(!mid.painted().contains_key(c));
            assert(pictures(after.kept()[c], then_canvas, c));
            assert forall|lx: int, ly: int|
                0 <= lx < 256 && 0 <= ly < 256 implies #[trigger] after.kept()[c].pixel(lx, ly)
                == first_canvas.pixel(c.0 * 256 + lx, c.1 * 256 + ly) by {
                assert(tile_holding(c.0 * 256 + lx, c.1 * 256 + ly) == c);
                let p = then_canvas.pixel(c.0 * 256 + lx, c.1 * 256 + ly);
            }
        }
    }
}

/// Paint never passes the whole. However many dabs land on a pixel, what they build up to stays from
/// nothing to everything.
pub proof fn law_paint_never_passes_the_whole<
    B: Fn(Dab) -> Bounds,
    C: Fn(Dab, i32, i32) -> Scalar,
    D: Fn(Scalar, Scalar, Scalar) -> Scalar,
>(
    marks: &Marks<B, C, D>,
    canvas: &Canvas,
    dabs: Seq<Dab>,
    x: int,
    y: int,
    paint: Scalar,
)
    requires
        marks.rounds_deposits(),
        forall|i: int| 0 <= i < dabs.len() ==> marks.covers_within(#[trigger] dabs[i]),
        in_unit(paint),
    ensures
        in_unit(built(marks, canvas, dabs, x, y, paint)),
    decreases dabs.len(),
{
    if dabs.len() > 0 {
        let fewer = dabs.drop_last();
        let last = dabs.last();
        assert forall|i: int| 0 <= i < fewer.len() implies marks.covers_within(
            #[trigger] fewer[i],
        ) by {
            assert(fewer[i] == dabs[i]);
        }
        law_paint_never_passes_the_whole(marks, canvas, fewer, x, y, paint);
        assert(marks.covers_within(dabs[dabs.len() - 1]));
        assert(in_unit(marks.cover_at(last, x, y)));
        assert(in_unit(last.steady_flow()));
        lemma_deposit_is_held(
            marks,
            last.steady_flow(),
            marks.cover_at(last, x, y),
            built(marks, canvas, fewer, x, y, paint),
        );
    }
}

/// Paint only builds up: one dab more never leaves a pixel with less.
pub proof fn law_paint_only_builds_up<
    B: Fn(Dab) -> Bounds,
    C: Fn(Dab, i32, i32) -> Scalar,
    D: Fn(Scalar, Scalar, Scalar) -> Scalar,
>(
    marks: &Marks<B, C, D>,
    canvas: &Canvas,
    dabs: Seq<Dab>,
    more: Dab,
    x: int,
    y: int,
    paint: Scalar,
)
    requires
        marks.rounds_deposits(),
        forall|i: int| 0 <= i < dabs.len() ==> marks.covers_within(#[trigger] dabs[i]),
        marks.covers_within(more),
        in_unit(paint),
    ensures
        built(marks, canvas, dabs, x, y, paint).at_most(
            built(marks, canvas, dabs.push(more), x, y, paint),
        ),
{
    law_paint_never_passes_the_whole(marks, canvas, dabs, x, y, paint);
    assert(dabs.push(more).drop_last() =~= dabs);
    assert(in_unit(marks.cover_at(more, x, y)));
    assert(in_unit(more.steady_flow()));
    lemma_deposit_is_held(
        marks,
        more.steady_flow(),
        marks.cover_at(more, x, y),
        built(marks, canvas, dabs, x, y, paint),
    );
}

/// Dabs never leave a pixel with less paint than it had.
proof fn lemma_paint_stays<
    B: Fn(Dab) -> Bounds,
    C: Fn(Dab, i32, i32) -> Scalar,
    D: Fn(Scalar, Scalar, Scalar) -> Scalar,
>(
    marks: &Marks<B, C, D>,
    canvas: &Canvas,
    dabs: Seq<Dab>,
    x: int,
    y: int,
    paint: Scalar,
)
    requires
        marks.rounds_deposits(),
        forall|i: int| 0 <= i < dabs.len() ==> marks.covers_within(#[trigger] dabs[i]),
        in_unit(paint),
    ensures
        paint.at_most(built(marks, canvas, dabs, x, y, paint)),
    decreases dabs.len(),
{
    if dabs.len() > 0 {
        let fewer = dabs.drop_last();
        assert forall|i: int| 0 <= i < fewer.len() implies marks.covers_within(
            #[trigger] fewer[i],
        ) by {
            assert(fewer[i] == dabs[i]);
        }
        lemma_paint_stays(marks, canvas, fewer, x, y, paint);
        assert(marks.covers_within(dabs[dabs.len() - 1]));
        law_paint_only_builds_up(marks, canvas, fewer, dabs.last(), x, y, paint);
        assert(fewer.push(dabs.last()) =~= dabs);
    }
}

/// Part of the way from one number to another.
pub open spec fn toward(from: real, to: real, part: real) -> real {
    from + part * (to - from)
}

/// Whether shading is rounded by no more than an error, under a ceiling: over a texel in range, each
/// channel goes toward the colour by the amount of the ceiling.
pub open spec fn shades_closely<S: Fn(Rgba, Scalar, Scalar, Texel) -> Texel>(
    shade: &S,
    color: Rgba,
    ceiling: Scalar,
    error: real,
) -> bool {
    forall|amount: Scalar, under: Texel, c: int|
        in_unit(amount) && under.in_range() && 0 <= c < 4 ==> close(
            #[trigger] shaded(shade, color, amount, ceiling, under).values()[c],
            toward(
                under.values()[c],
                color.covering(c, under.values()[c]),
                amount.value() * ceiling.value(),
            ),
            error,
        )
}

/// Whether a texel that was in range is now no further than a ceiling of the way toward a colour, in
/// any channel, but for an error.
pub open spec fn under_ceiling(
    color: Rgba,
    ceiling: Scalar,
    error: real,
    was: Texel,
    now: Texel,
) -> bool {
    was.in_range() ==> forall|c: int|
        0 <= c < 4 ==> #[trigger] channel_under_ceiling(color, ceiling, error, was, now, c)
}

/// Whether a channel is now no further than a ceiling of the way toward a colour, but for an error.
pub open spec fn channel_under_ceiling(
    color: Rgba,
    ceiling: Scalar,
    error: real,
    was: Texel,
    now: Texel,
    c: int,
) -> bool {
    let (from, to) = (was.values()[c], color.covering(c, was.values()[c]));
    exists|part: real|
        0 as real <= part <= ceiling.value() && close(
            now.values()[c],
            #[trigger] toward(from, to, part),
            error,
        )
}

/// One shading is under its ceiling, whatever the amount.
proof fn lemma_one_shading_is_under_its_ceiling<S: Fn(Rgba, Scalar, Scalar, Texel) -> Texel>(
    shade: &S,
    color: Rgba,
    ceiling: Scalar,
    error: real,
    amount: Scalar,
    under: Texel,
)
    requires
        shades_closely(shade, color, ceiling, error),
        in_unit(amount),
        in_unit(ceiling),
    ensures
        under_ceiling(
            color,
            ceiling,
            error,
            under,
            shaded(shade, color, amount, ceiling, under),
        ),
{
    let (low, high) = (Scalar { bits: ZERO }, Scalar { bits: ONE });
    law_zero_and_one_are_themselves();
    law_order_is_that_of_values(low, amount);
    law_order_is_that_of_values(amount, high);
    law_order_is_that_of_values(low, ceiling);
    let now = shaded(shade, color, amount, ceiling, under);
    let (a, b) = (amount.value(), ceiling.value());
    assert(0 as real <= a * b <= b) by (nonlinear_arith)
        requires
            0 as real <= a <= 1 as real,
            0 as real <= b,
    ;
    if under.in_range() {
        assert forall|c: int| 0 <= c < 4 implies #[trigger] channel_under_ceiling(
            color,
            ceiling,
            error,
            under,
            now,
            c,
        ) by {
            let (from, to) = (under.values()[c], color.covering(c, under.values()[c]));
            assert(close(now.values()[c], toward(from, to, a * b), error));
        }
    }
}

/// What is left alone is under any ceiling.
proof fn lemma_left_alone_is_under_a_ceiling(
    color: Rgba,
    ceiling: Scalar,
    error: real,
    t: Texel,
)
    requires
        0 as real <= error,
        in_unit(ceiling),
    ensures
        under_ceiling(color, ceiling, error, t, t),
{
    law_zero_and_one_are_themselves();
    law_order_is_that_of_values(Scalar { bits: ZERO }, ceiling);
    assert forall|c: int| 0 <= c < 4 implies #[trigger] channel_under_ceiling(
        color,
        ceiling,
        error,
        t,
        t,
        c,
    ) by {
        let (from, to) = (t.values()[c], color.covering(c, t.values()[c]));
        let (way, part) = (to - from, 0 as real);
        assert(part * way == 0 as real) by (nonlinear_arith)
            requires
                part == 0 as real,
        ;
        assert(close(t.values()[c], toward(from, to, part), error));
    }
}

/// What holds of a stroke at any time: its paint is from nothing to everything, what it keeps is the
/// canvas it began on, and where it keeps nothing it has changed nothing.
spec fn in_bounds(p: &StrokePainter, canvas: &Canvas, shown: &Canvas) -> bool {
    &&& shown.size() == canvas.size()
    &&& p.wf()
    &&& keeps(p, canvas)
    &&& forall|x: int, y: int| in_unit(#[trigger] p.amount(x, y))
    &&& forall|x: int, y: int|
        !p.kept().contains_key(tile_holding(x, y)) ==> #[trigger] shown.pixel(x, y)
            == canvas.pixel(x, y)
}

/// A batch of dabs leaves a stroke in bounds.
proof fn lemma_a_batch_stays_in_bounds<
    B: Fn(Dab) -> Bounds,
    C: Fn(Dab, i32, i32) -> Scalar,
    D: Fn(Scalar, Scalar, Scalar) -> Scalar,
>(
    marks: &Marks<B, C, D>,
    dabs: Seq<Dab>,
    canvas: &Canvas,
    before: &StrokePainter,
    shown: &Canvas,
    laid: &StrokePainter,
)
    requires
        in_bounds(before, canvas, shown),
        marks.rounds_deposits(),
        forall|i: int| 0 <= i < dabs.len() ==> marks.covers_within(#[trigger] dabs[i]),
        laid.wf(),
        laid.lays(
            before,
            shown,
            batch_hits(marks, shown, dabs),
            batch_amounts(marks, shown, dabs, before),
        ),
    ensures
        in_bounds(laid, canvas, shown),
{
    assert forall|c: (int, int)| #[trigger] laid.kept().contains_key(c) implies pictures(
        laid.kept()[c],
        canvas,
        c,
    ) by {
        if before.kept().contains_key(c) {
            assert(pictures(before.kept()[c], canvas, c));
        } else {
            assert(pictures(laid.kept()[c], shown, c));
            assert forall|lx: int, ly: int| 0 <= lx < 256 && 0 <= ly < 256 implies #[trigger]
                laid.kept()[c].pixel(lx, ly) == canvas.pixel(c.0 * 256 + lx, c.1 * 256 + ly) by {
                let (x, y) = (c.0 * 256 + lx, c.1 * 256 + ly);
                assert(tile_holding(x, y) == c);
                assert(shown.pixel(x, y) == canvas.pixel(x, y));
            }
        }
    }
    assert forall|x: int, y: int| in_unit(#[trigger] laid.amount(x, y)) by {
        assert(in_unit(before.amount(x, y)));
        law_paint_never_passes_the_whole(marks, shown, dabs, x, y, before.amount(x, y));
    }
    assert forall|x: int, y: int|
        !laid.kept().contains_key(tile_holding(x, y)) implies #[trigger] shown.pixel(x, y)
        == canvas.pixel(x, y) by {
        let c = tile_holding(x, y);
        assert(laid.kept().contains_key(c) <==> laid.painted().contains_key(c));
        assert(before.kept().contains_key(c) <==> before.painted().contains_key(c));
    }
}

/// A composite leaves a stroke in bounds, and shows a pixel as it was or as the ceiling allows.
proof fn lemma_a_composite_stays_in_bounds<S: Fn(Rgba, Scalar, Scalar, Texel) -> Texel>(
    shade: &S,
    color: Rgba,
    opacity: Scalar,
    canvas: &Canvas,
    laid: &StrokePainter,
    shown: &Canvas,
    seen: &StrokePainter,
    now: &Canvas,
    error: real,
)
    requires
        in_bounds(laid, canvas, shown),
        shades_closely(
            shade,
            color,
            opacity.clamped_spec(none(), Scalar { bits: ONE }),
            error,
        ),
        0 as real <= error,
        !opacity.nan(),
        seen.painted() == laid.painted(),
        seen.kept() == laid.kept(),
        seen.waiting() == Set::<(int, int)>::empty(),
        now.paints(
            shown,
            composite_hits(laid, shown),
            composite_shades(laid, shade, color, opacity),
        ),
        forall|x: int, y: int|
            under_ceiling(
                color,
                opacity.clamped_spec(none(), Scalar { bits: ONE }),
                error,
                canvas.pixel(x, y),
                #[trigger] shown.pixel(x, y),
            ),
    ensures
        in_bounds(seen, canvas, now),
        forall|x: int, y: int|
            under_ceiling(
                color,
                opacity.clamped_spec(none(), Scalar { bits: ONE }),
                error,
                canvas.pixel(x, y),
                #[trigger] now.pixel(x, y),
            ),
{
    let ceiling = opacity.clamped_spec(none(), Scalar { bits: ONE });
    assert(in_unit(ceiling));
    assert forall|x: int, y: int| under_ceiling(
        color,
        ceiling,
        error,
        canvas.pixel(x, y),
        #[trigger] now.pixel(x, y),
    ) by {
        assert(under_ceiling(color, ceiling, error, canvas.pixel(x, y), shown.pixel(x, y)));
        if composite_hits(laid, shown)(x, y) {
            lemma_paint_is_kept(laid, x, y);
            assert(laid.kept().contains_key(tile_holding(x, y)));
            lemma_earlier(laid, canvas, x, y);
            assert(in_unit(laid.amount(x, y)));
            lemma_one_shading_is_under_its_ceiling(
                shade,
                color,
                ceiling,
                error,
                laid.amount(x, y),
                canvas.pixel(x, y),
            );
        }
    }
    assert forall|x: int, y: int|
        !seen.kept().contains_key(tile_holding(x, y)) implies #[trigger] now.pixel(x, y)
        == canvas.pixel(x, y) by {
        let c = tile_holding(x, y);
        assert(laid.kept().contains_key(c) <==> laid.painted().contains_key(c));
        assert(!laid.waiting().contains(c));
        assert(shown.pixel(x, y) == canvas.pixel(x, y));
    }
    assert forall|x: int, y: int| in_unit(#[trigger] seen.amount(x, y)) by {
        assert(seen.amount(x, y) == laid.amount(x, y));
    }
    assert(seen.wf()) by {
        assert forall|c: (int, int)| #[trigger] seen.painted().contains_key(c) implies reachable(c)
            && seen.painted()[c]@.len() == TILE_TEXELS by {
            assert(laid.painted().contains_key(c));
        }
        assert forall|c: (int, int)| #[trigger]
            seen.kept().contains_key(c) <==> seen.painted().contains_key(c) by {
            assert(laid.kept().contains_key(c) <==> laid.painted().contains_key(c));
        }
    }
    assert(keeps(seen, canvas)) by {
        assert forall|c: (int, int)| #[trigger] seen.kept().contains_key(c) implies pictures(
            seen.kept()[c],
            canvas,
            c,
        ) by {
            assert(laid.kept().contains_key(c));
        }
    }
}

/// A stroke starts in bounds.
proof fn lemma_a_fresh_stroke_is_in_bounds(p: &StrokePainter, canvas: &Canvas)
    requires
        p.fresh(),
        p.wf(),
    ensures
        in_bounds(p, canvas, canvas),
{
}

/// Opacity is a ceiling for the whole stroke. Composited after every batch of dabs, however many dabs
/// overlap, no pixel is ever further than the opacity of the way from what it was before the stroke
/// toward the stroke's colour, but for what one shading is rounded by.
pub proof fn law_a_stroke_never_passes_its_ceiling<
    B: Fn(Dab) -> Bounds,
    C: Fn(Dab, i32, i32) -> Scalar,
    D: Fn(Scalar, Scalar, Scalar) -> Scalar,
    S: Fn(Rgba, Scalar, Scalar, Texel) -> Texel,
>(
    marks: &Marks<B, C, D>,
    shade: &S,
    color: Rgba,
    opacity: Scalar,
    batches: Seq<Seq<Dab>>,
    laid: Seq<StrokePainter>,
    seen: Seq<StrokePainter>,
    shown: Seq<Canvas>,
    error: real,
    k: int,
)
    requires
        previewed(marks, shade, color, opacity, batches, laid, seen, shown),
        seen[0].fresh(),
        seen[0].wf(),
        !opacity.nan(),
        marks.rounds_deposits(),
        forall|j: int, i: int|
            0 <= j < batches.len() && 0 <= i < batches[j].len() ==> marks.covers_within(
                #[trigger] batches[j][i],
            ),
        shades_closely(
            shade,
            color,
            opacity.clamped_spec(none(), Scalar { bits: ONE }),
            error,
        ),
        0 as real <= error,
        0 <= k <= batches.len(),
    ensures
        forall|x: int, y: int|
            under_ceiling(
                color,
                opacity.clamped_spec(none(), Scalar { bits: ONE }),
                error,
                shown[0].pixel(x, y),
                #[trigger] shown[k].pixel(x, y),
            ),
{
    lemma_within_its_ceiling(
        marks,
        shade,
        color,
        opacity,
        batches,
        laid,
        seen,
        shown,
        error,
        k,
    );
}

/// After some batches, a stroke is in bounds and within its ceiling.
proof fn lemma_within_its_ceiling<
    B: Fn(Dab) -> Bounds,
    C: Fn(Dab, i32, i32) -> Scalar,
    D: Fn(Scalar, Scalar, Scalar) -> Scalar,
    S: Fn(Rgba, Scalar, Scalar, Texel) -> Texel,
>(
    marks: &Marks<B, C, D>,
    shade: &S,
    color: Rgba,
    opacity: Scalar,
    batches: Seq<Seq<Dab>>,
    laid: Seq<StrokePainter>,
    seen: Seq<StrokePainter>,
    shown: Seq<Canvas>,
    error: real,
    k: int,
)
    requires
        previewed(marks, shade, color, opacity, batches, laid, seen, shown),
        seen[0].fresh(),
        seen[0].wf(),
        !opacity.nan(),
        marks.rounds_deposits(),
        forall|j: int, i: int|
            0 <= j < batches.len() && 0 <= i < batches[j].len() ==> marks.covers_within(
                #[trigger] batches[j][i],
            ),
        shades_closely(
            shade,
            color,
            opacity.clamped_spec(none(), Scalar { bits: ONE }),
            error,
        ),
        0 as real <= error,
        0 <= k <= batches.len(),
    ensures
        in_bounds(&seen[k], &shown[0], &shown[k]),
        forall|x: int, y: int|
            under_ceiling(
                color,
                opacity.clamped_spec(none(), Scalar { bits: ONE }),
                error,
                shown[0].pixel(x, y),
                #[trigger] shown[k].pixel(x, y),
            ),
    decreases k,
{
    if k == 0 {
        lemma_a_fresh_stroke_is_in_bounds(&seen[0], &shown[0]);
        let ceiling = opacity.clamped_spec(none(), Scalar { bits: ONE });
        assert forall|x: int, y: int| under_ceiling(
            color,
            ceiling,
            error,
            shown[0].pixel(x, y),
            #[trigger] shown[k].pixel(x, y),
        ) by {
            lemma_left_alone_is_under_a_ceiling(color, ceiling, error, shown[0].pixel(x, y));
        }
    } else {
        let j = k - 1;
        lemma_within_its_ceiling(
            marks,
            shade,
            color,
            opacity,
            batches,
            laid,
            seen,
            shown,
            error,
            j,
        );
        assert(laid[j].wf());
        lemma_a_batch_stays_in_bounds(
            marks,
            batches[j],
            &shown[0],
            &seen[j],
            &shown[j],
            &laid[j],
        );
        lemma_a_composite_stays_in_bounds(
            shade,
            color,
            opacity,
            &shown[0],
            &laid[j],
            &shown[j],
            &seen[k],
            &shown[k],
            error,
        );
    }
}

/// Opacity is a ceiling for the whole stroke, composited once: however many batches of dabs were laid
/// before that, no pixel ends further than the opacity of the way from what it was before the stroke
/// toward the stroke's colour, but for what one shading is rounded by.
pub proof fn law_a_stroke_composited_once_never_passes_its_ceiling<
    B: Fn(Dab) -> Bounds,
    C: Fn(Dab, i32, i32) -> Scalar,
    D: Fn(Scalar, Scalar, Scalar) -> Scalar,
    S: Fn(Rgba, Scalar, Scalar, Texel) -> Texel,
>(
    marks: &Marks<B, C, D>,
    shade: &S,
    color: Rgba,
    opacity: Scalar,
    batches: Seq<Seq<Dab>>,
    canvas: Canvas,
    painters: Seq<StrokePainter>,
    at_once: Canvas,
    error: real,
)
    requires
        undisturbed(marks, &canvas, batches, painters),
        painters[0].fresh(),
        painters[0].wf(),
        at_once.paints(
            &canvas,
            composite_hits(&painters.last(), &canvas),
            composite_shades(&painters.last(), shade, color, opacity),
        ),
        !opacity.nan(),
        marks.rounds_deposits(),
        forall|j: int, i: int|
            0 <= j < batches.len() && 0 <= i < batches[j].len() ==> marks.covers_within(
                #[trigger] batches[j][i],
            ),
        shades_closely(
            shade,
            color,
            opacity.clamped_spec(none(), Scalar { bits: ONE }),
            error,
        ),
        0 as real <= error,
    ensures
        forall|x: int, y: int|
            under_ceiling(
                color,
                opacity.clamped_spec(none(), Scalar { bits: ONE }),
                error,
                canvas.pixel(x, y),
                #[trigger] at_once.pixel(x, y),
            ),
{
    let n = batches.len() as int;
    lemma_batches_stay_in_bounds(marks, batches, &canvas, painters, n);
    let last = painters.last();
    let ceiling = opacity.clamped_spec(none(), Scalar { bits: ONE });
    assert(in_unit(ceiling));
    assert forall|x: int, y: int| under_ceiling(
        color,
        ceiling,
        error,
        canvas.pixel(x, y),
        #[trigger] at_once.pixel(x, y),
    ) by {
        lemma_left_alone_is_under_a_ceiling(color, ceiling, error, canvas.pixel(x, y));
        if composite_hits(&last, &canvas)(x, y) {
            lemma_paint_is_kept(&last, x, y);
            assert(last.kept().contains_key(tile_holding(x, y)));
            lemma_earlier(&last, &canvas, x, y);
            assert(in_unit(last.amount(x, y)));
            lemma_one_shading_is_under_its_ceiling(
                shade,
                color,
                ceiling,
                error,
                last.amount(x, y),
                canvas.pixel(x, y),
            );
        }
    }
}

/// After some batches with no composite, a stroke is in bounds.
proof fn lemma_batches_stay_in_bounds<
    B: Fn(Dab) -> Bounds,
    C: Fn(Dab, i32, i32) -> Scalar,
    D: Fn(Scalar, Scalar, Scalar) -> Scalar,
>(
    marks: &Marks<B, C, D>,
    batches: Seq<Seq<Dab>>,
    canvas: &Canvas,
    painters: Seq<StrokePainter>,
    k: int,
)
    requires
        undisturbed(marks, canvas, batches, painters),
        painters[0].fresh(),
        painters[0].wf(),
        marks.rounds_deposits(),
        forall|j: int, i: int|
            0 <= j < batches.len() && 0 <= i < batches[j].len() ==> marks.covers_within(
                #[trigger] batches[j][i],
            ),
        0 <= k <= batches.len(),
    ensures
        in_bounds(&painters[k], canvas, canvas),
    decreases k,
{
    if k == 0 {
        lemma_a_fresh_stroke_is_in_bounds(&painters[0], canvas);
    } else {
        let j = k - 1;
        lemma_batches_stay_in_bounds(marks, batches, canvas, painters, j);
        assert(painters[j + 1].lays(
            &painters[j],
            canvas,
            batch_hits(marks, canvas, batches[j]),
            batch_amounts(marks, canvas, batches[j], &painters[j]),
        ));
        lemma_a_batch_stays_in_bounds(
            marks,
            batches[j],
            canvas,
            &painters[j],
            canvas,
            &painters[k],
        );
    }
}

/// Paint on paint is paint: a pixel that a stroke has painted stays painted, so previews of the stroke
/// do not disturb it.
pub proof fn law_paint_on_paint_is_paint<
    B: Fn(Dab) -> Bounds,
    C: Fn(Dab, i32, i32) -> Scalar,
    D: Fn(Scalar, Scalar, Scalar) -> Scalar,
>(
    marks: &Marks<B, C, D>,
    batches: Seq<Seq<Dab>>,
    canvas: Canvas,
    painters: Seq<StrokePainter>,
)
    requires
        undisturbed(marks, &canvas, batches, painters),
        painters[0].fresh(),
        painters[0].wf(),
        marks.rounds_deposits(),
        forall|j: int, i: int|
            0 <= j < batches.len() && 0 <= i < batches[j].len() ==> marks.covers_within(
                #[trigger] batches[j][i],
            ),
    ensures
        forall|k: int, x: int, y: int|
            0 <= k < batches.len() && !(#[trigger] painters[k].amount(x, y)).at_most(none())
                ==> !painters[k + 1].amount(x, y).at_most(none()),
{
    assert forall|k: int, x: int, y: int|
        0 <= k < batches.len() && !(#[trigger] painters[k].amount(x, y)).at_most(
            none(),
        ) implies !painters[k + 1].amount(x, y).at_most(none()) by {
        lemma_batches_stay_in_bounds(marks, batches, &canvas, painters, k);
        let paint = painters[k].amount(x, y);
        assert(painters[k + 1].lays(
            &painters[k],
            &canvas,
            batch_hits(marks, &canvas, batches[k]),
            batch_amounts(marks, &canvas, batches[k], &painters[k]),
        ));
        assert(in_unit(paint));
        assert forall|i: int| 0 <= i < batches[k].len() implies marks.covers_within(
            #[trigger] batches[k][i],
        ) by {}
        lemma_paint_stays(marks, &canvas, batches[k], x, y, paint);
        let now = painters[k + 1].amount(x, y);
    }
}

/// A dab paints every pixel it covers. Whatever its radius and its flow, so long as both are above
/// zero, each canvas pixel within its bounds that it covers at all is left with what the deposit of
/// its flow, held to at most one, at that coverage makes of the paint that was there, and its tile
/// waits to be shown.
pub proof fn law_a_dab_paints_what_it_covers<
    B: Fn(Dab) -> Bounds,
    C: Fn(Dab, i32, i32) -> Scalar,
    D: Fn(Scalar, Scalar, Scalar) -> Scalar,
>(
    marks: &Marks<B, C, D>,
    canvas: &Canvas,
    dab: Dab,
    before: &StrokePainter,
    after: &StrokePainter,
    x: i32,
    y: i32,
    bounds: Bounds,
    flow: Scalar,
    cover: Scalar,
    laid: Scalar,
)
    requires
        marks.steady(),
        after.lays(
            before,
            canvas,
            dab_hits(marks, canvas, dab),
            dab_amounts(marks, dab, before),
        ),
        marks.bounds.ensures((dab,), bounds),
        marks.coverage.ensures((dab, x, y), cover),
        marks.deposit.ensures((flow, cover, before.amount(x as int, y as int)), laid),
        0 < dab.radius.bits <= 0x7F80_0000,
        0 < dab.flow.bits <= 0x7F80_0000,
        flow.bits == if dab.flow.bits <= 0x3F80_0000 {
            dab.flow.bits
        } else {
            0x3F80_0000
        },
        0 < cover.bits <= 0x7F80_0000,
        bounds.min_x <= x <= bounds.max_x,
        bounds.min_y <= y <= bounds.max_y,
        canvas.size().0 <= i32::MAX,
        canvas.size().1 <= i32::MAX,
        0 <= x < canvas.size().0,
        0 <= y < canvas.size().1,
    ensures
        after.amount(x as int, y as int) == laid,
        after.waiting().contains(((x as int) / 256, (y as int) / 256)),
{
    let hits = dab_hits(marks, canvas, dab);
    assert(marks.cover_at(dab, x as int, y as int) == cover);
    assert(dab.steady_flow() == flow);
    assert(hits(x as int, y as int));
    assert(tile_holding(x as int, y as int) == ((x as int) / 256, (y as int) / 256));
    assert(hit_in(hits, tile_holding(x as int, y as int)));
    assert(after.waiting().contains(tile_holding(x as int, y as int)));
}

/// A dab paints nothing else. A pixel off the canvas, or outside the dab's bounds, or that it does not
/// cover, keeps the paint it had, and so does every pixel where the dab has no radius or no flow.
pub proof fn law_a_dab_paints_nothing_else<
    B: Fn(Dab) -> Bounds,
    C: Fn(Dab, i32, i32) -> Scalar,
    D: Fn(Scalar, Scalar, Scalar) -> Scalar,
>(
    marks: &Marks<B, C, D>,
    canvas: &Canvas,
    dab: Dab,
    before: &StrokePainter,
    after: &StrokePainter,
    x: i32,
    y: i32,
    bounds: Bounds,
    cover: Scalar,
)
    requires
        marks.steady(),
        after.lays(
            before,
            canvas,
            dab_hits(marks, canvas, dab),
            dab_amounts(marks, dab, before),
        ),
        marks.bounds.ensures((dab,), bounds),
        marks.coverage.ensures((dab, x, y), cover),
        canvas.size().0 <= i32::MAX,
        canvas.size().1 <= i32::MAX,
        ({
            ||| x < 0 || y < 0 || x >= canvas.size().0 || y >= canvas.size().1
            ||| x < bounds.min_x || x > bounds.max_x || y < bounds.min_y || y > bounds.max_y
            ||| dab.radius.bits == 0 || 0x8000_0000 <= dab.radius.bits <= 0xFF80_0000
            ||| dab.flow.bits == 0 || 0x8000_0000 <= dab.flow.bits <= 0xFF80_0000
            ||| cover.bits == 0 || 0x8000_0000 <= cover.bits <= 0xFF80_0000
        }),
    ensures
        after.amount(x as int, y as int) == before.amount(x as int, y as int),
{
    let hits = dab_hits(marks, canvas, dab);
    assert(marks.cover_at(dab, x as int, y as int) == cover);
    assert(!hits(x as int, y as int));
}

/// A batch of dabs is its dabs in order: laying all of them and laying the last by itself on top of the
/// others leave the same paint everywhere, and no dabs leave what there was.
pub proof fn law_a_batch_is_its_dabs_in_order<
    B: Fn(Dab) -> Bounds,
    C: Fn(Dab, i32, i32) -> Scalar,
    D: Fn(Scalar, Scalar, Scalar) -> Scalar,
>(
    marks: &Marks<B, C, D>,
    canvas: &Canvas,
    dabs: Seq<Dab>,
    more: Dab,
    before: &StrokePainter,
    idle: &StrokePainter,
    some: &StrokePainter,
    one_on: &StrokePainter,
    all: &StrokePainter,
    x: int,
    y: int,
)
    requires
        idle.lays(
            before,
            canvas,
            batch_hits(marks, canvas, Seq::empty()),
            batch_amounts(marks, canvas, Seq::empty(), before),
        ),
        some.lays(
            before,
            canvas,
            batch_hits(marks, canvas, dabs),
            batch_amounts(marks, canvas, dabs, before),
        ),
        one_on.lays(
            some,
            canvas,
            dab_hits(marks, canvas, more),
            dab_amounts(marks, more, some),
        ),
        all.lays(
            before,
            canvas,
            batch_hits(marks, canvas, dabs.push(more)),
            batch_amounts(marks, canvas, dabs.push(more), before),
        ),
    ensures
        idle.amount(x, y) == before.amount(x, y),
        all.amount(x, y) == one_on.amount(x, y),
{
    let longer = dabs.push(more);
    let under = before.amount(x, y);
    assert(longer.drop_last() =~= dabs);
    let first = batch_hits(marks, canvas, dabs);
    let both = batch_hits(marks, canvas, longer);
    if !first(x, y) {
        lemma_built_elsewhere(marks, canvas, dabs, x, y, under);
    }
    if first(x, y) {
        let i = choose|i: int|
            0 <= i < dabs.len() && marks.leaves_paint(canvas, #[trigger] dabs[i], x, y);
        assert(longer[i] == dabs[i]);
    }
    if marks.leaves_paint(canvas, more, x, y) {
        assert(longer[dabs.len() as int] == more);
    }
    if both(x, y) {
        let i = choose|i: int|
            0 <= i < longer.len() && marks.leaves_paint(canvas, #[trigger] longer[i], x, y);
        assert(i < dabs.len() ==> longer[i] == dabs[i]);
    }
    assert(some.amount(x, y) == built(marks, canvas, dabs, x, y, under));
}

/// A stroke shows where it has paint, and only there: compositing puts its colour, at the amount of
/// paint and under the opacity held from none to all, over each canvas pixel of a waiting tile as that
/// pixel was before the stroke, and leaves every other pixel alone.
pub proof fn law_paint_shows_over_what_was_there<S: Fn(Rgba, Scalar, Scalar, Texel) -> Texel>(
    shade: &S,
    color: Rgba,
    opacity: Scalar,
    p: &StrokePainter,
    canvas: &Canvas,
    shown: &Canvas,
    x: int,
    y: int,
    ceiling: Scalar,
    under: Texel,
    over: Texel,
)
    requires
        shades_steadily(shade),
        shown.paints(
            canvas,
            composite_hits(p, canvas),
            composite_shades(p, shade, color, opacity),
        ),
        opacity.bits <= 0x7F80_0000,
        ceiling.bits == if opacity.bits <= 0x3F80_0000 {
            opacity.bits
        } else {
            0x3F80_0000
        },
        p.kept().contains_key((x / 256, y / 256)),
        under == p.kept()[(x / 256, y / 256)].pixel(x % 256, y % 256),
        shade.ensures((color, p.amount(x, y), ceiling, under), over),
        canvas.size().0 <= i32::MAX,
        canvas.size().1 <= i32::MAX,
    ensures
        p.waiting().contains((x / 256, y / 256)) && 0 <= x < canvas.size().0 && 0 <= y
            < canvas.size().1 && 0 < p.amount(x, y).bits <= 0x7F80_0000 ==> shown.pixel(x, y)
            == over,
        !p.waiting().contains((x / 256, y / 256)) || p.amount(x, y).bits == 0 || x < 0 || y < 0 || x
            >= canvas.size().0 || y >= canvas.size().1 ==> shown.pixel(x, y) == canvas.pixel(x, y),
{
    assert(tile_holding(x, y) == (x / 256, y / 256));
    assert(p.earlier(x, y) == under);
    assert(opacity.clamped_spec(none(), Scalar { bits: ONE }) == ceiling);
    let hits = composite_hits(p, canvas);
    let shades = composite_shades(p, shade, color, opacity);
    assert(shades(x, y) == over);
    assert(shown.pixel(x, y) == if hits(x, y) {
        shades(x, y)
    } else {
        canvas.pixel(x, y)
    });
}

/// None of the way is where it started, and all of the way is where it was going.
pub proof fn law_part_of_the_way_is_between_the_ends(from: real, to: real)
    ensures
        toward(from, to, 0 as real) == from,
        toward(from, to, 1 as real) == to,
{
    let by = to - from;
    assert((0 as real) * by == 0 as real && (1 as real) * by == by) by (nonlinear_arith);
}

} // verus!
