//! Finding the region under a point: the magic wand, and therefore the bucket.
//!
//! Filling is trivial once a [`Selection`] exists. What a bucket adds is *which pixels*, and that is
//! this module. The wand keeps the mask; the bucket fills it and throws it away.
//!
//! [`flood`] asks a closure for pixels, so whether the answer refers to the composite or to one
//! layer is a decision for the caller.
//!
//! A line drawn with a soft brush ramps from ink to paper over two or three pixels. `tolerance`
//! decides how far up the ramp counts as still the same region, and `expand` grows the finished
//! region back under the ink that was excluded.

use vstd::prelude::*;

use crate::grid::Grid;
use crate::page::PageRect;
use crate::selection::Selection;

verus! {

/// A predicate on page pixels.
pub type Pixels = spec_fn(int, int) -> bool;

/// Whether two pixels touch along an edge.
pub open spec fn adjacent(p: (int, int), q: (int, int)) -> bool {
    ||| p.1 == q.1 && (p.0 == q.0 + 1 || q.0 == p.0 + 1)
    ||| p.0 == q.0 && (p.1 == q.1 + 1 || q.1 == p.1 + 1)
}

/// Whether a sequence of pixels is a walk: each is one of `m`, and touches the next along an edge.
pub open spec fn walk(m: Pixels, path: Seq<(int, int)>) -> bool {
    &&& path.len() > 0
    &&& forall|i: int| 0 <= i < path.len() ==> m((#[trigger] path[i]).0, path[i].1)
    &&& forall|i: int|
        0 <= i && i + 1 < path.len() ==> adjacent(#[trigger] path[i], path[i + 1])
}

/// Whether a walk leads from one pixel to another.
pub open spec fn connected(m: Pixels, from: (int, int), to: (int, int)) -> bool {
    exists|path: Seq<(int, int)>| #[trigger]
        walk(m, path) && path.first() == from && path.last() == to
}

/// The square of the distance between two pixels.
pub open spec fn distance2(p: (int, int), q: (int, int)) -> int {
    (p.0 - q.0) * (p.0 - q.0) + (p.1 - q.1) * (p.1 - q.1)
}

/// The colour a sampler gives for a page pixel.
pub open spec fn colour<F: Fn(i32, i32) -> [u8; 3]>(sample: &F, x: i32, y: i32) -> [u8; 3] {
    choose|c: [u8; 3]| sample.ensures((x, y), c)
}

/// Whether a sampler answers on the whole page, and always the same about one pixel.
pub open spec fn steady<F: Fn(i32, i32) -> [u8; 3]>(sample: &F, page: PageRect) -> bool {
    &&& forall|x: i32, y: i32|
        page.has(x as int, y as int) ==> #[trigger] sample.requires((x, y))
    &&& forall|x: i32, y: i32, c: [u8; 3]|
        page.has(x as int, y as int) && #[trigger] sample.ensures((x, y), c) ==> c == colour(
            sample,
            x,
            y,
        )
}

/// Whether the colour named for a page pixel is one that the sampler gave.
pub open spec fn answered<F: Fn(i32, i32) -> [u8; 3]>(sample: &F, x: int, y: int) -> bool {
    sample.ensures((x as i32, y as i32), colour(sample, x as i32, y as i32))
}

/// How far two bytes are apart.
pub open spec fn apart(a: u8, b: u8) -> int {
    if a <= b {
        b - a
    } else {
        a - b
    }
}

/// Whether two colours are within `tolerance` on every channel.
pub open spec fn alike(a: [u8; 3], b: [u8; 3], tolerance: u8) -> bool {
    apart(a[0], b[0]) <= tolerance && apart(a[1], b[1]) <= tolerance && apart(a[2], b[2])
        <= tolerance
}

/// The page pixels whose colour is within `tolerance` of a target.
pub open spec fn matcher<F: Fn(i32, i32) -> [u8; 3]>(
    page: PageRect,
    sample: &F,
    target: [u8; 3],
    tolerance: u8,
) -> Pixels {
    |x: int, y: int| page.has(x, y) && alike(
        colour(sample, x as i32, y as i32),
        target,
        tolerance,
    )
}

/// The pixels of similar colour connected to the seed.
pub open spec fn region<F: Fn(i32, i32) -> [u8; 3]>(
    page: PageRect,
    seed: (int, int),
    tolerance: u8,
    sample: &F,
) -> Pixels {
    |x: int, y: int|
        connected(
            matcher(page, sample, colour(sample, seed.0 as i32, seed.1 as i32), tolerance),
            seed,
            (x, y),
        )
}

/// Whether a pixel is at most `radius` away from a pixel of a region.
pub open spec fn grown(region: Pixels, radius: int, x: int, y: int) -> bool {
    exists|q: (int, int)| #[trigger]
        region(q.0, q.1) && distance2((x, y), q) <= radius * radius
}

/// A walk goes on to any matching pixel that its end touches.
pub proof fn lemma_step(m: Pixels, from: (int, int), p: (int, int), q: (int, int))
    requires
        connected(m, from, p),
        adjacent(p, q),
        m(q.0, q.1),
    ensures
        connected(m, from, q),
{
    let path = choose|path: Seq<(int, int)>| #[trigger]
        walk(m, path) && path.first() == from && path.last() == p;
    let longer = path.push(q);
    assert(walk(m, longer));
    assert(longer.first() == from && longer.last() == q);
}

/// What holds of the start, and of each matching pixel that touches one it holds of, holds of
/// everything a walk leads to.
pub proof fn lemma_closed(m: Pixels, s: Pixels, path: Seq<(int, int)>)
    requires
        walk(m, path),
        s(path.first().0, path.first().1),
        forall|p: (int, int), q: (int, int)|
            #![trigger s(p.0, p.1), m(q.0, q.1)]
            s(p.0, p.1) && m(q.0, q.1) && adjacent(p, q) ==> s(q.0, q.1),
    ensures
        s(path.last().0, path.last().1),
    decreases path.len(),
{
    if path.len() > 1 {
        let shorter = path.drop_last();
        assert(walk(m, shorter)) by {
            assert forall|i: int| 0 <= i && i + 1 < shorter.len() implies adjacent(
                #[trigger] shorter[i],
                shorter[i + 1],
            ) by {
                assert(adjacent(path[i], path[i + 1]));
            }
        }
        lemma_closed(m, s, shorter);
        let p = path[path.len() - 2];
        let q = path[path.len() - 1];
        assert(adjacent(path[path.len() - 2], path[path.len() - 2 + 1]));
        assert(shorter.last() == p);
        assert(m(q.0, q.1));
    }
}

/// Whether every pixel of a row from one column to another, in either direction, is one of `m`.
pub open spec fn run(m: Pixels, a: int, b: int, y: int) -> bool {
    forall|t: int| (a <= t <= b || b <= t <= a) ==> #[trigger] m(t, y)
}

/// A walk goes on along a row of matching pixels.
proof fn lemma_run_connected(m: Pixels, from: (int, int), a: int, b: int, y: int)
    requires
        connected(m, from, (a, y)),
        run(m, a, b, y),
    ensures
        connected(m, from, (b, y)),
    decreases (if a <= b { b - a } else { a - b }),
{
    if a < b {
        assert(m(a + 1, y));
        lemma_step(m, from, (a, y), (a + 1, y));
        lemma_run_connected(m, from, a + 1, b, y);
    } else if b < a {
        assert(m(a - 1, y));
        lemma_step(m, from, (a, y), (a - 1, y));
        lemma_run_connected(m, from, a - 1, b, y);
    }
}

/// Whether a page pixel is marked on a grid over the page.
spec fn marked(g: Grid, page: PageRect, x: int, y: int) -> bool {
    page.has(x, y) && g.at(x - page.x, y - page.y)
}

/// Whether the grid is one over the page.
spec fn over(g: Grid, page: PageRect) -> bool {
    &&& g.wf()
    &&& g.cols() == page.w
    &&& g.rows() == page.h
    &&& page.bounded()
    &&& page.w <= i32::MAX
    &&& page.h <= i32::MAX
}

/// Whether matching neighbours in a row are marked together: runs are claimed whole.
spec fn whole_runs(g: Grid, page: PageRect, m: Pixels) -> bool {
    forall|x: int, y: int|
        #![trigger m(x, y), m(x + 1, y)]
        m(x, y) && m(x + 1, y) ==> marked(g, page, x, y) == marked(g, page, x + 1, y)
}

/// One matching pixel of a row carries its mark to the next ones.
proof fn lemma_run_marked(g: Grid, page: PageRect, m: Pixels, a: int, b: int, y: int)
    requires
        whole_runs(g, page, m),
        run(m, a, b, y),
    ensures
        marked(g, page, a, y) == marked(g, page, b, y),
    decreases (if a <= b { b - a } else { a - b }),
{
    if a < b {
        assert(m(a, y) && m(a + 1, y));
        lemma_run_marked(g, page, m, a + 1, b, y);
    } else if b < a {
        assert(m(a - 1, y) && m(a - 1 + 1, y));
        lemma_run_marked(g, page, m, a - 1, b, y);
    }
}

/// Whether a waiting seed will claim a pixel: it stands in the same run.
spec fn waiting(stack: Seq<(i32, i32)>, m: Pixels, x: int, y: int) -> bool {
    exists|i: int|
        0 <= i < stack.len() && (#[trigger] stack[i]).1 == y && run(m, stack[i].0 as int, x, y)
}

/// Whether every matching pixel above or below a marked one is marked or waited for.
spec fn rows_offered(g: Grid, page: PageRect, m: Pixels, stack: Seq<(i32, i32)>) -> bool {
    forall|x: int, y: int, ny: int|
        #![trigger marked(g, page, x, y), m(x, ny)]
        marked(g, page, x, y) && m(x, ny) && (ny == y + 1 || ny == y - 1) ==> marked(
            g,
            page,
            x,
            ny,
        ) || waiting(stack, m, x, ny)
}

/// Whether every marked pixel is connected to the seed.
spec fn marks_connected(g: Grid, page: PageRect, m: Pixels, seed: (int, int)) -> bool {
    forall|x: int, y: int| #[trigger] marked(g, page, x, y) ==> connected(m, seed, (x, y))
}

/// Whether every waiting seed matches and is connected to the first one.
spec fn seeds_connected(stack: Seq<(i32, i32)>, m: Pixels, seed: (int, int)) -> bool {
    forall|i: int|
        0 <= i < stack.len() ==> {
            let p = #[trigger] stack[i];
            m(p.0 as int, p.1 as int) && connected(m, seed, (p.0 as int, p.1 as int))
        }
}

/// Whether the sampler was asked about every marked pixel and every waiting seed.
spec fn marks_answered<F: Fn(i32, i32) -> [u8; 3]>(
    sample: &F,
    page: PageRect,
    g: Grid,
    stack: Seq<(i32, i32)>,
) -> bool {
    &&& forall|x: int, y: int| #[trigger] marked(g, page, x, y) ==> answered(sample, x, y)
    &&& forall|i: int|
        0 <= i < stack.len() ==> answered(
            sample,
            (#[trigger] stack[i]).0 as int,
            stack[i].1 as int,
        )
}

/// Whether the sampler was asked about every pixel that touches a marked one.
spec fn borders_answered<F: Fn(i32, i32) -> [u8; 3]>(
    sample: &F,
    page: PageRect,
    g: Grid,
) -> bool {
    forall|p: (int, int), q: (int, int)|
        #![trigger marked(g, page, p.0, p.1), answered(sample, q.0, q.1)]
        marked(g, page, p.0, p.1) && adjacent(p, q) && page.has(q.0, q.1) ==> answered(
            sample,
            q.0,
            q.1,
        )
}

/// What a walk ends on matches.
proof fn lemma_connected_matches(m: Pixels, from: (int, int), p: (int, int))
    requires
        connected(m, from, p),
    ensures
        m(p.0, p.1),
{
    let path = choose|path: Seq<(int, int)>| #[trigger]
        walk(m, path) && path.first() == from && path.last() == p;
    let last = path[path.len() - 1];
}

/// Whether two colours are within `tolerance` on every channel.
///
/// Largest single-channel difference rather than a Euclidean distance: it is what the artist can
/// predict from the number, and it never calls two colours similar because their differences were
/// spread thinly across three channels.
pub fn similar(a: [u8; 3], b: [u8; 3], tolerance: u8) -> (r: bool)
    ensures
        r == alike(a, b, tolerance),
{
    near(a[0], b[0], tolerance) && near(a[1], b[1], tolerance) && near(a[2], b[2], tolerance)
}

/// Whether two bytes are within `tolerance`.
fn near(a: u8, b: u8, tolerance: u8) -> (r: bool)
    ensures
        r == (apart(a, b) <= tolerance),
{
    if a <= b {
        b - a <= tolerance
    } else {
        a - b <= tolerance
    }
}

/// Whether a page pixel matches the target.
fn matches_at<F: Fn(i32, i32) -> [u8; 3]>(
    page: PageRect,
    sample: &F,
    target: [u8; 3],
    tolerance: u8,
    x: i32,
    y: i32,
) -> (r: bool)
    requires
        page.has(x as int, y as int),
        steady(sample, page),
    ensures
        r == (matcher(page, sample, target, tolerance))(x as int, y as int),
        answered(sample, x as int, y as int),
{
    let c = sample(x, y);
    similar(c, target, tolerance)
}

/// Whether a page pixel is marked.
fn is_marked(g: &Grid, page: PageRect, x: i32, y: i32) -> (r: bool)
    requires
        over(*g, page),
        page.has(x as int, y as int),
    ensures
        r == marked(*g, page, x as int, y as int),
{
    g.get((x as i64 - page.x as i64) as usize, (y as i64 - page.y as i64) as usize)
}

/// The whole run of matching pixels that a pixel sits in.
fn widen<F: Fn(i32, i32) -> [u8; 3]>(
    g: &Grid,
    page: PageRect,
    sample: &F,
    target: [u8; 3],
    tolerance: u8,
    sx: i32,
    sy: i32,
) -> (r: (i32, i32))
    requires
        over(*g, page),
        steady(sample, page),
        page.has(sx as int, sy as int),
        matcher(page, sample, target, tolerance)(sx as int, sy as int),
        !marked(*g, page, sx as int, sy as int),
        whole_runs(*g, page, matcher(page, sample, target, tolerance)),
        forall|x: int, y: int| #[trigger] marked(*g, page, x, y) ==> answered(sample, x, y),
        answered(sample, sx as int, sy as int),
    ensures
        forall|x: int|
            r.0 - 1 <= x <= r.1 + 1 && page.has(x, sy as int) ==> #[trigger] answered(
                sample,
                x,
                sy as int,
            ),
        ({
            let m = matcher(page, sample, target, tolerance);
            &&& r.0 <= sx <= r.1
            &&& page.has(r.0 as int, sy as int)
            &&& page.has(r.1 as int, sy as int)
            &&& run(m, r.0 as int, r.1 as int, sy as int)
            &&& !m(r.0 - 1, sy as int)
            &&& !m(r.1 + 1, sy as int)
        }),
{
    let ghost m = matcher(page, sample, target, tolerance);
    let (ex, ey) = page.end();
    let mut x0: i32 = sx;
    while x0 > page.x && !is_marked(g, page, x0 - 1, sy) && matches_at(
        page,
        sample,
        target,
        tolerance,
        x0 - 1,
        sy,
    )
        invariant
            over(*g, page),
            steady(sample, page),
            m == matcher(page, sample, target, tolerance),
            page.has(sx as int, sy as int),
            page.x <= x0 <= sx,
            run(m, x0 as int, sx as int, sy as int),
            forall|x: int, y: int| #[trigger] marked(*g, page, x, y) ==> answered(sample, x, y),
            forall|x: int| x0 <= x <= sx ==> #[trigger] answered(sample, x, sy as int),
        decreases x0 - page.x,
    {
        x0 -= 1;
    }
    let mut x1: i32 = sx;
    while x1 + 1 < ex && !is_marked(g, page, x1 + 1, sy) && matches_at(
        page,
        sample,
        target,
        tolerance,
        x1 + 1,
        sy,
    )
        invariant
            over(*g, page),
            steady(sample, page),
            m == matcher(page, sample, target, tolerance),
            page.has(sx as int, sy as int),
            ex == page.end_x(),
            sx <= x1 < ex,
            run(m, sx as int, x1 as int, sy as int),
            forall|x: int, y: int| #[trigger] marked(*g, page, x, y) ==> answered(sample, x, y),
            forall|x: int| sx <= x <= x1 ==> #[trigger] answered(sample, x, sy as int),
        decreases ex - x1,
    {
        x1 += 1;
    }
    proof {
        lemma_run_marked(*g, page, m, sx as int, x0 as int, sy as int);
        lemma_run_marked(*g, page, m, sx as int, x1 as int, sy as int);
        if m(x0 - 1, sy as int) {
            assert(m(x0 - 1, sy as int) && m(x0 - 1 + 1, sy as int));
        }
        if m(x1 + 1, sy as int) {
            assert(m(x1 as int, sy as int) && m(x1 + 1, sy as int));
        }
        assert forall|t: int| (x0 <= t <= x1 || x1 <= t <= x0) implies #[trigger] m(
            t,
            sy as int,
        ) by {
            if t <= sx {
                assert(run(m, x0 as int, sx as int, sy as int));
            } else {
                assert(run(m, sx as int, x1 as int, sy as int));
            }
        }
    }
    (x0, x1)
}

/// Mark a run of a row.
fn claim(g: &mut Grid, page: PageRect, x0: i32, x1: i32, y: i32)
    requires
        over(*old(g), page),
        x0 <= x1,
        page.has(x0 as int, y as int),
        page.has(x1 as int, y as int),
        !marked(*old(g), page, x0 as int, y as int),
    ensures
        over(*final(g), page),
        final(g).blanks() < old(g).blanks(),
        forall|px: int, py: int| #[trigger]
            marked(*final(g), page, px, py) == (marked(*old(g), page, px, py) || (py == y && x0
                <= px <= x1)),
{
    let row: usize = (y as i64 - page.y as i64) as usize;
    let mut x: i64 = x0 as i64;
    while x <= x1 as i64
        invariant
            over(*g, page),
            x0 <= x1,
            page.has(x0 as int, y as int),
            page.has(x1 as int, y as int),
            row == y - page.y,
            x0 <= x <= x1 + 1,
            !marked(*old(g), page, x0 as int, y as int),
            g.blanks() <= old(g).blanks(),
            x > x0 ==> g.blanks() < old(g).blanks(),
            forall|px: int, py: int| #[trigger]
                marked(*g, page, px, py) == (marked(*old(g), page, px, py) || (py == y && x0 <= px
                    < x)),
        decreases x1 - x + 1,
    {
        let ghost before = *g;
        let column: usize = (x - page.x as i64) as usize;
        assert(marked(before, page, x as int, y as int) == before.at(column as int, row as int));
        g.mark(column, row);
        assert forall|px: int, py: int| #[trigger] marked(*g, page, px, py) == (marked(
            *old(g),
            page,
            px,
            py,
        ) || (py == y && x0 <= px < x + 1)) by {
            let b = marked(before, page, px, py);
        }
        x += 1;
    }
}

/// Leave one waiting seed for each run of a row that matches and is not yet marked.
///
/// One seed per *run* of matching pixels, not one per pixel: without that, a wide region pushes its
/// whole width onto the stack twice over.
fn offer<F: Fn(i32, i32) -> [u8; 3]>(
    g: &Grid,
    stack: &mut Vec<(i32, i32)>,
    page: PageRect,
    sample: &F,
    target: [u8; 3],
    tolerance: u8,
    x0: i32,
    x1: i32,
    y: i32,
)
    requires
        over(*g, page),
        steady(sample, page),
        x0 <= x1,
        page.has(x0 as int, y as int),
        page.has(x1 as int, y as int),
        marks_answered(sample, page, *g, old(stack)@),
    ensures
        marks_answered(sample, page, *g, final(stack)@),
        forall|x: int| x0 <= x <= x1 ==> #[trigger] answered(sample, x, y as int),
        ({
            let m = matcher(page, sample, target, tolerance);
            &&& old(stack)@.len() <= final(stack)@.len()
            &&& forall|i: int|
                0 <= i < old(stack)@.len() ==> #[trigger] final(stack)@[i] == old(stack)@[i]
            &&& forall|i: int|
                old(stack)@.len() <= i < final(stack)@.len() ==> {
                    let p = #[trigger] final(stack)@[i];
                    p.1 == y && x0 <= p.0 <= x1 && m(p.0 as int, p.1 as int)
                }
            &&& forall|x: int| #![trigger m(x, y as int)]
                x0 <= x <= x1 && m(x, y as int) ==> marked(*g, page, x, y as int) || waiting(
                    final(stack)@,
                    m,
                    x,
                    y as int,
                )
        }),
{
    let ghost m = matcher(page, sample, target, tolerance);
    let mut x: i64 = x0 as i64;
    while x <= x1 as i64
        invariant
            over(*g, page),
            steady(sample, page),
            m == matcher(page, sample, target, tolerance),
            page.has(x0 as int, y as int),
            page.has(x1 as int, y as int),
            x0 <= x <= x1 + 1,
            marks_answered(sample, page, *g, stack@),
            forall|t: int| x0 <= t < x ==> #[trigger] answered(sample, t, y as int),
            old(stack)@.len() <= stack@.len(),
            forall|i: int| 0 <= i < old(stack)@.len() ==> #[trigger] stack@[i] == old(stack)@[i],
            forall|i: int|
                old(stack)@.len() <= i < stack@.len() ==> {
                    let p = #[trigger] stack@[i];
                    p.1 == y && x0 <= p.0 <= x1 && m(p.0 as int, p.1 as int)
                },
            forall|t: int| #![trigger m(t, y as int)]
                x0 <= t < x && m(t, y as int) ==> marked(*g, page, t, y as int) || waiting(
                    stack@,
                    m,
                    t,
                    y as int,
                ),
        decreases x1 - x + 1,
    {
        let here: i32 = x as i32;
        if !is_marked(g, page, here, y) && matches_at(page, sample, target, tolerance, here, y) {
            let ghost earlier = stack@;
            stack.push((here, y));
            assert forall|t: int| #![trigger m(t, y as int)]
                x0 <= t < x && m(t, y as int) implies marked(*g, page, t, y as int) || waiting(
                stack@,
                m,
                t,
                y as int,
            ) by {
                if !marked(*g, page, t, y as int) {
                    let i = choose|i: int|
                        0 <= i < earlier.len() && (#[trigger] earlier[i]).1 == y && run(
                            m,
                            earlier[i].0 as int,
                            t,
                            y as int,
                        );
                    assert(stack@[i] == earlier[i]);
                }
            }
            // Skip the rest of this run; widening will claim it.
            while x <= x1 as i64 && matches_at(page, sample, target, tolerance, x as i32, y)
                invariant
                    over(*g, page),
                    steady(sample, page),
                    m == matcher(page, sample, target, tolerance),
                    page.has(x0 as int, y as int),
                    page.has(x1 as int, y as int),
                    x0 <= here <= x <= x1 + 1,
                    forall|t: int| x0 <= t < x ==> #[trigger] answered(sample, t, y as int),
                    here <= x1,
                    stack@ == earlier.push((here, y)),
                    m(here as int, y as int),
                    forall|t: int| here <= t < x ==> #[trigger] m(t, y as int),
                    forall|t: int| #![trigger m(t, y as int)]
                        x0 <= t < x && m(t, y as int) ==> marked(*g, page, t, y as int) || waiting(
                            stack@,
                            m,
                            t,
                            y as int,
                        ),
                ensures
                    x > here,
                decreases x1 - x + 1,
            {
                let ghost i = stack@.len() - 1;
                assert(stack@[i].1 == y && run(m, stack@[i].0 as int, x as int, y as int));
                assert(waiting(stack@, m, x as int, y as int));
                x += 1;
            }
        } else {
            x += 1;
        }
    }
}

/// Mark the region of similar colour connected to a seed.
fn trace<F: Fn(i32, i32) -> [u8; 3]>(
    page: PageRect,
    seed: (i32, i32),
    tolerance: u8,
    sample: &F,
) -> (inside: Grid)
    requires
        page.bounded(),
        page.has(seed.0 as int, seed.1 as int),
        page.w * page.h <= usize::MAX,
        steady(sample, page),
    ensures
        over(inside, page),
        forall|x: int, y: int| #[trigger]
            marked(inside, page, x, y) == region(page, (seed.0 as int, seed.1 as int), tolerance, sample)(x, y),
        marks_answered(sample, page, inside, Seq::empty()),
        borders_answered(sample, page, inside),
{
    let target = sample(seed.0, seed.1);
    let ghost m = matcher(page, sample, target, tolerance);
    let ghost start = (seed.0 as int, seed.1 as int);
    let ghost found = region(page, start, tolerance, sample);
    assert(target == colour(sample, start.0 as i32, start.1 as i32));

    let mut inside = Grid::new(page.w as usize, page.h as usize);
    let mut stack: Vec<(i32, i32)> = Vec::new();
    stack.push(seed);
    proof {
        let path = seq![start];
        assert(walk(m, path));
        assert(path.first() == start && path.last() == start);
        assert(connected(m, start, start));
        assert(stack@[0] == seed);
        assert(waiting(stack@, m, start.0, start.1)) by {
            assert(run(m, stack@[0].0 as int, start.0, start.1));
        }
        assert forall|x: int, y: int| !marked(inside, page, x, y) by {}
        assert(answered(sample, start.0, start.1));
    }
    let (ex, ey) = page.end();
    loop
        invariant
            over(inside, page),
            steady(sample, page),
            m == matcher(page, sample, target, tolerance),
            ey == page.end_y(),
            marks_connected(inside, page, m, start),
            seeds_connected(stack@, m, start),
            whole_runs(inside, page, m),
            rows_offered(inside, page, m, stack@),
            marks_answered(sample, page, inside, stack@),
            borders_answered(sample, page, inside),
            marked(inside, page, start.0, start.1) || waiting(stack@, m, start.0, start.1),
        ensures
            stack@.len() == 0,
        decreases inside.blanks(), stack@.len(),
    {
        let ghost before = stack@;
        let popped = stack.pop();
        let (sx, sy) = match popped {
            None => {
                break;
            },
            Some(p) => p,
        };
        let ghost rest = stack@;
        assert(before.last() == (sx, sy));
        assert(before[before.len() - 1] == (sx, sy));
        assert(forall|i: int| 0 <= i < rest.len() ==> rest[i] == before[i]);
        if is_marked(&inside, page, sx, sy) {
            proof {
                assert forall|x: int, y: int| waiting(before, m, x, y) implies marked(
                    inside,
                    page,
                    x,
                    y,
                ) || #[trigger] waiting(rest, m, x, y) by {
                    lemma_waiting(inside, page, m, before, x, y);
                }
            }
        } else {
            let (x0, x1) = widen(&inside, page, sample, target, tolerance, sx, sy);
            let ghost held = inside;
            proof {
                lemma_run_marked(held, page, m, sx as int, x0 as int, sy as int);
            }
            claim(&mut inside, page, x0, x1, sy);
            proof {
                lemma_claimed(held, inside, page, m, start, before, (sx, sy), x0 as int, x1 as int);
            }
            let ghost claimed = stack@;
            assert(marks_answered(sample, page, inside, claimed));
            if sy > page.y {
                offer(
                    &inside,
                    &mut stack,
                    page,
                    sample,
                    target,
                    tolerance,
                    x0,
                    x1,
                    sy - 1,
                );
            }
            proof {
                lemma_offered(
                    inside,
                    page,
                    m,
                    start,
                    claimed,
                    stack@,
                    (sx, sy),
                    x0 as int,
                    x1 as int,
                    sy - 1,
                );
            }
            let ghost above = stack@;
            if sy + 1 < ey {
                offer(
                    &inside,
                    &mut stack,
                    page,
                    sample,
                    target,
                    tolerance,
                    x0,
                    x1,
                    sy + 1,
                );
            }
            proof {
                lemma_offered(
                    inside,
                    page,
                    m,
                    start,
                    above,
                    stack@,
                    (sx, sy),
                    x0 as int,
                    x1 as int,
                    sy + 1,
                );
                assert forall|x: int, ny: int|
                    waiting(above, m, x, ny) implies #[trigger] waiting(stack@, m, x, ny) by {
                    lemma_still_waiting(above, stack@, m, x, ny);
                }
                assert forall|x: int, ny: int|
                    waiting(claimed, m, x, ny) implies #[trigger] waiting(above, m, x, ny) by {
                    lemma_still_waiting(claimed, above, m, x, ny);
                }
                assert forall|p: (int, int), q: (int, int)|
                    #![trigger marked(inside, page, p.0, p.1), answered(sample, q.0, q.1)]
                    marked(inside, page, p.0, p.1) && adjacent(p, q) && page.has(
                        q.0,
                        q.1,
                    ) implies answered(sample, q.0, q.1) by {
                    let b = marked(held, page, p.0, p.1);
                }
            }
        }
    }
    proof {
        let s: Pixels = |x: int, y: int| marked(inside, page, x, y);
        assert forall|p: (int, int), q: (int, int)|
            #![trigger s(p.0, p.1), m(q.0, q.1)]
            s(p.0, p.1) && m(q.0, q.1) && adjacent(p, q) implies s(q.0, q.1) by {
            lemma_connected_matches(m, start, p);
            if p.1 == q.1 {
                if p.0 == q.0 + 1 {
                    assert(m(q.0, q.1) && m(q.0 + 1, q.1));
                } else {
                    assert(m(p.0, p.1) && m(p.0 + 1, p.1));
                }
            } else {
                assert(marked(inside, page, p.0, p.1) && m(p.0, q.1));
                assert(!waiting(stack@, m, q.0, q.1));
            }
        }
        assert forall|x: int, y: int| #[trigger] marked(inside, page, x, y) == found(x, y) by {
            if found(x, y) {
                let path = choose|path: Seq<(int, int)>| #[trigger]
                    walk(m, path) && path.first() == start && path.last() == (x, y);
                assert(!waiting(stack@, m, start.0, start.1));
                lemma_closed(m, s, path);
            }
        }
    }
    inside
}

/// Whether a selection is what a flood from a seed finds: on the page the region under the seed,
/// grown outward, and nothing at all where the seed is off the page.
pub open spec fn floods<F: Fn(i32, i32) -> [u8; 3]>(
    s: Selection,
    page: PageRect,
    seed: (int, int),
    tolerance: u8,
    expand: int,
    sample: &F,
) -> bool {
    forall|x: int, y: int| #[trigger]
        s.cov(x, y) == if page.has(seed.0, seed.1) && page.has(x, y) && grown(
            region(page, seed, tolerance, sample),
            expand,
            x,
            y,
        ) {
            255u8
        } else {
            0
        }
}

/// Find the region of similar colour connected to `seed`.
///
/// `tolerance` is the largest per-channel difference from the seed colour that still counts as the
/// same region, in 0-255. `expand` grows the result outward afterwards, in pixels, up to the
/// largest radius whose square arithmetic stays in range.
///
/// Four-connected, so a region does not leak through a diagonal touch: a one-pixel gap on the
/// diagonal is almost always ink that nearly met rather than a way through.
pub fn flood<F: Fn(i32, i32) -> [u8; 3]>(
    page: PageRect,
    seed: (i32, i32),
    tolerance: u8,
    expand: u32,
    sample: F,
) -> (s: Selection)
    requires
        page.bounded(),
        page.has(seed.0 as int, seed.1 as int) ==> page.w * page.h <= usize::MAX && expand <= 32767
            && steady(&sample, page),
    ensures
        s.wf(),
        s.sparse(),
        floods(
            s,
            page,
            (seed.0 as int, seed.1 as int),
            tolerance,
            expand as int,
            &sample,
        ),
        // Every colour that decided it is one that the sampler gave.
        page.has(seed.0 as int, seed.1 as int) ==> forall|p: (int, int), q: (int, int)|
            #![trigger
                region(page, (seed.0 as int, seed.1 as int), tolerance, &sample)(p.0, p.1),
                answered(&sample, q.0, q.1)]
            region(page, (seed.0 as int, seed.1 as int), tolerance, &sample)(p.0, p.1) && (p == q
                || adjacent(p, q)) && page.has(q.0, q.1) ==> answered(&sample, q.0, q.1),
{
    if !page.contains(seed.0, seed.1) {
        return Selection::new();
    }
    let ghost start = (seed.0 as int, seed.1 as int);
    let ghost found = region(page, start, tolerance, &sample);
    let inside = trace(page, seed, tolerance, &sample);
    proof {
        assert forall|p: (int, int), q: (int, int)|
            #![trigger found(p.0, p.1), answered(&sample, q.0, q.1)]
            found(p.0, p.1) && (p == q || adjacent(p, q)) && page.has(q.0, q.1) implies answered(
            &sample,
            q.0,
            q.1,
        ) by {
            assert(marked(inside, page, p.0, p.1));
        }
    }
    let spread = if expand > 0 {
        dilate(&inside, expand)
    } else {
        inside.copy()
    };
    proof {
        assert forall|x: int, y: int| page.has(x, y) implies spread.at(x - page.x, y - page.y)
            == #[trigger] grown(found, expand as int, x, y) by {
            lemma_grown(inside, page, found, expand as int, x, y);
            if expand == 0 {
                lemma_reach_zero(inside, x - page.x, y - page.y);
            }
        }
    }
    let s = mask(&spread, page);
    s
}

/// Popping a seed that is already marked leaves every other pixel marked or waited for.
proof fn lemma_waiting(g: Grid, page: PageRect, m: Pixels, stack: Seq<(i32, i32)>, x: int, y: int)
    requires
        whole_runs(g, page, m),
        stack.len() > 0,
        marked(g, page, stack.last().0 as int, stack.last().1 as int),
        waiting(stack, m, x, y),
    ensures
        marked(g, page, x, y) || waiting(stack.drop_last(), m, x, y),
{
    let i = choose|i: int|
        0 <= i < stack.len() && (#[trigger] stack[i]).1 == y && run(m, stack[i].0 as int, x, y);
    if i == stack.len() - 1 {
        lemma_run_marked(g, page, m, stack[i].0 as int, x, y);
    } else {
        assert(stack.drop_last()[i] == stack[i]);
    }
}

/// A pixel waited for is still waited for once the stack has grown.
proof fn lemma_still_waiting(
    short: Seq<(i32, i32)>,
    long: Seq<(i32, i32)>,
    m: Pixels,
    x: int,
    y: int,
)
    requires
        short.len() <= long.len(),
        forall|i: int| 0 <= i < short.len() ==> #[trigger] long[i] == short[i],
        waiting(short, m, x, y),
    ensures
        waiting(long, m, x, y),
{
    let i = choose|i: int|
        0 <= i < short.len() && (#[trigger] short[i]).1 == y && run(m, short[i].0 as int, x, y);
    assert(long[i] == short[i]);
}

/// Claiming the whole run of a seed keeps runs whole and marks connected, and leaves every matching
/// pixel above or below an earlier mark marked or waited for.
proof fn lemma_claimed(
    held: Grid,
    now: Grid,
    page: PageRect,
    m: Pixels,
    start: (int, int),
    before: Seq<(i32, i32)>,
    p: (i32, i32),
    x0: int,
    x1: int,
)
    requires
        before.len() > 0,
        before.last() == p,
        x0 <= p.0 <= x1,
        run(m, x0, x1, p.1 as int),
        !m(x0 - 1, p.1 as int),
        !m(x1 + 1, p.1 as int),
        marks_connected(held, page, m, start),
        seeds_connected(before, m, start),
        whole_runs(held, page, m),
        rows_offered(held, page, m, before),
        marked(held, page, start.0, start.1) || waiting(before, m, start.0, start.1),
        forall|px: int, py: int| #[trigger]
            marked(now, page, px, py) == (marked(held, page, px, py) || (py == p.1 && x0 <= px
                <= x1)),
    ensures
        marks_connected(now, page, m, start),
        seeds_connected(before.drop_last(), m, start),
        whole_runs(now, page, m),
        marked(now, page, start.0, start.1) || waiting(before.drop_last(), m, start.0, start.1),
        forall|x: int, y: int, ny: int|
            #![trigger marked(now, page, x, y), m(x, ny)]
            marked(now, page, x, y) && m(x, ny) && (ny == y + 1 || ny == y - 1) && !(y == p.1 && x0
                <= x <= x1) ==> marked(now, page, x, ny) || waiting(before.drop_last(), m, x, ny),
{
    let rest = before.drop_last();
    let y0 = p.1 as int;
    assert(before[before.len() - 1] == p);
    assert forall|x: int, y: int| #[trigger] marked(now, page, x, y) implies connected(
        m,
        start,
        (x, y),
    ) by {
        if !marked(held, page, x, y) {
            assert(run(m, p.0 as int, x, y0));
            lemma_run_connected(m, start, p.0 as int, x, y0);
        }
    }
    assert forall|i: int| 0 <= i < rest.len() implies {
        let q = #[trigger] rest[i];
        m(q.0 as int, q.1 as int) && connected(m, start, (q.0 as int, q.1 as int))
    } by {
        assert(rest[i] == before[i]);
    }
    assert forall|x: int, y: int|
        #![trigger m(x, y), m(x + 1, y)]
        m(x, y) && m(x + 1, y) implies marked(now, page, x, y) == marked(now, page, x + 1, y) by {
        if y == y0 {
            assert(x != x0 - 1 && x + 1 != x1 + 1);
        }
    }
    assert forall|x: int, y: int| #[trigger] waiting(before, m, x, y) implies marked(
        now,
        page,
        x,
        y,
    ) || waiting(rest, m, x, y) by {
        let i = choose|i: int|
            0 <= i < before.len() && (#[trigger] before[i]).1 == y && run(
                m,
                before[i].0 as int,
                x,
                y,
            );
        if i == before.len() - 1 {
            assert(run(m, p.0 as int, x, y0));
            if x < x0 {
                assert(m(x0 - 1, y0));
            }
            if x > x1 {
                assert(m(x1 + 1, y0));
            }
        } else {
            assert(rest[i] == before[i]);
        }
    }
    assert forall|x: int, y: int, ny: int|
        #![trigger marked(now, page, x, y), m(x, ny)]
        marked(now, page, x, y) && m(x, ny) && (ny == y + 1 || ny == y - 1) && !(y == p.1 && x0 <= x
            <= x1) implies marked(now, page, x, ny) || waiting(rest, m, x, ny) by {
        assert(marked(held, page, x, y));
        assert(marked(held, page, x, ny) || waiting(before, m, x, ny));
    }
}

/// Offering a row next to a claimed run leaves every seed connected, and every matching pixel of
/// that row beside the run marked or waited for. A row off the page has no matching pixel.
proof fn lemma_offered(
    g: Grid,
    page: PageRect,
    m: Pixels,
    start: (int, int),
    short: Seq<(i32, i32)>,
    long: Seq<(i32, i32)>,
    p: (i32, i32),
    x0: int,
    x1: int,
    ny: int,
)
    requires
        ny == p.1 + 1 || ny == p.1 - 1,
        forall|x: int, y: int| #[trigger] m(x, y) ==> page.has(x, y),
        marks_connected(g, page, m, start),
        forall|x: int| x0 <= x <= x1 ==> #[trigger] marked(g, page, x, p.1 as int),
        seeds_connected(short, m, start),
        short.len() <= long.len(),
        forall|i: int| 0 <= i < short.len() ==> #[trigger] long[i] == short[i],
        (page.y <= ny < page.end_y()) || long == short,
        forall|i: int|
            short.len() <= i < long.len() ==> {
                let q = #[trigger] long[i];
                q.1 == ny && x0 <= q.0 <= x1 && m(q.0 as int, q.1 as int)
            },
        page.y <= ny < page.end_y() ==> forall|x: int| #![trigger m(x, ny)]
            x0 <= x <= x1 && m(x, ny) ==> marked(g, page, x, ny) || waiting(long, m, x, ny),
    ensures
        seeds_connected(long, m, start),
        forall|x: int| #![trigger m(x, ny)]
            x0 <= x <= x1 && m(x, ny) ==> marked(g, page, x, ny) || waiting(long, m, x, ny),
{
    assert forall|i: int| 0 <= i < long.len() implies {
        let q = #[trigger] long[i];
        m(q.0 as int, q.1 as int) && connected(m, start, (q.0 as int, q.1 as int))
    } by {
        if i < short.len() {
            assert(long[i] == short[i]);
        } else {
            let q = long[i];
            assert(marked(g, page, q.0 as int, p.1 as int));
            lemma_step(m, start, (q.0 as int, p.1 as int), (q.0 as int, q.1 as int));
        }
    }
    assert forall|x: int| #![trigger m(x, ny)]
        x0 <= x <= x1 && m(x, ny) implies marked(g, page, x, ny) || waiting(long, m, x, ny) by {
        assert(page.has(x, ny));
    }
}

/// Whether a cell is at most `radius` away from a marked one.
pub open spec fn within_reach(g: &Grid, radius: int, x: int, y: int) -> bool {
    exists|q: (int, int)|
        g.on(q.0, q.1) && #[trigger] g.at(q.0, q.1) && distance2((x, y), q) <= radius * radius
}

/// Reaching no further than the cell itself is being marked.
proof fn lemma_reach_zero(g: Grid, x: int, y: int)
    requires
        g.on(x, y),
    ensures
        within_reach(&g, 0, x, y) == g.at(x, y),
{
    if g.at(x, y) {
        let q = (x, y);
        assert(g.on(q.0, q.1) && g.at(q.0, q.1) && distance2((x, y), q) <= 0 * 0);
    }
    if within_reach(&g, 0, x, y) {
        let q = choose|q: (int, int)|
            g.on(q.0, q.1) && #[trigger] g.at(q.0, q.1) && distance2((x, y), q) <= 0 * 0;
        let dx = x - q.0;
        let dy = y - q.1;
        assert(dx == 0 && dy == 0) by (nonlinear_arith)
            requires
                dx * dx + dy * dy <= 0,
        ;
    }
}

/// On a page, reaching from the marked cells is growing from the region they are.
proof fn lemma_grown(
    g: Grid,
    page: PageRect,
    found: Pixels,
    radius: int,
    x: int,
    y: int,
)
    requires
        over(g, page),
        page.has(x, y),
        forall|a: int, b: int| #[trigger] marked(g, page, a, b) == found(a, b),
    ensures
        within_reach(&g, radius, x - page.x, y - page.y) == grown(found, radius, x, y),
{
    if grown(found, radius, x, y) {
        let q = choose|q: (int, int)| #[trigger]
            found(q.0, q.1) && distance2((x, y), q) <= radius * radius;
        assert(marked(g, page, q.0, q.1));
        let l = (q.0 - page.x, q.1 - page.y);
        assert(g.on(l.0, l.1) && g.at(l.0, l.1));
        assert(distance2((x - page.x, y - page.y), l) == distance2((x, y), q));
    }
    if within_reach(&g, radius, x - page.x, y - page.y) {
        let l = choose|l: (int, int)|
            g.on(l.0, l.1) && #[trigger] g.at(l.0, l.1) && distance2(
                (x - page.x, y - page.y),
                l,
            ) <= radius * radius;
        let q = (l.0 + page.x, l.1 + page.y);
        assert(marked(g, page, q.0, q.1));
        assert(found(q.0, q.1));
        assert(distance2((x - page.x, y - page.y), l) == distance2((x, y), q));
    }
}

/// Whether a cell and its four neighbours are all marked.
spec fn interior(g: Grid, x: int, y: int) -> bool {
    &&& 0 < x
    &&& 0 < y
    &&& x + 1 < g.cols()
    &&& y + 1 < g.rows()
    &&& g.at(x, y)
    &&& g.at(x - 1, y)
    &&& g.at(x + 1, y)
    &&& g.at(x, y - 1)
    &&& g.at(x, y + 1)
}

/// Only edge cells can grow anything: from a marked cell, a walk towards an unmarked one meets an
/// edge of the marks no further away.
proof fn lemma_edge(g: Grid, p: (int, int), q: (int, int)) -> (e: (int, int))
    requires
        g.on(p.0, p.1),
        g.on(q.0, q.1),
        !g.at(p.0, p.1),
        g.at(q.0, q.1),
    ensures
        g.on(e.0, e.1),
        g.at(e.0, e.1),
        !interior(g, e.0, e.1),
        distance2(p, e) <= distance2(p, q),
    decreases
            (if p.0 <= q.0 {
                q.0 - p.0
            } else {
                p.0 - q.0
            }) + (if p.1 <= q.1 {
                q.1 - p.1
            } else {
                p.1 - q.1
            }),
{
    if !interior(g, q.0, q.1) {
        q
    } else {
        let dx = p.0 - q.0;
        let dy = p.1 - q.1;
        if dx > 0 {
            assert((dx - 1) * (dx - 1) <= dx * dx) by (nonlinear_arith)
                requires
                    dx > 0,
            ;
            lemma_edge(g, p, (q.0 + 1, q.1))
        } else if dx < 0 {
            assert((dx + 1) * (dx + 1) <= dx * dx) by (nonlinear_arith)
                requires
                    dx < 0,
            ;
            lemma_edge(g, p, (q.0 - 1, q.1))
        } else if dy > 0 {
            assert((dy - 1) * (dy - 1) <= dy * dy) by (nonlinear_arith)
                requires
                    dy > 0,
            ;
            lemma_edge(g, p, (q.0, q.1 + 1))
        } else {
            assert(dy < 0);
            assert((dy + 1) * (dy + 1) <= dy * dy) by (nonlinear_arith)
                requires
                    dy < 0,
            ;
            lemma_edge(g, p, (q.0, q.1 - 1))
        }
    }
}

/// Mark every cell at most `r` away from one.
fn stamp_disc(out: &mut Grid, x: usize, y: usize, r: i64)
    requires
        old(out).wf(),
        old(out).on(x as int, y as int),
        old(out).cols() <= i32::MAX,
        old(out).rows() <= i32::MAX,
        0 <= r <= 32767,
    ensures
        final(out).wf(),
        final(out).cols() == old(out).cols(),
        final(out).rows() == old(out).rows(),
        forall|a: int, b: int|
            old(out).on(a, b) ==> #[trigger] final(out).at(a, b) == (old(out).at(a, b) || distance2(
                (a, b),
                (x as int, y as int),
            ) <= r * r),
{
    let w: i64 = out.width() as i64;
    let h: i64 = out.height() as i64;
    assert(r * r <= 32767 * 32767) by (nonlinear_arith)
        requires
            0 <= r <= 32767,
    ;
    let r2: i64 = r * r;
    let mut dy: i64 = -r;
    while dy <= r
        invariant
            0 <= r <= 32767,
            r2 == r * r,
            -r <= dy <= r + 1,
            out.wf(),
            out.cols() == old(out).cols(),
            out.rows() == old(out).rows(),
            out.cols() <= i32::MAX,
            out.rows() <= i32::MAX,
            w == out.cols(),
            h == out.rows(),
            out.on(x as int, y as int),
            forall|a: int, b: int|
                out.on(a, b) ==> #[trigger] out.at(a, b) == (old(out).at(a, b) || (b - y < dy && b
                    - y >= -r && -r <= a - x <= r && distance2((a, b), (x as int, y as int)) <= r2)),
        decreases r - dy + 1,
    {
        let mut dx: i64 = -r;
        while dx <= r
            invariant
                0 <= r <= 32767,
                r2 == r * r,
                -r <= dy <= r,
                -r <= dx <= r + 1,
                out.wf(),
                out.cols() == old(out).cols(),
                out.rows() == old(out).rows(),
                out.cols() <= i32::MAX,
                out.rows() <= i32::MAX,
                w == out.cols(),
                h == out.rows(),
                out.on(x as int, y as int),
                forall|a: int, b: int|
                    out.on(a, b) ==> #[trigger] out.at(a, b) == (old(out).at(a, b) || (b - y >= -r
                        && -r <= a - x <= r && (b - y < dy || (b - y == dy && a - x < dx))
                        && distance2((a, b), (x as int, y as int)) <= r2)),
            decreases r - dx + 1,
        {
            assert(0 <= dx * dx <= 32767 * 32767 && 0 <= dy * dy <= 32767 * 32767)
                by (nonlinear_arith)
                requires
                    -32767 <= dx <= 32767,
                    -32767 <= dy <= 32767,
            ;
            if dx * dx + dy * dy <= r2 {
                let nx: i64 = x as i64 + dx;
                let ny: i64 = y as i64 + dy;
                if nx >= 0 && ny >= 0 && nx < w && ny < h {
                    out.mark(nx as usize, ny as usize);
                }
            }
            dx += 1;
        }
        dy += 1;
    }
    assert forall|a: int, b: int| out.on(a, b) implies #[trigger] out.at(a, b) == (old(out).at(a, b)
        || distance2((a, b), (x as int, y as int)) <= r * r) by {
        let ex = a - x;
        let ey = b - y;
        if distance2((a, b), (x as int, y as int)) <= r * r {
            assert(-r <= ex <= r && -r <= ey <= r) by (nonlinear_arith)
                requires
                    ex * ex + ey * ey <= r * r,
                    0 <= r,
            ;
        }
    }
}

/// Grow a region outward by `radius` pixels.
///
/// This is what puts colour *under* anti-aliased ink. A flood fill necessarily stops partway up the
/// edge ramp, leaving a pale fringe; expanding the region afterwards tucks it beneath the line.
/// Circular rather than square, so a curve does not grow corners.
pub fn dilate(inside: &Grid, radius: u32) -> (out: Grid)
    requires
        inside.wf(),
        inside.cols() <= i32::MAX,
        inside.rows() <= i32::MAX,
        radius <= 32767,
    ensures
        out.wf(),
        out.cols() == inside.cols(),
        out.rows() == inside.rows(),
        forall|x: int, y: int|
            inside.on(x, y) ==> #[trigger] out.at(x, y) == within_reach(
                inside,
                radius as int,
                x,
                y,
            ),
{
    let w: usize = inside.width();
    let h: usize = inside.height();
    let r: i64 = radius as i64;
    let mut out = inside.copy();
    let mut y: usize = 0;
    while y < h
        invariant
            inside.wf(),
            w == inside.cols(),
            h == inside.rows(),
            inside.cols() <= i32::MAX,
            inside.rows() <= i32::MAX,
            0 <= r <= 32767,
            y <= h,
            out.wf(),
            out.cols() == inside.cols(),
            out.rows() == inside.rows(),
            forall|a: int, b: int| inside.on(a, b) && inside.at(a, b) ==> #[trigger] out.at(a, b),
            forall|a: int, b: int|
                inside.on(a, b) && #[trigger] out.at(a, b) ==> inside.at(a, b) || within_reach(
                    inside,
                    r as int,
                    a,
                    b,
                ),
            forall|a: int, b: int, q: (int, int)|
                #![trigger out.at(a, b), inside.at(q.0, q.1)]
                inside.on(a, b) && inside.on(q.0, q.1) && q.1 < y && inside.at(q.0, q.1)
                    && !interior(*inside, q.0, q.1) && distance2((a, b), q) <= r * r ==> out.at(
                    a,
                    b,
                ),
        decreases h - y,
    {
        let mut x: usize = 0;
        while x < w
            invariant
                inside.wf(),
                w == inside.cols(),
                h == inside.rows(),
                inside.cols() <= i32::MAX,
                inside.rows() <= i32::MAX,
                0 <= r <= 32767,
                y < h,
                x <= w,
                out.wf(),
                out.cols() == inside.cols(),
                out.rows() == inside.rows(),
                forall|a: int, b: int|
                    inside.on(a, b) && inside.at(a, b) ==> #[trigger] out.at(a, b),
                forall|a: int, b: int|
                    inside.on(a, b) && #[trigger] out.at(a, b) ==> inside.at(a, b) || within_reach(
                        inside,
                        r as int,
                        a,
                        b,
                    ),
                forall|a: int, b: int, q: (int, int)|
                    #![trigger out.at(a, b), inside.at(q.0, q.1)]
                    inside.on(a, b) && inside.on(q.0, q.1) && (q.1 < y || (q.1 == y && q.0 < x))
                        && inside.at(q.0, q.1) && !interior(*inside, q.0, q.1) && distance2(
                        (a, b),
                        q,
                    ) <= r * r ==> out.at(a, b),
            decreases w - x,
        {
            if inside.get(x, y) {
                // Skipping the interior is the difference between a pass over the region and a pass
                // over its perimeter.
                let buried = x > 0 && y > 0 && x + 1 < w && y + 1 < h && inside.get(x - 1, y)
                    && inside.get(x + 1, y) && inside.get(x, y - 1) && inside.get(x, y + 1);
                if !buried {
                    let ghost before = out;
                    stamp_disc(&mut out, x, y, r);
                    assert forall|a: int, b: int|
                        inside.on(a, b) && #[trigger] out.at(a, b) implies inside.at(a, b)
                        || within_reach(inside, r as int, a, b) by {
                        if !before.at(a, b) {
                            let q = (x as int, y as int);
                            assert(inside.on(q.0, q.1) && inside.at(q.0, q.1));
                        }
                    }
                    assert forall|a: int, b: int, q: (int, int)|
                        #![trigger out.at(a, b), inside.at(q.0, q.1)]
                        inside.on(a, b) && inside.on(q.0, q.1) && (q.1 < y || (q.1 == y && q.0 < x
                            + 1)) && inside.at(q.0, q.1) && !interior(*inside, q.0, q.1)
                            && distance2((a, b), q) <= r * r implies out.at(a, b) by {
                        let old_mark = before.at(a, b);
                    }
                }
            }
            x += 1;
        }
        y += 1;
    }
    assert forall|a: int, b: int| inside.on(a, b) implies #[trigger] out.at(a, b) == within_reach(
        inside,
        radius as int,
        a,
        b,
    ) by {
        if out.at(a, b) && inside.at(a, b) {
            let q = (a, b);
            assert(distance2((a, b), q) == 0);
            assert(0 <= r * r) by (nonlinear_arith);
            assert(inside.on(q.0, q.1) && inside.at(q.0, q.1));
        }
        if within_reach(inside, radius as int, a, b) && !inside.at(a, b) {
            let q = choose|q: (int, int)|
                inside.on(q.0, q.1) && #[trigger] inside.at(q.0, q.1) && distance2((a, b), q) <= r
                    * r;
            let e = lemma_edge(*inside, (a, b), q);
            assert(inside.at(e.0, e.1));
        }
    }
    out
}

/// The selection of a grid's marked cells, on the page the grid is over.
fn mask(g: &Grid, page: PageRect) -> (s: Selection)
    requires
        over(*g, page),
    ensures
        s.wf(),
        s.sparse(),
        forall|x: int, y: int| #[trigger]
            s.cov(x, y) == if marked(*g, page, x, y) {
                255u8
            } else {
                0
            },
{
    let w: usize = g.width();
    let h: usize = g.height();
    let mut out = Selection::new();
    let mut y: usize = 0;
    while y < h
        invariant
            over(*g, page),
            w == g.cols(),
            h == g.rows(),
            y <= h,
            out.wf(),
            out.sparse(),
            forall|px: int, py: int| #[trigger]
                out.cov(px, py) == if marked(*g, page, px, py) && py - page.y < y {
                    255u8
                } else {
                    0
                },
        decreases h - y,
    {
        let row: i32 = (page.y as i64 + y as i64) as i32;
        let mut x: usize = 0;
        while x < w
            invariant
                over(*g, page),
                w == g.cols(),
                h == g.rows(),
                y < h,
                x <= w,
                row == page.y + y,
                out.wf(),
                out.sparse(),
                forall|px: int, py: int| #[trigger]
                    out.cov(px, py) == if marked(*g, page, px, py) && (py - page.y < y || (py
                        - page.y == y && px - page.x < x)) {
                        255u8
                    } else {
                        0
                    },
            decreases w - x,
        {
            if !g.get(x, y) {
                x += 1;
            } else {
                let start: usize = x;
                while x < w && g.get(x, y)
                    invariant
                        over(*g, page),
                        w == g.cols(),
                        h == g.rows(),
                        y < h,
                        start <= x <= w,
                        start < w,
                        g.at(start as int, y as int),
                        forall|t: int| start <= t < x ==> #[trigger] g.at(t, y as int),
                    ensures
                        start < x,
                    decreases w - x,
                {
                    x += 1;
                }
                let count: usize = x - start;
                let full: Vec<u8> = vec![255u8; count];
                out.write_coverage_run(
                    (page.x as i64 + start as i64) as i32,
                    row,
                    full.as_slice(),
                );
            }
        }
        y += 1;
    }
    out
}

/// The seed is in the region it finds.
pub proof fn law_the_seed_is_found<F: Fn(i32, i32) -> [u8; 3]>(
    page: PageRect,
    seed: (int, int),
    tolerance: u8,
    sample: &F,
)
    requires
        page.has(seed.0, seed.1),
    ensures
        region(page, seed, tolerance, sample)(seed.0, seed.1),
{
    let m = matcher(page, sample, colour(sample, seed.0 as i32, seed.1 as i32), tolerance);
    let path = seq![seed];
    assert(walk(m, path));
    assert(path.first() == seed && path.last() == seed);
}

/// A region is on the page, is of similar colour throughout, and stops only where the colour does:
/// a pixel of similar colour that touches it along an edge is in it too.
pub proof fn law_a_region_is_bounded_by_its_outline<F: Fn(i32, i32) -> [u8; 3]>(
    page: PageRect,
    seed: (int, int),
    tolerance: u8,
    sample: &F,
    p: (int, int),
    q: (int, int),
)
    requires
        region(page, seed, tolerance, sample)(p.0, p.1),
    ensures
        page.has(p.0, p.1),
        alike(
            colour(sample, p.0 as i32, p.1 as i32),
            colour(sample, seed.0 as i32, seed.1 as i32),
            tolerance,
        ),
        adjacent(p, q) && page.has(q.0, q.1) && alike(
            colour(sample, q.0 as i32, q.1 as i32),
            colour(sample, seed.0 as i32, seed.1 as i32),
            tolerance,
        ) ==> region(page, seed, tolerance, sample)(q.0, q.1),
{
    let m = matcher(page, sample, colour(sample, seed.0 as i32, seed.1 as i32), tolerance);
    lemma_connected_matches(m, seed, p);
    if adjacent(p, q) && m(q.0, q.1) {
        lemma_step(m, seed, p, q);
    }
}

/// The page pixels whose colour on a picture is within `tolerance` of that of the seed.
pub open spec fn pictured(
    page: PageRect,
    picture: spec_fn(int, int) -> [u8; 3],
    seed: (int, int),
    tolerance: u8,
) -> Pixels {
    |x: int, y: int| page.has(x, y) && alike(picture(x, y), picture(seed.0, seed.1), tolerance)
}

/// A sampler that gives the colours of a picture finds the region of that picture: it is enough that
/// it does so on the region and along its border.
pub proof fn law_a_region_is_that_of_the_picture<F: Fn(i32, i32) -> [u8; 3]>(
    page: PageRect,
    seed: (int, int),
    tolerance: u8,
    sample: &F,
    picture: spec_fn(int, int) -> [u8; 3],
)
    requires
        page.has(seed.0, seed.1),
        forall|p: (int, int), q: (int, int)|
            #![trigger region(page, seed, tolerance, sample)(p.0, p.1), picture(q.0, q.1)]
            region(page, seed, tolerance, sample)(p.0, p.1) && (p == q || adjacent(p, q))
                && page.has(q.0, q.1) ==> colour(sample, q.0 as i32, q.1 as i32) == picture(
                q.0,
                q.1,
            ),
    ensures
        forall|x: int, y: int| #[trigger]
            region(page, seed, tolerance, sample)(x, y) == connected(
                pictured(page, picture, seed, tolerance),
                seed,
                (x, y),
            ),
{
    let m = matcher(page, sample, colour(sample, seed.0 as i32, seed.1 as i32), tolerance);
    let n = pictured(page, picture, seed, tolerance);
    let found = region(page, seed, tolerance, sample);
    law_the_seed_is_found(page, seed, tolerance, sample);
    assert(picture(seed.0, seed.1) == colour(sample, seed.0 as i32, seed.1 as i32));
    assert forall|x: int, y: int| #[trigger] found(x, y) == connected(n, seed, (x, y)) by {
        if found(x, y) {
            // Every step of the walk matches on the picture too.
            let s: Pixels = |a: int, b: int| found(a, b) && connected(n, seed, (a, b));
            let path = choose|path: Seq<(int, int)>| #[trigger]
                walk(m, path) && path.first() == seed && path.last() == (x, y);
            let lone = seq![seed];
            assert(walk(n, lone) && lone.first() == seed && lone.last() == seed);
            assert forall|p: (int, int), q: (int, int)|
                #![trigger s(p.0, p.1), m(q.0, q.1)]
                s(p.0, p.1) && m(q.0, q.1) && adjacent(p, q) implies s(q.0, q.1) by {
                lemma_step(m, seed, p, q);
                assert(found(p.0, p.1) && picture(q.0, q.1) == colour(
                    sample,
                    q.0 as i32,
                    q.1 as i32,
                ));
                lemma_step(n, seed, p, q);
            }
            lemma_closed(m, s, path);
        }
        if connected(n, seed, (x, y)) {
            let path = choose|path: Seq<(int, int)>| #[trigger]
                walk(n, path) && path.first() == seed && path.last() == (x, y);
            assert forall|p: (int, int), q: (int, int)|
                #![trigger found(p.0, p.1), n(q.0, q.1)]
                found(p.0, p.1) && n(q.0, q.1) && adjacent(p, q) implies found(q.0, q.1) by {
                assert(picture(q.0, q.1) == colour(sample, q.0 as i32, q.1 as i32));
                lemma_step(m, seed, p, q);
            }
            lemma_closed(n, found, path);
        }
    }
}

/// A looser tolerance climbs at least as far: whatever a tight one finds, a loose one finds.
pub proof fn law_a_looser_tolerance_finds_no_less<F: Fn(i32, i32) -> [u8; 3]>(
    page: PageRect,
    seed: (int, int),
    tight: u8,
    loose: u8,
    sample: &F,
    x: int,
    y: int,
)
    requires
        tight <= loose,
        region(page, seed, tight, sample)(x, y),
    ensures
        region(page, seed, loose, sample)(x, y),
{
    let target = colour(sample, seed.0 as i32, seed.1 as i32);
    let m = matcher(page, sample, target, tight);
    let n = matcher(page, sample, target, loose);
    let path = choose|path: Seq<(int, int)>| #[trigger]
        walk(m, path) && path.first() == seed && path.last() == (x, y);
    assert forall|i: int| 0 <= i < path.len() implies n((#[trigger] path[i]).0, path[i].1) by {
        assert(m(path[i].0, path[i].1));
    }
    assert(walk(n, path));
}

/// Growing a region by nothing leaves it as it is, and growing it further never takes a pixel away.
pub proof fn law_growing_only_adds(found: Pixels, less: int, more: int, x: int, y: int)
    requires
        0 <= less <= more,
    ensures
        grown(found, 0, x, y) == found(x, y),
        grown(found, less, x, y) ==> grown(found, more, x, y),
{
    if found(x, y) {
        let q = (x, y);
        assert(found(q.0, q.1) && distance2((x, y), q) <= 0 * 0);
    }
    if grown(found, 0, x, y) {
        let q = choose|q: (int, int)| #[trigger]
            found(q.0, q.1) && distance2((x, y), q) <= 0 * 0;
        let dx = x - q.0;
        let dy = y - q.1;
        assert(dx == 0 && dy == 0) by (nonlinear_arith)
            requires
                dx * dx + dy * dy <= 0,
        ;
    }
    if grown(found, less, x, y) {
        let q = choose|q: (int, int)| #[trigger]
            found(q.0, q.1) && distance2((x, y), q) <= less * less;
        assert(less * less <= more * more) by (nonlinear_arith)
            requires
                0 <= less <= more,
        ;
        assert(found(q.0, q.1) && distance2((x, y), q) <= more * more);
    }
}

/// What a flood that expands selects is what one that does not selects, and every page pixel no
/// further than the expansion from a pixel of that.
pub proof fn law_expanding_grows_the_flood<F: Fn(i32, i32) -> [u8; 3]>(
    page: PageRect,
    seed: (int, int),
    tolerance: u8,
    expand: int,
    sample: &F,
    base: Selection,
    spread: Selection,
    x: int,
    y: int,
)
    requires
        floods(base, page, seed, tolerance, 0, sample),
        floods(spread, page, seed, tolerance, expand, sample),
    ensures
        spread.cov(x, y) == if page.has(x, y) && exists|u: int, v: int| #[trigger]
            base.cov(u, v) == 255 && (x - u) * (x - u) + (y - v) * (y - v) <= expand * expand {
            255u8
        } else {
            0
        },
{
    let found = region(page, seed, tolerance, sample);
    if page.has(seed.0, seed.1) && grown(found, expand, x, y) {
        let q = choose|q: (int, int)| #[trigger]
            found(q.0, q.1) && distance2((x, y), q) <= expand * expand;
        law_a_region_is_bounded_by_its_outline(page, seed, tolerance, sample, q, q);
        law_growing_only_adds(found, 0, 0, q.0, q.1);
        assert(base.cov(q.0, q.1) == 255);
    }
    if exists|u: int, v: int| #[trigger]
        base.cov(u, v) == 255 && distance2((x, y), (u, v)) <= expand * expand {
        let (u, v) = choose|u: int, v: int| #[trigger]
            base.cov(u, v) == 255 && distance2((x, y), (u, v)) <= expand * expand;
        law_growing_only_adds(found, 0, 0, u, v);
        let q = (u, v);
        assert(found(q.0, q.1));
    }
}

/// A walk back is a walk.
proof fn lemma_walk_back(m: Pixels, path: Seq<(int, int)>)
    requires
        walk(m, path),
    ensures
        walk(m, path.reverse()),
        path.reverse().first() == path.last(),
        path.reverse().last() == path.first(),
{
    let back = path.reverse();
    assert forall|i: int| 0 <= i < back.len() implies m((#[trigger] back[i]).0, back[i].1) by {
        assert(back[i] == path[path.len() - 1 - i]);
    }
    assert forall|i: int| 0 <= i && i + 1 < back.len() implies adjacent(
        #[trigger] back[i],
        back[i + 1],
    ) by {
        let j = path.len() - 2 - i;
        assert(back[i] == path[j + 1] && back[i + 1] == path[j]);
        assert(adjacent(path[j], path[j + 1]));
    }
}

/// A walk to a pixel goes on as any walk from there.
proof fn lemma_walk_on(m: Pixels, p: (int, int), q: (int, int), r: (int, int))
    requires
        connected(m, p, q),
        connected(m, q, r),
    ensures
        connected(m, p, r),
{
    let a = choose|path: Seq<(int, int)>| #[trigger]
        walk(m, path) && path.first() == p && path.last() == q;
    let b = choose|path: Seq<(int, int)>| #[trigger]
        walk(m, path) && path.first() == q && path.last() == r;
    let all = a + b.skip(1);
    assert forall|i: int| 0 <= i < all.len() implies m((#[trigger] all[i]).0, all[i].1) by {
        if i < a.len() {
            assert(all[i] == a[i]);
        } else {
            assert(all[i] == b[i - a.len() + 1]);
        }
    }
    assert forall|i: int| 0 <= i && i + 1 < all.len() implies adjacent(
        #[trigger] all[i],
        all[i + 1],
    ) by {
        if i + 1 < a.len() {
            assert(all[i] == a[i] && all[i + 1] == a[i + 1]);
        } else {
            let j = i - a.len() + 1;
            assert(all[i] == b[j] && all[i + 1] == b[j + 1]);
            assert(adjacent(b[j], b[j + 1]));
        }
    }
    assert(walk(m, all));
    assert(all.first() == p && all.last() == r);
}

/// Which pixel of a region's own colour a flood starts from makes no difference.
pub proof fn law_a_region_is_the_same_from_within<F: Fn(i32, i32) -> [u8; 3]>(
    page: PageRect,
    seed: (int, int),
    other: (int, int),
    tolerance: u8,
    sample: &F,
)
    requires
        region(page, seed, tolerance, sample)(other.0, other.1),
        colour(sample, other.0 as i32, other.1 as i32) == colour(
            sample,
            seed.0 as i32,
            seed.1 as i32,
        ),
    ensures
        forall|x: int, y: int| #[trigger]
            region(page, other, tolerance, sample)(x, y) == region(page, seed, tolerance, sample)(
                x,
                y,
            ),
{
    let m = matcher(page, sample, colour(sample, seed.0 as i32, seed.1 as i32), tolerance);
    let path = choose|path: Seq<(int, int)>| #[trigger]
        walk(m, path) && path.first() == seed && path.last() == other;
    lemma_walk_back(m, path);
    assert(connected(m, other, seed));
    assert forall|x: int, y: int| #[trigger] region(page, other, tolerance, sample)(x, y) == region(
        page,
        seed,
        tolerance,
        sample,
    )(x, y) by {
        if connected(m, other, (x, y)) {
            lemma_walk_on(m, seed, other, (x, y));
        }
        if connected(m, seed, (x, y)) {
            lemma_walk_on(m, other, seed, (x, y));
        }
    }
}

/// Whether a colour is no further than a tolerance from another in any one of its three channels.
spec fn each_channel_near(a: [u8; 3], b: [u8; 3], tolerance: u8) -> bool {
    forall|i: int|
        0 <= i < 3 ==> -(tolerance as int) <= (#[trigger] a[i]) - b[i] && a[i] - b[i] <= tolerance
}

/// Similar is similar in each channel by itself: no channel makes up for another.
proof fn lemma_alike_channels(a: [u8; 3], b: [u8; 3], tolerance: u8)
    ensures
        alike(a, b, tolerance) == each_channel_near(a, b, tolerance),
{
    if alike(a, b, tolerance) {
        assert forall|i: int| 0 <= i < 3 implies -(tolerance as int) <= (#[trigger] a[i]) - b[i]
            && a[i] - b[i] <= tolerance by {
            assert(i == 0 || i == 1 || i == 2);
        }
    } else {
        let (a0, a1, a2) = (a[0], a[1], a[2]);
        assert(!each_channel_near(a, b, tolerance));
    }
}

/// Whether two colours are similar is a matter of each channel by itself: one that is out by more than
/// the tolerance is enough to tell them apart, whatever the others are. It is the same asked the other
/// way round, and a colour is similar to itself.
pub proof fn law_one_channel_tells_colours_apart(a: [u8; 3], b: [u8; 3], tolerance: u8, i: int)
    requires
        0 <= i < 3,
    ensures
        a[i] - b[i] > tolerance || b[i] - a[i] > tolerance ==> !alike(a, b, tolerance),
        (forall|j: int|
            0 <= j < 3 ==> (#[trigger] a[j]) - b[j] <= tolerance && b[j] - a[j] <= tolerance)
            ==> alike(a, b, tolerance),
        alike(a, b, tolerance) == alike(b, a, tolerance),
        alike(a, a, tolerance),
{
    lemma_alike_channels(a, b, tolerance);
    lemma_alike_channels(b, a, tolerance);
    lemma_alike_channels(a, a, tolerance);
}

/// A flood stays within its tolerance: every pixel it covers is on the page and fully covered, and in
/// no channel is its colour further than the tolerance from that of the seed.
pub proof fn law_a_flood_stays_within_its_tolerance<F: Fn(i32, i32) -> [u8; 3]>(
    page: PageRect,
    seed: (i32, i32),
    tolerance: u8,
    sample: &F,
    s: Selection,
    x: i32,
    y: i32,
    seen: [u8; 3],
    start: [u8; 3],
)
    requires
        steady(sample, page),
        floods(s, page, (seed.0 as int, seed.1 as int), tolerance, 0, sample),
        s.cov(x as int, y as int) > 0,
        sample.ensures((x, y), seen),
        sample.ensures((seed.0, seed.1), start),
    ensures
        s.cov(x as int, y as int) == 255,
        page.has(x as int, y as int),
        page.has(seed.0 as int, seed.1 as int),
        forall|i: int|
            0 <= i < 3 ==> (#[trigger] seen[i]) - start[i] <= tolerance && start[i] - seen[i]
                <= tolerance,
{
    let at = (seed.0 as int, seed.1 as int);
    let found = region(page, at, tolerance, sample);
    law_growing_only_adds(found, 0, 0, x as int, y as int);
    law_a_region_is_bounded_by_its_outline(
        page,
        at,
        tolerance,
        sample,
        (x as int, y as int),
        (x as int, y as int),
    );
    lemma_alike_channels(seen, start, tolerance);
}

/// A flood goes wherever it may: from a pixel it covers on to every page pixel above, below or beside
/// it whose colour is no further than the tolerance from that of the seed in any channel. It begins
/// with the seed.
pub proof fn law_a_flood_goes_wherever_it_may<F: Fn(i32, i32) -> [u8; 3]>(
    page: PageRect,
    seed: (i32, i32),
    tolerance: u8,
    sample: &F,
    s: Selection,
    from: (i32, i32),
    to: (i32, i32),
    seen: [u8; 3],
    start: [u8; 3],
)
    requires
        steady(sample, page),
        floods(s, page, (seed.0 as int, seed.1 as int), tolerance, 0, sample),
        page.has(seed.0 as int, seed.1 as int),
        page.has(to.0 as int, to.1 as int),
        sample.ensures((to.0, to.1), seen),
        sample.ensures((seed.0, seed.1), start),
    ensures
        s.cov(seed.0 as int, seed.1 as int) == 255,
        ({
            &&& s.cov(from.0 as int, from.1 as int) > 0
            &&& (from.0 == to.0 && (from.1 - to.1 == 1 || to.1 - from.1 == 1)) || (from.1 == to.1
                && (from.0 - to.0 == 1 || to.0 - from.0 == 1))
            &&& forall|i: int|
                0 <= i < 3 ==> (#[trigger] seen[i]) - start[i] <= tolerance && start[i] - seen[i]
                    <= tolerance
        }) ==> s.cov(to.0 as int, to.1 as int) == 255,
{
    let at = (seed.0 as int, seed.1 as int);
    let (p, q) = ((from.0 as int, from.1 as int), (to.0 as int, to.1 as int));
    let found = region(page, at, tolerance, sample);
    law_the_seed_is_found(page, at, tolerance, sample);
    law_growing_only_adds(found, 0, 0, at.0, at.1);
    law_growing_only_adds(found, 0, 0, p.0, p.1);
    law_growing_only_adds(found, 0, 0, q.0, q.1);
    lemma_alike_channels(seen, start, tolerance);
    if found(p.0, p.1) {
        law_a_region_is_bounded_by_its_outline(page, at, tolerance, sample, p, q);
    }
}

/// A flood goes no further than it may: any set of pixels that has the seed in it, and that no step to
/// a page pixel above, below or beside one of its own and within the tolerance of the seed's colour in
/// each channel leaves, has the whole flood in it.
pub proof fn law_a_flood_goes_no_further<F: Fn(i32, i32) -> [u8; 3]>(
    page: PageRect,
    seed: (i32, i32),
    tolerance: u8,
    sample: &F,
    picture: spec_fn(int, int) -> [u8; 3],
    s: Selection,
    fence: Pixels,
)
    requires
        page.bounded(),
        steady(sample, page),
        floods(s, page, (seed.0 as int, seed.1 as int), tolerance, 0, sample),
        forall|x: i32, y: i32|
            page.has(x as int, y as int) ==> sample.ensures(
                (x, y),
                #[trigger] picture(x as int, y as int),
            ),
        fence(seed.0 as int, seed.1 as int),
        forall|x: int, y: int, u: int, v: int|
            #![trigger fence(x, y), fence(u, v)]
            ({
                let (a, b) = (picture(u, v), picture(seed.0 as int, seed.1 as int));
                &&& fence(x, y)
                &&& page.has(u, v)
                &&& (x == u && (y - v == 1 || v - y == 1)) || (y == v && (x - u == 1 || u - x == 1))
                &&& a[0] - b[0] <= tolerance && b[0] - a[0] <= tolerance
                &&& a[1] - b[1] <= tolerance && b[1] - a[1] <= tolerance
                &&& a[2] - b[2] <= tolerance && b[2] - a[2] <= tolerance
            }) ==> fence(u, v),
    ensures
        forall|x: int, y: int| #[trigger] s.cov(x, y) > 0 ==> fence(x, y),
{
    let at = (seed.0 as int, seed.1 as int);
    let found = region(page, at, tolerance, sample);
    let m = matcher(page, sample, colour(sample, seed.0, seed.1), tolerance);
    assert forall|x: int, y: int| #[trigger] s.cov(x, y) > 0 implies fence(x, y) by {
        law_growing_only_adds(found, 0, 0, x, y);
        assert(page.has(at.0, at.1));
        assert(sample.ensures((seed.0, seed.1), picture(seed.0 as int, seed.1 as int)));
        assert forall|p: (int, int), q: (int, int)|
            fence(p.0, p.1) && #[trigger] adjacent(p, q) && m(q.0, q.1) implies fence(q.0, q.1) by {
            let (u, v) = (q.0 as i32, q.1 as i32);
            assert(sample.ensures((u, v), picture(u as int, v as int)));
            lemma_alike_channels(picture(q.0, q.1), picture(at.0, at.1), tolerance);
            let a = picture(q.0, q.1);
            assert(a[0] == a[0] && a[1] == a[1] && a[2] == a[2]);
        }
        let path = choose|path: Seq<(int, int)>| #[trigger]
            walk(m, path) && path.first() == at && path.last() == (x, y);
        lemma_fenced_walk(m, fence, path, path.len() - 1);
    }
}

/// A walk that begins within a fence that no step leaves stays there.
proof fn lemma_fenced_walk(m: Pixels, fence: Pixels, path: Seq<(int, int)>, n: int)
    requires
        forall|p: (int, int), q: (int, int)|
            fence(p.0, p.1) && #[trigger] adjacent(p, q) && m(q.0, q.1) ==> fence(q.0, q.1),
        walk(m, path),
        fence(path.first().0, path.first().1),
        0 <= n < path.len(),
    ensures
        fence(path[n].0, path[n].1),
    decreases n,
{
    if n > 0 {
        lemma_fenced_walk(m, fence, path, n - 1);
        assert(adjacent(path[n - 1], path[n - 1 + 1]));
        assert(m(path[n].0, path[n].1));
    }
}

/// Growing marks by a radius marks exactly the cells no further from a mark than that, as the crow
/// flies.
pub proof fn law_dilating_reaches_a_distance(g: &Grid, radius: int, x: int, y: int)
    ensures
        within_reach(g, radius, x, y) <==> exists|u: int, v: int|
            g.on(u, v) && #[trigger] g.at(u, v) && (x - u) * (x - u) + (y - v) * (y - v) <= radius
                * radius,
{
    if exists|u: int, v: int|
        g.on(u, v) && #[trigger] g.at(u, v) && (x - u) * (x - u) + (y - v) * (y - v) <= radius
            * radius {
        let (u, v) = choose|u: int, v: int|
            g.on(u, v) && #[trigger] g.at(u, v) && (x - u) * (x - u) + (y - v) * (y - v) <= radius
                * radius;
        let q = (u, v);
        assert(g.on(q.0, q.1) && g.at(q.0, q.1) && distance2((x, y), q) <= radius * radius);
    }
}

} // verus!
