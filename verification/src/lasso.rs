//! The lasso: selecting the interior of a polygon.
//!
//! Which points are inside is decided by counting how many sides a point has to its right, and an odd
//! number means inside. Where a corner lies against a scanline, and on which side of a side a point
//! lies, are questions about real numbers: they come in as a [`Ruler`].

use vstd::prelude::*;

use crate::page::PageRect;
use crate::scalar::Scalar;
use crate::selection::{Selection, SUBSAMPLES};

verus! {

/// A corner of a polygon.
#[derive(Clone, Copy, Debug, PartialEq, Eq, Structural)]
pub struct Corner {
    pub x: Scalar,
    pub y: Scalar,
}

/// How corners and sides are measured against points, which are given in eighths of a pixel.
pub struct Ruler<U: Fn(Scalar, i64) -> bool, L: Fn(Corner, Corner, i64, i64) -> bool> {
    /// Whether a corner's height is greater than that of a point.
    pub above: U,
    /// Whether a point is to the left of where a side crosses its height, for a side that does.
    pub left: L,
}

impl<U: Fn(Scalar, i64) -> bool, L: Fn(Corner, Corner, i64, i64) -> bool> Ruler<U, L> {
    /// Whether the ruler answers every question, and the same question the same way.
    pub open spec fn steady(&self) -> bool {
        &&& forall|h: Scalar, y: i64| #[trigger] self.above.requires((h, y))
        &&& forall|h: Scalar, y: i64|
            #![trigger self.above.ensures((h, y), true)]
            !(self.above.ensures((h, y), true) && self.above.ensures((h, y), false))
        &&& forall|a: Corner, b: Corner, x: i64, y: i64| #[trigger]
            self.left.requires((a, b, x, y))
        &&& forall|a: Corner, b: Corner, x: i64, y: i64|
            #![trigger self.left.ensures((a, b, x, y), true)]
            !(self.left.ensures((a, b, x, y), true) && self.left.ensures((a, b, x, y), false))
    }

    /// Whether a corner's height is greater than that of a point.
    pub open spec fn is_above(&self, h: Scalar, y: i64) -> bool {
        self.above.ensures((h, y), true)
    }

    /// Whether a side is to the right of a point: it crosses the point's height, and the point is to
    /// the left of where it does. Half-open in height, so a corner exactly on the scanline counts
    /// once.
    pub open spec fn crosses(&self, a: Corner, b: Corner, x: i64, y: i64) -> bool {
        self.is_above(a.y, y) != self.is_above(b.y, y) && self.left.ensures((a, b, x, y), true)
    }

    /// Whether everything that decides if a side is to the right of a point was asked, so that what was
    /// not answered yes was answered no.
    pub open spec fn side_answered(&self, points: Seq<Corner>, i: int, x: i64, y: i64) -> bool {
        let a = points[i];
        let b = if i == 0 {
            points.last()
        } else {
            points[i - 1]
        };
        &&& self.above.ensures((a.y, y), self.is_above(a.y, y))
        &&& self.above.ensures((b.y, y), self.is_above(b.y, y))
        &&& self.is_above(a.y, y) != self.is_above(b.y, y) ==> self.left.ensures(
            (a, b, x, y),
            self.left.ensures((a, b, x, y), true),
        )
    }

    /// Whether everything was asked that decides if a point is inside a polygon.
    pub open spec fn answered(&self, points: Seq<Corner>, x: i64, y: i64) -> bool {
        forall|i: int| 0 <= i < points.len() ==> #[trigger] self.side_answered(points, i, x, y)
    }

    /// How many of the first `n` sides are to the right of a point. The side of a corner joins it to
    /// the one before, and the first to the last.
    pub open spec fn crossings(&self, points: Seq<Corner>, x: i64, y: i64, n: int) -> nat
        decreases n,
    {
        if n <= 0 {
            0
        } else {
            let before = if n == 1 {
                points.last()
            } else {
                points[n - 2]
            };
            self.crossings(points, x, y, n - 1) + if self.crosses(points[n - 1], before, x, y) {
                1nat
            } else {
                0nat
            }
        }
    }

    /// Whether a point is inside a polygon: an odd number of sides is to its right.
    pub open spec fn encloses(&self, points: Seq<Corner>, x: i64, y: i64) -> bool {
        self.crossings(points, x, y, points.len() as int) % 2 == 1
    }

    /// Whether everything was asked that decides if the first `n` subsamples of a pixel are inside a
    /// polygon.
    pub open spec fn samples_answered(&self, points: Seq<Corner>, x: int, y: int, n: int) -> bool {
        forall|i: int| 0 <= i < n ==> #[trigger] self.sample_answered(points, x, y, i)
    }

    /// Whether everything was asked that decides if one subsample of a pixel is inside a polygon.
    pub open spec fn sample_answered(&self, points: Seq<Corner>, x: int, y: int, i: int) -> bool {
        self.answered(
            points,
            (8 * x + 2 * (i % 4) + 1) as i64,
            (8 * y + 2 * (i / 4) + 1) as i64,
        )
    }

    /// How many of the first `n` subsamples of a pixel are inside a polygon.
    pub open spec fn enclosed(&self, points: Seq<Corner>, x: int, y: int, n: int) -> int
        decreases n,
    {
        if n <= 0 {
            0
        } else {
            let px = (8 * x + 2 * ((n - 1) % 4) + 1) as i64;
            let py = (8 * y + 2 * ((n - 1) / 4) + 1) as i64;
            self.enclosed(points, x, y, n - 1) + if self.encloses(points, px, py) {
                1int
            } else {
                0int
            }
        }
    }

    /// Whether a point is inside a polygon, by the even-odd rule, on an implicitly closed path.
    pub fn point_in_polygon(&self, x: i64, y: i64, points: &Vec<Corner>) -> (r: bool)
        requires
            self.steady(),
            points@.len() > 0,
        ensures
            r == self.encloses(points@, x, y),
            self.answered(points@, x, y),
    {
        let above = &self.above;
        let left = &self.left;
        let mut inside = false;
        let mut j: usize = points.len() - 1;
        let mut i: usize = 0;
        while i < points.len()
            invariant
                self.steady(),
                *above == self.above,
                *left == self.left,
                points@.len() > 0,
                i <= points@.len(),
                j == if i == 0 {
                    points@.len() - 1
                } else {
                    i - 1
                },
                inside == (self.crossings(points@, x, y, i as int) % 2 == 1),
                forall|k: int| 0 <= k < i ==> #[trigger] self.side_answered(points@, k, x, y),
            decreases points@.len() - i,
        {
            let a = points[i];
            let b = points[j];
            let up_a = above(a.y, y);
            let up_b = above(b.y, y);
            assert(up_a == self.is_above(a.y, y));
            assert(up_b == self.is_above(b.y, y));
            if up_a != up_b {
                let lies_left = left(a, b, x, y);
                assert(lies_left == self.left.ensures((a, b, x, y), true));
                if lies_left {
                    inside = !inside;
                }
            }
            assert(self.side_answered(points@, i as int, x, y));
            j = i;
            i += 1;
        }
        inside
    }

    /// How covered one pixel is by a polygon.
    fn sample(&self, points: &Vec<Corner>, x: i32, y: i32) -> (c: u8)
        requires
            self.steady(),
            points@.len() > 0,
        ensures
            c == self.enclosed(points@, x as int, y as int, 16) * 255 / 16,
            self.samples_answered(points@, x as int, y as int, 16),
    {
        let mut found: u32 = 0;
        let mut n: u32 = 0;
        while n < SUBSAMPLES * SUBSAMPLES
            invariant
                self.steady(),
                points@.len() > 0,
                n <= 16,
                found == self.enclosed(points@, x as int, y as int, n as int),
                self.samples_answered(points@, x as int, y as int, n as int),
                found <= n,
            decreases 16 - n,
        {
            let px: i64 = 8 * (x as i64) + 2 * ((n % SUBSAMPLES) as i64) + 1;
            let py: i64 = 8 * (y as i64) + 2 * ((n / SUBSAMPLES) as i64) + 1;
            if self.point_in_polygon(px, py, points) {
                found += 1;
            }
            assert(self.sample_answered(points@, x as int, y as int, n as int));
            n += 1;
        }
        (found * 255 / 16) as u8
    }
}

impl Selection {
    /// Select the interior of a polygon: the lasso.
    ///
    /// Implicitly closed: the last corner joins the first, because a lasso the artist did not quite
    /// close is one they meant to close. A point or a line encloses nothing.
    pub fn from_polygon<U: Fn(Scalar, i64) -> bool, L: Fn(Corner, Corner, i64, i64) -> bool>(
        points: &Vec<Corner>,
        page: PageRect,
        ruler: &Ruler<U, L>,
    ) -> (s: Selection)
        requires
            page.bounded(),
            ruler.steady(),
        ensures
            s.wf(),
            s.sparse(),
            forall|x: int, y: int| #[trigger]
                s.cov(x, y) == if page.has(x, y) && points@.len() >= 3 {
                    ruler.enclosed(points@, x, y, 16) * 255 / 16
                } else {
                    0
                },
            forall|x: int, y: int| #[trigger]
                page.has(x, y) && points@.len() >= 3 ==> ruler.samples_answered(points@, x, y, 16),
    {
        if points.len() < 3 {
            return Selection::new();
        }
        let sampled = |x: i32, y: i32| -> (c: u8)
            requires
                ruler.steady(),
                points@.len() > 0,
            ensures
                c == ruler.enclosed(points@, x as int, y as int, 16) * 255 / 16,
                ruler.samples_answered(points@, x as int, y as int, 16),
            { ruler.sample(points, x, y) };
        let s = Selection::from_coverage(page, sampled);
        assert forall|x: int, y: int| #[trigger] s.cov(x, y) == if page.has(x, y)
            && points@.len() >= 3 {
            ruler.enclosed(points@, x, y, 16) * 255 / 16
        } else {
            0
        } by {
            if page.has(x, y) {
                let c = s.cov((x as i32) as int, (y as i32) as int);
            }
        }
        assert forall|x: int, y: int| #[trigger] page.has(x, y) implies ruler.samples_answered(
            points@,
            x,
            y,
            16,
        ) by {
            let c = s.cov((x as i32) as int, (y as i32) as int);
        }
        s
    }
}

/// The corners of a path, begun at another of them.
pub open spec fn begun_at(points: Seq<Corner>, k: int) -> Seq<Corner> {
    points.skip(k) + points.take(k)
}

/// Begun at the second corner, the sides are the same, and the first comes last.
proof fn lemma_begun_at_the_second<U: Fn(Scalar, i64) -> bool, L: Fn(Corner, Corner, i64, i64) -> bool>(
    ruler: &Ruler<U, L>,
    points: Seq<Corner>,
    x: i64,
    y: i64,
    n: int,
)
    requires
        points.len() > 0,
        0 <= n <= points.len() - 1,
    ensures
        ruler.crossings(begun_at(points, 1), x, y, n) + ruler.crossings(points, x, y, 1)
            == ruler.crossings(points, x, y, n + 1),
        begun_at(points, 1).len() == points.len(),
    decreases n,
{
    let turned = begun_at(points, 1);
    assert(turned.last() == points[0]);
    if n > 0 {
        lemma_begun_at_the_second(ruler, points, x, y, n - 1);
        assert(turned[n - 1] == points[n]);
        if n > 1 {
            assert(turned[n - 2] == points[n - 1]);
        }
    }
}

/// A point is inside a path wherever on it the path was begun.
proof fn lemma_enclosed_wherever_begun<U: Fn(Scalar, i64) -> bool, L: Fn(Corner, Corner, i64, i64) -> bool>(
    ruler: &Ruler<U, L>,
    points: Seq<Corner>,
    k: int,
    x: i64,
    y: i64,
)
    requires
        0 <= k <= points.len(),
    ensures
        ruler.encloses(begun_at(points, k), x, y) == ruler.encloses(points, x, y),
    decreases k,
{
    if k == 0 {
        assert(begun_at(points, 0) =~= points);
    } else {
        let before = begun_at(points, k - 1);
        lemma_enclosed_wherever_begun(ruler, points, k - 1, x, y);
        assert(begun_at(before, 1) =~= begun_at(points, k));
        let n = points.len() as int;
        lemma_begun_at_the_second(ruler, before, x, y, n - 1);
        let turned = begun_at(before, 1);
        assert(turned[n - 1] == before[0]);
        if n > 1 {
            assert(turned[n - 2] == before[n - 1]);
        }
        assert(ruler.crossings(before, x, y, 0) == 0);
        assert(ruler.crossings(turned, x, y, n) == ruler.crossings(before, x, y, n));
    }
}

/// A path whose last corner repeats its first has the same sides as the path without it.
proof fn lemma_closed_by_hand<U: Fn(Scalar, i64) -> bool, L: Fn(Corner, Corner, i64, i64) -> bool>(
    ruler: &Ruler<U, L>,
    points: Seq<Corner>,
    x: i64,
    y: i64,
    n: int,
)
    requires
        points.len() > 0,
        1 <= n <= points.len(),
    ensures
        ruler.crossings(points.push(points[0]), x, y, n) + ruler.crossings(points, x, y, 1)
            == ruler.crossings(points, x, y, n),
    decreases n,
{
    let closed = points.push(points[0]);
    if n == 1 {
        assert(closed.last() == points[0]);
        assert(ruler.crossings(closed, x, y, 0) == 0);
        assert(!ruler.crosses(closed[0], closed.last(), x, y));
    } else {
        lemma_closed_by_hand(ruler, points, x, y, n - 1);
        assert(closed[n - 1] == points[n - 1] && closed[n - 2] == points[n - 2]);
    }
}

/// A lasso is implicitly closed: joining its end to its beginning by hand changes nothing. Nor does
/// it matter at which of its corners it was begun. Both hold of every point, and so of how covered
/// every pixel is.
pub proof fn law_a_lasso_is_a_closed_loop<U: Fn(Scalar, i64) -> bool, L: Fn(Corner, Corner, i64, i64) -> bool>(
    ruler: &Ruler<U, L>,
    points: Seq<Corner>,
    k: int,
)
    requires
        points.len() > 0,
        0 <= k <= points.len(),
    ensures
        forall|x: i64, y: i64| #[trigger]
            ruler.encloses(points.push(points[0]), x, y) == ruler.encloses(points, x, y),
        forall|x: i64, y: i64| #[trigger]
            ruler.encloses(begun_at(points, k), x, y) == ruler.encloses(points, x, y),
        forall|x: int, y: int| #[trigger]
            ruler.enclosed(points.push(points[0]), x, y, 16) == ruler.enclosed(points, x, y, 16),
        forall|x: int, y: int| #[trigger]
            ruler.enclosed(begun_at(points, k), x, y, 16) == ruler.enclosed(points, x, y, 16),
{
    let closed = points.push(points[0]);
    let turned = begun_at(points, k);
    let n = points.len() as int;
    assert forall|x: i64, y: i64| #[trigger]
        ruler.encloses(closed, x, y) == ruler.encloses(points, x, y) by {
        lemma_closed_by_hand(ruler, points, x, y, n);
        assert(closed[n] == points[0] && closed[n - 1] == points[n - 1]);
        assert(ruler.crossings(points, x, y, 0) == 0);
        assert(ruler.crossings(closed, x, y, n + 1) == ruler.crossings(points, x, y, n));
    }
    assert forall|x: i64, y: i64| #[trigger]
        ruler.encloses(turned, x, y) == ruler.encloses(points, x, y) by {
        lemma_enclosed_wherever_begun(ruler, points, k, x, y);
    }
    assert forall|x: int, y: int| #[trigger]
        ruler.enclosed(closed, x, y, 16) == ruler.enclosed(points, x, y, 16) by {
        lemma_same_samples(ruler, closed, points, x, y, 16);
    }
    assert forall|x: int, y: int| #[trigger]
        ruler.enclosed(turned, x, y, 16) == ruler.enclosed(points, x, y, 16) by {
        lemma_same_samples(ruler, turned, points, x, y, 16);
    }
}

/// Two paths that enclose the same points cover a pixel alike.
proof fn lemma_same_samples<U: Fn(Scalar, i64) -> bool, L: Fn(Corner, Corner, i64, i64) -> bool>(
    ruler: &Ruler<U, L>,
    a: Seq<Corner>,
    b: Seq<Corner>,
    x: int,
    y: int,
    n: int,
)
    requires
        forall|px: i64, py: i64| #[trigger]
            ruler.encloses(a, px, py) == ruler.encloses(b, px, py),
    ensures
        ruler.enclosed(a, x, y, n) == ruler.enclosed(b, x, y, n),
    decreases n,
{
    if n > 0 {
        lemma_same_samples(ruler, a, b, x, y, n - 1);
    }
}

/// Whether a side has a point on its left, as the ruler answers: its two ends lie on different sides of
/// the point's height, and the point is left of where it crosses that height.
proof fn lemma_side<U: Fn(Scalar, i64) -> bool, L: Fn(Corner, Corner, i64, i64) -> bool>(
    ruler: &Ruler<U, L>,
    a: Corner,
    b: Corner,
    x: i64,
    y: i64,
)
    ensures
        ruler.crosses(a, b, x, y) == (ruler.above.ensures((a.y, y), true) != ruler.above.ensures(
            (b.y, y),
            true,
        ) && ruler.left.ensures((a, b, x, y), true)),
{
}

/// Sides before the last corner are counted the same with one corner more.
proof fn lemma_crossings_of_the_rest<
    U: Fn(Scalar, i64) -> bool,
    L: Fn(Corner, Corner, i64, i64) -> bool,
>(ruler: &Ruler<U, L>, points: Seq<Corner>, c: Corner, x: i64, y: i64, n: int)
    requires
        1 <= n <= points.len(),
    ensures
        ruler.crossings(points.push(c), x, y, n) + ruler.crossings(points, x, y, 1)
            == ruler.crossings(points, x, y, n) + ruler.crossings(points.push(c), x, y, 1),
    decreases n,
{
    if n > 1 {
        lemma_crossings_of_the_rest(ruler, points, c, x, y, n - 1);
        let longer = points.push(c);
        assert(longer[n - 1] == points[n - 1] && longer[n - 2] == points[n - 2]);
    }
}

/// A point is inside by the even-odd rule, however many sides there are. One corner more at the end of
/// a lasso takes away the side that closed it and adds two, from the last corner to the new one and
/// from there to the first; each of the three that is to the right of a point turns inside to outside
/// and outside to inside, and nothing else does. A lasso of one corner has no inside.
///
/// A side is to the right of a point when its ends lie on different sides of the point's height, and
/// the point is left of where it crosses that height.
pub proof fn law_every_side_to_the_right_turns_inside_out<
    U: Fn(Scalar, i64) -> bool,
    L: Fn(Corner, Corner, i64, i64) -> bool,
>(ruler: &Ruler<U, L>, points: Seq<Corner>, c: Corner, x: i64, y: i64)
    requires
        points.len() > 0,
    ensures
        !ruler.encloses(seq![c], x, y),
        ({
            let (first, last) = (points[0], points[points.len() - 1]);
            let up = |k: Corner| ruler.above.ensures((k.y, y), true);
            let closing = up(first) != up(last) && ruler.left.ensures((first, last, x, y), true);
            let on = up(c) != up(last) && ruler.left.ensures((c, last, x, y), true);
            let back = up(first) != up(c) && ruler.left.ensures((first, c, x, y), true);
            ruler.encloses(points.push(c), x, y) == (ruler.encloses(points, x, y) != (closing != (on
                != back)))
        }),
{
    let n = points.len() as int;
    let longer = points.push(c);
    let alone = seq![c];
    assert(alone.last() == c && alone[0] == c);
    assert(ruler.crossings(alone, x, y, 0) == 0);
    assert(!ruler.crosses(c, c, x, y));
    assert(ruler.crossings(alone, x, y, 1) == 0);
    lemma_crossings_of_the_rest(ruler, points, c, x, y, n);
    assert(longer[n] == c && longer[n - 1] == points[n - 1] && longer[0] == points[0]);
    assert(longer.last() == c && points.last() == points[n - 1]);
    assert(ruler.crossings(longer, x, y, 0) == 0 && ruler.crossings(points, x, y, 0) == 0);
    let closing = ruler.crosses(points[0], points[n - 1], x, y);
    let on = ruler.crosses(c, points[n - 1], x, y);
    let back = ruler.crosses(points[0], c, x, y);
    lemma_side(ruler, points[0], points[n - 1], x, y);
    lemma_side(ruler, c, points[n - 1], x, y);
    lemma_side(ruler, points[0], c, x, y);
    assert(ruler.crossings(points, x, y, 1) == if closing {
        1nat
    } else {
        0nat
    });
    assert(ruler.crossings(longer, x, y, 1) == if back {
        1nat
    } else {
        0nat
    });
    assert(ruler.crossings(longer, x, y, n + 1) == ruler.crossings(longer, x, y, n) + if on {
        1nat
    } else {
        0nat
    });
}

/// The sides of a lasso that are to the right of a point, by the corner that each leads to.
pub open spec fn sides_to_the_right<
    U: Fn(Scalar, i64) -> bool,
    L: Fn(Corner, Corner, i64, i64) -> bool,
>(ruler: &Ruler<U, L>, points: Seq<Corner>, x: i64, y: i64, n: int) -> Set<int> {
    Set::new(
        |i: int|
            {
                let a = points[i];
                let b = if i == 0 {
                    points[points.len() - 1]
                } else {
                    points[i - 1]
                };
                &&& 0 <= i < n
                &&& ruler.above.ensures((a.y, y), true) != ruler.above.ensures((b.y, y), true)
                &&& ruler.left.ensures((a, b, x, y), true)
            },
    )
}

proof fn lemma_sides_are_counted<
    U: Fn(Scalar, i64) -> bool,
    L: Fn(Corner, Corner, i64, i64) -> bool,
>(ruler: &Ruler<U, L>, points: Seq<Corner>, x: i64, y: i64, n: int)
    requires
        0 <= n <= points.len(),
    ensures
        sides_to_the_right(ruler, points, x, y, n).finite(),
        sides_to_the_right(ruler, points, x, y, n).len() == ruler.crossings(points, x, y, n),
    decreases n,
{
    let these = sides_to_the_right(ruler, points, x, y, n);
    if n <= 0 {
        assert(these =~= Set::<int>::empty());
    } else {
        lemma_sides_are_counted(ruler, points, x, y, n - 1);
        let fewer = sides_to_the_right(ruler, points, x, y, n - 1);
        let before = if n == 1 {
            points.last()
        } else {
            points[n - 2]
        };
        if ruler.crosses(points[n - 1], before, x, y) {
            assert(these =~= fewer.insert(n - 1));
        } else {
            assert(these =~= fewer);
        }
    }
}

/// A point is inside a lasso exactly when the number of its sides that are to the right of the point is
/// odd: never with two of them, or four, or any even number.
pub proof fn law_inside_is_an_odd_number_of_sides<
    U: Fn(Scalar, i64) -> bool,
    L: Fn(Corner, Corner, i64, i64) -> bool,
>(ruler: &Ruler<U, L>, points: Seq<Corner>, x: i64, y: i64)
    ensures
        ruler.encloses(points, x, y) <==> sides_to_the_right(
            ruler,
            points,
            x,
            y,
            points.len() as int,
        ).len() % 2 == 1,
{
    lemma_sides_are_counted(ruler, points, x, y, points.len() as int);
}

/// How covered a pixel of a lasso is is how much of it is inside, sixteen points spread evenly over it
/// standing for all of it: none of them inside is nothing, all of them is everything, and in between
/// the coverage is the share that are, rounded down.
pub proof fn law_coverage_is_the_share_inside<
    U: Fn(Scalar, i64) -> bool,
    L: Fn(Corner, Corner, i64, i64) -> bool,
>(ruler: &Ruler<U, L>, points: Seq<Corner>, x: int, y: int)
    ensures
        ({
            let inside = Set::new(
                |i: int|
                    0 <= i < 16 && ruler.encloses(
                        points,
                        (8 * x + 2 * (i % 4) + 1) as i64,
                        (8 * y + 2 * (i / 4) + 1) as i64,
                    ),
            );
            &&& inside.finite()
            &&& inside.len() <= 16
            &&& ruler.enclosed(points, x, y, 16) * 255 / 16 == inside.len() * 255 / 16
        }),
{
    lemma_share_is_counted(ruler, points, x, y, 16);
}

proof fn lemma_share_is_counted<
    U: Fn(Scalar, i64) -> bool,
    L: Fn(Corner, Corner, i64, i64) -> bool,
>(ruler: &Ruler<U, L>, points: Seq<Corner>, x: int, y: int, n: int)
    requires
        0 <= n,
    ensures
        ({
            let inside = Set::new(
                |i: int|
                    0 <= i < n && ruler.encloses(
                        points,
                        (8 * x + 2 * (i % 4) + 1) as i64,
                        (8 * y + 2 * (i / 4) + 1) as i64,
                    ),
            );
            &&& inside.finite()
            &&& inside.len() <= n
            &&& ruler.enclosed(points, x, y, n) == inside.len()
        }),
    decreases n,
{
    let at = |m: int|
        Set::new(
            |i: int|
                0 <= i < m && ruler.encloses(
                    points,
                    (8 * x + 2 * (i % 4) + 1) as i64,
                    (8 * y + 2 * (i / 4) + 1) as i64,
                ),
        );
    if n <= 0 {
        assert(at(n) =~= Set::<int>::empty());
    } else {
        lemma_share_is_counted(ruler, points, x, y, n - 1);
        let i = n - 1;
        if ruler.encloses(
            points,
            (8 * x + 2 * (i % 4) + 1) as i64,
            (8 * y + 2 * (i / 4) + 1) as i64,
        ) {
            assert(at(n) =~= at(n - 1).insert(i));
        } else {
            assert(at(n) =~= at(n - 1));
        }
    }
}

} // verus!
