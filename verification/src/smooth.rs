//! The shape of a curve between two of its points, over the real numbers.
//!
//! A cubic Hermite piece goes from one output to another with a tangent at each end. Where neither
//! tangent is against the piece, and neither is more than three times its slope, the piece never
//! leaves the outputs of its ends and never turns back on the way from one to the other.

use vstd::prelude::*;

verus! {

/// Whether a number is no further from another than some slack.
pub open spec fn close(a: real, b: real, slack: real) -> bool {
    b - slack <= a <= b + slack
}

/// How far a piece with level ends has risen.
pub open spec fn rise(t: real) -> real {
    3 as real * (t * t) - 2 as real * (t * t * t)
}

/// What the tangent at the start of a piece adds.
pub open spec fn lead(t: real) -> real {
    t - 2 as real * (t * t) + t * t * t
}

/// What the tangent at the end of a piece takes away.
pub open spec fn trail(t: real) -> real {
    t * t - t * t * t
}

/// A piece from one output to another, with a tangent at each end, at a fraction of the way. The
/// tangents are scaled to the width of the piece.
pub open spec fn blend(t: real, y0: real, y1: real, start: real, end: real) -> real {
    y0 + (y1 - y0) * rise(t) + start * lead(t) - end * trail(t)
}

/// How far along a piece an input is.
pub open spec fn fraction(x: real, from: real, to: real) -> real {
    (x - from) / (to - from)
}

/// A piece between two points, with a tangent at each.
pub open spec fn hermite(
    x: real,
    from: (real, real),
    to: (real, real),
    tangents: (real, real),
) -> real {
    let width = to.0 - from.0;
    blend(fraction(x, from.0, to.0), from.1, to.1, tangents.0 * width, tangents.1 * width)
}

/// A scaled tangent held to a piece that rises by some amount, or falls by it: from none to three
/// times that.
pub open spec fn held(m: real, by: real) -> real {
    let most = 3 as real * by;
    if by >= 0 as real {
        if m < 0 as real {
            0 as real
        } else if m > most {
            most
        } else {
            m
        }
    } else {
        if m > 0 as real {
            0 as real
        } else if m < most {
            most
        } else {
            m
        }
    }
}

/// A product of numbers that are not below zero is not either.
proof fn lemma_product(a: real, b: real)
    by (nonlinear_arith)
    requires
        a >= 0 as real,
        b >= 0 as real,
    ensures
        a * b >= 0 as real,
{
}

/// A product spread over a sum.
proof fn lemma_spread(a: real, b: real, c: real)
    by (nonlinear_arith)
    ensures
        a * (b + c) == a * b + a * c,
        a * (b - c) == a * b - a * c,
        (b - c) * a == b * a - c * a,
{
}

/// A multiple in a product.
proof fn lemma_multiple(a: real, b: real)
    by (nonlinear_arith)
    ensures
        a * (2 as real * b) == 2 as real * (a * b),
        a * (3 as real * b) == 3 as real * (a * b),
        (3 as real * a) * b == 3 as real * (a * b),
        a * -b == -(a * b),
        -a * b == -(a * b),
        -a * -b == a * b,
{
}

/// Each way a tangent bends a piece is from nothing to a whole one.
proof fn lemma_bends(t: real)
    requires
        0 as real <= t <= 1 as real,
    ensures
        0 as real <= lead(t) <= 1 as real,
        0 as real <= trail(t) <= 1 as real,
{
    let r = 1 as real - t;
    let tt = t * t;
    lemma_product(t, t);
    lemma_product(t, r);
    lemma_spread(t, 1 as real, t);
    assert(t * 1 as real == t) by (nonlinear_arith);
    // t - t * t is not below zero.
    lemma_product(tt, r);
    lemma_spread(tt, 1 as real, t);
    assert(tt * 1 as real == tt) by (nonlinear_arith);
    // Nor is t * t - t * t * t.
    let tr = t - tt;
    lemma_product(tr, r);
    lemma_spread(tr, 1 as real, t);
    assert(tr * 1 as real == tr) by (nonlinear_arith);
    lemma_spread(t, t, tt);
    assert(tr * t == tt - tt * t) by (nonlinear_arith)
        requires
            tr == t - tt,
            tt == t * t,
    ;
}

/// How three powers grow from one place to another.
proof fn lemma_growth(s: real, t: real)
    ensures
        t * t - s * s == (t - s) * (t + s),
        t * t * t - s * s * s == (t - s) * (t * t + t * s + s * s),
{
    assert(t * t - s * s == (t - s) * (t + s)) by (nonlinear_arith);
    assert(t * t * t - s * s * s == (t - s) * (t * t + t * s + s * s)) by (nonlinear_arith);
}

/// How steep the four extreme pieces are between two places: both tangents none, one of them as much
/// as it may be, and both. None of them falls anywhere.
proof fn lemma_extremes_rise(s: real, t: real)
    requires
        0 as real <= s <= t <= 1 as real,
    ensures
        ({
            let p = t + s;
            let q = t * t + t * s + s * s;
            &&& 3 as real * p - 2 as real * q >= 0 as real
            &&& 3 as real - 3 as real * p + q >= 0 as real
            &&& q >= 0 as real
            &&& 3 as real - 6 as real * p + 4 as real * q >= 0 as real
        }),
{
    let (u, v) = (1 as real - t, 1 as real - s);
    let p = t + s;
    let q = t * t + t * s + s * s;
    lemma_product(t, t);
    lemma_product(t, s);
    lemma_product(s, s);
    lemma_product(t, u);
    lemma_product(s, v);
    lemma_product(t, v);
    lemma_product(u, s);
    assert(t * u == t - t * t) by (nonlinear_arith)
        requires
            u == 1 as real - t,
    ;
    assert(s * v == s - s * s) by (nonlinear_arith)
        requires
            v == 1 as real - s,
    ;
    assert(t * v == t - t * s) by (nonlinear_arith)
        requires
            v == 1 as real - s,
    ;
    assert(u * s == s - t * s) by (nonlinear_arith)
        requires
            u == 1 as real - t,
    ;
    lemma_product(u, u);
    lemma_product(u, v);
    lemma_product(v, v);
    assert(u * u == 1 as real - 2 as real * t + t * t) by (nonlinear_arith)
        requires
            u == 1 as real - t,
    ;
    assert(v * v == 1 as real - 2 as real * s + s * s) by (nonlinear_arith)
        requires
            v == 1 as real - s,
    ;
    assert(u * v == 1 as real - t - s + t * s) by (nonlinear_arith)
        requires
            u == 1 as real - t,
            v == 1 as real - s,
    ;
    let w = p - 1 as real;
    let d = t - s;
    assert(w * w >= 0 as real) by (nonlinear_arith);
    assert(d * d >= 0 as real) by (nonlinear_arith);
    assert(w * w == t * t + 2 as real * (t * s) + s * s - 2 as real * p + 1 as real)
        by (nonlinear_arith)
        requires
            w == t + s - 1 as real,
            p == t + s,
    ;
    assert(d * d == t * t - 2 as real * (t * s) + s * s) by (nonlinear_arith)
        requires
            d == t - s,
    ;
}

/// The worst that a tangent can take from a rise is one of its extremes.
proof fn lemma_worst(m: real, by: real, slope: real)
    requires
        0 as real <= m <= 3 as real * by,
    ensures
        slope >= 0 as real ==> m * slope >= 0 as real,
        slope < 0 as real ==> m * slope >= 3 as real * (by * slope),
{
    if slope >= 0 as real {
        lemma_product(m, slope);
    } else {
        let most = 3 as real * by;
        lemma_product(most - m, -slope);
        lemma_spread(-slope, most, m);
        lemma_multiple(most, slope);
        lemma_multiple(m, slope);
        lemma_multiple(by, slope);
    }
}

/// A rising piece rises throughout.
proof fn lemma_rising_piece(
    s: real,
    t: real,
    y0: real,
    y1: real,
    start: real,
    end: real,
)
    requires
        0 as real <= s <= t <= 1 as real,
        y0 <= y1,
        0 as real <= start <= 3 as real * (y1 - y0),
        0 as real <= end <= 3 as real * (y1 - y0),
    ensures
        blend(s, y0, y1, start, end) <= blend(t, y0, y1, start, end),
{
    let by = y1 - y0;
    let d = t - s;
    let p = t + s;
    let q = t * t + t * s + s * s;
    lemma_growth(s, t);
    lemma_extremes_rise(s, t);
    // How steeply each of the three parts rises between the two places.
    let r = 3 as real * p - 2 as real * q;
    let l = 1 as real - 2 as real * p + q;
    let e = p - q;
    assert(d * r == 3 as real * (d * p) - 2 as real * (d * q)) by (nonlinear_arith)
        requires
            r == 3 as real * p - 2 as real * q,
    ;
    assert(d * l == d - 2 as real * (d * p) + d * q) by (nonlinear_arith)
        requires
            l == 1 as real - 2 as real * p + q,
    ;
    assert(d * e == d * p - d * q) by (nonlinear_arith)
        requires
            e == p - q,
    ;
    assert(rise(t) - rise(s) == d * r);
    assert(lead(t) - lead(s) == d * l);
    assert(trail(t) - trail(s) == d * e);
    lemma_worst(start, by, l);
    lemma_worst(end, by, -e);
    lemma_multiple(end, e);
    lemma_multiple(by, e);
    lemma_product(by, r);
    lemma_product(by, r + 3 as real * l);
    lemma_product(by, r - 3 as real * e);
    lemma_product(by, r + 3 as real * l - 3 as real * e);
    lemma_multiple(by, l);
    lemma_spread(by, r, 3 as real * l);
    lemma_spread(by, r, 3 as real * e);
    lemma_spread(by, r + 3 as real * l, 3 as real * e);
    let g = by * r + start * l - end * e;
    assert(g >= 0 as real);
    lemma_product(d, g);
    lemma_parts(by, start, end, d, r, l, e);
    lemma_spread(by, rise(t), rise(s));
    lemma_spread(start, lead(t), lead(s));
    lemma_spread(end, trail(t), trail(s));
}

/// A distance that is common to three parts.
proof fn lemma_parts(by: real, start: real, end: real, d: real, r: real, l: real, e: real)
    ensures
        d * (by * r + start * l - end * e) == by * (d * r) + start * (d * l) - end * (d * e),
{
    let (a, b, c) = (by * r, start * l, end * e);
    assert(d * (a + b - c) == d * a + d * b - d * c) by (nonlinear_arith);
    assert(d * (by * r) == by * (d * r)) by (nonlinear_arith);
    assert(d * (start * l) == start * (d * l)) by (nonlinear_arith);
    assert(d * (end * e) == end * (d * e)) by (nonlinear_arith);
}

/// A piece upside down.
proof fn lemma_upside_down(t: real, y0: real, y1: real, start: real, end: real)
    ensures
        blend(t, -y0, -y1, -start, -end) == -blend(t, y0, y1, start, end),
{
    lemma_multiple(y1 - y0, rise(t));
    lemma_multiple(start, lead(t));
    lemma_multiple(end, trail(t));
    assert(-y1 - -y0 == -(y1 - y0));
}

/// A piece begins at its first output and ends at its second.
pub proof fn law_a_piece_joins_its_ends(y0: real, y1: real, start: real, end: real)
    ensures
        blend(0 as real, y0, y1, start, end) == y0,
        blend(1 as real, y0, y1, start, end) == y1,
{
    let (a, b) = (0 as real, 1 as real);
    assert(a * a == a && a * a * a == a) by (nonlinear_arith)
        requires
            a == 0 as real,
    ;
    assert(b * b == b && b * b * b == b) by (nonlinear_arith)
        requires
            b == 1 as real,
    ;
    let by = y1 - y0;
    assert(by * a == a && start * a == a && end * a == a) by (nonlinear_arith)
        requires
            a == 0 as real,
    ;
    assert(by * b == by) by (nonlinear_arith)
        requires
            b == 1 as real,
    ;
    assert(rise(a) == a && lead(a) == a && trail(a) == a);
    assert(rise(b) == b && lead(b) == a && trail(b) == a);
}

/// A piece whose tangents are held to it goes one way throughout, and so never leaves the outputs of
/// its ends.
pub proof fn law_a_held_piece_goes_one_way(
    s: real,
    t: real,
    y0: real,
    y1: real,
    start: real,
    end: real,
)
    requires
        0 as real <= s <= t <= 1 as real,
    ensures
        ({
            let a = blend(s, y0, y1, held(start, y1 - y0), held(end, y1 - y0));
            let b = blend(t, y0, y1, held(start, y1 - y0), held(end, y1 - y0));
            if y0 <= y1 {
                y0 <= a <= b <= y1
            } else {
                y1 <= b <= a <= y0
            }
        }),
{
    let (m, n) = (held(start, y1 - y0), held(end, y1 - y0));
    law_a_piece_joins_its_ends(y0, y1, m, n);
    if y0 <= y1 {
        lemma_rising_piece(0 as real, s, y0, y1, m, n);
        lemma_rising_piece(s, t, y0, y1, m, n);
        lemma_rising_piece(t, 1 as real, y0, y1, m, n);
    } else {
        lemma_upside_down(0 as real, y0, y1, m, n);
        lemma_upside_down(s, y0, y1, m, n);
        lemma_upside_down(t, y0, y1, m, n);
        lemma_upside_down(1 as real, y0, y1, m, n);
        lemma_rising_piece(0 as real, s, -y0, -y1, -m, -n);
        lemma_rising_piece(s, t, -y0, -y1, -m, -n);
        lemma_rising_piece(t, 1 as real, -y0, -y1, -m, -n);
    }
}

/// A part of a slack is no more than all of it.
proof fn lemma_part_of_slack(p: real, l: real, slack: real)
    requires
        -slack <= p <= slack,
        0 as real <= l <= 1 as real,
    ensures
        -slack <= p * l <= slack,
{
    lemma_product(slack - p, l);
    lemma_product(slack + p, l);
    lemma_product(slack, 1 as real - l);
    lemma_spread(l, slack, p);
    lemma_spread(slack, 1 as real, l);
    assert((slack + p) * l == slack * l + p * l) by (nonlinear_arith);
    assert(slack * 1 as real == slack) by (nonlinear_arith);
}

/// Tangents that are nearly held make a piece that is near the held one.
pub proof fn lemma_nearly_held(
    t: real,
    y0: real,
    y1: real,
    start: real,
    end: real,
    slack: real,
)
    requires
        0 as real <= t <= 1 as real,
        close(start, held(start, y1 - y0), slack),
        close(end, held(end, y1 - y0), slack),
    ensures
        close(
            blend(t, y0, y1, start, end),
            blend(t, y0, y1, held(start, y1 - y0), held(end, y1 - y0)),
            2 as real * slack,
        ),
{
    lemma_bends(t);
    let (m, n) = (held(start, y1 - y0), held(end, y1 - y0));
    let (l, e) = (lead(t), trail(t));
    lemma_part_of_slack(start - m, l, slack);
    lemma_part_of_slack(end - n, e, slack);
    lemma_spread(l, start, m);
    lemma_spread(e, end, n);
}

/// Inputs of a piece are in their order along it, from none of the way at its start to all of it at
/// its end.
pub proof fn lemma_fractions(x: real, y: real, from: real, to: real)
    requires
        from < to,
        from <= x <= y <= to,
    ensures
        0 as real <= fraction(x, from, to) <= fraction(y, from, to) <= 1 as real,
        x == from ==> fraction(x, from, to) == 0 as real,
        x == to ==> fraction(x, from, to) == 1 as real,
        y == from ==> fraction(y, from, to) == 0 as real,
        y == to ==> fraction(y, from, to) == 1 as real,
{
    let (a, b, w) = (x - from, y - from, to - from);
    assert(0 as real / w == 0 as real) by (nonlinear_arith)
        requires
            w > 0 as real,
    ;
    assert(w / w == 1 as real) by (nonlinear_arith)
        requires
            w > 0 as real,
    ;
    assert(0 as real <= a / w) by (nonlinear_arith)
        requires
            w > 0 as real,
            a >= 0 as real,
    ;
    assert(a / w <= b / w) by (nonlinear_arith)
        requires
            w > 0 as real,
            a <= b,
    ;
    assert(b / w <= 1 as real) by (nonlinear_arith)
        requires
            w > 0 as real,
            b <= w,
    ;
}

/// A tangent from none to a limit is nearly held, scaled to its piece, where the limit is nearly three
/// times the slope.
pub proof fn lemma_limit_nearly_holds(
    m: real,
    limit: real,
    width: real,
    by: real,
    slack: real,
)
    requires
        width > 0 as real,
        0 as real <= m <= limit || limit <= m <= 0 as real,
        close(limit * width, 3 as real * by, slack),
    ensures
        close(m * width, held(m * width, by), slack),
{
    if 0 as real <= m <= limit {
        lemma_product(m, width);
        lemma_product(limit - m, width);
    } else {
        lemma_product(-m, width);
        lemma_product(m - limit, width);
        lemma_multiple(m, width);
    }
    lemma_spread(width, limit, m);
    lemma_spread(width, m, limit);
}

/// Two tangents that both follow the line from one end to the other make that line.
pub proof fn law_even_tangents_make_a_straight_piece(t: real, y0: real, y1: real)
    ensures
        blend(t, y0, y1, y1 - y0, y1 - y0) == y0 + (y1 - y0) * t,
{
    let by = y1 - y0;
    lemma_spread(by, rise(t), -lead(t));
    lemma_multiple(by, lead(t));
    lemma_spread(by, rise(t) + lead(t), trail(t));
    assert(rise(t) + lead(t) - trail(t) == t);
}

/// A piece read from its far end is the same piece.
pub proof fn law_a_piece_is_the_same_from_either_end(t: real, y0: real, y1: real, start: real, end: real)
    ensures
        blend(1 as real - t, y1, y0, -end, -start) == blend(t, y0, y1, start, end),
{
    let u = 1 as real - t;
    let uu = u * u;
    lemma_spread(u, 1 as real, t);
    lemma_spread(t, 1 as real, t);
    assert(u * 1 as real == u && 1 as real * t == t) by (nonlinear_arith);
    let ut = u * t;
    assert(ut == t - t * t);
    assert(uu == u - ut);
    lemma_spread(uu, 1 as real, t);
    assert(uu * 1 as real == uu) by (nonlinear_arith);
    lemma_spread(t, u, ut);
    lemma_spread(t, t, t * t);
    assert(uu * t == ut - (t * t - t * t * t));
    assert(rise(u) == 1 as real - rise(t));
    assert(lead(u) == trail(t));
    assert(trail(u) == lead(t));
    let by = y1 - y0;
    lemma_multiple(by, rise(u));
    assert(y0 - y1 == -by);
    lemma_spread(by, 1 as real, rise(t));
    assert(by * 1 as real == by) by (nonlinear_arith);
    lemma_multiple(end, trail(t));
    lemma_multiple(start, lead(t));
}

/// A tangent that goes with its piece, and no more than three times as steep, is held as it is; one
/// that goes against it is held level, and one too steep at three times.
pub proof fn law_holding_a_tangent_changes_it_no_more_than_it_must(m: real, by: real)
    ensures
        0 as real <= m <= 3 as real * by ==> held(m, by) == m,
        3 as real * by <= m <= 0 as real ==> held(m, by) == m,
        m < 0 as real && by >= 0 as real ==> held(m, by) == 0 as real,
        m > 0 as real && by <= 0 as real ==> held(m, by) == 0 as real,
        by >= 0 as real && m > 3 as real * by ==> held(m, by) == 3 as real * by,
        by <= 0 as real && m < 3 as real * by ==> held(m, by) == 3 as real * by,
{
}

} // verus!
