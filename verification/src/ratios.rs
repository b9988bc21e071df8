//! Ratios that hold up to rounding.

use crate::nearness::{is_about_at_most, is_near, lemma_rounded_apart};
use crate::rounding::PRECISION_LIMIT;
use vstd::prelude::*;

verus! {

pub(crate) proof fn lemma_near_scaled(v: int, n: int, p: int)
    requires
        is_near(v, n, 1),
        p >= 0,
    ensures
        is_near(v * p, n * p, 1),
{
    let d = PRECISION_LIMIT as int;
    assert((d - 1) * (n * p) <= d * (v * p) <= (d + 1) * (n * p)) by (nonlinear_arith)
        requires
            (d - 1) * n <= d * v <= (d + 1) * n,
            p >= 0,
    {
        assert(((d - 1) * n) * p <= (d * v) * p);
        assert((d * v) * p <= ((d + 1) * n) * p);
    }
}

/// Two counts that keep a ratio, up to rounding, keep it when each grows by an
/// amount of that ratio and is rounded.  The growth is given times `p`.
pub(crate) proof fn lemma_ratio_kept(
    a: int,
    b: int,
    y: int,
    x: int,
    more_y: int,
    more_x: int,
    p: int,
    y2: int,
    x2: int,
    parts: int,
)
    requires
        a >= 0,
        b >= 0,
        x >= 0,
        more_x >= 0,
        p > 0,
        parts >= 0,
        2 * parts + 15 <= PRECISION_LIMIT,
        is_about_at_most(a * y, b * x, parts),
        is_about_at_most(a * more_y, b * more_x, parts),
        is_near(y2 * p, y * p + more_y, 5),
        is_near(x2 * p, x * p + more_x, 5),
    ensures
        is_about_at_most(a * y2, b * x2, parts + 15),
{
    let d = PRECISION_LIMIT as int;
    let e = parts;
    let yy = y * p + more_y;
    let xx = x * p + more_x;
    assert(d * (a * yy) <= (d + e) * (b * xx)) by (nonlinear_arith)
        requires
            d * (a * y) <= (d + e) * (b * x),
            d * (a * more_y) <= (d + e) * (b * more_x),
            yy == y * p + more_y,
            xx == x * p + more_x,
            p > 0,
    {
        assert((d * (a * y)) * p <= ((d + e) * (b * x)) * p);
        assert((d * (a * y)) * p == d * (a * (y * p)));
        assert(((d + e) * (b * x)) * p == (d + e) * (b * (x * p)));
        assert(a * yy == a * (y * p) + a * more_y);
        assert(b * xx == b * (x * p) + b * more_x);
    }
    let py = y2 * p;
    let px = x2 * p;
    assert(d * (a * py) <= (d + 5) * (a * yy)) by (nonlinear_arith)
        requires
            d * py <= (d + 5) * yy,
            a >= 0,
    {
        assert(a * (d * py) <= a * ((d + 5) * yy));
    }
    assert(d * (b * px) >= (d - 5) * (b * xx)) by (nonlinear_arith)
        requires
            d * px >= (d - 5) * xx,
            b >= 0,
    {
        assert(b * (d * px) >= b * ((d - 5) * xx));
    }
    assert(b * xx >= 0) by (nonlinear_arith)
        requires
            b >= 0,
            xx == x * p + more_x,
            x >= 0,
            more_x >= 0,
            p > 0,
    ;
    lemma_rounded_apart(a * yy, b * xx, a * py, b * px, e, 5);
    assert(a * py == (a * y2) * p && b * px == (b * x2) * p) by (nonlinear_arith)
        requires
            py == y2 * p,
            px == x2 * p,
    ;
    lemma_about_unscaled(a * y2, b * x2, p, e + 15, a * py, b * px);
}

/// A common factor can be left out.
pub(crate) proof fn lemma_about_unscaled(y: int, x: int, p: int, parts: int, yp: int, xp: int)
    requires
        is_about_at_most(yp, xp, parts),
        yp == y * p,
        xp == x * p,
        p > 0,
    ensures
        is_about_at_most(y, x, parts),
{
    let d = PRECISION_LIMIT as int;
    assert(d * y <= (d + parts) * x) by (nonlinear_arith)
        requires
            d * yp <= (d + parts) * xp,
            yp == y * p,
            xp == x * p,
            p > 0,
    {
        assert(d * yp == (d * y) * p);
        assert((d + parts) * xp == ((d + parts) * x) * p);
        if d * y > (d + parts) * x {
            assert((d * y) * p > ((d + parts) * x) * p);
        }
    }
}

/// A factor can be put on both sides.
pub(crate) proof fn lemma_about_scaled(y: int, x: int, p: int, parts: int)
    requires
        is_about_at_most(y, x, parts),
        p >= 0,
    ensures
        is_about_at_most(y * p, x * p, parts),
{
    let d = PRECISION_LIMIT as int;
    assert(d * (y * p) <= (d + parts) * (x * p)) by (nonlinear_arith)
        requires
            d * y <= (d + parts) * x,
            p >= 0,
    {
        assert((d * y) * p <= ((d + parts) * x) * p);
    }
}

/// More parts allow more.
pub(crate) proof fn lemma_about_widened(y: int, x: int, parts: int, more: int)
    requires
        is_about_at_most(y, x, parts),
        parts <= more,
        x >= 0,
    ensures
        is_about_at_most(y, x, more),
{
    let d = PRECISION_LIMIT as int;
    assert((d + parts) * x <= (d + more) * x) by (nonlinear_arith)
        requires
            parts <= more,
            x >= 0,
    ;
}

/// A product of two rounded values.
proof fn lemma_product_of_near(u: int, v: int, u2: int, v2: int)
    requires
        u >= 0,
        v >= 0,
        u2 >= 0,
        v2 >= 0,
        is_near(u2, u, 1),
        is_near(v2, v, 5),
    ensures
        is_near(u2 * v2, u * v, 7),
{
    let d = PRECISION_LIMIT as int;
    let x = u * v;
    let y = u2 * v2;
    assert(d * (d * y) <= (d + 1) * ((d + 5) * x)) by (nonlinear_arith)
        requires
            x == u * v,
            y == u2 * v2,
            0 <= d * u2 <= (d + 1) * u,
            0 <= d * v2 <= (d + 5) * v,
            d > 0,
            u >= 0,
            v >= 0,
    {
        assert((d * u2) * (d * v2) <= ((d + 1) * u) * (d * v2));
        assert(((d + 1) * u) * (d * v2) <= ((d + 1) * u) * ((d + 5) * v));
        assert((d * u2) * (d * v2) == d * (d * y));
        assert(((d + 1) * u) * ((d + 5) * v) == (d + 1) * ((d + 5) * x));
    }
    assert(d * (d * y) >= (d - 1) * ((d - 5) * x)) by (nonlinear_arith)
        requires
            x == u * v,
            y == u2 * v2,
            d * u2 >= (d - 1) * u,
            d * v2 >= (d - 5) * v,
            d > 5,
            u >= 0,
            v >= 0,
            u2 >= 0,
            v2 >= 0,
    {
        assert((d - 1) * u >= 0);
        assert((d - 5) * v >= 0);
        assert((d * u2) * (d * v2) >= ((d - 1) * u) * (d * v2));
        assert(((d - 1) * u) * (d * v2) >= ((d - 1) * u) * ((d - 5) * v));
        assert((d * u2) * (d * v2) == d * (d * y));
        assert(((d - 1) * u) * ((d - 5) * v) == (d - 1) * ((d - 5) * x));
    }
    assert(x >= 0) by (nonlinear_arith)
        requires
            x == u * v,
            u >= 0,
            v >= 0,
    ;
}

/// Cross products that are in order stay so, up to rounding.
pub(crate) proof fn lemma_cross_rounded(
    u: int,
    v2: int,
    u2: int,
    v: int,
    n: int,
    q2: int,
    n2: int,
    q: int,
    parts: int,
)
    requires
        0 <= u && 0 <= v2 && 0 <= u2 && 0 <= v,
        0 <= n && 0 <= q2 && 0 <= n2 && 0 <= q,
        is_near(n, u, 1),
        is_near(q2, v2, 5),
        is_near(n2, u2, 1),
        is_near(q, v, 5),
        is_about_at_most(u * v2, u2 * v, parts),
        parts >= 0,
        2 * parts + 21 <= PRECISION_LIMIT,
    ensures
        is_about_at_most(n * q2, n2 * q, parts + 21),
{
    lemma_product_of_near(u, v2, n, q2);
    lemma_product_of_near(u2, v, n2, q);
    assert(u2 * v >= 0) by (nonlinear_arith)
        requires
            u2 >= 0,
            v >= 0,
    ;
    lemma_rounded_apart(u * v2, u2 * v, n * q2, n2 * q, parts, 7);
}

/// Taking more at a price that is no lower than the average so far does not
/// lower the average.  Here `n` has been paid, `q` is the quantity taken times
/// the price, and `m` or `w` is taken; all but `n`, `m` and `w` are times `one`.
pub(crate) proof fn lemma_more_at_a_higher_price(
    n: int,
    q: int,
    m: int,
    w: int,
    one: int,
    parts: int,
)
    requires
        0 <= n && 0 <= q && 0 <= m && 0 <= w && 0 <= one,
        is_about_at_most(n * one, q, parts),
        m <= w || is_about_at_most(n + m, n + w, 3),
        parts >= 3,
    ensures
        is_about_at_most((n + m) * (q + w * one), (n + w) * (q + m * one), parts),
{
    let d = PRECISION_LIMIT as int;
    let u = n + m;
    let v = q + m * one;
    let u2 = n + w;
    let v2 = q + w * one;
    assert(m * one >= 0 && w * one >= 0) by (nonlinear_arith)
        requires
            0 <= m,
            0 <= w,
            0 <= one,
    ;
    if m <= w {
        let x = w - m;
        assert(v2 == v + x * one) by (nonlinear_arith)
            requires
                v == q + m * one,
                v2 == q + w * one,
                x == w - m,
        ;
        assert(d * (u * one) <= (d + parts) * v) by (nonlinear_arith)
            requires
                d * (n * one) <= (d + parts) * q,
                u == n + m,
                v == q + m * one,
                m * one >= 0,
                parts >= 3,
        {
            assert(u * one == n * one + m * one);
            assert((d + parts) * v == (d + parts) * q + (d + parts) * (m * one));
            assert((d + parts) * (m * one) == d * (m * one) + parts * (m * one));
            assert(parts * (m * one) >= 0);
        }
        let uv = u * v;
        let xu = x * (u * one);
        let xv = x * v;
        assert(u * v2 == uv + xu && u2 * v == uv + xv && uv >= 0) by (nonlinear_arith)
            requires
                v2 == v + x * one,
                u2 == u + x,
                uv == u * v,
                xu == x * (u * one),
                xv == x * v,
                u >= 0,
                v >= 0,
        ;
        assert(d * xu <= (d + parts) * xv) by (nonlinear_arith)
            requires
                d * (u * one) <= (d + parts) * v,
                xu == x * (u * one),
                xv == x * v,
                x >= 0,
        {
            assert(x * (d * (u * one)) <= x * ((d + parts) * v));
        }
        assert((d + parts) * (uv + xv) >= d * uv + (d + parts) * xv) by (nonlinear_arith)
            requires
                uv >= 0,
                parts >= 0,
        ;
    } else {
        assert(w * one <= m * one) by (nonlinear_arith)
            requires
                w <= m,
                one >= 0,
        ;
        assert(d * (u * v2) <= (d + parts) * (u2 * v)) by (nonlinear_arith)
            requires
                d * u <= (d + 3) * u2,
                v2 <= v,
                v >= 0,
                u >= 0,
                u2 >= 0,
                d > 0,
                parts >= 3,
        {
            assert(u * v2 <= u * v);
            assert(d * (u * v2) <= d * (u * v));
            assert((d * u) * v <= ((d + 3) * u2) * v);
            assert((d * u) * v == d * (u * v));
            assert(((d + 3) * u2) * v == (d + 3) * (u2 * v));
            assert(u2 * v >= 0);
            assert((d + 3) * (u2 * v) <= (d + parts) * (u2 * v));
        }
    }
}

/// Where hardly more has been paid for `m` than for `w`, hardly more has been
/// taken, by the ratio of the highest price to this one.
pub(crate) proof fn lemma_hardly_more_is_taken(n: int, q: int, m: int, w: int, one: int, ratio: int)
    requires
        0 <= n && 0 <= q && 0 <= m && 0 <= w && 0 <= one,
        n * one <= 2 * (ratio * q),
        m <= w || is_about_at_most(n + m, n + w, 3),
        ratio >= 1,
    ensures
        is_about_at_most(q + m * one, q + w * one, 6 * ratio),
{
    let d = PRECISION_LIMIT as int;
    let a = m * one;
    let b = w * one;
    assert(b >= 0) by (nonlinear_arith)
        requires
            b == w * one,
            w >= 0,
            one >= 0,
    ;
    assert((6 * ratio) * (q + b) >= 6 * (ratio * q) + 6 * b) by (nonlinear_arith)
        requires
            ratio >= 1,
            b >= 0,
    ;
    assert(ratio * q >= 0) by (nonlinear_arith)
        requires
            ratio >= 1,
            q >= 0,
    ;
    assert((d + 6 * ratio) * (q + b) == d * (q + b) + (6 * ratio) * (q + b)) by (nonlinear_arith);
    if m <= w {
        assert(a <= b) by (nonlinear_arith)
            requires
                m <= w,
                one >= 0,
                a == m * one,
                b == w * one,
        ;
    } else {
        assert(d * (a - b) <= 3 * (n * one + b)) by (nonlinear_arith)
            requires
                d * (n + m) <= (d + 3) * (n + w),
                a == m * one,
                b == w * one,
                one >= 0,
        {
            assert(d * (m - w) <= 3 * (n + w));
            assert((d * (m - w)) * one <= (3 * (n + w)) * one);
            assert((d * (m - w)) * one == d * (a - b));
            assert((3 * (n + w)) * one == 3 * (n * one + b));
        }
    }
}

/// Taking more at a price that is no higher than the average so far does not
/// raise the average.
pub(crate) proof fn lemma_more_at_a_lower_price(
    n: int,
    q: int,
    m: int,
    w: int,
    one: int,
    ratio: int,
    parts: int,
)
    requires
        0 <= n && 0 <= q && 0 <= m && 0 <= w && 0 <= one,
        is_about_at_most(q, n * one, parts),
        n * one <= 2 * (ratio * q),
        m <= w || is_about_at_most(n + m, n + w, 3),
        ratio >= 1,
        parts >= 6 * ratio,
    ensures
        is_about_at_most((n + w) * (q + m * one), (n + m) * (q + w * one), parts),
{
    let d = PRECISION_LIMIT as int;
    let u = n + m;
    let v = q + m * one;
    let u2 = n + w;
    let v2 = q + w * one;
    assert(m * one >= 0 && w * one >= 0) by (nonlinear_arith)
        requires
            0 <= m,
            0 <= w,
            0 <= one,
    ;
    if m <= w {
        let x = w - m;
        assert(v2 == v + x * one) by (nonlinear_arith)
            requires
                v == q + m * one,
                v2 == q + w * one,
                x == w - m,
        ;
        assert(d * v <= (d + parts) * (u * one)) by (nonlinear_arith)
            requires
                d * q <= (d + parts) * (n * one),
                u == n + m,
                v == q + m * one,
                m * one >= 0,
                parts >= 0,
        {
            assert(u * one == n * one + m * one);
            assert((d + parts) * (u * one) == (d + parts) * (n * one) + d * (m * one) + parts * (m
                * one));
            assert(parts * (m * one) >= 0);
        }
        let uv = u * v;
        let xu = x * (u * one);
        let xv = x * v;
        assert(u * v2 == uv + xu && u2 * v == uv + xv && uv >= 0) by (nonlinear_arith)
            requires
                v2 == v + x * one,
                u2 == u + x,
                uv == u * v,
                xu == x * (u * one),
                xv == x * v,
                u >= 0,
                v >= 0,
        ;
        assert(d * xv <= (d + parts) * xu) by (nonlinear_arith)
            requires
                d * v <= (d + parts) * (u * one),
                xu == x * (u * one),
                xv == x * v,
                x >= 0,
        {
            assert(x * (d * v) <= x * ((d + parts) * (u * one)));
        }
        assert((d + parts) * (uv + xu) >= d * uv + (d + parts) * xu) by (nonlinear_arith)
            requires
                uv >= 0,
                parts >= 0,
        ;
    } else {
        lemma_hardly_more_is_taken(n, q, m, w, one, ratio);
        lemma_about_widened(v, v2, 6 * ratio, parts);
        assert(d * (u2 * v) <= (d + parts) * (u * v2)) by (nonlinear_arith)
            requires
                d * v <= (d + parts) * v2,
                u2 <= u,
                v >= 0,
                u2 >= 0,
                u >= 0,
                d > 0,
        {
            assert(u2 * v <= u * v);
            assert(d * (u2 * v) <= d * (u * v));
            assert(u * (d * v) <= u * ((d + parts) * v2));
            assert(u * (d * v) == d * (u * v));
            assert(u * ((d + parts) * v2) == (d + parts) * (u * v2));
        }
    }
}

/// What is about at most something is at most twice it.
pub(crate) proof fn lemma_about_twice(y: int, x: int, parts: int)
    requires
        is_about_at_most(y, x, parts),
        parts <= PRECISION_LIMIT,
        x >= 0,
    ensures
        y <= 2 * x,
{
    lemma_about_widened(y, x, parts, PRECISION_LIMIT as int);
}

} // verus!
