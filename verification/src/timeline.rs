//! The times at which the columns of the heatmap stand.

use crate::binary64;
use crate::binary64::{Binary64, FRACTION_PLACES};
use crate::precision;
use crate::rounding;
use crate::rounding::{EXPONENT_STEP, INFINITY_MAGNITUDE, PRECISION_LIMIT};
use vstd::arithmetic::div_mod::*;
use vstd::arithmetic::mul::*;
use vstd::arithmetic::power2::*;
use vstd::prelude::*;

verus! {

/// `2^50`: more columns than any memory holds.
pub const COLUMN_LIMIT: u64 = 0x4_0000_0000_0000;

/// The number of columns for a span of time: one per millisecond at most.
pub open spec fn column_count(span: nat, max_columns: nat) -> nat {
    if max_columns <= span {
        max_columns
    } else {
        span
    }
}

/// How far after the first column, in milliseconds, the column `i` of `count`
/// stands.
pub open spec fn column_offset(span: nat, count: nat, i: nat) -> nat {
    Binary64::as_unsigned(
        Binary64::product(
            Binary64::of_integer(i),
            Binary64::quotient(Binary64::of_integer(span), Binary64::of_integer(count)),
        ),
    )
}

proof fn lemma_one()
    ensures
        precision::one() >= COLUMN_LIMIT * COLUMN_LIMIT * COLUMN_LIMIT,
{
    rounding::lemma_pow2_monotone(150, FRACTION_PLACES as nat);
    lemma_pow2_adds(100, 50);
    lemma_pow2_adds(50, 50);
    lemma2_to64();
    lemma2_to64_rest();
    assert(pow2(100) == COLUMN_LIMIT * COLUMN_LIMIT);
    assert(pow2(150) == COLUMN_LIMIT * COLUMN_LIMIT * COLUMN_LIMIT);
}

/// Three roundings upward, one after the other.
proof fn lemma_errors_above(e: int, n: int, i: int, x: int, s: int, p: int, r: int)
    requires
        e >= 1,
        n >= 0,
        i >= 0,
        e * s <= (e + 1) * x,
        e * (p * n) <= (e + 1) * s,
        e * r <= (e + 1) * (i * p),
    ensures
        e * (e * (e * (n * r))) <= (e + 1) * ((e + 1) * ((e + 1) * (i * x))),
{
    assert(e * (n * r) <= (e + 1) * (i * (p * n))) by (nonlinear_arith)
        requires
            e * r <= (e + 1) * (i * p),
            n >= 0,
    {
        assert(n * (e * r) <= n * ((e + 1) * (i * p)));
        assert(n * (e * r) == e * (n * r));
        assert(n * ((e + 1) * (i * p)) == (e + 1) * (i * (p * n)));
    }
    assert(e * (i * (p * n)) <= (e + 1) * (i * s)) by (nonlinear_arith)
        requires
            e * (p * n) <= (e + 1) * s,
            i >= 0,
    {
        assert(i * (e * (p * n)) <= i * ((e + 1) * s));
        assert(i * (e * (p * n)) == e * (i * (p * n)));
        assert(i * ((e + 1) * s) == (e + 1) * (i * s));
    }
    assert(e * (i * s) <= (e + 1) * (i * x)) by (nonlinear_arith)
        requires
            e * s <= (e + 1) * x,
            i >= 0,
    {
        assert(i * (e * s) <= i * ((e + 1) * x));
        assert(i * (e * s) == e * (i * s));
        assert(i * ((e + 1) * x) == (e + 1) * (i * x));
    }
    let a = n * r;
    let b = i * (p * n);
    let c = i * s;
    let d = i * x;
    assert(e * (e * a) <= (e + 1) * ((e + 1) * c)) by (nonlinear_arith)
        requires
            e * a <= (e + 1) * b,
            e * b <= (e + 1) * c,
            e >= 1,
    {
        assert(e * (e * a) <= e * ((e + 1) * b));
        assert(e * ((e + 1) * b) == (e + 1) * (e * b));
        assert((e + 1) * (e * b) <= (e + 1) * ((e + 1) * c));
    }
    assert(e * (e * (e * a)) <= (e + 1) * ((e + 1) * ((e + 1) * d))) by (nonlinear_arith)
        requires
            e * (e * a) <= (e + 1) * ((e + 1) * c),
            e * c <= (e + 1) * d,
            e >= 1,
    {
        assert(e * (e * (e * a)) <= e * ((e + 1) * ((e + 1) * c)));
        assert(e * ((e + 1) * ((e + 1) * c)) == (e + 1) * ((e + 1) * (e * c)));
        assert((e + 1) * (e * c) <= (e + 1) * ((e + 1) * d));
        assert((e + 1) * ((e + 1) * (e * c)) <= (e + 1) * ((e + 1) * ((e + 1) * d)));
    }
}

/// Three roundings downward, one after the other.
proof fn lemma_errors_below(e: int, n: int, i: int, x: int, s: int, p: int, r: int)
    requires
        e >= 1,
        n >= 0,
        i >= 0,
        e * s >= (e - 1) * x,
        e * (p * n) >= (e - 1) * s,
        e * r >= (e - 1) * (i * p),
    ensures
        e * (e * (e * (n * r))) >= (e - 1) * ((e - 1) * ((e - 1) * (i * x))),
{
    assert(e * (n * r) >= (e - 1) * (i * (p * n))) by (nonlinear_arith)
        requires
            e * r >= (e - 1) * (i * p),
            n >= 0,
    {
        assert(n * (e * r) >= n * ((e - 1) * (i * p)));
        assert(n * (e * r) == e * (n * r));
        assert(n * ((e - 1) * (i * p)) == (e - 1) * (i * (p * n)));
    }
    assert(e * (i * (p * n)) >= (e - 1) * (i * s)) by (nonlinear_arith)
        requires
            e * (p * n) >= (e - 1) * s,
            i >= 0,
    {
        assert(i * (e * (p * n)) >= i * ((e - 1) * s));
        assert(i * (e * (p * n)) == e * (i * (p * n)));
        assert(i * ((e - 1) * s) == (e - 1) * (i * s));
    }
    assert(e * (i * s) >= (e - 1) * (i * x)) by (nonlinear_arith)
        requires
            e * s >= (e - 1) * x,
            i >= 0,
    {
        assert(i * (e * s) >= i * ((e - 1) * x));
        assert(i * (e * s) == e * (i * s));
        assert(i * ((e - 1) * x) == (e - 1) * (i * x));
    }
    let a = n * r;
    let b = i * (p * n);
    let c = i * s;
    let d = i * x;
    assert(e * (e * a) >= (e - 1) * ((e - 1) * c)) by (nonlinear_arith)
        requires
            e * a >= (e - 1) * b,
            e * b >= (e - 1) * c,
            e >= 1,
    {
        assert(e * (e * a) >= e * ((e - 1) * b));
        assert(e * ((e - 1) * b) == (e - 1) * (e * b));
        assert((e - 1) * (e * b) >= (e - 1) * ((e - 1) * c));
    }
    assert(e * (e * (e * a)) >= (e - 1) * ((e - 1) * ((e - 1) * d))) by (nonlinear_arith)
        requires
            e * (e * a) >= (e - 1) * ((e - 1) * c),
            e * c >= (e - 1) * d,
            e >= 1,
    {
        assert(e * (e * (e * a)) >= e * ((e - 1) * ((e - 1) * c)));
        assert(e * ((e - 1) * ((e - 1) * c)) == (e - 1) * ((e - 1) * (e * c)));
        assert((e - 1) * (e * c) >= (e - 1) * ((e - 1) * d));
        assert((e - 1) * ((e - 1) * (e * c)) >= (e - 1) * ((e - 1) * ((e - 1) * d)));
    }
}

/// The step between columns, and an offset before it is cut to an integer.
spec fn exact_step(span: nat, count: nat) -> Binary64 {
    Binary64::quotient(Binary64::of_integer(span), Binary64::of_integer(count))
}

/// The step between columns is a number near the exact quotient.
proof fn lemma_step(span: nat, count: nat)
    requires
        1 <= count <= span <= u64::MAX,
        count <= COLUMN_LIMIT,
    ensures
        ({
            let e = PRECISION_LIMIT as int;
            let s = Binary64::of_integer(span).size() as int;
            let p = exact_step(span, count).size() as int;
            let x = span * precision::one();
            &&& exact_step(span, count).finite()
            &&& !exact_step(span, count).negative()
            &&& (e - 1) * x <= e * s <= (e + 1) * x
            &&& (e - 1) * s <= e * (p * count) <= (e + 1) * s
            &&& p >= EXPONENT_STEP
            &&& p * count < pow2(1141)
        }),
{
    let e = PRECISION_LIMIT as int;
    let s = Binary64::of_integer(span).size();
    let f = precision::one();
    let x = span * f;
    lemma_one();
    precision::lemma_integer_error(span);
    precision::lemma_small_integer(count);
    binary64::lemma_parts(Binary64::of_integer(span));
    binary64::lemma_parts(Binary64::of_integer(count));
    assert((e - 1) * x <= e * s <= (e + 1) * x) by (nonlinear_arith)
        requires
            x * e - x <= s * e <= x * e + x,
    ;
    assert(2 * s >= f && s <= 2 * x) by (nonlinear_arith)
        requires
            (e - 1) * x <= e * s <= (e + 1) * x,
            e >= 2,
            x == span * f,
            span >= 1,
            f >= 0,
    {
        assert(x >= f);
        if 2 * s < x {
            assert(e * (2 * s) <= e * (x - 1));
            assert(2 * ((e - 1) * x) <= e * (2 * s));
            assert(2 * ((e - 1) * x) == e * x + (e - 2) * x);
            assert((e - 2) * x >= 0);
            assert(e * (x - 1) == e * x - e);
        }
        if s > 2 * x {
            assert(e * s >= e * (2 * x + 1));
            assert((e + 1) * x <= (2 * e) * x);
        }
    }
    lemma_pow2_adds(64, FRACTION_PLACES as nat);
    lemma2_to64();
    assert(x < pow2(1138)) by (nonlinear_arith)
        requires
            x == span * f,
            span <= u64::MAX,
            f > 0,
            pow2(1138) == 0x1_0000_0000_0000_0000 * f,
    ;
    lemma_pow2_unfold(1139);
    lemma_pow2_unfold(1140);
    lemma_pow2_unfold(1141);
    let n = s * f;
    let d = count * f;
    assert(d > 0 && n >= EXPONENT_STEP * d && n / d <= s) by {
        assert(d > 0) by (nonlinear_arith)
            requires
                d == count * f,
                count >= 1,
                f > 0,
        ;
        assert(s >= EXPONENT_STEP * count) by (nonlinear_arith)
            requires
                2 * s >= f,
                f >= COLUMN_LIMIT * COLUMN_LIMIT * COLUMN_LIMIT,
                count <= COLUMN_LIMIT,
        ;
        assert(n >= EXPONENT_STEP * d) by (nonlinear_arith)
            requires
                n == s * f,
                d == count * f,
                s >= EXPONENT_STEP * count,
                f > 0,
        ;
        lemma_fundamental_div_mod(n as int, d as int);
        assert(n / d <= s) by (nonlinear_arith)
            requires
                n == s * f,
                d == count * f,
                count >= 1,
                f > 0,
                n == d * (n / d) + n % d,
                n % d >= 0,
                s >= 0,
        {
            if n / d > s {
                assert(d * (n / d) >= d * (s + 1));
                assert(d * (s + 1) == count * (f * (s + 1)));
                assert(count * (f * (s + 1)) >= f * (s + 1));
                assert(f * (s + 1) == s * f + f);
            }
        }
    }
    rounding::lemma_pow2_monotone(1140, 2097);
    precision::lemma_nearest_finite(n, d);
    precision::lemma_nearest_value(n, d);
    precision::lemma_nearest_relative_error(n, d);
    let step = exact_step(span, count);
    let p = step.size();
    assert(step == Binary64::assemble(false, rounding::nearest_magnitude(n, d)));
    assert((e - 1) * s <= e * (p * count) <= (e + 1) * s) by (nonlinear_arith)
        requires
            n * e - n <= (p * d) * e <= n * e + n,
            n == s * f,
            d == count * f,
            f > 0,
    {
        assert((p * d) * e == f * (e * (p * count)));
        assert(n * e - n == f * ((e - 1) * s));
        assert(n * e + n == f * ((e + 1) * s));
    }
    assert(p >= EXPONENT_STEP && p * count <= 2 * s) by (nonlinear_arith)
        requires
            (e - 1) * s <= e * (p * count) <= (e + 1) * s,
            e == PRECISION_LIMIT,
            2 * s >= f,
            f >= COLUMN_LIMIT * COLUMN_LIMIT * COLUMN_LIMIT,
            count <= COLUMN_LIMIT,
            p >= 0,
    {
        if p < EXPONENT_STEP {
            assert(p * count <= EXPONENT_STEP * COLUMN_LIMIT);
        }
    }
}

/// An offset before it is cut to an integer.
spec fn exact_offset(span: nat, count: nat, i: nat) -> Binary64 {
    Binary64::product(Binary64::of_integer(i), exact_step(span, count))
}

/// The offset of a column is a number near the exact multiple of the step.
proof fn lemma_multiple(span: nat, count: nat, i: nat)
    requires
        1 <= count <= span <= u64::MAX,
        count <= COLUMN_LIMIT,
        i < count,
    ensures
        ({
            let e = PRECISION_LIMIT as int;
            let p = exact_step(span, count).size() as int;
            let r = exact_offset(span, count, i).size() as int;
            &&& exact_offset(span, count, i).finite()
            &&& !exact_offset(span, count, i).negative()
            &&& (e - 1) * (i * p) <= e * r <= (e + 1) * (i * p)
        }),
{
    let e = PRECISION_LIMIT as int;
    let f = precision::one();
    let p = exact_step(span, count).size();
    let x = exact_offset(span, count, i);
    lemma_one();
    lemma_step(span, count);
    precision::lemma_small_integer(i);
    let n = (i * f) * p;
    assert(x == Binary64::assemble(false, rounding::nearest_magnitude(n, f)));
    assert(n == (i * p) * f) by (nonlinear_arith)
        requires
            n == (i * f) * p,
    ;
    lemma_fundamental_div_mod_converse(n as int, f as int, (i * p) as int, 0);
    assert(i * p <= p * count) by (nonlinear_arith)
        requires
            i < count,
            p >= 0,
    ;
    rounding::lemma_pow2_monotone(1141, 2097);
    precision::lemma_nearest_finite(n, f);
    precision::lemma_nearest_value(n, f);
    if i == 0 {
        assert(n == 0 && i * p == 0) by (nonlinear_arith)
            requires
                n == (i * p) * f,
                i == 0,
        ;
        precision::lemma_nearest_error(n, f);
        precision::lemma_spacing_bounds(0);
        lemma2_to64();
        assert(x.size() == 0) by {
            binary64::lemma_parts(x);
            assert(rounding::spacing(0) == 0);
            lemma_mul_basics(f as int);
            assert(rounding::half_even(0, f) == 0) by {
                lemma_fundamental_div_mod_converse(0, f as int, 0, 0);
            }
        }
        lemma_mul_basics(e);
        lemma_mul_basics(e - 1);
        lemma_mul_basics(e + 1);
    } else {
        assert(n >= EXPONENT_STEP * f) by (nonlinear_arith)
            requires
                n == (i * p) * f,
                i >= 1,
                p >= EXPONENT_STEP,
                f > 0,
        {
            assert(i * p >= p);
        }
        precision::lemma_nearest_relative_error(n, f);
        let r = x.size();
        assert((e - 1) * (i * p) <= e * r <= (e + 1) * (i * p)) by (nonlinear_arith)
            requires
                n * e - n <= (r * f) * e <= n * e + n,
                n == (i * p) * f,
                f > 0,
        {
            assert((r * f) * e == f * (e * r));
            assert(n * e - n == f * ((e - 1) * (i * p)));
            assert(n * e + n == f * ((e + 1) * (i * p)));
        }
    }
}

/// What three roundings upward add, at most.
proof fn lemma_cube_above(e: int, y: int, t: int)
    requires
        e >= 1,
        y >= 0,
        e * (e * (e * t)) <= (e + 1) * ((e + 1) * ((e + 1) * y)),
    ensures
        e * t <= e * y + 7 * y,
{
    assert((e + 1) * ((e + 1) * ((e + 1) * y)) <= e * (e * (e * y + 7 * y))) by (nonlinear_arith)
        requires
            e >= 1,
            y >= 0,
    {
        assert((e + 1) * ((e + 1) * ((e + 1) * y)) == e * (e * (e * y)) + 3 * (e * (e * y)) + 3 * (e
            * y) + y);
        assert(e * y <= e * (e * y));
        assert(y <= e * y);
        assert(e * (e * (e * y + 7 * y)) == e * (e * (e * y)) + 7 * (e * (e * y)));
    }
    let a = e * t;
    let b = e * y + 7 * y;
    assert(a <= b) by (nonlinear_arith)
        requires
            e * (e * a) <= e * (e * b),
            e >= 1,
    {
        if a > b {
            assert(e * a > e * b);
            assert(e * (e * a) > e * (e * b));
        }
    }
}

/// What three roundings downward take away, at most.
proof fn lemma_cube_below(e: int, y: int, t: int)
    requires
        e >= 1,
        y >= 0,
        e * (e * (e * t)) >= (e - 1) * ((e - 1) * ((e - 1) * y)),
    ensures
        e * t >= e * y - 3 * y,
{
    assert((e - 1) * ((e - 1) * ((e - 1) * y)) >= e * (e * (e * y - 3 * y))) by (nonlinear_arith)
        requires
            e >= 1,
            y >= 0,
    {
        assert((e - 1) * ((e - 1) * ((e - 1) * y)) == e * (e * (e * y)) - 3 * (e * (e * y)) + 3 * (e
            * y) - y);
        assert(y <= e * y);
        assert(e * (e * (e * y - 3 * y)) == e * (e * (e * y)) - 3 * (e * (e * y)));
    }
    let a = e * t;
    let b = e * y - 3 * y;
    assert(a >= b) by (nonlinear_arith)
        requires
            e * (e * a) >= e * (e * b),
            e >= 1,
    {
        if a < b {
            assert(e * a < e * b);
            assert(e * (e * a) < e * (e * b));
        }
    }
}

/// How far an offset can be from the exact one, before it is cut.
proof fn lemma_offset_error(span: nat, count: nat, i: nat)
    requires
        1 <= count <= span <= u64::MAX,
        count <= COLUMN_LIMIT,
        i < count,
    ensures
        ({
            let e = PRECISION_LIMIT as int;
            let t = count * exact_offset(span, count, i).size();
            let y = i * (span * precision::one());
            e * y - 3 * y <= e * t <= e * y + 7 * y
        }),
{
    let e = PRECISION_LIMIT as int;
    let s = Binary64::of_integer(span).size() as int;
    let p = exact_step(span, count).size() as int;
    let r = exact_offset(span, count, i).size() as int;
    let x = (span * precision::one()) as int;
    lemma_step(span, count);
    lemma_multiple(span, count, i);
    lemma_errors_above(e, count as int, i as int, x, s, p, r);
    lemma_errors_below(e, count as int, i as int, x, s, p, r);
    assert(i * x >= 0) by (nonlinear_arith)
        requires
            i >= 0,
            x >= 0,
    ;
    lemma_cube_above(e, i * x, count * r);
    lemma_cube_below(e, i * x, count * r);
}

/// Every column stands before the end of the span.
pub proof fn lemma_offset_within_span(span: nat, count: nat, i: nat)
    requires
        1 <= count <= span <= u64::MAX,
        count <= COLUMN_LIMIT,
        i < count,
    ensures
        column_offset(span, count, i) < span,
{
    let f = precision::one();
    let r = exact_offset(span, count, i).size();
    lemma_one();
    lemma_offset_error(span, count, i);
    lemma_multiple(span, count, i);
    let e = PRECISION_LIMIT as int;
    let x = span * f;
    assert(x > 0) by (nonlinear_arith)
        requires
            x == span * f,
            span >= 1,
            f > 0,
    ;
    assert(r < x) by (nonlinear_arith)
        requires
            e * (count * r) <= e * (i * x) + 7 * (i * x),
            e == PRECISION_LIMIT,
            count <= COLUMN_LIMIT,
            0 <= i < count,
            x > 0,
            r >= 0,
    {
        assert(i * x <= count * x - x);
        assert(count * x <= COLUMN_LIMIT * x);
        assert(e * (i * x) <= e * (count * x) - e * x);
        assert(7 * (i * x) < e * x);
        assert(e * (count * r) < e * (count * x));
        assert(count * r < count * x);
        if r >= x {
            assert(count * r >= count * x);
        }
    }
    lemma_fundamental_div_mod(r as int, f as int);
    let w = r / f;
    assert(w < span) by (nonlinear_arith)
        requires
            r == f * w + r % f,
            r % f >= 0,
            r < span * f,
            f > 0,
    {
        if w >= span {
            assert(f * w >= f * span);
        }
    }
}

/// What two roundings change, at most.
proof fn lemma_two_roundings(e: int, n: int, i: int, x: int, p: int, r: int)
    requires
        e >= 1,
        n >= 1,
        i >= 0,
        (e - 1) * x <= e * (p * n) <= (e + 1) * x,
        (e - 1) * (i * p) <= e * r <= (e + 1) * (i * p),
    ensures
        (e - 1) * ((e - 1) * (i * x)) <= e * (e * (n * r)) <= (e + 1) * ((e + 1) * (i * x)),
{
    let c = p * n;
    assert(e * (n * r) <= (e + 1) * (i * c) && e * (n * r) >= (e - 1) * (i * c)) by (
        nonlinear_arith)
        requires
            n >= 1,
            c == p * n,
            (e - 1) * (i * p) <= e * r <= (e + 1) * (i * p),
    {
        assert(n * (e * r) <= n * ((e + 1) * (i * p)));
        assert(n * (e * r) >= n * ((e - 1) * (i * p)));
        assert(n * (e * r) == e * (n * r));
        assert(n * ((e + 1) * (i * p)) == (e + 1) * (i * (p * n)));
        assert(n * ((e - 1) * (i * p)) == (e - 1) * (i * (p * n)));
    }
    assert(e * (i * c) <= (e + 1) * (i * x) && e * (i * c) >= (e - 1) * (i * x)) by (
        nonlinear_arith)
        requires
            i >= 0,
            (e - 1) * x <= e * c <= (e + 1) * x,
    {
        assert(i * (e * c) <= i * ((e + 1) * x));
        assert(i * (e * c) >= i * ((e - 1) * x));
    }
    let v = i * c;
    let y = i * x;
    let t = n * r;
    assert(e * (e * t) <= (e + 1) * ((e + 1) * y) && e * (e * t) >= (e - 1) * ((e - 1) * y)) by (
        nonlinear_arith)
        requires
            e >= 1,
            (e - 1) * v <= e * t <= (e + 1) * v,
            (e - 1) * y <= e * v <= (e + 1) * y,
    {
        assert(e * (e * t) <= e * ((e + 1) * v));
        assert(e * ((e + 1) * v) == (e + 1) * (e * v));
        assert((e + 1) * (e * v) <= (e + 1) * ((e + 1) * y));
        assert(e * (e * t) >= e * ((e - 1) * v));
        assert(e * ((e - 1) * v) == (e - 1) * (e * v));
        assert((e - 1) * (e * v) >= (e - 1) * ((e - 1) * y));
    }
}

/// For a span of up to `2^52` milliseconds, the offset of a column, before it is
/// cut to a whole number, is less than one millisecond from its exact share of
/// the span.
proof fn lemma_uncut_offset(span: nat, count: nat, i: nat)
    requires
        1 <= count <= span <= EXPONENT_STEP,
        count <= COLUMN_LIMIT,
        i < count,
    ensures
        ({
            let f = precision::one();
            let r = exact_offset(span, count, i).size();
            (i * span) * f - count * f < count * r < (i * span) * f + count * f
        }),
{
    let f = precision::one();
    let e = PRECISION_LIMIT as int;
    let r = exact_offset(span, count, i).size();
    let p = exact_step(span, count).size() as int;
    let x = span * f;
    lemma_one();
    lemma_step(span, count);
    lemma_multiple(span, count, i);
    precision::lemma_small_integer(span);
    lemma_two_roundings(e, count as int, i as int, x as int, p, r as int);
    let y = i * x;
    let g = count * f;
    let t = count * r;
    assert(2 * y <= e * (g - f)) by (nonlinear_arith)
        requires
            y == i * x,
            x == span * f,
            g == count * f,
            span <= EXPONENT_STEP,
            e == 2 * EXPONENT_STEP,
            0 <= i <= count - 1,
            f > 0,
    {
        assert(x <= EXPONENT_STEP * f);
        assert(i * x <= (count - 1) * x);
        assert((count - 1) * x <= (count - 1) * (EXPONENT_STEP * f));
        assert((count - 1) * (EXPONENT_STEP * f) == EXPONENT_STEP * (count * f - f));
    }
    assert(g <= e * f) by (nonlinear_arith)
        requires
            g == count * f,
            count <= COLUMN_LIMIT,
            e == 8 * COLUMN_LIMIT,
            f > 0,
    ;
    assert(y - g < t < y + g) by (nonlinear_arith)
        requires
            (e - 1) * ((e - 1) * y) <= e * (e * t) <= (e + 1) * ((e + 1) * y),
            2 * y <= e * (g - f),
            g <= e * f,
            e >= 4,
            f > 0,
            g > 0,
            y >= 0,
    {
        assert((e + 1) * ((e + 1) * y) == e * (e * y) + 2 * (e * y) + y);
        assert((e - 1) * ((e - 1) * y) == e * (e * y) - 2 * (e * y) + y);
        assert(e * (2 * y) <= e * (e * (g - f)));
        assert(e * (2 * y) == 2 * (e * y));
        assert(e * (e * (g - f)) == e * (e * g) - e * (e * f));
        assert(e * g <= e * (e * f));
        assert(2 * y <= e * g - e * f);
        assert(e * f > 0);
        assert(y < e * g);
        assert(2 * (e * y) + y < e * (e * g));
        assert(e * (e * (y + g)) == e * (e * y) + e * (e * g));
        assert(e * (e * (y - g)) == e * (e * y) - e * (e * g));
        if t >= y + g {
            assert(e * t >= e * (y + g));
            assert(e * (e * t) >= e * (e * (y + g)));
        }
        if t <= y - g {
            assert(e * t <= e * (y - g));
            assert(e * (e * t) <= e * (e * (y - g)));
        }
    }
    assert(y == (i * span) * f) by (nonlinear_arith)
        requires
            y == i * x,
            x == span * f,
    ;
}

/// Columns are evenly spaced: for a span of up to `2^52` milliseconds, each
/// stands less than one millisecond after its exact share of the span and less
/// than two before it.
pub proof fn lemma_offsets_evenly_spaced(span: nat, count: nat, i: nat)
    requires
        1 <= count <= span <= EXPONENT_STEP,
        count <= COLUMN_LIMIT,
        i < count,
    ensures
        i * span - 2 * count < count * column_offset(span, count, i) < i * span + count,
{
    let f = precision::one();
    let r = exact_offset(span, count, i).size();
    let w = r / f;
    lemma_one();
    lemma_uncut_offset(span, count, i);
    lemma_offset_within_span(span, count, i);
    lemma_multiple(span, count, i);
    lemma_fundamental_div_mod(r as int, f as int);
    assert(w == column_offset(span, count, i));
    let t = count * r;
    let y = (i * span) * f;
    assert(i * span - 2 * count < count * w < i * span + count) by (nonlinear_arith)
        requires
            y - count * f < t < y + count * f,
            t == count * r,
            y == (i * span) * f,
            r == f * w + r % f,
            0 <= r % f < f,
            f > 0,
            count >= 1,
    {
        assert(t == f * (count * w) + count * (r % f));
        assert(0 <= count * (r % f) <= count * f);
        assert(f * (count * w) < f * (i * span + count));
        assert(f * (count * w) > f * (i * span - 2 * count));
    }
}

/// The first column stands at the start.
pub proof fn lemma_first_offset(span: nat, count: nat)
    requires
        1 <= count <= span <= u64::MAX,
        count <= COLUMN_LIMIT,
    ensures
        column_offset(span, count, 0) == 0,
{
    let e = PRECISION_LIMIT as int;
    let x = exact_offset(span, count, 0);
    lemma_multiple(span, count, 0);
    lemma_mul_basics(exact_step(span, count).size() as int);
    assert(x.size() == 0) by (nonlinear_arith)
        requires
            e * x.size() <= (e + 1) * 0,
            e > 0,
            x.size() >= 0,
    ;
    lemma_one();
    lemma_fundamental_div_mod_converse(0, precision::one() as int, 0, 0);
}

/// Columns stand in order.
pub proof fn lemma_offsets_ordered(span: nat, count: nat, i: nat, j: nat)
    requires
        1 <= count <= span <= u64::MAX,
        count <= COLUMN_LIMIT,
        i <= j < count,
    ensures
        column_offset(span, count, i) <= column_offset(span, count, j),
{
    let f = precision::one();
    let x = exact_offset(span, count, i);
    let y = exact_offset(span, count, j);
    lemma_one();
    assert(x.finite() && !x.negative()) by {
        lemma_multiple(span, count, i);
    }
    assert(y.finite() && !y.negative()) by {
        lemma_multiple(span, count, j);
    }
    assert(x.magnitude() <= y.magnitude()) by {
        lemma_products_ordered(span, count, i, j);
    }
    precision::lemma_size_ordered(x, y);
    lemma_div_is_ordered(x.size() as int, y.size() as int, f as int);
}

proof fn lemma_products_ordered(span: nat, count: nat, i: nat, j: nat)
    requires
        1 <= count <= span <= u64::MAX,
        count <= COLUMN_LIMIT,
        i <= j < count,
    ensures
        exact_offset(span, count, i).magnitude() <= exact_offset(span, count, j).magnitude(),
{
    let f = precision::one();
    let p = exact_step(span, count).size();
    lemma_one();
    lemma_step(span, count);
    precision::lemma_small_integer(i);
    precision::lemma_small_integer(j);
    assert(((i * f) * p) * f <= ((j * f) * p) * f) by (nonlinear_arith)
        requires
            i <= j,
            f >= 0,
            p >= 0,
    {
        assert(i * f <= j * f);
        assert((i * f) * p <= (j * f) * p);
    }
    precision::lemma_nearest_ordered((i * f) * p, f, (j * f) * p, f);
    lemma_assembled(rounding::nearest_magnitude((i * f) * p, f));
    lemma_assembled(rounding::nearest_magnitude((j * f) * p, f));
}

proof fn lemma_assembled(magnitude: nat)
    requires
        magnitude <= INFINITY_MAGNITUDE,
    ensures
        Binary64::assemble(false, magnitude).magnitude() == magnitude,
{
}

/// An offset, before it is cut, is the number nearest to the multiple of the
/// step.
proof fn lemma_offset_rounds(span: nat, count: nat, i: nat)
    requires
        1 <= count <= span <= u64::MAX,
        count <= COLUMN_LIMIT,
        i < count,
    ensures
        ({
            let p = exact_step(span, count).size();
            &&& rounding::nearest_magnitude(i * p, 1) < INFINITY_MAGNITUDE
            &&& exact_offset(span, count, i) == Binary64::assemble(
                false,
                rounding::nearest_magnitude(i * p, 1),
            )
        }),
{
    let f = precision::one();
    let p = exact_step(span, count).size();
    lemma_one();
    lemma_step(span, count);
    precision::lemma_small_integer(i);
    assert(((i * f) * p) * 1 == (i * p) * f) by (nonlinear_arith);
    precision::lemma_nearest_same((i * f) * p, f, i * p, 1);
    lemma_multiple(span, count, i);
    lemma_assembled(rounding::nearest_magnitude(i * p, 1));
}

/// Where there is no more than one column for a millisecond, the step is at
/// least one.
proof fn lemma_step_is_at_least_one(span: nat, count: nat)
    requires
        1 <= count <= span < PRECISION_LIMIT,
        count <= COLUMN_LIMIT,
    ensures
        exact_step(span, count).size() >= precision::one(),
{
    let f = precision::one();
    let s = span * f;
    let d = count * f;
    lemma_one();
    lemma_step(span, count);
    precision::lemma_small_integer(span);
    precision::lemma_small_integer(count);
    precision::lemma_small_integer(1);
    binary64::lemma_parts(Binary64::of_integer(span));
    binary64::lemma_parts(Binary64::of_integer(count));
    assert(d > 0) by (nonlinear_arith)
        requires
            d == count * f,
            count >= 1,
            f > 0,
    ;
    lemma_mul_basics(f as int);
    assert((1 * f) * d <= (s * f) * 1) by (nonlinear_arith)
        requires
            d == count * f,
            s == span * f,
            count <= span,
            f > 0,
    {
        assert(count * f <= span * f);
    }
    precision::lemma_nearest_ordered(1 * f, 1, s * f, d);
    precision::lemma_size_ordered(Binary64::of_integer(1), exact_step(span, count));
}

/// Up to a span of `2^52` milliseconds, each column stands after the one before
/// it.
pub proof fn lemma_offsets_strictly_ordered(span: nat, count: nat, i: nat)
    requires
        1 <= count <= span <= EXPONENT_STEP,
        count <= COLUMN_LIMIT,
        i + 1 < count,
    ensures
        column_offset(span, count, i) < column_offset(span, count, i + 1),
{
    let f = precision::one();
    let p = exact_step(span, count).size();
    let x = exact_offset(span, count, i);
    let y = exact_offset(span, count, i + 1);
    let w = x.size() / f;
    let n = i * p;
    let next = (i + 1) * p;
    lemma_one();
    lemma_step_is_at_least_one(span, count);
    lemma_offset_rounds(span, count, i);
    lemma_offset_rounds(span, count, i + 1);
    lemma_multiple(span, count, i);
    lemma_multiple(span, count, i + 1);
    lemma_offset_within_span(span, count, i);
    lemma_offset_within_span(span, count, i + 1);
    assert(w == column_offset(span, count, i));
    lemma_fundamental_div_mod(x.size() as int, f as int);
    assert(w * f <= x.size()) by (nonlinear_arith)
        requires
            x.size() == f * w + x.size() as int % f as int,
            x.size() as int % f as int >= 0,
    ;
    assert(next == n + p) by (nonlinear_arith)
        requires
            next == (i + 1) * p,
            n == i * p,
    ;
    assert((w + 1) * f == w * f + f) by (nonlinear_arith);
    assert(y.size() >= (w + 1) * f) by {
        if next >= (w + 1) * f {
            precision::lemma_small_integer(w + 1);
            precision::lemma_nearest_ordered((w + 1) * f, 1, next, 1);
            lemma_assembled(rounding::nearest_magnitude((w + 1) * f, 1));
            lemma_assembled(rounding::nearest_magnitude(next, 1));
            precision::lemma_size_ordered(Binary64::of_integer(w + 1), y);
        } else {
            precision::lemma_nearest_error(n, 1);
            assert(n / 1 == n);
            lemma_mul_basics(x.size() as int);
            lemma_mul_basics(pow2(rounding::spacing(n)) as int);
            precision::lemma_spacing_ordered(n, next);
            precision::lemma_rounds_up_to_integer(next, w + 1);
        }
    }
    let v = y.size() / f;
    lemma_fundamental_div_mod(y.size() as int, f as int);
    assert(v >= w + 1) by (nonlinear_arith)
        requires
            y.size() >= (w + 1) * f,
            y.size() == f * v + y.size() as int % f as int,
            (y.size() as int % f as int) < f,
            f > 0,
    {
        if v < w + 1 {
            assert(f * v + f <= f * (w + 1));
        }
    }
}

/// Where columns times milliseconds stay within `2^50`, each column stands at
/// its exact share of the span or less than one millisecond before it, or, where
/// the share is a whole number, one before it.
pub proof fn lemma_offset_within_one_millisecond(span: nat, count: nat, i: nat)
    requires
        1 <= count <= span,
        count * span <= COLUMN_LIMIT,
        i < count,
    ensures
        i * span - count <= count * column_offset(span, count, i) <= i * span,
{
    let f = precision::one();
    let e = PRECISION_LIMIT as int;
    assert(count <= COLUMN_LIMIT && span <= COLUMN_LIMIT) by (nonlinear_arith)
        requires
            1 <= count <= span,
            count * span <= COLUMN_LIMIT,
    ;
    let r = exact_offset(span, count, i).size();
    let w = r / f;
    lemma_one();
    lemma_offset_error(span, count, i);
    lemma_offset_within_span(span, count, i);
    lemma_multiple(span, count, i);
    lemma_fundamental_div_mod(r as int, f as int);
    assert(w == column_offset(span, count, i));
    let y = i * (span * f);
    let t = count * r;
    assert(7 * y < e * f) by (nonlinear_arith)
        requires
            y == i * (span * f),
            i < count,
            count * span <= COLUMN_LIMIT,
            e == 8 * COLUMN_LIMIT,
            f > 0,
            span >= 1,
    {
        assert(y == (i * span) * f);
        assert(i * span <= count * span);
        assert((i * span) * f <= COLUMN_LIMIT * f);
    }
    assert(y - f < t < y + f) by (nonlinear_arith)
        requires
            e * y - 3 * y <= e * t <= e * y + 7 * y,
            7 * y < e * f,
            y >= 0,
            e > 0,
    {
        assert(e * t < e * (y + f));
        assert(e * t > e * (y - f));
    }
    assert(i * span - count <= count * w <= i * span) by (nonlinear_arith)
        requires
            y - f < t < y + f,
            t == count * r,
            y == i * (span * f),
            r == f * w + r as int % f as int,
            0 <= r as int % f as int,
            (r as int % f as int) < f,
            f > 0,
            count >= 1,
    {
        let rest = r as int % f as int;
        assert(t == f * (count * w) + count * rest);
        assert(count * rest >= 0);
        assert(count * rest < count * f);
        assert(y == f * (i * span));
        assert(f * (count * w) < f * (i * span + 1));
        assert(f * (count * w + count) > f * (i * span - 1));
        if count * w > i * span {
            assert(f * (count * w) >= f * (i * span + 1));
        }
        if count * w + count < i * span {
            assert(f * (count * w + count) <= f * (i * span - 1));
        }
    }
}

} // verus!
