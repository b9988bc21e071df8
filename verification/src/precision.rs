//! Laws of rounding: it keeps the order, and it moves a number by at most half
//! the distance between neighbours.

use crate::binary64;
use crate::binary64::{Binary64, FRACTION_PLACES};
use crate::rounding;
use crate::rounding::{EXPONENT_STEP, INFINITY_MAGNITUDE, PRECISION_LIMIT};
use vstd::arithmetic::div_mod::*;
use vstd::arithmetic::mul::*;
use vstd::arithmetic::power2::*;
use vstd::prelude::*;

verus! {

/// The integer nearest to a fraction is at most half away from it.
pub proof fn lemma_half_even_error(n: nat, d: nat)
    requires
        d > 0,
    ensures
        2 * n - d <= 2 * (rounding::half_even(n, d) * d) <= 2 * n + d,
        n / d <= rounding::half_even(n, d) <= n / d + 1,
{
    let below = n / d;
    let rest = n % d;
    lemma_fundamental_div_mod(n as int, d as int);
    assert(below * d + rest == n && (below + 1) * d == below * d + d) by (nonlinear_arith)
        requires
            n == d * below + rest,
    ;
}

/// With one denominator, rounding keeps the order.
proof fn lemma_half_even_monotone(a: nat, b: nat, d: nat)
    requires
        d > 0,
        a <= b,
    ensures
        rounding::half_even(a, d) <= rounding::half_even(b, d),
{
    lemma_half_even_error(a, d);
    lemma_half_even_error(b, d);
    lemma_div_is_ordered(a as int, b as int, d as int);
    lemma_fundamental_div_mod(a as int, d as int);
    lemma_fundamental_div_mod(b as int, d as int);
}

/// Rounding to an integer keeps the order of fractions.
pub proof fn lemma_half_even_ordered(n1: nat, d1: nat, n2: nat, d2: nat)
    requires
        d1 > 0,
        d2 > 0,
        n1 * d2 <= n2 * d1,
    ensures
        rounding::half_even(n1, d1) <= rounding::half_even(n2, d2),
{
    assert(d1 * d2 > 0) by (nonlinear_arith)
        requires
            d1 > 0,
            d2 > 0,
    ;
    rounding::lemma_half_even_common_factor(n1, d1, d2);
    rounding::lemma_half_even_common_factor(n2, d2, d1);
    assert(d1 * d2 == d2 * d1) by (nonlinear_arith);
    lemma_half_even_monotone(n1 * d2, n2 * d1, d1 * d2);
}

/// The integer part of a fraction with a spacing above zero lies between two
/// powers of two that the spacing names.
pub proof fn lemma_spacing_bounds(q: nat)
    ensures
        rounding::spacing(q) == 0 ==> q < PRECISION_LIMIT,
        rounding::spacing(q) > 0 ==> rounding::bit_length(q) == rounding::spacing(q) + 53,
        rounding::spacing(q) > 0 ==> EXPONENT_STEP * pow2(rounding::spacing(q)) <= q,
        q < PRECISION_LIMIT * pow2(rounding::spacing(q)),
{
    lemma2_to64();
    if q >= PRECISION_LIMIT {
        rounding::lemma_bit_length_bounds(q);
        let len = rounding::bit_length(q);
        if len <= 53 {
            rounding::lemma_pow2_monotone(len, 53);
            assert(pow2(53) == PRECISION_LIMIT) by {
                lemma_powers();
            }
        }
        lemma_powers();
        let k = (len - 53) as nat;
        lemma_pow2_adds(k, 52);
        lemma_pow2_adds(k, 53);
        lemma_mul_is_commutative(EXPONENT_STEP as int, pow2(k) as int);
        lemma_mul_is_commutative(PRECISION_LIMIT as int, pow2(k) as int);
    } else {
        assert(PRECISION_LIMIT * pow2(0) == PRECISION_LIMIT) by {
            lemma_mul_basics(PRECISION_LIMIT as int);
        }
    }
}

proof fn lemma_powers()
    ensures
        pow2(52) == EXPONENT_STEP,
        pow2(53) == PRECISION_LIMIT,
{
    lemma2_to64();
    lemma2_to64_rest();
}

/// Around a fraction, the multiples of its spacing that it rounds to have at
/// most 53 binary digits, or are the power of two next to them.
pub(crate) proof fn lemma_rounded_part(n: nat, d: nat)
    requires
        d > 0,
    ensures
        d * pow2(rounding::spacing(n / d)) > 0,
        rounding::half_even(n, d * pow2(rounding::spacing(n / d))) <= PRECISION_LIMIT,
        rounding::spacing(n / d) > 0 ==> rounding::half_even(
            n,
            d * pow2(rounding::spacing(n / d)),
        ) >= EXPONENT_STEP,
{
    let q = n / d;
    let k = rounding::spacing(q);
    let p = pow2(k);
    lemma_pow2_pos(k);
    lemma_spacing_bounds(q);
    assert(d * p > 0) by (nonlinear_arith)
        requires
            d > 0,
            p > 0,
    ;
    lemma_fundamental_div_mod(n as int, d as int);
    let whole = n / (d * p);
    lemma_fundamental_div_mod(n as int, (d * p) as int);
    assert(whole < PRECISION_LIMIT) by (nonlinear_arith)
        requires
            n == d * q + n % d,
            n % d < d,
            q < PRECISION_LIMIT * p,
            n == (d * p) * whole + n % (d * p),
            n % (d * p) >= 0,
            d > 0,
            p > 0,
            q >= 0,
            whole >= 0,
    {
        if whole >= PRECISION_LIMIT {
            assert((d * p) * whole >= (d * p) * PRECISION_LIMIT);
            assert((d * p) * PRECISION_LIMIT == d * (PRECISION_LIMIT * p));
            assert(d * (PRECISION_LIMIT * p) >= d * (q + 1));
            assert(d * (q + 1) == d * q + d);
        }
    }
    if k > 0 {
        assert(whole >= EXPONENT_STEP) by (nonlinear_arith)
            requires
                n == d * q + n % d,
                n % d >= 0,
                EXPONENT_STEP * p <= q,
                n == (d * p) * whole + n % (d * p),
                n % (d * p) < d * p,
                d > 0,
                p > 0,
                whole >= 0,
        {
            if whole < EXPONENT_STEP {
                assert((d * p) * (whole + 1) <= (d * p) * EXPONENT_STEP);
                assert((d * p) * (whole + 1) == (d * p) * whole + d * p);
                assert((d * p) * EXPONENT_STEP == d * (EXPONENT_STEP * p));
                assert(d * (EXPONENT_STEP * p) <= d * q);
            }
        }
    }
    lemma_half_even_error(n, d * p);
}

/// Rounding to a number keeps the order of fractions.
pub proof fn lemma_nearest_ordered(n1: nat, d1: nat, n2: nat, d2: nat)
    requires
        d1 > 0,
        d2 > 0,
        n1 * d2 <= n2 * d1,
    ensures
        rounding::nearest_magnitude(n1, d1) <= rounding::nearest_magnitude(n2, d2),
{
    let q1 = n1 / d1;
    let q2 = n2 / d2;
    lemma_fundamental_div_mod(n1 as int, d1 as int);
    lemma_fundamental_div_mod(n2 as int, d2 as int);
    assert(q1 <= q2) by (nonlinear_arith)
        requires
            n1 == d1 * q1 + n1 % d1,
            n1 % d1 >= 0,
            n2 == d2 * q2 + n2 % d2,
            n2 % d2 < d2,
            n1 * d2 <= n2 * d1,
            d1 > 0,
            d2 > 0,
            q1 >= 0,
            q2 >= 0,
    {
        if q1 > q2 {
            assert(n2 < d2 * (q2 + 1));
            assert(d2 * (q2 + 1) <= d2 * q1);
            assert(n2 * d1 < (d2 * q1) * d1);
            assert((d2 * q1) * d1 == (d1 * q1) * d2);
            assert((d1 * q1) * d2 <= n1 * d2);
        }
    }
    let k1 = rounding::spacing(q1);
    let k2 = rounding::spacing(q2);
    lemma_rounded_part(n1, d1);
    lemma_rounded_part(n2, d2);
    lemma_spacing_ordered(q1, q2);
    if k1 == k2 {
        let p = pow2(k1);
        assert(n1 * (d2 * p) <= n2 * (d1 * p)) by (nonlinear_arith)
            requires
                n1 * d2 <= n2 * d1,
                p >= 0,
        ;
        lemma_half_even_ordered(n1, d1 * p, n2, d2 * p);
    } else {
        assert(k1 * EXPONENT_STEP + EXPONENT_STEP <= k2 * EXPONENT_STEP) by (nonlinear_arith)
            requires
                k1 + 1 <= k2,
        ;
    }
}

/// Neighbouring numbers are no closer to each other further up.
pub proof fn lemma_spacing_ordered(q1: nat, q2: nat)
    requires
        q1 <= q2,
    ensures
        rounding::spacing(q1) <= rounding::spacing(q2),
        pow2(rounding::spacing(q1)) <= pow2(rounding::spacing(q2)),
{
    let k1 = rounding::spacing(q1);
    let k2 = rounding::spacing(q2);
    lemma_spacing_bounds(q1);
    lemma_spacing_bounds(q2);
    if k1 > k2 {
        rounding::lemma_pow2_monotone((k2 + 1) as nat, k1);
        lemma_pow2_unfold((k2 + 1) as nat);
        assert(EXPONENT_STEP * pow2(k1) >= EXPONENT_STEP * (2 * pow2(k2))) by (nonlinear_arith)
            requires
                pow2(k1) >= 2 * pow2(k2),
        ;
        assert(EXPONENT_STEP * (2 * pow2(k2)) == PRECISION_LIMIT * pow2(k2)) by (nonlinear_arith);
    }
    rounding::lemma_pow2_monotone(k1, k2);
}

/// The number that a fraction rounds to, where it is finite, is a multiple of
/// the fraction's spacing.
pub proof fn lemma_nearest_value(n: nat, d: nat)
    requires
        d > 0,
        rounding::nearest_magnitude(n, d) < INFINITY_MAGNITUDE,
    ensures
        Binary64::assemble(false, rounding::nearest_magnitude(n, d)).size() == rounding::half_even(
            n,
            d * pow2(rounding::spacing(n / d)),
        ) * pow2(rounding::spacing(n / d)),
        Binary64::assemble(false, rounding::nearest_magnitude(n, d)).finite(),
        !Binary64::assemble(false, rounding::nearest_magnitude(n, d)).negative(),
{
    let k = rounding::spacing(n / d);
    let h = rounding::half_even(n, d * pow2(k));
    let m = rounding::nearest_magnitude(n, d);
    let x = Binary64::assemble(false, m);
    lemma_rounded_part(n, d);
    assert(x.magnitude() == m);
    let step = EXPONENT_STEP as nat;
    if h == PRECISION_LIMIT {
        assert(m == (k + 2) * step) by (nonlinear_arith)
            requires
                m == k * step + h,
                h == 2 * step,
        ;
        lemma_fundamental_div_mod_converse(m as int, step as int, (k + 2) as int, 0);
        lemma_pow2_unfold((k + 1) as nat);
        assert(step * (2 * pow2(k)) == h * pow2(k)) by (nonlinear_arith)
            requires
                h == 2 * step,
        ;
    } else if h >= EXPONENT_STEP {
        assert(m == (k + 1) * step + (h - step)) by (nonlinear_arith)
            requires
                m == k * step + h,
        ;
        lemma_fundamental_div_mod_converse(m as int, step as int, (k + 1) as int, h - step);
    } else {
        assert(m == h) by {
            lemma_mul_basics(step as int);
        }
    }
}

/// The number that a fraction rounds to, where it is finite, is within half
/// the fraction's spacing of it.
pub proof fn lemma_nearest_error(n: nat, d: nat)
    requires
        d > 0,
        rounding::nearest_magnitude(n, d) < INFINITY_MAGNITUDE,
    ensures
        ({
            let value = Binary64::assemble(false, rounding::nearest_magnitude(n, d)).size();
            let gap = d * pow2(rounding::spacing(n / d));
            2 * n - gap <= 2 * (value * d) <= 2 * n + gap
        }),
{
    let p = pow2(rounding::spacing(n / d));
    let h = rounding::half_even(n, d * p);
    lemma_rounded_part(n, d);
    lemma_nearest_value(n, d);
    lemma_half_even_error(n, d * p);
    assert((h * p) * d == h * (d * p)) by (nonlinear_arith);
}

/// A fraction of at least `2^52` units moves by at most one part in `2^53`.
pub proof fn lemma_nearest_relative_error(n: nat, d: nat)
    requires
        d > 0,
        n >= EXPONENT_STEP * d,
        rounding::nearest_magnitude(n, d) < INFINITY_MAGNITUDE,
    ensures
        ({
            let value = Binary64::assemble(false, rounding::nearest_magnitude(n, d)).size();
            n * PRECISION_LIMIT - n <= (value * d) * PRECISION_LIMIT <= n * PRECISION_LIMIT + n
        }),
{
    let q = n / d;
    let p = pow2(rounding::spacing(q));
    lemma_nearest_error(n, d);
    lemma_spacing_bounds(q);
    lemma_fundamental_div_mod(n as int, d as int);
    assert(q >= EXPONENT_STEP) by (nonlinear_arith)
        requires
            n >= EXPONENT_STEP * d,
            n == d * q + n % d,
            n % d < d,
            d > 0,
            q >= 0,
    {
        if q < EXPONENT_STEP {
            assert(d * (q + 1) <= d * EXPONENT_STEP);
            assert(d * (q + 1) == d * q + d);
        }
    }
    lemma_powers();
    assert(pow2(0) == 1) by {
        lemma2_to64();
    }
    assert(EXPONENT_STEP * p <= q);
    assert(EXPONENT_STEP * (d * p) <= n) by (nonlinear_arith)
        requires
            EXPONENT_STEP * p <= q,
            n == d * q + n % d,
            n % d >= 0,
            d > 0,
    {
        assert(EXPONENT_STEP * (d * p) == d * (EXPONENT_STEP * p));
        assert(d * (EXPONENT_STEP * p) <= d * q);
    }
}

/// A fraction below `2^2097` units rounds to a finite number.
pub proof fn lemma_nearest_finite(n: nat, d: nat)
    requires
        d > 0,
        n / d < pow2(2097),
    ensures
        rounding::nearest_magnitude(n, d) < INFINITY_MAGNITUDE,
{
    let q = n / d;
    let k = rounding::spacing(q);
    lemma_rounded_part(n, d);
    lemma_spacing_bounds(q);
    if k > 2044 {
        rounding::lemma_bit_length_bounds(q);
        rounding::lemma_pow2_monotone(2097, (rounding::bit_length(q) - 1) as nat);
    }
    assert(k * EXPONENT_STEP <= 2044 * EXPONENT_STEP) by (nonlinear_arith)
        requires
            k <= 2044,
    ;
}

/// Of two finite numbers without a sign, the one of larger magnitude is the
/// larger.
pub proof fn lemma_size_ordered(x: Binary64, y: Binary64)
    requires
        x.finite(),
        y.finite(),
        x.magnitude() <= y.magnitude(),
    ensures
        x.size() <= y.size(),
{
    let step = EXPONENT_STEP as nat;
    let a = x.magnitude();
    let b = y.magnitude();
    lemma_fundamental_div_mod(a as int, step as int);
    lemma_fundamental_div_mod(b as int, step as int);
    lemma_div_is_ordered(a as int, b as int, step as int);
    lemma_pow2_pos(x.scale());
    if x.scale() == y.scale() {
        assert(x.significand() <= y.significand());
        lemma_mul_inequality(
            x.significand() as int,
            y.significand() as int,
            pow2(x.scale()) as int,
        );
    } else {
        rounding::lemma_pow2_monotone((x.scale() + 1) as nat, y.scale());
        lemma_pow2_unfold((x.scale() + 1) as nat);
        assert(x.significand() * pow2(x.scale()) <= y.significand() * pow2(y.scale()))
            by (nonlinear_arith)
            requires
                x.significand() <= 2 * step,
                y.significand() >= step,
                pow2(y.scale()) >= 2 * pow2(x.scale()),
                pow2(x.scale()) > 0,
        {
            assert(x.significand() * pow2(x.scale()) <= (2 * step) * pow2(x.scale()));
            assert(step * (2 * pow2(x.scale())) <= step * pow2(y.scale()));
            assert(step * pow2(y.scale()) <= y.significand() * pow2(y.scale()));
        }
    }
}

/// The number of units in one.
pub open spec fn one() -> nat {
    pow2(FRACTION_PLACES as nat)
}

proof fn lemma_one()
    ensures
        one() >= EXPONENT_STEP,
{
    rounding::lemma_pow2_monotone(52, FRACTION_PLACES as nat);
    lemma_powers();
}

/// An integer below `2^53` is a number.
pub proof fn lemma_small_integer(n: nat)
    requires
        n < PRECISION_LIMIT,
    ensures
        Binary64::of_integer(n).finite(),
        !Binary64::of_integer(n).negative(),
        Binary64::of_integer(n).size() == n * one(),
{
    let units = n * one();
    let k = rounding::spacing(units);
    lemma_one();
    lemma2_to64_rest();
    assert(units / 1 == units);
    lemma_pow2_adds(53, FRACTION_PLACES as nat);
    assert(units < pow2(1127)) by (nonlinear_arith)
        requires
            units == n * one(),
            n < PRECISION_LIMIT,
            pow2(1127) == PRECISION_LIMIT * one(),
            one() > 0,
    ;
    rounding::lemma_pow2_monotone(1127, 2097);
    lemma_nearest_finite(units, 1);
    lemma_nearest_value(units, 1);
    lemma_spacing_bounds(units);
    if k > 1074 {
        rounding::lemma_bit_length_bounds(units);
        rounding::lemma_pow2_monotone(1127, (rounding::bit_length(units) - 1) as nat);
    }
    let rest = (1074 - k) as nat;
    lemma_pow2_adds(rest, k);
    lemma_pow2_pos(k);
    let h = n * pow2(rest);
    assert(units == h * pow2(k)) by (nonlinear_arith)
        requires
            units == n * one(),
            one() == pow2(rest) * pow2(k),
            h == n * pow2(rest),
    ;
    lemma_mul_basics(pow2(k) as int);
    lemma_fundamental_div_mod_converse(units as int, pow2(k) as int, h as int, 0);
    assert(rounding::half_even(units, 1 * pow2(k)) == h);
}

/// An integer that is no number moves by at most one part in `2^53`.
pub proof fn lemma_integer_error(n: nat)
    requires
        1 <= n <= u64::MAX,
    ensures
        Binary64::of_integer(n).finite(),
        !Binary64::of_integer(n).negative(),
        n * one() * PRECISION_LIMIT - n * one() <= Binary64::of_integer(n).size() * PRECISION_LIMIT
            <= n * one() * PRECISION_LIMIT + n * one(),
{
    let units = n * one();
    lemma_one();
    lemma2_to64();
    assert(units / 1 == units);
    lemma_pow2_adds(64, FRACTION_PLACES as nat);
    assert(units < pow2(1138)) by (nonlinear_arith)
        requires
            units == n * one(),
            n <= u64::MAX,
            pow2(1138) == 0x1_0000_0000_0000_0000 * one(),
            one() > 0,
    ;
    rounding::lemma_pow2_monotone(1138, 2097);
    lemma_nearest_finite(units, 1);
    lemma_nearest_value(units, 1);
    assert(units >= EXPONENT_STEP) by (nonlinear_arith)
        requires
            units == n * one(),
            n >= 1,
            one() >= EXPONENT_STEP,
    ;
    lemma_nearest_relative_error(units, 1);
    lemma_mul_basics(Binary64::of_integer(n).size() as int);
}


/// Dividing by one or more gives no more than twice the number, but for two
/// units.
pub proof fn lemma_quotient_bound(x: Binary64, y: Binary64)
    requires
        x.finite() && !x.negative(),
        y.finite() && !y.negative(),
        y.size() >= one(),
        x.size() < pow2(2000),
    ensures
        Binary64::quotient(x, y).finite(),
        !Binary64::quotient(x, y).negative(),
        Binary64::quotient(x, y).size() <= 2 * x.size() + 2,
{
    let s = x.size();
    let f = one();
    let n = s * f;
    let d = y.size();
    let q = n / d;
    lemma_one();
    binary64::lemma_parts(x);
    binary64::lemma_parts(y);
    lemma_fundamental_div_mod(n as int, d as int);
    assert(q <= s) by (nonlinear_arith)
        requires
            n == s * f,
            d >= f,
            f > 0,
            n == d * q + n % d,
            n % d >= 0,
            s >= 0,
    {
        if q > s {
            assert(d * q >= d * (s + 1));
            assert(d * (s + 1) >= f * (s + 1));
            assert(f * (s + 1) == s * f + f);
        }
    }
    rounding::lemma_pow2_monotone(2000, 2097);
    lemma_nearest_finite(n, d);
    lemma_nearest_value(n, d);
    lemma_nearest_error(n, d);
    lemma_spacing_bounds(q);
    let p = pow2(rounding::spacing(q));
    assert(p <= q + 1) by {
        lemma2_to64();
        if rounding::spacing(q) > 0 {
            assert(p <= EXPONENT_STEP * p) by (nonlinear_arith)
                requires
                    p >= 0,
            ;
        }
    }
    let v = Binary64::quotient(x, y).size();
    assert(Binary64::quotient(x, y) == Binary64::assemble(
        false,
        rounding::nearest_magnitude(n, d),
    ));
    assert(v <= 2 * q + 2) by (nonlinear_arith)
        requires
            2 * (v * d) <= 2 * n + d * p,
            p <= q + 1,
            n == d * q + n % d,
            n % d < d,
            d > 0,
            q >= 0,
            v >= 0,
    {
        assert(d * p <= d * (q + 1));
        assert(d * (q + 1) == d * q + d);
        assert(2 * (v * d) < 3 * (d * q) + 3 * d);
        if v > 2 * q + 2 {
            assert(v * d >= (2 * q + 3) * d);
            assert((2 * q + 3) * d == 2 * (d * q) + 3 * d);
        }
    }
}

/// Equal fractions round to the same number.
pub proof fn lemma_nearest_same(n1: nat, d1: nat, n2: nat, d2: nat)
    requires
        d1 > 0,
        d2 > 0,
        n1 * d2 == n2 * d1,
    ensures
        rounding::nearest_magnitude(n1, d1) == rounding::nearest_magnitude(n2, d2),
{
    lemma_nearest_ordered(n1, d1, n2, d2);
    lemma_nearest_ordered(n2, d2, n1, d1);
}

/// Zero is the number with nothing in its encoding.
pub proof fn lemma_integer_encoded_zero()
    ensures
        Binary64::of_integer(0).bits == 0,
{
    lemma_small_integer(0);
    binary64::lemma_parts(Binary64::of_integer(0));
    lemma_mul_basics(one() as int);
}

/// Sums of integers are exact as long as they stay below `2^53`.
pub proof fn lemma_integer_sum(a: nat, b: nat)
    requires
        a + b < PRECISION_LIMIT,
    ensures
        Binary64::sum(Binary64::of_integer(a), Binary64::of_integer(b)) == Binary64::of_integer(
            a + b,
        ),
{
    let f = one();
    lemma_one();
    lemma_integer_encoded_zero();
    lemma_small_integer(a);
    lemma_small_integer(b);
    assert(a * f + b * f == (a + b) * f) by (nonlinear_arith);
    if a + b > 0 {
        assert((a + b) * f > 0) by (nonlinear_arith)
            requires
                a + b > 0,
                f > 0,
        ;
    }
}

/// Differences of integers below `2^53` are exact.
pub proof fn lemma_integer_difference(a: nat, b: nat)
    requires
        b <= a < PRECISION_LIMIT,
    ensures
        Binary64::difference(Binary64::of_integer(a), Binary64::of_integer(b))
            == Binary64::of_integer((a - b) as nat),
{
    let f = one();
    let y = Binary64::of_integer(b);
    let z = Binary64::opposite(y);
    lemma_one();
    lemma_integer_encoded_zero();
    lemma_small_integer(a);
    lemma_small_integer(b);
    assert(z.magnitude() == y.magnitude() && z.negative());
    assert(a * f - b * f == (a - b) * f) by (nonlinear_arith);
    if a > b {
        assert((a - b) * f > 0) by (nonlinear_arith)
            requires
                a > b,
                f > 0,
        ;
    } else {
        lemma_mul_basics(f as int);
    }
}

/// Products of integers are exact as long as they stay below `2^53`.
pub proof fn lemma_integer_product(a: nat, b: nat)
    requires
        a < PRECISION_LIMIT,
        b < PRECISION_LIMIT,
        a * b < PRECISION_LIMIT,
    ensures
        Binary64::product(Binary64::of_integer(a), Binary64::of_integer(b)) == Binary64::of_integer(
            a * b,
        ),
{
    let f = one();
    lemma_one();
    lemma_small_integer(a);
    lemma_small_integer(b);
    assert(((a * f) * (b * f)) * 1 == ((a * b) * f) * f) by (nonlinear_arith);
    lemma_nearest_same((a * f) * (b * f), f, (a * b) * f, 1);
}

/// Quotients of integers below `2^53` that are integers are exact.
pub proof fn lemma_integer_quotient(a: nat, b: nat)
    requires
        0 < b < PRECISION_LIMIT,
        a * b < PRECISION_LIMIT,
    ensures
        Binary64::quotient(Binary64::of_integer(a * b), Binary64::of_integer(b))
            == Binary64::of_integer(a),
{
    let f = one();
    lemma_one();
    lemma_small_integer(a * b);
    lemma_small_integer(b);
    binary64::lemma_parts(Binary64::of_integer(b));
    assert(b * f > 0) by (nonlinear_arith)
        requires
            b > 0,
            f > 0,
    ;
    assert((((a * b) * f) * f) * 1 == (a * f) * (b * f)) by (nonlinear_arith);
    lemma_nearest_same(((a * b) * f) * f, b * f, a * f, 1);
}

/// Small integers are ordered as numbers as they are as integers.
pub proof fn lemma_integers_ordered(a: nat, b: nat)
    requires
        a < PRECISION_LIMIT,
        b < PRECISION_LIMIT,
    ensures
        Binary64::less(Binary64::of_integer(a), Binary64::of_integer(b)) <==> a < b,
        Binary64::as_unsigned(Binary64::of_integer(a)) == a,
{
    let f = one();
    let x = Binary64::of_integer(a);
    let y = Binary64::of_integer(b);
    lemma_one();
    lemma_small_integer(a);
    lemma_small_integer(b);
    if a < b {
        if y.magnitude() <= x.magnitude() {
            lemma_size_ordered(y, x);
            assert(a * f < b * f) by (nonlinear_arith)
                requires
                    a < b,
                    f > 0,
            ;
        }
    } else {
        if x.magnitude() < y.magnitude() {
            assert((b * f) * 1 <= (a * f) * 1) by (nonlinear_arith)
                requires
                    b <= a,
                    f > 0,
            ;
            lemma_nearest_ordered(b * f, 1, a * f, 1);
        }
    }
    lemma_fundamental_div_mod_converse((a * f) as int, f as int, a as int, 0);
}

/// The encoding of a positive integer below `2^53` that has `len` binary
/// digits.
pub proof fn lemma_integer_encoding(n: nat, len: nat)
    requires
        1 <= len <= 53,
        pow2((len - 1) as nat) <= n < pow2(len),
    ensures
        Binary64::of_integer(n).bits == (len + 1021) * EXPONENT_STEP + n * pow2((53 - len) as nat),
{
    let f = one();
    let units = n * f;
    let k = (len + 1021) as nat;
    let shift = (53 - len) as nat;
    lemma_one();
    lemma_pow2_pos((len - 1) as nat);
    lemma_pow2_adds((len - 1) as nat, FRACTION_PLACES as nat);
    lemma_pow2_adds(len, FRACTION_PLACES as nat);
    assert(pow2((len + 1073) as nat) <= units < pow2((len + 1074) as nat)) by (nonlinear_arith)
        requires
            units == n * f,
            pow2((len + 1073) as nat) == pow2((len - 1) as nat) * f,
            pow2((len + 1074) as nat) == pow2(len) * f,
            pow2((len - 1) as nat) <= n < pow2(len),
            f > 0,
    ;
    rounding::lemma_bit_length_unique(units, (len + 1074) as nat);
    rounding::lemma_pow2_monotone(53, (len + 1073) as nat);
    lemma_powers();
    assert(units / 1 == units);
    assert(rounding::spacing(units) == k);
    lemma_pow2_pos(k);
    lemma_pow2_adds(shift, k);
    let h = n * pow2(shift);
    assert(units == h * pow2(k)) by (nonlinear_arith)
        requires
            units == n * f,
            f == pow2(shift) * pow2(k),
            h == n * pow2(shift),
    ;
    lemma_mul_basics(pow2(k) as int);
    lemma_fundamental_div_mod_converse(units as int, pow2(k) as int, h as int, 0);
    assert(rounding::half_even(units, 1 * pow2(k)) == h);
    lemma_pow2_adds(len, shift);
    lemma_pow2_pos(shift);
    assert(h < PRECISION_LIMIT) by (nonlinear_arith)
        requires
            h == n * pow2(shift),
            n < pow2(len),
            pow2(len) * pow2(shift) == PRECISION_LIMIT,
            pow2(shift) > 0,
    ;
    assert(k * EXPONENT_STEP <= 1074 * EXPONENT_STEP) by (nonlinear_arith)
        requires
            k <= 1074,
    ;
}

/// What lies at most half a spacing below an integer of up to `2^52` rounds to
/// the integer: a tie goes there, too.
pub proof fn lemma_rounds_up_to_integer(n: nat, m: nat)
    requires
        m <= EXPONENT_STEP,
        n < m * one(),
        2 * (m * one() - n) <= pow2(rounding::spacing(n)),
    ensures
        rounding::nearest_magnitude(n, 1) < INFINITY_MAGNITUDE,
        Binary64::assemble(false, rounding::nearest_magnitude(n, 1)).size() == m * one(),
{
    let f = one();
    let k = rounding::spacing(n);
    let p = pow2(k);
    lemma_powers();
    lemma_pow2_pos(k);
    lemma_pow2_adds(52, FRACTION_PLACES as nat);
    assert(m * f <= EXPONENT_STEP * f) by (nonlinear_arith)
        requires
            m <= EXPONENT_STEP,
            f >= 0,
    ;
    assert(n < pow2(1126));
    assert(n / 1 == n);
    rounding::lemma_pow2_monotone(1126, 2097);
    lemma_nearest_finite(n, 1);
    lemma_nearest_value(n, 1);
    lemma_spacing_bounds(n);
    if k >= 1074 {
        lemma_pow2_adds(52, k);
        rounding::lemma_pow2_monotone(1126, (52 + k) as nat);
    }
    let shift = (1074 - k) as nat;
    lemma_pow2_adds(shift, k);
    lemma_pow2_unfold(shift);
    let g = m * pow2(shift);
    assert(m * f == g * p) by (nonlinear_arith)
        requires
            f == pow2(shift) * p,
            g == m * pow2(shift),
    ;
    let half = m * pow2((shift - 1) as nat);
    assert(g == 2 * half) by (nonlinear_arith)
        requires
            g == m * pow2(shift),
            half == m * pow2((shift - 1) as nat),
            pow2(shift) == 2 * pow2((shift - 1) as nat),
    ;
    let gap = m * f - n;
    assert(g >= 1) by (nonlinear_arith)
        requires
            g * p > 0,
            p > 0,
            g >= 0,
    ;
    assert(n == (g - 1) * p + (p - gap)) by (nonlinear_arith)
        requires
            n == g * p - gap,
    ;
    lemma_fundamental_div_mod_converse(n as int, p as int, g - 1, p - gap);
    lemma_mul_basics(p as int);
    assert(rounding::half_even(n, 1 * p) == g);
}

} // verus!
