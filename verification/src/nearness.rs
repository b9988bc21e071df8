//! How far the results of operations are from the exact ones.

use crate::binary64;
use crate::binary64::Binary64;
use crate::monotone;
use crate::monotone::is_amount;
use crate::precision;
use crate::rounding;
use crate::rounding::{EXPONENT_STEP, INFINITY_MAGNITUDE, PRECISION_LIMIT};
use vstd::arithmetic::div_mod::*;
use vstd::arithmetic::mul::*;
use vstd::arithmetic::power2::*;
use vstd::prelude::*;

verus! {

/// Whether a number is finite, above zero and not so small that it has lost
/// digits.
pub open spec fn is_ordinary(x: Binary64) -> bool {
    !x.negative() && EXPONENT_STEP <= x.magnitude() < INFINITY_MAGNITUDE
}

/// Whether `v` is `n`, but for `parts` of `2^53` parts of it.
pub open spec fn is_near(v: int, n: int, parts: int) -> bool {
    (PRECISION_LIMIT - parts) * n <= PRECISION_LIMIT * v <= (PRECISION_LIMIT + parts) * n
}

/// Whether `v` is no more than `n`, but for `parts` of `2^53` parts of it.
pub open spec fn is_about_at_most(v: int, n: int, parts: int) -> bool {
    PRECISION_LIMIT * v <= (PRECISION_LIMIT + parts) * n
}

/// What is near to something that is near is nearly as near.
pub proof fn lemma_near_twice(a: int, b: int, c: int)
    requires
        is_near(a, b, 1),
        is_near(b, c, 3),
        c >= 0,
    ensures
        is_near(a, c, 5),
{
}

/// Two values in order stay so, up to rounding, when each is rounded.
pub proof fn lemma_rounded_apart(y: int, x: int, y2: int, x2: int, parts: int, g: int)
    requires
        is_about_at_most(y, x, parts),
        PRECISION_LIMIT * y2 <= (PRECISION_LIMIT + g) * y,
        PRECISION_LIMIT * x2 >= (PRECISION_LIMIT - g) * x,
        0 <= parts,
        0 <= g,
        2 * parts + 3 * g <= PRECISION_LIMIT,
        0 <= x,
    ensures
        is_about_at_most(y2, x2, parts + 3 * g),
{
    let d = PRECISION_LIMIT as int;
    let e = parts;
    let e2 = e + 3 * g;
    assert((d + g) * (d + e) <= (d - g) * (d + e2)) by (nonlinear_arith)
        requires
            2 * e + 3 * g <= d,
            g >= 0,
            e2 == e + 3 * g,
    {
        assert((d - g) * (d + e2) - (d + g) * (d + e) == g * (d - (2 * e + 3 * g)));
        assert(g * (d - (2 * e + 3 * g)) >= 0);
    }
    assert(d * y2 <= (d + e2) * x2) by (nonlinear_arith)
        requires
            d * y <= (d + e) * x,
            d * y2 <= (d + g) * y,
            d * x2 >= (d - g) * x,
            (d + g) * (d + e) <= (d - g) * (d + e2),
            x >= 0,
            d > 0,
            g >= 0,
            e2 >= 0,
    {
        assert(d * (d * y2) <= d * ((d + g) * y));
        assert(d * ((d + g) * y) == (d + g) * (d * y));
        assert((d + g) * (d * y) <= (d + g) * ((d + e) * x));
        assert((d + g) * ((d + e) * x) == ((d + g) * (d + e)) * x);
        assert(((d + g) * (d + e)) * x <= ((d - g) * (d + e2)) * x);
        assert(((d - g) * (d + e2)) * x == (d + e2) * ((d - g) * x));
        assert((d + e2) * ((d - g) * x) <= (d + e2) * (d * x2));
        assert((d + e2) * (d * x2) == d * ((d + e2) * x2));
        if d * y2 > (d + e2) * x2 {
            assert(d * (d * y2) > d * ((d + e2) * x2));
        }
    }
}

/// A count of units is rounded by no more than one part.
pub(crate) proof fn lemma_count_is_near(n: nat)
    requires
        rounding::nearest_magnitude(n, 1) < INFINITY_MAGNITUDE,
    ensures
        is_near(
            Binary64::assemble(false, rounding::nearest_magnitude(n, 1)).size() as int,
            n as int,
            1,
        ),
{
    let v = Binary64::assemble(false, rounding::nearest_magnitude(n, 1)).size();
    assert(n / 1 == n);
    lemma_mul_basics(v as int);
    if n >= EXPONENT_STEP {
        precision::lemma_nearest_relative_error(n, 1);
    } else {
        precision::lemma_nearest_error(n, 1);
        lemma2_to64();
        assert(rounding::spacing(n) == 0);
    }
}

/// A sum of amounts is rounded by no more than one part.
pub proof fn lemma_sum_is_near(x: Binary64, y: Binary64)
    requires
        is_amount(x),
        is_amount(y),
        Binary64::sum(x, y).finite(),
    ensures
        is_amount(Binary64::sum(x, y)),
        is_near(Binary64::sum(x, y).size() as int, (x.size() + y.size()) as int, 1),
{
    monotone::lemma_sum_of_amounts(x, y);
    lemma_count_is_near(x.size() + y.size());
}

/// A difference of amounts is rounded by no more than one part.
pub proof fn lemma_difference_is_near(x: Binary64, y: Binary64)
    requires
        is_amount(x),
        is_amount(y),
        y.magnitude() <= x.magnitude(),
    ensures
        is_amount(Binary64::difference(x, y)),
        y.size() <= x.size(),
        is_near(Binary64::difference(x, y).size() as int, x.size() - y.size(), 1),
{
    monotone::lemma_difference_of_amounts(x, y);
    lemma_count_is_near((x.size() - y.size()) as nat);
}

/// The error of a rounded fraction: one part of the fraction, or half a unit.
pub(crate) proof fn lemma_fraction_error(n: nat, d: nat)
    requires
        d > 0,
        rounding::nearest_magnitude(n, d) < INFINITY_MAGNITUDE,
    ensures
        ({
            let v = Binary64::assemble(false, rounding::nearest_magnitude(n, d)).size();
            let p = PRECISION_LIMIT;
            &&& 2 * (p * (v * d)) <= 2 * (p * n) + 2 * n + p * d
            &&& 2 * (p * (v * d)) >= 2 * (p * n) - 2 * n - p * d
        }),
{
    let q = n / d;
    let v = Binary64::assemble(false, rounding::nearest_magnitude(n, d)).size();
    lemma_fundamental_div_mod(n as int, d as int);
    if q >= EXPONENT_STEP {
        assert(n >= EXPONENT_STEP * d) by (nonlinear_arith)
            requires
                n == d * q + n % d,
                n % d >= 0,
                q >= EXPONENT_STEP,
                d > 0,
        {
            assert(d * q >= d * EXPONENT_STEP);
        }
        precision::lemma_nearest_relative_error(n, d);
    } else {
        precision::lemma_nearest_error(n, d);
        lemma2_to64();
        lemma_mul_basics(d as int);
        assert(rounding::spacing(q) == 0);
    }
}

/// A fraction that rounds to an ordinary number is rounded by no more than two
/// parts.
pub(crate) proof fn lemma_fraction_is_near(n: nat, d: nat)
    requires
        d > 0,
        is_ordinary(Binary64::assemble(false, rounding::nearest_magnitude(n, d))),
    ensures
        ({
            let v = Binary64::assemble(false, rounding::nearest_magnitude(n, d)).size();
            is_near((v * d) as int, n as int, 2)
        }),
{
    let x = Binary64::assemble(false, rounding::nearest_magnitude(n, d));
    let v = x.size();
    let q = n / d;
    assert(x.magnitude() == rounding::nearest_magnitude(n, d));
    lemma_fundamental_div_mod(n as int, d as int);
    lemma_ordinary_size(x);
    if q >= EXPONENT_STEP {
        assert(n >= EXPONENT_STEP * d) by (nonlinear_arith)
            requires
                n == d * q + n % d,
                n % d >= 0,
                q >= EXPONENT_STEP,
                d > 0,
        {
            assert(d * q >= d * EXPONENT_STEP);
        }
        precision::lemma_nearest_relative_error(n, d);
    } else {
        precision::lemma_nearest_error(n, d);
        lemma2_to64();
        lemma_mul_basics(d as int);
        assert(rounding::spacing(q) == 0);
        assert(v * d >= EXPONENT_STEP * d) by (nonlinear_arith)
            requires
                v >= EXPONENT_STEP,
                d > 0,
        ;
    }
}

/// An ordinary number has at least `2^52` units.
pub proof fn lemma_ordinary_size(x: Binary64)
    requires
        is_ordinary(x),
    ensures
        is_amount(x),
        x.size() >= EXPONENT_STEP,
{
    binary64::lemma_parts(x);
    lemma_pow2_pos(x.scale());
    assert(x.size() >= EXPONENT_STEP) by (nonlinear_arith)
        requires
            x.size() == x.significand() * pow2(x.scale()),
            x.significand() >= EXPONENT_STEP,
            pow2(x.scale()) >= 1,
    ;
}

/// An ordinary product is rounded by no more than two parts.
pub proof fn lemma_product_is_near(x: Binary64, y: Binary64)
    requires
        is_amount(x),
        is_amount(y),
        is_ordinary(Binary64::product(x, y)),
    ensures
        is_near(
            (Binary64::product(x, y).size() * precision::one()) as int,
            (x.size() * y.size()) as int,
            2,
        ),
{
    lemma_pow2_pos(binary64::FRACTION_PLACES as nat);
    lemma_fraction_is_near(x.size() * y.size(), precision::one());
}

/// An ordinary quotient is rounded by no more than two parts.
pub proof fn lemma_quotient_is_near(x: Binary64, y: Binary64)
    requires
        is_amount(x),
        is_amount(y),
        !y.zero(),
        is_ordinary(Binary64::quotient(x, y)),
    ensures
        is_near(
            (Binary64::quotient(x, y).size() * y.size()) as int,
            (x.size() * precision::one()) as int,
            2,
        ),
{
    binary64::lemma_parts(y);
    lemma_fraction_is_near(x.size() * precision::one(), y.size());
}

/// The error of any finite quotient: one part of it, or half a unit.
pub proof fn lemma_quotient_error(x: Binary64, y: Binary64)
    requires
        is_amount(x),
        is_amount(y),
        !y.zero(),
        Binary64::quotient(x, y).finite(),
    ensures
        is_amount(Binary64::quotient(x, y)),
        ({
            let v = Binary64::quotient(x, y).size() * y.size();
            let n = x.size() * precision::one();
            let p = PRECISION_LIMIT;
            &&& 2 * (p * v) <= 2 * (p * n) + 2 * n + p * y.size()
            &&& 2 * (p * v) >= 2 * (p * n) - 2 * n - p * y.size()
        }),
{
    binary64::lemma_parts(y);
    lemma_fraction_error(x.size() * precision::one(), y.size());
}

} // verus!
