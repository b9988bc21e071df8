//! Laws of the operations on numbers without a sign: they keep the order, and a
//! sum can be taken apart and put together again.

use crate::binary64;
use crate::binary64::{Binary64, FRACTION_PLACES};
use crate::precision;
use crate::rounding;
use crate::rounding::{EXPONENT_STEP, PRECISION_LIMIT};
use vstd::arithmetic::div_mod::*;
use vstd::arithmetic::mul::*;
use vstd::arithmetic::power2::*;
use vstd::prelude::*;

verus! {

/// Whether a number is finite and has no sign.
pub open spec fn is_amount(x: Binary64) -> bool {
    x.finite() && !x.negative()
}

/// The spacing around a number is its scale, and it rounds to itself.
pub proof fn lemma_number_is_exact(x: Binary64)
    requires
        is_amount(x),
    ensures
        rounding::spacing(x.size()) == x.scale(),
        rounding::nearest_magnitude(x.size(), 1) == x.magnitude(),
        x.significand() < PRECISION_LIMIT,
{
    let step = EXPONENT_STEP as nat;
    let s = x.significand();
    let k = x.scale();
    let size = x.size();
    let m = x.magnitude();
    binary64::lemma_parts(x);
    lemma2_to64();
    lemma2_to64_rest();
    lemma_mul_basics(s as int);
    lemma_mul_basics(step as int);
    lemma_fundamental_div_mod(m as int, step as int);
    if k > 0 {
        lemma_pow2_pos(k);
        lemma_pow2_adds(52, k);
        lemma_pow2_adds(53, k);
        assert(pow2((52 + k) as nat) <= size < pow2((53 + k) as nat)) by (nonlinear_arith)
            requires
                size == s * pow2(k),
                step <= s < 2 * step,
                pow2((52 + k) as nat) == step * pow2(k),
                pow2((53 + k) as nat) == (2 * step) * pow2(k),
                pow2(k) > 0,
        ;
        rounding::lemma_bit_length_unique(size, (53 + k) as nat);
        rounding::lemma_pow2_monotone(53, (52 + k) as nat);
    }
    assert(size / 1 == size);
    lemma_mul_basics(pow2(k) as int);
    lemma_pow2_pos(k);
    lemma_fundamental_div_mod_converse(size as int, pow2(k) as int, s as int, 0);
    assert(rounding::half_even(size, 1 * pow2(k)) == s);
    if k > 0 {
        assert(m == k * step + s) by (nonlinear_arith)
            requires
                m == step * (k + 1) + (s - step),
        ;
    }
}

/// The sum of two amounts, as a rounded count of units.
pub proof fn lemma_sum_of_amounts(x: Binary64, y: Binary64)
    requires
        is_amount(x),
        is_amount(y),
    ensures
        Binary64::sum(x, y) == Binary64::assemble(
            false,
            rounding::nearest_magnitude(x.size() + y.size(), 1),
        ),
        Binary64::sum(x, y).magnitude() == rounding::nearest_magnitude(x.size() + y.size(), 1),
        !Binary64::sum(x, y).negative(),
        !Binary64::sum(x, y).nan(),
{
    if x.size() + y.size() == 0 {
        lemma_nothing_rounds_to_nothing();
    }
}

proof fn lemma_nothing_rounds_to_nothing()
    ensures
        rounding::nearest_magnitude(0, 1) == 0,
{
    let zero = Binary64 { bits: 0 };
    binary64::lemma_parts(zero);
    lemma_number_is_exact(zero);
}

/// The difference of two amounts of which the first is not smaller.
pub proof fn lemma_difference_of_amounts(x: Binary64, y: Binary64)
    requires
        is_amount(x),
        is_amount(y),
        y.magnitude() <= x.magnitude(),
    ensures
        y.size() <= x.size(),
        Binary64::difference(x, y) == Binary64::assemble(
            false,
            rounding::nearest_magnitude((x.size() - y.size()) as nat, 1),
        ),
        Binary64::difference(x, y).magnitude() == rounding::nearest_magnitude(
            (x.size() - y.size()) as nat,
            1,
        ),
        is_amount(Binary64::difference(x, y)),
        Binary64::difference(x, y).magnitude() <= x.magnitude(),
{
    let z = Binary64::opposite(y);
    precision::lemma_size_ordered(y, x);
    assert(z.magnitude() == y.magnitude() && z.negative());
    assert(z.units() == -(y.size() as int));
    if x.size() == y.size() {
        lemma_nothing_rounds_to_nothing();
    }
    precision::lemma_nearest_ordered((x.size() - y.size()) as nat, 1, x.size(), 1);
    lemma_number_is_exact(x);
}

/// Adding more to an amount gives no less.
pub proof fn lemma_sum_ordered(x: Binary64, y: Binary64, z: Binary64)
    requires
        is_amount(x),
        is_amount(y),
        is_amount(z),
        y.magnitude() <= z.magnitude(),
    ensures
        Binary64::sum(x, y).magnitude() <= Binary64::sum(x, z).magnitude(),
{
    lemma_sum_of_amounts(x, y);
    lemma_sum_of_amounts(x, z);
    precision::lemma_size_ordered(y, z);
    precision::lemma_nearest_ordered(x.size() + y.size(), 1, x.size() + z.size(), 1);
}

/// Adding to an amount gives no less than it.
pub proof fn lemma_sum_is_no_less(x: Binary64, y: Binary64)
    requires
        is_amount(x),
        is_amount(y),
    ensures
        Binary64::sum(x, y).magnitude() >= x.magnitude(),
{
    lemma_sum_of_amounts(x, y);
    lemma_number_is_exact(x);
    precision::lemma_nearest_ordered(x.size(), 1, x.size() + y.size(), 1);
}

/// Taking an amount from more leaves no less.
pub proof fn lemma_difference_ordered(x: Binary64, y: Binary64, z: Binary64)
    requires
        is_amount(x),
        is_amount(y),
        is_amount(z),
        z.magnitude() <= x.magnitude() <= y.magnitude(),
    ensures
        Binary64::difference(x, z).magnitude() <= Binary64::difference(y, z).magnitude(),
{
    lemma_difference_of_amounts(x, z);
    lemma_difference_of_amounts(y, z);
    precision::lemma_size_ordered(x, y);
    precision::lemma_nearest_ordered(
        (x.size() - z.size()) as nat,
        1,
        (y.size() - z.size()) as nat,
        1,
    );
}

/// What rounds to a number from at most half a spacing above it: a tie goes
/// there where its significand is even.
proof fn lemma_rounds_down(n: nat, z: Binary64)
    requires
        is_amount(z),
        z.size() <= n,
        2 * (n - z.size()) <= pow2(z.scale()),
        2 * (n - z.size()) == pow2(z.scale()) ==> z.significand() % 2 == 0,
    ensures
        rounding::nearest_magnitude(n, 1) == z.magnitude(),
{
    let k = z.scale();
    let p = pow2(k);
    let h = z.significand();
    let rest = n - z.size();
    lemma_number_is_exact(z);
    lemma_pow2_pos(k);
    precision::lemma_spacing_ordered(z.size(), n);
    precision::lemma_spacing_bounds(n);
    precision::lemma_spacing_bounds(z.size());
    if rounding::spacing(n) > k {
        let kn = rounding::spacing(n);
        rounding::lemma_pow2_monotone((k + 1) as nat, kn);
        lemma_pow2_unfold((k + 1) as nat);
        assert(n < EXPONENT_STEP * pow2(kn)) by (nonlinear_arith)
            requires
                n == h * p + rest,
                2 * rest <= p,
                h < PRECISION_LIMIT,
                p > 0,
                pow2(kn) >= 2 * p,
                PRECISION_LIMIT == 2 * EXPONENT_STEP,
        {
            assert(h * p + p <= PRECISION_LIMIT * p);
            assert(EXPONENT_STEP * pow2(kn) >= EXPONENT_STEP * (2 * p));
            assert(EXPONENT_STEP * (2 * p) == PRECISION_LIMIT * p);
        }
    }
    assert(n / 1 == n);
    lemma_mul_basics(p as int);
    lemma_fundamental_div_mod_converse(n as int, p as int, h as int, rest);
    lemma_fundamental_div_mod_converse(z.size() as int, p as int, h as int, 0);
    assert(rounding::half_even(n, 1 * p) == h);
    assert(rounding::half_even(z.size(), 1 * p) == h);
}

/// What rounds to a number from at most half a spacing below it: a tie goes
/// there where the number is an even multiple of the spacing.
proof fn lemma_rounds_up(n: nat, z: Binary64)
    requires
        is_amount(z),
        n < z.size(),
        2 * (z.size() - n) <= pow2(rounding::spacing(n)),
        2 * (z.size() - n) == pow2(rounding::spacing(n)) && rounding::spacing(n) == z.scale()
            ==> z.significand() % 2 == 0,
    ensures
        rounding::nearest_magnitude(n, 1) == z.magnitude(),
{
    let k = z.scale();
    let j = rounding::spacing(n);
    let p = pow2(j);
    let h = z.significand();
    lemma_number_is_exact(z);
    lemma_pow2_pos(j);
    precision::lemma_spacing_ordered(n, z.size());
    let shift = (k - j) as nat;
    lemma_pow2_adds(shift, j);
    lemma_pow2_pos(shift);
    let g = h * pow2(shift);
    assert(z.size() == g * p) by (nonlinear_arith)
        requires
            z.size() == h * pow2(k),
            pow2(k) == pow2(shift) * p,
            g == h * pow2(shift),
    ;
    let gap = z.size() - n;
    assert(g >= 1) by (nonlinear_arith)
        requires
            g * p > 0,
            p > 0,
            g >= 0,
    ;
    assert(n == (g - 1) * p + (p - gap)) by (nonlinear_arith)
        requires
            n == g * p - gap,
    ;
    lemma_fundamental_div_mod_converse(n as int, p as int, g - 1, p - gap);
    assert(2 * gap == p ==> g % 2 == 0) by {
        if 2 * gap == p {
            if shift > 0 {
                lemma_pow2_unfold(shift);
                let half = h * pow2((shift - 1) as nat);
                assert(g == 2 * half) by (nonlinear_arith)
                    requires
                        g == h * pow2(shift),
                        half == h * pow2((shift - 1) as nat),
                        pow2(shift) == 2 * pow2((shift - 1) as nat),
                ;
            } else {
                lemma2_to64();
                lemma_mul_basics(h as int);
            }
        }
    }
    assert(n / 1 == n);
    lemma_mul_basics(p as int);
    assert(rounding::half_even(n, 1 * p) == g);
    // The number with this multiple is the one that the number itself rounds to.
    precision::lemma_nearest_ordered(n, 1, z.size(), 1);
    lemma_same_value(n, z, g);
}

/// Numbers of the same size have the same magnitude.
proof fn lemma_same_value(n: nat, z: Binary64, g: nat)
    requires
        is_amount(z),
        n <= z.size(),
        rounding::half_even(n, 1 * pow2(rounding::spacing(n))) == g,
        g * pow2(rounding::spacing(n)) == z.size(),
        rounding::nearest_magnitude(n, 1) <= z.magnitude(),
    ensures
        rounding::nearest_magnitude(n, 1) == z.magnitude(),
{
    let x = Binary64::assemble(false, rounding::nearest_magnitude(n, 1));
    assert(n / 1 == n);
    precision::lemma_nearest_value(n, 1);
    assert(x.magnitude() == rounding::nearest_magnitude(n, 1));
    lemma_number_is_exact(x);
    lemma_number_is_exact(z);
}

/// What is at least `2^52` times a power of two has at least that spacing.
proof fn lemma_spacing_at_least(n: nat, k: nat)
    requires
        n >= EXPONENT_STEP * pow2(k),
    ensures
        rounding::spacing(n) >= k,
{
    let j = rounding::spacing(n);
    precision::lemma_spacing_bounds(n);
    if j < k {
        rounding::lemma_pow2_monotone((j + 1) as nat, k);
        lemma_pow2_unfold((j + 1) as nat);
        assert(PRECISION_LIMIT * pow2(j) <= EXPONENT_STEP * pow2(k)) by (nonlinear_arith)
            requires
                pow2(k) >= 2 * pow2(j),
                PRECISION_LIMIT == 2 * EXPONENT_STEP,
        ;
    }
}

/// A rounded count of units has the spacing of the count, unless it is the
/// power of two at which the spacing doubles.
proof fn lemma_scale_of_rounded(t: nat, z: Binary64)
    requires
        is_amount(z),
        z.magnitude() == rounding::nearest_magnitude(t, 1),
        z.scale() >= 1,
    ensures
        z.significand() == EXPONENT_STEP || (z.scale() == rounding::spacing(t) && z.significand()
            == rounding::half_even(t, 1 * pow2(z.scale()))),
{
    let k = z.scale();
    let h = z.significand();
    let j = rounding::spacing(t);
    let g = rounding::half_even(t, 1 * pow2(j));
    let size = z.size();
    assert(t / 1 == t);
    precision::lemma_nearest_value(t, 1);
    precision::lemma_rounded_part(t, 1);
    assert(Binary64::assemble(false, z.magnitude()) == z);
    lemma_number_is_exact(z);
    binary64::lemma_parts(z);
    lemma_pow2_pos(j);
    lemma_pow2_pos(k);
    assert(size == g * pow2(j) && size == h * pow2(k));
    if k == j {
        assert(g == h) by (nonlinear_arith)
            requires
                g * pow2(j) == h * pow2(j),
                pow2(j) > 0,
        ;
    } else if k < j {
        rounding::lemma_pow2_monotone((k + 1) as nat, j);
        lemma_pow2_unfold((k + 1) as nat);
        assert(false) by (nonlinear_arith)
            requires
                g * pow2(j) == h * pow2(k),
                g >= EXPONENT_STEP,
                h < 2 * EXPONENT_STEP,
                pow2(j) >= 2 * pow2(k),
                pow2(k) > 0,
        {
            assert(g * pow2(j) >= EXPONENT_STEP * pow2(j));
            assert(EXPONENT_STEP * pow2(j) >= EXPONENT_STEP * (2 * pow2(k)));
            assert(h * pow2(k) < (2 * EXPONENT_STEP) * pow2(k));
            assert(EXPONENT_STEP * (2 * pow2(k)) == (2 * EXPONENT_STEP) * pow2(k));
        }
    } else {
        rounding::lemma_pow2_monotone((j + 1) as nat, k);
        lemma_pow2_unfold((j + 1) as nat);
        assert(h == EXPONENT_STEP) by (nonlinear_arith)
            requires
                g * pow2(j) == h * pow2(k),
                g <= 2 * EXPONENT_STEP,
                h >= EXPONENT_STEP,
                pow2(k) >= 2 * pow2(j),
                pow2(j) > 0,
        {
            if h > EXPONENT_STEP {
                assert(h * pow2(k) >= (EXPONENT_STEP + 1) * pow2(k));
                assert((EXPONENT_STEP + 1) * pow2(k) >= (EXPONENT_STEP + 1) * (2 * pow2(j)));
                assert(g * pow2(j) <= (2 * EXPONENT_STEP) * pow2(j));
            }
        }
    }
}

/// An odd multiple is at least the single away from zero.
proof fn lemma_odd_multiple(q: int, odd: int, d: int)
    requires
        q > 0,
        odd % 2 == 1,
        d == odd * q,
    ensures
        d >= q || d <= -q,
{
    assert(odd >= 1 || odd <= -1);
    assert(odd >= 1 ==> d >= q) by (nonlinear_arith)
        requires
            d == odd * q,
            q > 0,
    ;
    assert(odd <= -1 ==> d <= -q) by (nonlinear_arith)
        requires
            d == odd * q,
            q > 0,
    ;
}

/// Where what is left of a sum lies half way between two numbers that are as
/// far apart as the neighbours of the sum, the significand of the sum is even.
proof fn lemma_sum_is_even(x: Binary64, y: Binary64, z: Binary64, q: nat, g: int)
    requires
        is_amount(x),
        is_amount(y),
        is_amount(z),
        z.magnitude() == rounding::nearest_magnitude(x.size() + y.size(), 1),
        z.scale() >= 1,
        pow2(z.scale()) == 2 * q,
        z.size() - x.size() == g * q,
        g % 2 == 1,
        z.size() - x.size() >= EXPONENT_STEP * pow2(z.scale()),
    ensures
        z.significand() % 2 == 0,
{
    let k = z.scale();
    let h = z.significand();
    let t = x.size() + y.size();
    let p = pow2(k);
    lemma_pow2_pos(k);
    lemma_scale_of_rounded(t, z);
    if h != EXPONENT_STEP {
        let below = t / p;
        let rest = t % p;
        lemma_mul_basics(p as int);
        lemma_fundamental_div_mod(t as int, p as int);
        assert(h == rounding::half_even(t, p));
        if 2 * rest != p {
            // The sum was no tie.
            let d = t - z.size();
            assert(-q < d < q) by {
                assert(h == below ==> d == rest) by (nonlinear_arith)
                    requires
                        t == p * below + rest,
                        d == t - h * p,
                ;
                assert(h == below + 1 ==> d == rest - p) by (nonlinear_arith)
                    requires
                        t == p * below + rest,
                        d == t - h * p,
                ;
            }
            // The other number is larger than the power of two, and so a multiple
            // of the spacing.
            let w = y.size();
            assert(w == g * q + d);
            assert(g > 2 * EXPONENT_STEP) by (nonlinear_arith)
                requires
                    g * q >= EXPONENT_STEP * (2 * q),
                    g % 2 == 1,
                    q > 0,
            {
                if g < 2 * EXPONENT_STEP {
                    assert(g * q < (2 * EXPONENT_STEP) * q);
                }
            }
            assert(w >= EXPONENT_STEP * p) by (nonlinear_arith)
                requires
                    w == g * q + d,
                    g >= 2 * EXPONENT_STEP + 1,
                    d > -q,
                    p == 2 * q,
                    q > 0,
            {
                assert(g * q >= (2 * EXPONENT_STEP + 1) * q);
            }
            lemma_spacing_at_least(w, k);
            lemma_number_is_exact(y);
            let shift = (y.scale() - k) as nat;
            lemma_pow2_adds(shift, k);
            let m = y.significand() * pow2(shift);
            assert(w == m * p) by (nonlinear_arith)
                requires
                    w == y.significand() * pow2(y.scale()),
                    pow2(y.scale()) == pow2(shift) * p,
                    m == y.significand() * pow2(shift),
            ;
            let odd = 2 * m - g;
            assert(d == odd * q) by (nonlinear_arith)
                requires
                    w == m * p,
                    p == 2 * q,
                    w == g * q + d,
                    odd == 2 * m - g,
            ;
            assert(odd % 2 == 1);
            lemma_odd_multiple(q as int, odd, d);
        }
    }
}

/// A sum can be taken apart and put together again: adding to an amount what
/// the sum is above it gives the sum.
pub proof fn lemma_sum_taken_apart(x: Binary64, y: Binary64)
    requires
        is_amount(x),
        is_amount(y),
        Binary64::sum(x, y).finite(),
    ensures
        Binary64::sum(x, Binary64::difference(Binary64::sum(x, y), x)) == Binary64::sum(x, y),
{
    let z = Binary64::sum(x, y);
    let v = Binary64::difference(z, x);
    lemma_sum_of_amounts(x, y);
    lemma_sum_is_no_less(x, y);
    lemma_difference_of_amounts(z, x);
    lemma_sum_of_amounts(x, v);
    lemma_number_is_exact(z);
    lemma_number_is_exact(v);
    let k = z.scale();
    let p = pow2(k);
    let size = z.size();
    let left = (size - x.size()) as nat;
    let j = rounding::spacing(left);
    let n = x.size() + v.size();
    lemma_pow2_pos(k);
    lemma_pow2_pos(j);
    assert(left / 1 == left);
    lemma_mul_basics(v.size() as int);
    lemma_mul_basics(pow2(j) as int);
    precision::lemma_nearest_error(left, 1);
    precision::lemma_nearest_value(left, 1);
    precision::lemma_rounded_part(left, 1);
    precision::lemma_spacing_ordered(left, size);
    assert(Binary64::assemble(false, v.magnitude()) == v);
    assert(-(pow2(j) as int) <= 2 * (n - size) <= pow2(j));
    let g = rounding::half_even(left, 1 * pow2(j));
    assert(v.size() == g * pow2(j));
    assert(2 * (n - size) == p || 2 * (size - n) == p ==> z.significand() % 2 == 0) by {
        if 2 * (n - size) == p || 2 * (size - n) == p {
            assert(j == k) by {
                if j < k {
                    lemma_pow2_strictly_increases(j, k);
                }
            }
            assert(k >= 1) by {
                lemma2_to64();
            }
            lemma_pow2_unfold(k);
            let q = pow2((k - 1) as nat);
            precision::lemma_spacing_bounds(left);
            let odd: int = if n > size {
                2 * g - 1
            } else {
                (2 * g + 1) as int
            };
            assert(left == odd * q) by (nonlinear_arith)
                requires
                    p == 2 * q,
                    odd == 2 * g - 1 && g * p - left == q || odd == 2 * g + 1 && left - g * p == q,
            ;
            lemma_sum_is_even(x, y, z, q, odd);
        }
    }
    if n >= size {
        rounding::lemma_pow2_monotone(j, k);
        lemma_rounds_down(n, z);
    } else {
        // What is left was rounded down, and so is no closer to zero than the
        // power of two below it.
        assert(rounding::spacing(n) >= j) by {
            if j > 0 {
                assert(v.size() >= EXPONENT_STEP * pow2(j)) by (nonlinear_arith)
                    requires
                        v.size() == g * pow2(j),
                        g >= EXPONENT_STEP,
                ;
                lemma_spacing_at_least(v.size(), j);
                precision::lemma_spacing_ordered(v.size(), n);
            }
        }
        rounding::lemma_pow2_monotone(j, rounding::spacing(n));
        lemma_rounds_up(n, z);
    }
}

/// Whether a number is no less than zero; it may be infinite.
pub open spec fn is_size(x: Binary64) -> bool {
    !x.nan() && !x.negative()
}

/// Adding more gives no less, also where something is infinite.
pub proof fn lemma_sum_of_sizes(x: Binary64, y: Binary64, z: Binary64)
    requires
        is_size(x),
        is_size(y),
        is_size(z),
        y.magnitude() <= z.magnitude(),
    ensures
        is_size(Binary64::sum(x, y)),
        is_size(Binary64::sum(x, z)),
        Binary64::sum(x, y).magnitude() <= Binary64::sum(x, z).magnitude(),
{
    if x.finite() && y.finite() {
        lemma_sum_of_amounts(x, y);
        if z.finite() {
            lemma_sum_ordered(x, y, z);
            lemma_sum_of_amounts(x, z);
        }
    }
}

/// More, divided by the same, gives no less.
pub proof fn lemma_quotient_ordered(x: Binary64, y: Binary64, d: Binary64)
    requires
        is_amount(x),
        is_amount(y),
        is_amount(d),
        !d.zero(),
        x.magnitude() <= y.magnitude(),
    ensures
        is_size(Binary64::quotient(x, d)),
        is_size(Binary64::quotient(y, d)),
        Binary64::quotient(x, d).magnitude() <= Binary64::quotient(y, d).magnitude(),
{
    let f = precision::one();
    lemma_pow2_pos(FRACTION_PLACES as nat);
    binary64::lemma_parts(d);
    precision::lemma_size_ordered(x, y);
    assert((x.size() * f) * d.size() <= (y.size() * f) * d.size()) by (nonlinear_arith)
        requires
            x.size() <= y.size(),
    {
        assert(x.size() * f <= y.size() * f);
    }
    precision::lemma_nearest_ordered(x.size() * f, d.size(), y.size() * f, d.size());
}

/// Numbers compare as the values that they stand for, and so do the keys by
/// which levels are ordered; what is not a number compares with nothing.
pub proof fn lemma_comparisons(x: Binary64, y: Binary64)
    ensures
        x.finite() && y.finite() ==> {
            &&& Binary64::less(x, y) <==> x.units() < y.units()
            &&& Binary64::at_most(x, y) <==> x.units() <= y.units()
            &&& Binary64::same(x, y) <==> x.units() == y.units()
            &&& x.order_key() < y.order_key() <==> x.units() < y.units()
            &&& x.order_key() == y.order_key() <==> x.units() == y.units()
        },
        x.finite() && y.infinite() ==> if y.negative() {
            Binary64::less(y, x) && y.order_key() < x.order_key()
        } else {
            Binary64::less(x, y) && x.order_key() < y.order_key()
        },
        x.nan() || y.nan() ==> !Binary64::less(x, y) && !Binary64::at_most(x, y)
            && !Binary64::same(x, y),
        x.nan() && !y.nan() ==> x.order_key() > y.order_key(),
        x.nan() && y.nan() ==> x.order_key() == y.order_key(),
{
    if x.finite() && y.finite() {
        let a = Binary64 { bits: x.magnitude() as u64 };
        let b = Binary64 { bits: y.magnitude() as u64 };
        assert(a.magnitude() == x.magnitude() && b.magnitude() == y.magnitude());
        assert(a.size() == x.size() && b.size() == y.size());
        lemma_number_is_exact(a);
        lemma_number_is_exact(b);
        binary64::lemma_parts(x);
        binary64::lemma_parts(y);
        if a.magnitude() <= b.magnitude() {
            precision::lemma_size_ordered(a, b);
        } else {
            precision::lemma_size_ordered(b, a);
        }
    }
}

/// What conversions to integers give: the number cut toward zero, or the
/// greatest integer that is not above it, where it is in range.
pub proof fn lemma_conversions(x: Binary64)
    requires
        x.finite(),
    ensures
        ({
            let one = precision::one() as int;
            let n = Binary64::as_unsigned(x) as int;
            let s = Binary64::as_signed(x);
            let f = Binary64::floor_signed(x);
            &&& 0 <= x.units() < 0x1_0000_0000_0000_0000 * one ==> n * one <= x.units() < (n + 1)
                * one
            &&& x.units() < 0 ==> n == 0
            &&& 0 <= x.units() < 0x8000_0000_0000_0000 * one ==> s == n && f == n
            &&& -(0x8000_0000_0000_0000 * one) <= x.units() < 0 ==> f * one <= x.units() < (f + 1)
                * one && (s - 1) * one < x.units() <= s * one
        }),
{
    let one = precision::one() as int;
    let u = x.units();
    let w = x.size() as int / one;
    let f = u / one;
    lemma_pow2_pos(FRACTION_PLACES as nat);
    binary64::lemma_parts(x);
    lemma_fundamental_div_mod(x.size() as int, one);
    lemma_fundamental_div_mod(u, one);
    assert(w * one <= x.size() < (w + 1) * one && w >= 0) by (nonlinear_arith)
        requires
            x.size() == one * w + x.size() as int % one,
            0 <= x.size() as int % one < one,
            x.size() >= 0,
    ;
    assert(f * one <= u < (f + 1) * one) by (nonlinear_arith)
        requires
            u == one * f + u % one,
            0 <= u % one < one,
    ;
    assert(u < 0x1_0000_0000_0000_0000 * one && u >= 0 ==> w <= u64::MAX) by (nonlinear_arith)
        requires
            u >= 0 ==> x.size() == u,
            w * one <= x.size(),
            one > 0,
    {
        if u >= 0 && u < 0x1_0000_0000_0000_0000 * one && w > u64::MAX {
            assert(w * one >= 0x1_0000_0000_0000_0000 * one);
        }
    }
    assert(u >= 0 ==> w == f);
    assert(0 <= u < 0x8000_0000_0000_0000 * one ==> f <= i64::MAX) by (nonlinear_arith)
        requires
            f * one <= u,
            one > 0,
    {
        if u < 0x8000_0000_0000_0000 * one && f > i64::MAX {
            assert(f * one >= 0x8000_0000_0000_0000 * one);
        }
    }
    assert(-(0x8000_0000_0000_0000 * one) <= u < 0 ==> i64::MIN <= f <= 0 && w <= -(i64::MIN)) by (
        nonlinear_arith)
        requires
            f * one <= u,
            u < (f + 1) * one,
            u < 0 ==> x.size() == -u,
            w * one <= x.size(),
            one > 0,
    {
        if -(0x8000_0000_0000_0000 * one) <= u && u < 0 {
            if f < i64::MIN {
                assert((f + 1) * one <= -0x8000_0000_0000_0000 * one);
            }
            if f > 0 {
                assert(f * one >= one);
            }
            if w > 0x8000_0000_0000_0000 {
                assert(w * one >= 0x8000_0000_0000_0001 * one);
            }
        }
    }
    assert((-w - 1) * one == -((w + 1) * one) && (-w) * one == -(w * one)) by (nonlinear_arith);
}

} // verus!
