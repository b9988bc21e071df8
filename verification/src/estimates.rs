//! Laws of the estimate of a market order: what its figures must satisfy.

use crate::binary64;
use crate::binary64::Binary64;
use crate::book;
use crate::impact;
use crate::impact::Fill;
use crate::monotone;
use crate::monotone::is_amount;
use crate::nearness;
use crate::nearness::{is_near, is_ordinary};
use crate::precision;
use crate::rounding;
use crate::rounding::{EXPONENT_STEP, PRECISION_LIMIT};
use crate::slippage;
use vstd::arithmetic::mul::*;
use vstd::arithmetic::power2::*;
use vstd::prelude::*;

verus! {

/// The distance of two numbers, in units.
pub open spec fn gap(x: Binary64, y: Binary64) -> nat {
    if x.size() <= y.size() {
        (y.size() - x.size()) as nat
    } else {
        (x.size() - y.size()) as nat
    }
}

/// Two different numbers are no closer than one part in `2^54` of either.
pub(crate) proof fn lemma_gap_is_wide(x: Binary64, y: Binary64)
    requires
        is_amount(x),
        is_amount(y),
        x.magnitude() != y.magnitude(),
    ensures
        0x40_0000_0000_0000 * gap(x, y) >= y.size(),
        gap(x, y) > 0,
{
    let a = x.scale();
    let b = y.scale();
    monotone::lemma_number_is_exact(x);
    monotone::lemma_number_is_exact(y);
    binary64::lemma_parts(x);
    binary64::lemma_parts(y);
    assert(x.size() != y.size());
    lemma_pow2_pos(a);
    lemma_pow2_pos(b);
    let p = pow2(a);
    let q = pow2(b);
    if b == 0 {
        lemma2_to64();
        lemma_mul_basics(y.significand() as int);
    } else if a + 1 >= b {
        // Both are multiples of half the spacing of the second.
        let h = pow2((b - 1) as nat);
        lemma_pow2_unfold(b);
        lemma_pow2_pos((b - 1) as nat);
        lemma_pow2_adds((a + 1 - b) as nat, (b - 1) as nat);
        let r = pow2((a + 1 - b) as nat);
        let m = x.significand() * r;
        let n = y.significand() * 2;
        assert(x.size() == m * h) by (nonlinear_arith)
            requires
                x.size() == x.significand() * p,
                p == r * h,
                m == x.significand() * r,
        ;
        assert(y.size() == n * h) by (nonlinear_arith)
            requires
                y.size() == y.significand() * q,
                q == 2 * h,
                n == y.significand() * 2,
        ;
        let d = if m <= n {
            n - m
        } else {
            m - n
        };
        assert(gap(x, y) == d * h && d >= 1) by (nonlinear_arith)
            requires
                x.size() == m * h,
                y.size() == n * h,
                x.size() != y.size(),
                h > 0,
                d == if m <= n {
                    n - m
                } else {
                    m - n
                },
                gap(x, y) == if x.size() <= y.size() {
                    y.size() - x.size()
                } else {
                    x.size() - y.size()
                },
        {
            if m < n {
                assert(m * h < n * h);
                assert((n - m) * h == n * h - m * h);
            } else if m > n {
                assert(m * h > n * h);
                assert((m - n) * h == m * h - n * h);
            }
        }
        assert(0x40_0000_0000_0000 * (d * h) >= n * h) by (nonlinear_arith)
            requires
                d >= 1,
                n <= 0x40_0000_0000_0000,
                h > 0,
        {
            assert(d * h >= h);
            assert(n * h <= 0x40_0000_0000_0000 * h);
        }
    } else {
        // The first is less than half the second.
        rounding::lemma_pow2_monotone((a + 2) as nat, b);
        lemma_pow2_unfold((a + 2) as nat);
        lemma_pow2_unfold((a + 1) as nat);
        assert(2 * x.size() <= y.size()) by (nonlinear_arith)
            requires
                x.size() == x.significand() * p,
                y.size() == y.significand() * q,
                x.significand() <= 2 * EXPONENT_STEP,
                y.significand() >= EXPONENT_STEP,
                q >= 4 * p,
                p > 0,
        {
            assert(x.significand() * p <= (2 * EXPONENT_STEP) * p);
            assert(y.significand() * q >= EXPONENT_STEP * q);
            assert(EXPONENT_STEP * q >= EXPONENT_STEP * (4 * p));
        }
        assert(y.size() > 0) by (nonlinear_arith)
            requires
                y.size() == y.significand() * q,
                y.significand() >= EXPONENT_STEP,
                q > 0,
        ;
    }
}

/// The hundred is a hundred.
pub(crate) proof fn lemma_hundred_size()
    ensures
        ({
            let hundred = Binary64 { bits: book::HUNDRED_BITS };
            is_amount(hundred) && !hundred.zero() && hundred.size() == 100 * precision::one()
        }),
{
    book::lemma_hundred();
    precision::lemma_small_integer(100);
}

/// A fraction of at least `2^53` units that rounds to a finite number rounds to
/// an ordinary one.
proof fn lemma_large_fraction(n: nat, d: nat)
    requires
        d > 0,
        n >= PRECISION_LIMIT * d,
        rounding::nearest_magnitude(n, d) < rounding::INFINITY_MAGNITUDE,
    ensures
        is_ordinary(Binary64::assemble(false, rounding::nearest_magnitude(n, d))),
{
    let x = Binary64::assemble(false, rounding::nearest_magnitude(n, d));
    assert(x.magnitude() == rounding::nearest_magnitude(n, d));
    precision::lemma_nearest_relative_error(n, d);
    if x.magnitude() < EXPONENT_STEP {
        assert(x.size() == x.magnitude()) by {
            lemma2_to64();
            lemma_mul_basics(x.significand() as int);
        }
        let v = x.size();
        assert(v * d <= EXPONENT_STEP * d) by (nonlinear_arith)
            requires
                v <= EXPONENT_STEP,
                d > 0,
        ;
    }
}

/// A hundred times the relative distance of two prices, as it is computed.
spec fn percent_of(avg: Binary64, mid: Binary64) -> Binary64 {
    Binary64::product(
        Binary64::quotient(Binary64::absolute(Binary64::difference(avg, mid)), mid),
        Binary64 { bits: book::HUNDRED_BITS },
    )
}

proof fn lemma_distance(avg: Binary64, mid: Binary64)
    requires
        is_amount(avg),
        is_amount(mid),
    ensures
        ({
            let d = Binary64::absolute(Binary64::difference(avg, mid));
            &&& is_amount(d)
            &&& is_near(d.size() as int, gap(avg, mid) as int, 1)
        }),
{
    let d = Binary64::absolute(Binary64::difference(avg, mid));
    if mid.magnitude() <= avg.magnitude() {
        nearness::lemma_difference_is_near(avg, mid);
        assert(d == Binary64::difference(avg, mid));
    } else {
        nearness::lemma_difference_is_near(mid, avg);
        lemma_difference_turned(avg, mid);
    }
}

proof fn lemma_difference_turned(x: Binary64, y: Binary64)
    requires
        is_amount(x),
        is_amount(y),
        x.magnitude() < y.magnitude(),
    ensures
        Binary64::absolute(Binary64::difference(x, y)) == Binary64::difference(y, x),
{
    let u = Binary64::opposite(x);
    let v = Binary64::opposite(y);
    precision::lemma_size_ordered(x, y);
    monotone::lemma_number_is_exact(x);
    monotone::lemma_number_is_exact(y);
    assert(x.size() != y.size());
    assert(u.magnitude() == x.magnitude() && v.magnitude() == y.magnitude());
    assert(u.negative() && v.negative());
    assert(u.units() == -(x.size() as int) && v.units() == -(y.size() as int));
    let n = (y.size() - x.size()) as nat;
    let m = rounding::nearest_magnitude(n, 1);
    assert(Binary64::difference(y, x) == Binary64::assemble(false, m));
    assert(Binary64::difference(x, y) == Binary64::assemble(true, m));
    monotone::lemma_difference_of_amounts(y, x);
}

proof fn lemma_percent(avg: Binary64, mid: Binary64)
    requires
        is_amount(avg),
        is_amount(mid),
        !mid.zero(),
        percent_of(avg, mid).finite(),
    ensures
        !percent_of(avg, mid).negative(),
        is_near(
            (percent_of(avg, mid).size() * mid.size()) as int,
            (100 * (gap(avg, mid) * precision::one())) as int,
            6,
        ),
{
    let one = precision::one();
    let d = Binary64::absolute(Binary64::difference(avg, mid));
    let ratio = Binary64::quotient(d, mid);
    let hundred = Binary64 { bits: book::HUNDRED_BITS };
    let pct = percent_of(avg, mid);
    lemma_hundred_size();
    lemma_distance(avg, mid);
    lemma_pow2_pos(binary64::FRACTION_PLACES as nat);
    binary64::lemma_parts(mid);
    let m = mid.size();
    if avg.magnitude() == mid.magnitude() {
        lemma_exact_zero(d, mid);
        assert(gap(avg, mid) == 0);
        assert(0 * one == 0 && pct.size() * m == 0) by (nonlinear_arith)
            requires
                pct.size() == 0,
        ;
    } else {
        lemma_gap_is_wide(avg, mid);
        let g = gap(avg, mid);
        let n = d.size() * one;
        assert(2 * d.size() >= g);
        assert(one >= 0x40_0000_0000_0000 * 0x40_0000_0000_0000 * 4) by {
            rounding::lemma_pow2_monotone(110, binary64::FRACTION_PLACES as nat);
            lemma_pow2_adds(55, 55);
            lemma2_to64_rest();
        }
        assert(n >= PRECISION_LIMIT * m) by (nonlinear_arith)
            requires
                n == d.size() * one,
                2 * d.size() >= g,
                0x40_0000_0000_0000 * g >= m,
                one >= 0x40_0000_0000_0000 * 0x40_0000_0000_0000 * 4,
                g > 0,
        {
            assert(0x80_0000_0000_0000 * d.size() >= m);
            assert(d.size() * one >= d.size() * (0x40_0000_0000_0000 * 0x40_0000_0000_0000 * 4));
        }
        assert(!ratio.nan());
        assert(ratio.finite());
        assert(ratio == Binary64::assemble(false, rounding::nearest_magnitude(n, m)));
        lemma_large_fraction(n, m);
        nearness::lemma_ordinary_size(ratio);
        nearness::lemma_quotient_is_near(d, mid);
        let r = ratio.size();
        let top = r * hundred.size();
        assert(top == 100 * (r * one)) by (nonlinear_arith)
            requires
                top == r * hundred.size(),
                hundred.size() == 100 * one,
        ;
        assert(top >= PRECISION_LIMIT * one) by (nonlinear_arith)
            requires
                top == 100 * (r * one),
                r >= EXPONENT_STEP,
                one > 0,
        ;
        assert(pct == Binary64::assemble(false, rounding::nearest_magnitude(top, one)));
        lemma_large_fraction(top, one);
        nearness::lemma_product_is_near(ratio, hundred);
        let c = pct.size();
        let e = c * m;
        let f = r * m;
        let h = g * one;
        // c * one is near 100 * r * one.
        assert(is_near(e as int, (100 * f) as int, 2)) by {
            let t = PRECISION_LIMIT as int;
            assert((t - 2) * (100 * r) <= t * c <= (t + 2) * (100 * r)) by (nonlinear_arith)
                requires
                    (t - 2) * (100 * (r * one)) <= t * (c * one) <= (t + 2) * (100 * (r * one)),
                    one > 0,
            {
                assert((t - 2) * (100 * (r * one)) == ((t - 2) * (100 * r)) * one);
                assert((t + 2) * (100 * (r * one)) == ((t + 2) * (100 * r)) * one);
                assert(t * (c * one) == (t * c) * one);
                if (t - 2) * (100 * r) > t * c {
                    assert(((t - 2) * (100 * r)) * one > (t * c) * one);
                }
                if t * c > (t + 2) * (100 * r) {
                    assert((t * c) * one > ((t + 2) * (100 * r)) * one);
                }
            }
            assert((t - 2) * (100 * f) <= t * e <= (t + 2) * (100 * f)) by (nonlinear_arith)
                requires
                    (t - 2) * (100 * r) <= t * c <= (t + 2) * (100 * r),
                    e == c * m,
                    f == r * m,
                    m >= 0,
            {
                assert(((t - 2) * (100 * r)) * m <= (t * c) * m);
                assert((t * c) * m <= ((t + 2) * (100 * r)) * m);
            }
        }
        assert(is_near(n as int, h as int, 1)) by {
            let t = PRECISION_LIMIT as int;
            assert((t - 1) * h <= t * n <= (t + 1) * h) by (nonlinear_arith)
                requires
                    (t - 1) * g <= t * d.size() <= (t + 1) * g,
                    n == d.size() * one,
                    h == g * one,
                    one > 0,
            {
                assert(((t - 1) * g) * one <= (t * d.size()) * one);
                assert((t * d.size()) * one <= ((t + 1) * g) * one);
            }
        }
        assert(is_near(f as int, n as int, 2));
        assert(h >= 0) by (nonlinear_arith)
            requires
                h == g * one,
                g >= 0,
                one >= 0,
        ;
        assert(is_near(e as int, (100 * h) as int, 6));
    }
}

pub(crate) proof fn lemma_exact_zero(d: Binary64, mid: Binary64)
    requires
        is_amount(d),
        is_amount(mid),
        !mid.zero(),
        d.size() == 0 || is_near(d.size() as int, 0, 1),
    ensures
        ({
            let pct = Binary64::product(
                Binary64::quotient(d, mid),
                Binary64 { bits: book::HUNDRED_BITS },
            );
            pct.size() == 0 && !pct.negative() && pct.finite()
        }),
{
    let one = precision::one();
    let zero = Binary64 { bits: 0 };
    lemma_hundred_size();
    binary64::lemma_parts(d);
    binary64::lemma_parts(mid);
    binary64::lemma_parts(zero);
    lemma_pow2_pos(binary64::FRACTION_PLACES as nat);
    assert(d.size() == 0);
    monotone::lemma_number_is_exact(d);
    monotone::lemma_number_is_exact(zero);
    assert(d.magnitude() == 0);
    assert(rounding::nearest_magnitude(0, 1) == 0);
    precision::lemma_nearest_same(0, mid.size(), 0, 1);
    precision::lemma_nearest_same(0, one, 0, 1);
    assert(0 * one == 0);
    let ratio = Binary64::quotient(d, mid);
    assert(ratio == zero);
    let h = (Binary64 { bits: book::HUNDRED_BITS }).size();
    assert(0 * h == 0) by (nonlinear_arith);
    assert(Binary64::product(ratio, Binary64 { bits: book::HUNDRED_BITS }) == zero);
}

/// Whether a number without a sign lies between two powers of two, in units.
pub open spec fn is_between(x: Binary64, low: nat, high: nat) -> bool {
    is_amount(x) && pow2(low) <= x.size() <= pow2(high)
}

/// Whether a number lies between `2^-100` and `2^100`.
pub open spec fn is_moderate(x: Binary64) -> bool {
    is_between(x, 974, 1174)
}

/// Whether all prices and quantities are moderate.
pub open spec fn has_moderate_levels(side: Seq<(Binary64, Binary64)>) -> bool {
    forall|i: int|
        0 <= i < side.len() ==> is_moderate((#[trigger] side[i]).0) && is_moderate(side[i].1)
}

/// The worth of the first `n` levels: the sum of price times quantity, in units
/// of both.
pub open spec fn worth_of(side: Seq<(Binary64, Binary64)>, n: nat) -> nat
    decreases n,
{
    if n == 0 {
        0
    } else {
        worth_of(side, (n - 1) as nat) + side[n - 1].0.size() * side[n - 1].1.size()
    }
}

/// The quantity of the first `n` levels, in units.
pub open spec fn quantity_of(side: Seq<(Binary64, Binary64)>, n: nat) -> nat
    decreases n,
{
    if n == 0 {
        0
    } else {
        quantity_of(side, (n - 1) as nat) + side[n - 1].1.size()
    }
}

pub(crate) proof fn lemma_moderate(x: Binary64, low: nat, high: nat)
    requires
        is_between(x, low, high),
        low >= 53,
    ensures
        is_ordinary(x),
        !x.zero(),
        x.size() > 0,
{
    binary64::lemma_parts(x);
    lemma2_to64_rest();
    rounding::lemma_pow2_monotone(53, low);
    if x.magnitude() < EXPONENT_STEP {
        lemma2_to64();
        lemma_mul_basics(x.significand() as int);
    }
}

/// A fraction between powers of two rounds to a number between them, but for a
/// factor of two.
pub(crate) proof fn lemma_fraction_between(n: nat, d: nat, low: nat, high: nat)
    requires
        d > 0,
        54 <= low,
        high <= 2090,
        pow2(low) * d <= n <= pow2(high) * d,
    ensures
        rounding::nearest_magnitude(n, d) < rounding::INFINITY_MAGNITUDE,
        is_ordinary(Binary64::assemble(false, rounding::nearest_magnitude(n, d))),
        is_between(
            Binary64::assemble(false, rounding::nearest_magnitude(n, d)),
            (low - 1) as nat,
            high + 1,
        ),
{
    let x = Binary64::assemble(false, rounding::nearest_magnitude(n, d));
    let v = x.size();
    lemma2_to64();
    lemma2_to64_rest();
    lemma_pow2_adds(53, 1);
    rounding::lemma_pow2_monotone(54, low);
    assert(PRECISION_LIMIT == pow2(53)) by {
        lemma2_to64_rest();
    }
    assert(n >= PRECISION_LIMIT * d) by (nonlinear_arith)
        requires
            n >= pow2(low) * d,
            pow2(low) >= PRECISION_LIMIT,
            d > 0,
    ;
    let q = n / d;
    vstd::arithmetic::div_mod::lemma_fundamental_div_mod(n as int, d as int);
    assert(q <= pow2(high)) by (nonlinear_arith)
        requires
            n == d * q + n % d,
            n % d >= 0,
            n <= pow2(high) * d,
            d > 0,
    {
        if q > pow2(high) {
            assert(d * q >= d * (pow2(high) + 1));
        }
    }
    rounding::lemma_pow2_monotone(high, 2090);
    lemma_pow2_strictly_increases(2090, 2097);
    precision::lemma_nearest_finite(n, d);
    lemma_large_fraction(n, d);
    nearness::lemma_fraction_is_near(n, d);
    lemma_pow2_unfold(low);
    lemma_pow2_unfold(high + 1);
    let a = pow2((low - 1) as nat);
    let b = pow2(high);
    assert(a <= v <= 2 * b) by (nonlinear_arith)
        requires
            2 * (v * d) >= n,
            v * d <= 2 * n,
            n >= (2 * a) * d,
            n <= b * d,
            d > 0,
    {
        assert(2 * (v * d) >= 2 * (a * d));
        if v < a {
            assert(v * d < a * d);
        }
        if v > 2 * b {
            assert(v * d > (2 * b) * d);
        }
    }
}

/// The worth of a moderate level is moderate too.
proof fn lemma_worth_between(p: Binary64, s: Binary64)
    requires
        is_moderate(p),
        is_moderate(s),
    ensures
        is_between(Binary64::product(p, s), 873, 1275),
        is_ordinary(Binary64::product(p, s)),
        pow2(1948) <= p.size() * s.size() <= pow2(2348),
{
    let one = precision::one();
    let n = p.size() * s.size();
    lemma_pow2_adds(974, 974);
    lemma_pow2_adds(1174, 1174);
    lemma_pow2_adds(874, 1074);
    lemma_pow2_adds(1274, 1074);
    lemma_pow2_pos(1074);
    assert(pow2(1948) <= n <= pow2(2348)) by (nonlinear_arith)
        requires
            n == p.size() * s.size(),
            pow2(974) <= p.size() <= pow2(1174),
            pow2(974) <= s.size() <= pow2(1174),
            pow2(1948) == pow2(974) * pow2(974),
            pow2(2348) == pow2(1174) * pow2(1174),
    ;
    lemma_fraction_between(n, one, 874, 1274);
    lemma_moderate(p, 974, 1174);
    lemma_moderate(s, 974, 1174);
}

/// Sums of moderate amounts.
proof fn lemma_sums_between(side: Seq<(Binary64, Binary64)>, n: nat)
    requires
        has_moderate_levels(side),
        n <= side.len(),
    ensures
        quantity_of(side, n) <= n * pow2(1174),
        worth_of(side, n) <= n * pow2(2348),
        n > 0 ==> quantity_of(side, n) >= pow2(974),
        n > 0 ==> worth_of(side, n) >= pow2(1948),
    decreases n,
{
    if n > 0 {
        let front = (n - 1) as nat;
        lemma_sums_between(side, front);
        assert(is_moderate(side[n - 1].0) && is_moderate(side[n - 1].1));
        lemma_worth_between(side[n - 1].0, side[n - 1].1);
        assert(n * pow2(1174) == front * pow2(1174) + pow2(1174)) by (nonlinear_arith)
            requires
                n == front + 1,
        ;
        assert(n * pow2(2348) == front * pow2(2348) + pow2(2348)) by (nonlinear_arith)
            requires
                n == front + 1,
        ;
    }
}

/// What is near to a sum of something near and something exact, or nearer.
pub(crate) proof fn lemma_near_sum(a: int, x: int, y: int, b: int, c: int, parts: int)
    requires
        is_near(a, x + y, 1),
        is_near(x, b, parts),
        is_near(y, c, 2) || y == c,
        2 <= parts <= PRECISION_LIMIT,
        b >= 0,
        c >= 0,
    ensures
        is_near(a, b + c, parts + 2),
{
    let d = PRECISION_LIMIT as int;
    let e = parts;
    let eb = e * b;
    let ec = e * c;
    assert(eb >= 0 && ec >= 2 * c && eb <= d * b && ec <= d * c) by (nonlinear_arith)
        requires
            eb == e * b,
            ec == e * c,
            2 <= e <= d,
            b >= 0,
            c >= 0,
    ;
    assert((d - e) * b == d * b - eb && (d + e) * b == d * b + eb) by (nonlinear_arith)
        requires
            eb == e * b,
    ;
    assert((d - (e + 2)) * (b + c) == d * (b + c) - eb - ec - 2 * (b + c) && (d + (e + 2)) * (b + c)
        == d * (b + c) + eb + ec + 2 * (b + c)) by (nonlinear_arith)
        requires
            eb == e * b,
            ec == e * c,
    ;
}

/// The most levels of which sums are compared with exact ones.
pub const SUM_LIMIT: u64 = 0x100_0000_0000;

/// A level that does not fill an order is taken whole, and paid for.
proof fn lemma_level_taken(
    f: Fill,
    level: (Binary64, Binary64),
    wanted: Binary64,
    quantity: nat,
    worth: nat,
    n: nat,
    parts: int,
)
    requires
        impact::is_under_way(f, wanted),
        is_amount(f.qty),
        is_moderate(level.0),
        is_moderate(level.1),
        !impact::after_level(f, level, wanted).complete,
        n <= SUM_LIMIT,
        quantity <= n * pow2(1174),
        2 <= parts <= PRECISION_LIMIT,
        is_near(f.qty.size() as int, quantity as int, parts),
        is_near((f.notional.size() * precision::one()) as int, worth as int, parts),
    ensures
        ({
            let g = impact::after_level(f, level, wanted);
            &&& impact::is_under_way(g, wanted)
            &&& is_amount(g.qty)
            &&& g.levels == f.levels + 1
            &&& g.worst == level.0
            &&& is_near(g.qty.size() as int, (quantity + level.1.size()) as int, parts + 2)
            &&& is_near(
                (g.notional.size() * precision::one()) as int,
                (worth + level.0.size() * level.1.size()) as int,
                parts + 2,
            )
        }),
{
    let one = precision::one();
    let g = impact::after_level(f, level, wanted);
    let w = Binary64::product(level.0, level.1);
    let total = Binary64::sum(f.notional, w);
    lemma_moderate(level.0, 974, 1174);
    lemma_moderate(level.1, 974, 1174);
    lemma_worth_between(level.0, level.1);
    lemma_moderate(w, 873, 1275);
    assert(impact::is_tradable(level));
    lemma_not_reached(f, w, wanted);
    nearness::lemma_sum_is_near(f.notional, w);
    lemma_quantity_finite(f.qty, level.1, quantity, n, parts);
    nearness::lemma_sum_is_near(f.qty, level.1);
    assert(g.qty == Binary64::sum(f.qty, level.1));
    assert(g.notional == total);
    lemma_near_sum(
        g.qty.size() as int,
        f.qty.size() as int,
        level.1.size() as int,
        quantity as int,
        level.1.size() as int,
        parts,
    );
    lemma_paid_near(f.notional, level, worth, parts);
}

proof fn lemma_not_reached(f: Fill, w: Binary64, wanted: Binary64)
    requires
        impact::is_under_way(f, wanted),
        is_amount(w),
        !Binary64::at_most(wanted, Binary64::sum(f.notional, w)),
    ensures
        is_amount(Binary64::sum(f.notional, w)),
        Binary64::sum(f.notional, w).magnitude() < wanted.magnitude(),
{
    monotone::lemma_sum_of_amounts(f.notional, w);
}

/// What is paid after one more level.
proof fn lemma_paid_near(paid: Binary64, level: (Binary64, Binary64), worth: nat, parts: int)
    requires
        is_amount(paid),
        is_moderate(level.0),
        is_moderate(level.1),
        2 <= parts <= PRECISION_LIMIT,
        Binary64::sum(paid, Binary64::product(level.0, level.1)).finite(),
        is_near((paid.size() * precision::one()) as int, worth as int, parts),
    ensures
        is_near(
            (Binary64::sum(paid, Binary64::product(level.0, level.1)).size()
                * precision::one()) as int,
            (worth + level.0.size() * level.1.size()) as int,
            parts + 2,
        ),
{
    let one = precision::one();
    let w = Binary64::product(level.0, level.1);
    let total = Binary64::sum(paid, w);
    lemma_worth_between(level.0, level.1);
    nearness::lemma_sum_is_near(paid, w);
    nearness::lemma_product_is_near(level.0, level.1);
    crate::ratios::lemma_near_scaled(
        total.size() as int,
        (paid.size() + w.size()) as int,
        one as int,
    );
    assert((paid.size() + w.size()) * one == paid.size() * one + w.size() * one) by (
        nonlinear_arith);
    assert(level.0.size() * level.1.size() >= 0);
    lemma_near_sum(
        (total.size() * one) as int,
        (paid.size() * one) as int,
        (w.size() * one) as int,
        worth as int,
        (level.0.size() * level.1.size()) as int,
        parts,
    );
}

/// An order that is not filled has taken all levels so far, and paid for them.
proof fn lemma_all_taken(side: Seq<(Binary64, Binary64)>, n: nat, wanted: Binary64)
    requires
        has_moderate_levels(side),
        n <= side.len() <= SUM_LIMIT,
        is_moderate(wanted),
        !slippage::state_at(side, n, wanted).complete,
    ensures
        ({
            let f = slippage::state_at(side, n, wanted);
            &&& impact::is_under_way(f, wanted)
            &&& is_amount(f.qty)
            &&& f.levels == n
            &&& n > 0 ==> f.worst == side[n - 1].0
            &&& is_near(f.qty.size() as int, quantity_of(side, n) as int, 2 * n as int + 2)
            &&& is_near(
                (f.notional.size() * precision::one()) as int,
                worth_of(side, n) as int,
                2 * n as int + 2,
            )
        }),
    decreases n,
{
    slippage::lemma_next_state(side, 0, wanted);
    if n == 0 {
        lemma_nothing_taken(wanted);
    } else {
        let front = (n - 1) as nat;
        slippage::lemma_next_state(side, front, wanted);
        lemma_all_taken(side, front, wanted);
        assert(is_moderate(side[n - 1].0) && is_moderate(side[n - 1].1));
        lemma_sums_between(side, front);
        lemma_level_taken(
            slippage::state_at(side, front, wanted),
            side[n - 1],
            wanted,
            quantity_of(side, front),
            worth_of(side, front),
            front,
            2 * front as int + 2,
        );
    }
}

proof fn lemma_nothing_taken(wanted: Binary64)
    requires
        is_moderate(wanted),
    ensures
        impact::is_under_way(impact::unfilled(), wanted),
        is_amount(impact::unfilled().qty),
        is_near(impact::unfilled().qty.size() as int, 0, 2),
        is_near((impact::unfilled().notional.size() * precision::one()) as int, 0, 2),
{
    let one = precision::one();
    lemma_moderate(wanted, 974, 1174);
    binary64::lemma_parts(book::nothing());
    lemma_zero_size();
    assert(0 * one == 0);
}

proof fn lemma_zero_size()
    ensures
        book::nothing().size() == 0,
{
    let zero = book::nothing();
    assert(zero.significand() == 0);
    lemma_mul_basics(pow2(zero.scale()) as int);
}

/// A sum of moderate quantities is finite.
pub(crate) proof fn lemma_quantity_finite(x: Binary64, y: Binary64, exact: nat, n: nat, parts: int)
    requires
        is_amount(x),
        is_moderate(y),
        n <= SUM_LIMIT,
        exact <= n * pow2(1174),
        is_near(x.size() as int, exact as int, parts),
        0 <= parts <= PRECISION_LIMIT,
    ensures
        Binary64::sum(x, y).finite(),
{
    let d = PRECISION_LIMIT as int;
    let t = x.size() + y.size();
    assert(x.size() <= 2 * exact) by (nonlinear_arith)
        requires
            d * x.size() <= (d + parts) * exact,
            parts <= d,
            exact >= 0,
            d > 0,
    {
        assert((d + parts) * exact <= (2 * d) * exact);
    }
    lemma_pow2_adds(42, 1174);
    lemma2_to64_rest();
    assert(n * pow2(1174) <= SUM_LIMIT * pow2(1174)) by (nonlinear_arith)
        requires
            n <= SUM_LIMIT,
    ;
    assert(pow2(42) == 4 * SUM_LIMIT);
    assert(pow2(1216) == 4 * (SUM_LIMIT * pow2(1174))) by (nonlinear_arith)
        requires
            pow2(1216) == (4 * SUM_LIMIT) * pow2(1174),
    ;
    assert(t <= pow2(1216));
    lemma_pow2_strictly_increases(1216, 2097);
    monotone::lemma_sum_of_amounts(x, y);
    assert(t / 1 == t);
    precision::lemma_nearest_finite(t, 1);
}

/// The part of a level that fills an order.
proof fn lemma_part_between(
    f: Fill,
    price: Binary64,
    wanted: Binary64,
    quantity: nat,
    worth: nat,
    parts: int,
)
    requires
        impact::is_under_way(f, wanted),
        is_amount(f.qty),
        is_moderate(price),
        is_moderate(wanted),
        quantity <= SUM_LIMIT * pow2(1174),
        quantity >= pow2(974) || (quantity == 0 && worth == 0),
        0 <= parts <= EXPONENT_STEP,
        is_near(f.qty.size() as int, quantity as int, parts),
        is_near((f.notional.size() * precision::one()) as int, worth as int, parts),
    ensures
        ({
            let missing = Binary64::difference(wanted, f.notional);
            let part = Binary64::quotient(missing, price);
            &&& is_amount(missing)
            &&& missing.size() <= wanted.size()
            &&& is_amount(part)
            &&& is_between(Binary64::sum(f.qty, part), 872, 1278)
        }),
{
    let d = PRECISION_LIMIT as int;
    let one = precision::one();
    let missing = Binary64::difference(wanted, f.notional);
    let part = Binary64::quotient(missing, price);
    let sum = Binary64::sum(f.qty, part);
    lemma_moderate(price, 974, 1174);
    lemma_moderate(wanted, 974, 1174);
    monotone::lemma_difference_of_amounts(wanted, f.notional);
    precision::lemma_size_ordered(missing, wanted);
    let n = missing.size() * one;
    let p = price.size();
    lemma_pow2_adds(1174, 1074);
    lemma_pow2_adds(1274, 974);
    lemma_pow2_pos(1074);
    lemma_pow2_pos(974);
    assert(n <= pow2(1274) * p) by (nonlinear_arith)
        requires
            n == missing.size() * one,
            missing.size() <= pow2(1174),
            one == pow2(1074),
            pow2(2248) == pow2(1174) * pow2(1074),
            pow2(2248) == pow2(1274) * pow2(974),
            p >= pow2(974),
    {
        assert(n <= pow2(1174) * pow2(1074));
        assert(pow2(1274) * p >= pow2(1274) * pow2(974));
    }
    vstd::arithmetic::div_mod::lemma_fundamental_div_mod(n as int, p as int);
    let q = n / p;
    assert(q <= pow2(1274)) by (nonlinear_arith)
        requires
            n == p * q + n % p,
            n % p >= 0,
            n <= pow2(1274) * p,
            p > 0,
    {
        if q > pow2(1274) {
            assert(p * q >= p * (pow2(1274) + 1));
        }
    }
    lemma_pow2_strictly_increases(1274, 2097);
    precision::lemma_nearest_finite(n, p);
    assert(part == Binary64::assemble(false, rounding::nearest_magnitude(n, p)));
    nearness::lemma_quotient_error(missing, price);
    let t = part.size();
    assert(t <= 2 * pow2(1274) + 1) by (nonlinear_arith)
        requires
            2 * (d * (t * p)) <= 2 * (d * n) + 2 * n + d * p,
            n <= pow2(1274) * p,
            d >= 4,
            p > 0,
            n >= 0,
            t >= 0,
    {
        assert(2 * n <= d * n);
        assert(2 * (d * (t * p)) <= d * (4 * n + p));
        assert(2 * (t * p) <= 4 * n + p);
        assert(2 * (t * p) <= (4 * pow2(1274) + 1) * p);
        if t > 2 * pow2(1274) + 1 {
            assert(t * p >= (2 * pow2(1274) + 2) * p);
        }
    }
    // The sum is finite.
    assert(f.qty.size() <= 2 * quantity && 2 * f.qty.size() >= quantity) by (nonlinear_arith)
        requires
            (d - parts) * quantity <= d * f.qty.size() <= (d + parts) * quantity,
            0 <= parts,
            2 * parts <= d,
            quantity >= 0,
            d > 0,
    {
        assert((d + parts) * quantity <= (2 * d) * quantity);
        assert((d - parts) * quantity == d * quantity - parts * quantity);
        assert(2 * (parts * quantity) <= d * quantity);
    }
    lemma_pow2_adds(40, 1174);
    lemma2_to64();
    lemma2_to64_rest();
    lemma_pow2_unfold(1275);
    lemma_pow2_unfold(1276);
    lemma_pow2_unfold(1277);
    lemma_pow2_unfold(1278);
    rounding::lemma_pow2_monotone(1214, 1274);
    rounding::lemma_pow2_monotone(0, 1274);
    let m = f.qty.size() + t;
    assert(m <= pow2(1277));
    lemma_pow2_strictly_increases(1277, 2097);
    monotone::lemma_sum_of_amounts(f.qty, part);
    assert(m / 1 == m);
    precision::lemma_nearest_finite(m, 1);
    nearness::lemma_sum_is_near(f.qty, part);
    assert(sum.size() <= 2 * m);
    assert(2 * sum.size() >= m);
    lemma_pow2_unfold(873);
    if quantity >= pow2(974) {
        lemma_pow2_unfold(974);
        rounding::lemma_pow2_monotone(873, 973);
    } else {
        // Nothing was taken before, and all that is wanted is missing.
        let paid = f.notional.size();
        assert(quantity == 0 && worth == 0);
        assert(paid == 0) by (nonlinear_arith)
            requires
                d * (paid * one) <= (d + parts) * 0,
                one > 0,
                d > 0,
                paid >= 0,
        {
            if paid >= 1 {
                assert(paid * one >= 1);
            }
        }
        monotone::lemma_number_is_exact(wanted);
        assert(missing.magnitude() == wanted.magnitude());
        assert(missing == wanted);
        lemma_pow2_adds(974, 1074);
        lemma_pow2_adds(874, 1174);
        assert(pow2(874) * p <= n) by (nonlinear_arith)
            requires
                n == wanted.size() * one,
                wanted.size() >= pow2(974),
                one == pow2(1074),
                pow2(2048) == pow2(974) * pow2(1074),
                pow2(2048) == pow2(874) * pow2(1174),
                p <= pow2(1174),
        {
            assert(n >= pow2(974) * pow2(1074));
            assert(pow2(874) * p <= pow2(874) * pow2(1174));
        }
        lemma_fraction_between(n, p, 874, 1274);
    }
}

/// What an order ends with at the level that fills it: it has paid what is
/// wanted, and taken the whole levels before and what is missing of this one.
proof fn lemma_level_fills(
    f: Fill,
    level: (Binary64, Binary64),
    wanted: Binary64,
    quantity: nat,
    worth: nat,
    parts: int,
)
    requires
        impact::is_under_way(f, wanted),
        is_amount(f.qty),
        is_moderate(level.0),
        is_moderate(level.1),
        is_moderate(wanted),
        impact::after_level(f, level, wanted).complete,
        quantity <= SUM_LIMIT * pow2(1174),
        quantity >= pow2(974) || (quantity == 0 && worth == 0),
        2 <= parts <= EXPONENT_STEP,
        is_near(f.qty.size() as int, quantity as int, parts),
        is_near((f.notional.size() * precision::one()) as int, worth as int, parts),
    ensures
        ({
            let g = impact::after_level(f, level, wanted);
            let one = precision::one();
            let p = level.0.size();
            let w = wanted.size() * one;
            let d = PRECISION_LIMIT as int;
            &&& g.levels == f.levels + 1
            &&& g.worst == level.0
            &&& is_amount(g.notional)
            &&& is_near(g.notional.size() as int, wanted.size() as int, 3)
            &&& is_between(g.qty, 872, 1278)
            &&& (d - parts) * worth < d * w
            &&& d * w <= (d + parts + 2) * (worth + p * level.1.size())
            &&& is_near_by(
                g.qty.size() * p + worth,
                quantity * p + w,
                2 * parts + 20,
                quantity * p + w,
            )
        }),
{
    let one = precision::one();
    let d = PRECISION_LIMIT as int;
    let worth_here = Binary64::product(level.0, level.1);
    let total = Binary64::sum(f.notional, worth_here);
    let missing = Binary64::difference(wanted, f.notional);
    let part = Binary64::quotient(missing, level.0);
    lemma_moderate(level.0, 974, 1174);
    lemma_moderate(level.1, 974, 1174);
    lemma_moderate(wanted, 974, 1174);
    lemma_worth_between(level.0, level.1);
    lemma_moderate(worth_here, 873, 1275);
    assert(impact::is_tradable(level));
    lemma_part_between(f, level.0, wanted, quantity, worth, parts);
    let sum = Binary64::sum(f.qty, part);
    lemma_moderate(sum, 872, 1278);
    let g = impact::after_level(f, level, wanted);
    assert(g.qty == sum && g.notional == Binary64::sum(f.notional, missing));
    lemma_paid_in_full(f.notional, wanted);
    lemma_reached(f.notional, level, wanted, worth, parts);
    let paid = f.notional.size();
    assert((d - parts) * worth < d * (wanted.size() * one)) by {
        precision::lemma_size_ordered(f.notional, wanted);
        monotone::lemma_number_is_exact(f.notional);
        monotone::lemma_number_is_exact(wanted);
        assert(paid < wanted.size());
        lemma_pow2_pos(1074);
        assert(paid * one < wanted.size() * one) by (nonlinear_arith)
            requires
                paid < wanted.size(),
                one > 0,
        ;
    }
    slippage::lemma_part_of_level(f, level.0, missing);
    reveal(slippage::is_step);
    nearness::lemma_difference_is_near(wanted, f.notional);
    lemma_taken_near(
        (sum.size() * level.0.size()) as int,
        f.qty.size() as int,
        missing.size() as int,
        paid as int,
        wanted.size() as int,
        quantity as int,
        worth as int,
        level.0.size() as int,
        one as int,
        parts,
    );
}

/// Whether two values differ by no more than `parts` of `2^53` parts of a third.
pub open spec fn is_near_by(v: nat, n: nat, parts: int, of: nat) -> bool {
    &&& PRECISION_LIMIT * v <= PRECISION_LIMIT * n + parts * of
    &&& PRECISION_LIMIT * n <= PRECISION_LIMIT * v + parts * of
}

/// Adding what is missing gives what is wanted.
proof fn lemma_paid_in_full(paid: Binary64, wanted: Binary64)
    requires
        is_amount(paid),
        is_moderate(wanted),
        paid.magnitude() < wanted.magnitude(),
    ensures
        is_amount(Binary64::sum(paid, Binary64::difference(wanted, paid))),
        is_near(
            Binary64::sum(paid, Binary64::difference(wanted, paid)).size() as int,
            wanted.size() as int,
            3,
        ),
{
    let missing = Binary64::difference(wanted, paid);
    nearness::lemma_difference_is_near(wanted, paid);
    let n = paid.size() + missing.size();
    assert(n <= 2 * wanted.size());
    lemma_pow2_unfold(1175);
    lemma_pow2_strictly_increases(1175, 2097);
    assert(n / 1 == n);
    precision::lemma_nearest_finite(n, 1);
    monotone::lemma_sum_of_amounts(paid, missing);
    nearness::lemma_sum_is_near(paid, missing);
}

/// The level that fills an order brings its worth to what is wanted.
proof fn lemma_reached(
    paid: Binary64,
    level: (Binary64, Binary64),
    wanted: Binary64,
    worth: nat,
    parts: int,
)
    requires
        is_amount(paid),
        is_moderate(level.0),
        is_moderate(level.1),
        is_moderate(wanted),
        paid.magnitude() < wanted.magnitude(),
        Binary64::at_most(wanted, Binary64::sum(paid, Binary64::product(level.0, level.1))),
        2 <= parts <= EXPONENT_STEP,
        is_near((paid.size() * precision::one()) as int, worth as int, parts),
    ensures
        PRECISION_LIMIT * (wanted.size() * precision::one()) <= (PRECISION_LIMIT + parts + 2) * (
        worth + level.0.size() * level.1.size()),
{
    let one = precision::one();
    let d = PRECISION_LIMIT as int;
    let w = Binary64::product(level.0, level.1);
    let total = Binary64::sum(paid, w);
    lemma_worth_between(level.0, level.1);
    lemma_moderate(w, 873, 1275);
    precision::lemma_size_ordered(paid, wanted);
    let n = paid.size() + w.size();
    lemma_pow2_unfold(1276);
    rounding::lemma_pow2_monotone(1174, 1275);
    lemma_pow2_strictly_increases(1276, 2097);
    assert(n / 1 == n);
    precision::lemma_nearest_finite(n, 1);
    monotone::lemma_sum_of_amounts(paid, w);
    lemma_paid_near(paid, level, worth, parts);
    precision::lemma_size_ordered(wanted, total);
    assert(wanted.size() * one <= total.size() * one) by (nonlinear_arith)
        requires
            wanted.size() <= total.size(),
            one >= 0,
    ;
}

/// The quantity of an order, from what was taken and paid before.
proof fn lemma_taken_near(
    qp: int,
    q: int,
    m: int,
    paid: int,
    wanted: int,
    quantity: int,
    worth: int,
    p: int,
    one: int,
    parts: int,
)
    requires
        0 <= q && 0 <= m && 0 <= paid && 0 <= quantity && 0 <= worth && 0 <= p && 0 <= one,
        paid <= wanted,
        is_near(qp, q * p + m * one, 5),
        is_near(m, wanted - paid, 1),
        is_near(q, quantity, parts),
        is_near(paid * one, worth, parts),
        2 <= parts <= EXPONENT_STEP,
    ensures
        PRECISION_LIMIT * (qp + worth) <= PRECISION_LIMIT * (quantity * p + wanted * one) + (2
            * parts + 20) * (quantity * p + wanted * one),
        PRECISION_LIMIT * (quantity * p + wanted * one) <= PRECISION_LIMIT * (qp + worth) + (2
            * parts + 20) * (quantity * p + wanted * one),
{
    let d = PRECISION_LIMIT as int;
    let a = q * p;
    let b = m * one;
    let c = quantity * p;
    let w = wanted * one;
    let f = paid * one;
    let ec = parts * c;
    let ew = parts * worth;
    let x = c + w;
    let ex = parts * x;
    assert(a >= 0 && b >= 0 && c >= 0 && w >= 0 && f >= 0 && f <= w) by (nonlinear_arith)
        requires
            a == q * p,
            b == m * one,
            c == quantity * p,
            w == wanted * one,
            f == paid * one,
            0 <= q && 0 <= m && 0 <= paid && 0 <= quantity && 0 <= p && 0 <= one,
            paid <= wanted,
    ;
    assert(d * c - ec <= d * a <= d * c + ec) by (nonlinear_arith)
        requires
            (d - parts) * quantity <= d * q <= (d + parts) * quantity,
            a == q * p,
            c == quantity * p,
            ec == parts * c,
            p >= 0,
    {
        assert(((d - parts) * quantity) * p <= (d * q) * p);
        assert((d * q) * p <= ((d + parts) * quantity) * p);
        assert(((d - parts) * quantity) * p == d * c - parts * c);
        assert(((d + parts) * quantity) * p == d * c + parts * c);
    }
    assert((d - 1) * (w - f) <= d * b <= (d + 1) * (w - f)) by (nonlinear_arith)
        requires
            (d - 1) * (wanted - paid) <= d * m <= (d + 1) * (wanted - paid),
            b == m * one,
            w == wanted * one,
            f == paid * one,
            one >= 0,
    {
        assert(((d - 1) * (wanted - paid)) * one <= (d * m) * one);
        assert((d * m) * one <= ((d + 1) * (wanted - paid)) * one);
        assert((wanted - paid) * one == w - f);
    }
    assert((d - parts) * worth == d * worth - ew && (d + parts) * worth == d * worth + ew) by (
        nonlinear_arith)
        requires
            ew == parts * worth,
    ;
    // What was paid is at most what is wanted.
    assert(ew >= 0 && 2 * ew <= d * worth && ec >= 0) by (nonlinear_arith)
        requires
            ew == parts * worth,
            ec == parts * c,
            0 <= parts,
            2 * parts <= d,
            worth >= 0,
            c >= 0,
    ;
    assert(worth <= 2 * w);
    assert(ew <= 2 * (parts * w) && ec <= ex && ex == ec + parts * w && 2 * ec <= d * c) by (
        nonlinear_arith)
        requires
            ew == parts * worth,
            ec == parts * c,
            ex == parts * x,
            x == c + w,
            worth <= 2 * w,
            0 <= parts,
            2 * parts <= d,
            c >= 0,
            w >= 0,
    ;
    assert((2 * parts + 20) * x == 2 * ex + 20 * x) by (nonlinear_arith)
        requires
            ex == parts * x,
    ;
}

/// The average of moderate totals.
proof fn lemma_average_between(n: Binary64, q: Binary64)
    requires
        is_between(n, 872, 1215),
        is_between(q, 872, 1278),
    ensures
        is_between(Binary64::quotient(n, q), 667, 1418),
        is_near(
            (Binary64::quotient(n, q).size() * q.size()) as int,
            (n.size() * precision::one()) as int,
            2,
        ),
{
    let one = precision::one();
    let top = n.size() * one;
    lemma_moderate(n, 872, 1215);
    lemma_moderate(q, 872, 1278);
    lemma_pow2_adds(872, 1074);
    lemma_pow2_adds(668, 1278);
    lemma_pow2_adds(1215, 1074);
    lemma_pow2_adds(1417, 872);
    assert(pow2(668) * q.size() <= top) by (nonlinear_arith)
        requires
            top == n.size() * one,
            one == pow2(1074),
            n.size() >= pow2(872),
            q.size() <= pow2(1278),
            pow2(1946) == pow2(872) * pow2(1074),
            pow2(1946) == pow2(668) * pow2(1278),
    {
        assert(top >= pow2(872) * pow2(1074));
        assert(pow2(668) * q.size() <= pow2(668) * pow2(1278));
    }
    assert(top <= pow2(1417) * q.size()) by (nonlinear_arith)
        requires
            top == n.size() * one,
            one == pow2(1074),
            n.size() <= pow2(1215),
            q.size() >= pow2(872),
            pow2(2289) == pow2(1215) * pow2(1074),
            pow2(2289) == pow2(1417) * pow2(872),
    {
        assert(top <= pow2(1215) * pow2(1074));
        assert(pow2(1417) * q.size() >= pow2(1417) * pow2(872));
    }
    lemma_fraction_between(top, q.size(), 668, 1417);
    nearness::lemma_quotient_is_near(n, q);
}

/// The relative distance of a moderate average and a moderate price, in percent,
/// is finite.
proof fn lemma_percent_is_finite(avg: Binary64, mid: Binary64)
    requires
        is_between(avg, 667, 1418),
        is_moderate(mid),
    ensures
        percent_of(avg, mid).finite(),
        percent_of(avg, mid).size() <= pow2(1600),
{
    let one = precision::one();
    let d = Binary64::absolute(Binary64::difference(avg, mid));
    let ratio = Binary64::quotient(d, mid);
    let hundred = Binary64 { bits: book::HUNDRED_BITS };
    lemma_moderate(avg, 667, 1418);
    lemma_moderate(mid, 974, 1174);
    lemma_distance(avg, mid);
    lemma_hundred_size();
    let n = d.size() * one;
    let m = mid.size();
    rounding::lemma_pow2_monotone(1174, 1418);
    lemma_pow2_unfold(1419);
    assert(d.size() <= pow2(1419));
    lemma_pow2_adds(1419, 1074);
    lemma_pow2_adds(1519, 974);
    assert(n <= pow2(1519) * m) by (nonlinear_arith)
        requires
            n == d.size() * one,
            one == pow2(1074),
            d.size() <= pow2(1419),
            m >= pow2(974),
            pow2(2493) == pow2(1419) * pow2(1074),
            pow2(2493) == pow2(1519) * pow2(974),
    {
        assert(n <= pow2(1419) * pow2(1074));
        assert(pow2(1519) * m >= pow2(1519) * pow2(974));
    }
    lemma_bounded_fraction(n, m, 1519);
    assert(ratio == Binary64::assemble(false, rounding::nearest_magnitude(n, m)));
    let top = ratio.size() * hundred.size();
    lemma_pow2_unfold(1520);
    lemma_pow2_unfold(1521);
    lemma_pow2_adds(7, 1521);
    lemma2_to64();
    lemma_pow2_pos(1521);
    lemma_pow2_pos(1074);
    assert(top <= pow2(1528) * one) by (nonlinear_arith)
        requires
            top == ratio.size() * hundred.size(),
            hundred.size() == 100 * one,
            ratio.size() <= pow2(1521),
            pow2(1528) == 128 * pow2(1521),
            one > 0,
    {
        assert(top == (100 * ratio.size()) * one);
        assert(100 * ratio.size() <= 128 * pow2(1521));
    }
    lemma_bounded_fraction(top, one, 1528);
    rounding::lemma_pow2_monotone(1530, 1600);
}

/// A fraction up to a power of two rounds to a number up to four times it.
proof fn lemma_bounded_fraction(n: nat, d: nat, high: nat)
    requires
        d > 0,
        high <= 2090,
        n <= pow2(high) * d,
    ensures
        rounding::nearest_magnitude(n, d) < rounding::INFINITY_MAGNITUDE,
        Binary64::assemble(false, rounding::nearest_magnitude(n, d)).size() <= pow2(high + 2),
{
    let q = n / d;
    let v = Binary64::assemble(false, rounding::nearest_magnitude(n, d)).size();
    vstd::arithmetic::div_mod::lemma_fundamental_div_mod(n as int, d as int);
    assert(q <= pow2(high)) by (nonlinear_arith)
        requires
            n == d * q + n % d,
            n % d >= 0,
            n <= pow2(high) * d,
            d > 0,
    {
        if q > pow2(high) {
            assert(d * q >= d * (pow2(high) + 1));
        }
    }
    rounding::lemma_pow2_monotone(high, 2090);
    lemma_pow2_strictly_increases(2090, 2097);
    precision::lemma_nearest_finite(n, d);
    nearness::lemma_fraction_error(n, d);
    let p = PRECISION_LIMIT as int;
    lemma_pow2_unfold(high + 1);
    lemma_pow2_unfold(high + 2);
    lemma_pow2_pos(high);
    let b = pow2(high);
    assert(v <= 4 * b) by (nonlinear_arith)
        requires
            2 * (p * (v * d)) <= 2 * (p * n) + 2 * n + p * d,
            n <= b * d,
            b >= 1,
            p >= 4,
            d > 0,
            n >= 0,
            v >= 0,
    {
        assert(2 * n <= p * n);
        assert(2 * (p * (v * d)) <= p * (4 * n + d));
        assert(2 * (v * d) <= 4 * n + d);
        assert(2 * (v * d) <= (4 * b + 1) * d);
        if v > 4 * b {
            assert(v * d >= (4 * b + 1) * d);
        }
    }
}

/// A hundred times a number.
proof fn lemma_hundredfold(x: Binary64)
    requires
        is_amount(x),
        x.size() <= pow2(1600),
    ensures
        ({
            let y = Binary64::product(x, Binary64 { bits: book::HUNDRED_BITS });
            &&& is_amount(y)
            &&& is_near(y.size() as int, (100 * x.size()) as int, 1)
        }),
{
    let one = precision::one();
    let hundred = Binary64 { bits: book::HUNDRED_BITS };
    let n = 100 * x.size();
    lemma_hundred_size();
    lemma_pow2_pos(1074);
    lemma_pow2_adds(7, 1600);
    lemma2_to64();
    lemma_pow2_strictly_increases(1607, 2097);
    assert(n / 1 == n);
    precision::lemma_nearest_finite(n, 1);
    assert((x.size() * hundred.size()) * 1 == n * one) by (nonlinear_arith)
        requires
            hundred.size() == 100 * one,
            n == 100 * x.size(),
    ;
    precision::lemma_nearest_same(x.size() * hundred.size(), one, n, 1);
    nearness::lemma_count_is_near(n);
}

/// The prices of an outcome against a reference price.
proof fn lemma_prices_of(f: Fill, mid: Binary64)
    requires
        is_between(f.notional, 872, 1215),
        is_between(f.qty, 872, 1278),
        is_moderate(mid),
    ensures
        ({
            let x = impact::impact_of(f, mid);
            &&& is_between(x.avg_fill_price, 667, 1418)
            &&& is_near(
                (x.avg_fill_price.size() * f.qty.size()) as int,
                (f.notional.size() * precision::one()) as int,
                2,
            )
            &&& is_amount(x.slippage_pct)
            &&& is_near(
                (x.slippage_pct.size() * mid.size()) as int,
                (100 * (gap(x.avg_fill_price, mid) * precision::one())) as int,
                6,
            )
            &&& is_amount(x.slippage_bps)
            &&& is_near(x.slippage_bps.size() as int, (100 * x.slippage_pct.size()) as int, 1)
        }),
{
    let avg = Binary64::quotient(f.notional, f.qty);
    lemma_moderate(f.qty, 872, 1278);
    lemma_moderate(mid, 974, 1174);
    slippage::lemma_average(f, mid);
    lemma_average_between(f.notional, f.qty);
    lemma_moderate(avg, 667, 1418);
    lemma_percent_is_finite(avg, mid);
    lemma_percent(avg, mid);
    lemma_hundredfold(percent_of(avg, mid));
    lemma_slippage_fields(f, mid, avg);
}

proof fn lemma_slippage_fields(f: Fill, mid: Binary64, avg: Binary64)
    requires
        impact::impact_of(f, mid).avg_fill_price == avg,
        is_amount(avg) && !avg.zero(),
        is_amount(mid) && !mid.zero(),
    ensures
        impact::impact_of(f, mid).slippage_pct == percent_of(avg, mid),
        impact::impact_of(f, mid).slippage_bps == Binary64::product(
            percent_of(avg, mid),
            Binary64 { bits: book::HUNDRED_BITS },
        ),
{
    slippage::lemma_more_than_nothing(avg);
    slippage::lemma_more_than_nothing(mid);
}

/// Whether a sequence is the side that an order meets, the best price first.
pub open spec fn is_met_by(
    side: Seq<(Binary64, Binary64)>,
    b: book::BookSides,
    is_buy: bool,
) -> bool {
    if is_buy {
        side == b.asks
    } else {
        side.len() == b.bids.len() && forall|i: int|
            0 <= i < side.len() ==> #[trigger] side[i] == b.bids[side.len() - 1 - i]
    }
}

/// What the figures of an estimate say of the order, for amounts between
/// `2^-100` and `2^100`, up to rounding.
///
/// An order that is filled ends in the first level that brings the worth of the
/// levels to what is wanted; it has paid what is wanted, and taken the levels
/// before and what is missing of this one.  One that is not filled has taken all
/// levels and paid for them, and that is less than what is wanted.
pub proof fn lemma_fill(
    b: book::BookSides,
    side: Seq<(Binary64, Binary64)>,
    wanted: Binary64,
    is_buy: bool,
    mid: Binary64,
)
    requires
        is_met_by(side, b, is_buy),
        has_moderate_levels(side),
        is_moderate(wanted),
        side.len() <= SUM_LIMIT,
        side.len() <= usize::MAX,
    ensures
        ({
            let x = impact::estimated_impact(b, wanted, is_buy, mid);
            let n = x.levels_consumed as nat;
            let d = PRECISION_LIMIT as int;
            let one = precision::one();
            let w = wanted.size() * one;
            &&& n <= side.len()
            &&& n > 0 ==> x.worst_fill_price == side[n - 1].0
            &&& is_amount(x.total_qty_filled)
            &&& is_amount(x.total_notional)
            &&& !x.fully_filled ==> {
                &&& n == side.len()
                &&& x.total_notional.size() < wanted.size()
                &&& is_near(
                    x.total_qty_filled.size() as int,
                    quantity_of(side, n) as int,
                    2 * n as int + 2,
                )
                &&& is_near(
                    (x.total_notional.size() * one) as int,
                    worth_of(side, n) as int,
                    2 * n as int + 2,
                )
            }
            &&& x.fully_filled ==> {
                let p = x.worst_fill_price.size();
                let k = (n - 1) as nat;
                &&& n > 0
                &&& is_near(x.total_notional.size() as int, wanted.size() as int, 3)
                &&& (d - 2 * n) * worth_of(side, k) < d * w
                &&& d * w <= (d + 2 * n + 2) * worth_of(side, n)
                &&& is_near_by(
                    x.total_qty_filled.size() * p + worth_of(side, k),
                    quantity_of(side, k) * p + w,
                    4 * n as int + 20,
                    quantity_of(side, k) * p + w,
                )
            }
        }),
{
    let f = slippage::state_at(side, side.len(), wanted);
    lemma_outcome(b, side, wanted, is_buy, mid);
    lemma_outcome_on_side(side, wanted);
    slippage::lemma_totals(f, mid);
    lemma_counts(f, mid);
}

proof fn lemma_counts(f: Fill, mid: Binary64)
    ensures
        f.levels <= usize::MAX ==> impact::impact_of(f, mid).levels_consumed == f.levels,
        impact::impact_of(f, mid).worst_fill_price == f.worst,
        impact::impact_of(f, mid).fully_filled == f.complete,
{
}

/// What holds of an order after a side that it was not filled by.
spec fn is_all_taken(side: Seq<(Binary64, Binary64)>, f: Fill, wanted: Binary64) -> bool {
    &&& f.levels == side.len()
    &&& f.notional.size() < wanted.size()
    &&& is_near(f.qty.size() as int, quantity_of(side, f.levels) as int, 2 * f.levels as int + 2)
    &&& is_near(
        (f.notional.size() * precision::one()) as int,
        worth_of(side, f.levels) as int,
        2 * f.levels as int + 2,
    )
}

/// What holds of an order that a level of a side filled.
spec fn is_filled(side: Seq<(Binary64, Binary64)>, f: Fill, wanted: Binary64) -> bool {
    let n = f.levels;
    let k = (n - 1) as nat;
    let d = PRECISION_LIMIT as int;
    let w = wanted.size() * precision::one();
    let p = f.worst.size();
    &&& n > 0
    &&& is_near(f.notional.size() as int, wanted.size() as int, 3)
    &&& (d - 2 * n) * worth_of(side, k) < d * w
    &&& d * w <= (d + 2 * n + 2) * worth_of(side, n)
    &&& is_near_by(
        f.qty.size() * p + worth_of(side, k),
        quantity_of(side, k) * p + w,
        4 * n as int + 20,
        quantity_of(side, k) * p + w,
    )
}

proof fn lemma_filled_outcome(side: Seq<(Binary64, Binary64)>, k: nat, wanted: Binary64)
    requires
        has_moderate_levels(side),
        is_moderate(wanted),
        k < side.len() <= SUM_LIMIT,
        !slippage::state_at(side, k, wanted).complete,
        slippage::state_at(side, k + 1, wanted).complete,
    ensures
        ({
            let f = slippage::state_at(side, k + 1, wanted);
            &&& f.levels == k + 1
            &&& f.worst == side[k as int].0
            &&& is_between(f.qty, 872, 1278)
            &&& is_between(f.notional, 872, 1215)
            &&& is_filled(side, f, wanted)
        }),
{
    slippage::lemma_next_state(side, k, wanted);
    lemma_all_taken(side, k, wanted);
    lemma_sums_between(side, k);
    assert(is_moderate(side[k as int].0) && is_moderate(side[k as int].1));
    assert(k * pow2(1174) <= SUM_LIMIT * pow2(1174)) by (nonlinear_arith)
        requires
            k <= SUM_LIMIT,
    ;
    lemma_level_fills(
        slippage::state_at(side, k, wanted),
        side[k as int],
        wanted,
        quantity_of(side, k),
        worth_of(side, k),
        2 * k as int + 2,
    );
    lemma_near_wanted(slippage::state_at(side, k + 1, wanted).notional, wanted);
}

proof fn lemma_outcome_on_side(side: Seq<(Binary64, Binary64)>, wanted: Binary64)
    requires
        has_moderate_levels(side),
        is_moderate(wanted),
        side.len() <= SUM_LIMIT,
    ensures
        ({
            let f = slippage::state_at(side, side.len(), wanted);
            &&& f.levels <= side.len()
            &&& f.levels > 0 ==> f.worst == side[f.levels - 1].0
            &&& is_amount(f.qty)
            &&& is_amount(f.notional)
            &&& f.levels > 0 ==> is_between(f.qty, 872, 1278)
            &&& f.levels > 0 ==> is_between(f.notional, 872, 1215)
            &&& side.len() > 0 ==> f.levels > 0
            &&& !f.complete ==> is_all_taken(side, f, wanted)
            &&& f.complete ==> is_filled(side, f, wanted)
        }),
{
    let n = side.len();
    let f = slippage::state_at(side, n, wanted);
    if !f.complete {
        lemma_sums_between(side, n);
        lemma_all_taken(side, n, wanted);
        lemma_paid_less(f, wanted);
        if n > 0 {
            lemma_totals_between(f, quantity_of(side, n), worth_of(side, n), n, wanted);
        }
    } else {
        let k = slippage::lemma_filling_level(side, n, wanted);
        lemma_filled_outcome(side, k, wanted);
        lemma_state_stays(side, k + 1, n, wanted);
    }
}

proof fn lemma_state_stays(side: Seq<(Binary64, Binary64)>, n: nat, m: nat, wanted: Binary64)
    requires
        n <= m,
        slippage::state_at(side, n, wanted).complete,
    ensures
        slippage::state_at(side, m, wanted) == slippage::state_at(side, n, wanted),
{
    reveal(slippage::state_at);
    impact::lemma_filled_stays(side, n, m, wanted);
}

/// The state that an estimate is made of.
proof fn lemma_outcome(
    b: book::BookSides,
    side: Seq<(Binary64, Binary64)>,
    wanted: Binary64,
    is_buy: bool,
    mid: Binary64,
)
    requires
        is_met_by(side, b, is_buy),
        is_moderate(wanted),
    ensures
        impact::estimated_impact(b, wanted, is_buy, mid) == impact::impact_of(
            slippage::state_at(side, side.len(), wanted),
            mid,
        ),
{
    let met = impact::opposite_side(b, is_buy);
    assert(met =~= side);
    lemma_moderate(wanted, 974, 1174);
    slippage::lemma_more_than_nothing(wanted);
    reveal(slippage::state_at);
}

proof fn lemma_paid_less(f: Fill, wanted: Binary64)
    requires
        impact::is_under_way(f, wanted),
    ensures
        f.notional.size() < wanted.size(),
{
    precision::lemma_size_ordered(f.notional, wanted);
    monotone::lemma_number_is_exact(f.notional);
    monotone::lemma_number_is_exact(wanted);
}

proof fn lemma_near_wanted(x: Binary64, wanted: Binary64)
    requires
        is_amount(x),
        is_moderate(wanted),
        is_near(x.size() as int, wanted.size() as int, 3),
    ensures
        is_between(x, 872, 1215),
{
    lemma_pow2_unfold(974);
    rounding::lemma_pow2_monotone(872, 973);
    lemma_pow2_unfold(1175);
    rounding::lemma_pow2_monotone(1175, 1215);
}

proof fn lemma_totals_between(f: Fill, quantity: nat, worth: nat, n: nat, wanted: Binary64)
    requires
        is_amount(f.qty),
        is_amount(f.notional),
        0 < n <= SUM_LIMIT,
        pow2(974) <= quantity <= n * pow2(1174),
        pow2(1948) <= worth,
        is_moderate(wanted),
        f.notional.size() < wanted.size(),
        is_near(f.qty.size() as int, quantity as int, 2 * n as int + 2),
        is_near((f.notional.size() * precision::one()) as int, worth as int, 2 * n as int + 2),
    ensures
        is_between(f.qty, 872, 1278),
        is_between(f.notional, 872, 1215),
{
    let d = PRECISION_LIMIT as int;
    let one = precision::one();
    let e = 2 * n as int + 2;
    let q = f.qty.size();
    let v = f.notional.size() * one;
    assert(q <= 2 * quantity && 2 * q >= quantity && 2 * v >= worth) by (nonlinear_arith)
        requires
            (d - e) * quantity <= d * q <= (d + e) * quantity,
            (d - e) * worth <= d * v,
            0 <= e,
            2 * e <= d,
            quantity >= 0,
            worth >= 0,
            d > 0,
    {
        assert((d + e) * quantity <= (2 * d) * quantity);
        assert((d - e) * quantity == d * quantity - e * quantity);
        assert(2 * (e * quantity) <= d * quantity);
        assert((d - e) * worth == d * worth - e * worth);
        assert(2 * (e * worth) <= d * worth);
    }
    assert(n * pow2(1174) <= SUM_LIMIT * pow2(1174)) by (nonlinear_arith)
        requires
            n <= SUM_LIMIT,
    ;
    lemma2_to64();
    lemma2_to64_rest();
    lemma_pow2_adds(41, 1174);
    lemma_pow2_unfold(974);
    rounding::lemma_pow2_monotone(872, 973);
    rounding::lemma_pow2_monotone(1215, 1278);
    assert(2 * (SUM_LIMIT * pow2(1174)) == pow2(1215)) by (nonlinear_arith)
        requires
            pow2(1215) == (2 * SUM_LIMIT) * pow2(1174),
    ;
    lemma_pow2_adds(874, 1074);
    lemma_pow2_unfold(874);
    lemma_pow2_unfold(873);
    lemma_pow2_pos(1074);
    assert(f.notional.size() >= pow2(873)) by (nonlinear_arith)
        requires
            2 * (f.notional.size() * one) >= pow2(1948),
            pow2(1948) == pow2(874) * pow2(1074),
            one == pow2(1074),
            pow2(874) == 2 * pow2(873),
            one > 0,
    {
        if f.notional.size() < pow2(873) {
            assert(f.notional.size() * one < pow2(873) * one);
        }
    }
    rounding::lemma_pow2_monotone(1174, 1215);
}

/// What the prices of an estimate say, for amounts between `2^-100` and `2^100`,
/// up to rounding: the average price times the quantity is what was paid, the
/// slippage times the reference price is a hundred times the distance of the
/// average from it, and the slippage in hundredths of a percent is a hundred
/// times that in percent.
pub proof fn lemma_slippage(
    b: book::BookSides,
    side: Seq<(Binary64, Binary64)>,
    wanted: Binary64,
    is_buy: bool,
    mid: Binary64,
)
    requires
        is_met_by(side, b, is_buy),
        has_moderate_levels(side),
        is_moderate(wanted),
        is_moderate(mid),
        0 < side.len() <= SUM_LIMIT,
    ensures
        ({
            let x = impact::estimated_impact(b, wanted, is_buy, mid);
            let one = precision::one();
            &&& is_amount(x.avg_fill_price) && !x.avg_fill_price.zero()
            &&& is_near(
                (x.avg_fill_price.size() * x.total_qty_filled.size()) as int,
                (x.total_notional.size() * one) as int,
                2,
            )
            &&& is_amount(x.slippage_pct)
            &&& is_near(
                (x.slippage_pct.size() * mid.size()) as int,
                (100 * (gap(x.avg_fill_price, mid) * one)) as int,
                6,
            )
            &&& is_amount(x.slippage_bps)
            &&& is_near(x.slippage_bps.size() as int, (100 * x.slippage_pct.size()) as int, 1)
        }),
{
    let f = slippage::state_at(side, side.len(), wanted);
    lemma_outcome(b, side, wanted, is_buy, mid);
    lemma_outcome_on_side(side, wanted);
    slippage::lemma_totals(f, mid);
    lemma_prices_of(f, mid);
    lemma_moderate(impact::impact_of(f, mid).avg_fill_price, 667, 1418);
}

/// Without a reference price, or without levels, there is no slippage; an order
/// for nothing does nothing.
pub proof fn lemma_no_slippage(
    b: book::BookSides,
    wanted: Binary64,
    is_buy: bool,
    mid: Binary64,
)
    ensures
        ({
            let x = impact::estimated_impact(b, wanted, is_buy, mid);
            &&& mid.nan() || mid.negative() || mid.magnitude() == 0 ==> x.slippage_pct.bits == 0
            &&& !wanted.nan() && (wanted.negative() || wanted.magnitude() == 0)
                ==> x.levels_consumed == 0 && x.total_qty_filled.bits == 0
                && x.total_notional.bits == 0 && x.avg_fill_price.bits == 0 && !x.fully_filled
        }),
{
}

/// A level without a price or a quantity above zero makes no difference.
pub proof fn lemma_empty_level_is_skipped(
    side: Seq<(Binary64, Binary64)>,
    at: int,
    level: (Binary64, Binary64),
    wanted: Binary64,
)
    requires
        0 <= at <= side.len(),
        (level.0.finite() && level.0.units() <= 0) || (level.1.finite() && level.1.units() <= 0),
    ensures
        impact::filled_by(side.insert(at, level), side.len() + 1, wanted) == impact::filled_by(
            side,
            side.len(),
            wanted,
        ),
{
    binary64::lemma_parts(level.0);
    binary64::lemma_parts(level.1);
    assert(!impact::is_tradable(level));
    lemma_skipped_so_far(side, at, level, wanted, side.len());
}

proof fn lemma_skipped_so_far(
    side: Seq<(Binary64, Binary64)>,
    at: int,
    level: (Binary64, Binary64),
    wanted: Binary64,
    n: nat,
)
    requires
        0 <= at <= n <= side.len(),
        !impact::is_tradable(level),
    ensures
        impact::filled_by(side.insert(at, level), n + 1, wanted) == impact::filled_by(
            side,
            n,
            wanted,
        ),
    decreases n,
{
    let longer = side.insert(at, level);
    if n == at {
        lemma_same_so_far(side, longer, n, wanted);
        assert(longer[n as int] == level);
    } else {
        lemma_skipped_so_far(side, at, level, wanted, (n - 1) as nat);
        assert(longer[n as int] == side[n - 1]);
    }
}

proof fn lemma_same_so_far(
    s: Seq<(Binary64, Binary64)>,
    t: Seq<(Binary64, Binary64)>,
    n: nat,
    wanted: Binary64,
)
    requires
        n <= s.len(),
        n <= t.len(),
        forall|i: int| 0 <= i < n ==> #[trigger] s[i] == t[i],
    ensures
        impact::filled_by(s, n, wanted) == impact::filled_by(t, n, wanted),
    decreases n,
{
    if n > 0 {
        lemma_same_so_far(s, t, (n - 1) as nat, wanted);
        assert(s[n - 1] == t[n - 1]);
    }
}

} // verus!
