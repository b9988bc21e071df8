//! Laws of the figures that the view shows: what they say of the numbers they
//! are made of, up to rounding.

use crate::binary64;
use crate::binary64::{Binary64, SIGN_WEIGHT};
use crate::book;
use crate::book::{BookSides, HUNDRED_BITS};
use crate::buckets;
use crate::estimates;
use crate::estimates::{gap, is_between, is_moderate, quantity_of};
use crate::monotone;
use crate::monotone::is_amount;
use crate::nearness;
use crate::nearness::{is_near, is_ordinary};
use crate::precision;
use crate::rounding;
use crate::rounding::PRECISION_LIMIT;
use crate::screen;
use vstd::arithmetic::div_mod::*;
use vstd::arithmetic::mul::*;
use vstd::arithmetic::power2::*;
use vstd::prelude::*;

verus! {

/// A ratio, and a hundred times it.
proof fn lemma_hundred_times_ratio(d: Binary64, m: Binary64)
    requires
        is_between(d, 900, 1300),
        is_between(m, 900, 1300),
    ensures
        ({
            let r = Binary64::quotient(d, m);
            let y = Binary64::product(r, Binary64 { bits: HUNDRED_BITS });
            &&& is_between(r, 672, 1475)
            &&& is_near((r.size() * m.size()) as int, (d.size() * precision::one()) as int, 2)
            &&& is_ordinary(y)
            &&& is_near(
                (y.size() * m.size()) as int,
                (100 * (d.size() * precision::one())) as int,
                5,
            )
        }),
{
    let one = precision::one();
    let r = Binary64::quotient(d, m);
    let hundred = Binary64 { bits: HUNDRED_BITS };
    let y = Binary64::product(r, hundred);
    lemma_ratio_between(d, m);
    estimates::lemma_hundred_size();
    lemma_pow2_pos(1074);
    let top = r.size() * hundred.size();
    let v = r.size();
    assert(top == 100 * (v * one)) by (nonlinear_arith)
        requires
            top == v * hundred.size(),
            hundred.size() == 100 * one,
    ;
    lemma_pow2_adds(7, 1475);
    lemma2_to64();
    assert(pow2(672) * one <= top <= pow2(1482) * one) by (nonlinear_arith)
        requires
            top == 100 * (v * one),
            pow2(672) <= v <= pow2(1475),
            pow2(1482) == 128 * pow2(1475),
            one > 0,
    {
        assert(pow2(672) * one <= v * one);
        assert(v * one <= pow2(1475) * one);
    }
    estimates::lemma_fraction_between(top, one, 672, 1482);
    nearness::lemma_product_is_near(r, hundred);
    lemma_hundred_chain(
        y.size() as int,
        v as int,
        m.size() as int,
        d.size() as int,
        one as int,
    );
}

proof fn lemma_hundred_chain(y: int, v: int, m: int, d: int, one: int)
    requires
        0 <= y && 0 <= v && 0 <= m && 0 <= d && 0 < one,
        is_near(y * one, 100 * (v * one), 2),
        is_near(v * m, d * one, 2),
    ensures
        is_near(y * m, 100 * (d * one), 5),
{
    let t = PRECISION_LIMIT as int;
    assert((t - 2) * (100 * v) <= t * y <= (t + 2) * (100 * v)) by (nonlinear_arith)
        requires
            (t - 2) * (100 * (v * one)) <= t * (y * one) <= (t + 2) * (100 * (v * one)),
            one > 0,
    {
        assert((t - 2) * (100 * (v * one)) == ((t - 2) * (100 * v)) * one);
        assert((t + 2) * (100 * (v * one)) == ((t + 2) * (100 * v)) * one);
        assert(t * (y * one) == (t * y) * one);
        if (t - 2) * (100 * v) > t * y {
            assert(((t - 2) * (100 * v)) * one > (t * y) * one);
        }
        if t * y > (t + 2) * (100 * v) {
            assert((t * y) * one > ((t + 2) * (100 * v)) * one);
        }
    }
    let ym = y * m;
    let vm = v * m;
    assert((t - 2) * (100 * vm) <= t * ym <= (t + 2) * (100 * vm)) by (nonlinear_arith)
        requires
            (t - 2) * (100 * v) <= t * y <= (t + 2) * (100 * v),
            ym == y * m,
            vm == v * m,
            m >= 0,
    {
        assert(((t - 2) * (100 * v)) * m <= (t * y) * m);
        assert((t * y) * m <= ((t + 2) * (100 * v)) * m);
    }
    assert(d * one >= 0) by (nonlinear_arith)
        requires
            d >= 0,
            one > 0,
    ;
}

proof fn lemma_ratio_between(d: Binary64, m: Binary64)
    requires
        is_between(d, 900, 1300),
        is_between(m, 900, 1300),
    ensures
        is_between(Binary64::quotient(d, m), 672, 1475),
        is_ordinary(Binary64::quotient(d, m)),
        is_near(
            (Binary64::quotient(d, m).size() * m.size()) as int,
            (d.size() * precision::one()) as int,
            2,
        ),
{
    let one = precision::one();
    let top = d.size() * one;
    let b = m.size();
    estimates::lemma_moderate(d, 900, 1300);
    estimates::lemma_moderate(m, 900, 1300);
    lemma_pow2_adds(900, 1074);
    lemma_pow2_adds(674, 1300);
    lemma_pow2_adds(1300, 1074);
    lemma_pow2_adds(1474, 900);
    assert(pow2(674) * b <= top) by (nonlinear_arith)
        requires
            top == d.size() * one,
            one == pow2(1074),
            d.size() >= pow2(900),
            b <= pow2(1300),
            pow2(1974) == pow2(900) * pow2(1074),
            pow2(1974) == pow2(674) * pow2(1300),
    {
        assert(top >= pow2(900) * pow2(1074));
        assert(pow2(674) * b <= pow2(674) * pow2(1300));
    }
    assert(top <= pow2(1474) * b) by (nonlinear_arith)
        requires
            top == d.size() * one,
            one == pow2(1074),
            d.size() <= pow2(1300),
            b >= pow2(900),
            pow2(2374) == pow2(1300) * pow2(1074),
            pow2(2374) == pow2(1474) * pow2(900),
    {
        assert(top <= pow2(1300) * pow2(1074));
        assert(pow2(1474) * b >= pow2(1474) * pow2(900));
    }
    estimates::lemma_fraction_between(top, b, 674, 1474);
    lemma_pow2_unfold(673);
    nearness::lemma_quotient_is_near(d, m);
}

/// The distance of two moderate numbers that differ.
proof fn lemma_distance_between(x: Binary64, y: Binary64)
    requires
        is_moderate(x) || is_moderate(y),
        is_moderate(x) || x.bits == 0,
        is_moderate(y) || y.bits == 0,
        y.magnitude() < x.magnitude(),
    ensures
        is_between(Binary64::difference(x, y), 918, 1176),
        is_near(Binary64::difference(x, y).size() as int, gap(x, y) as int, 1),
        gap(x, y) > 0,
{
    let d = Binary64::difference(x, y);
    lemma_amount(x);
    lemma_amount(y);
    assert(is_moderate(x)) by {
        if x.bits == 0 {
            binary64::lemma_parts(x);
        }
    }
    nearness::lemma_difference_is_near(x, y);
    estimates::lemma_gap_is_wide(y, x);
    precision::lemma_size_ordered(y, x);
    assert(gap(x, y) == gap(y, x));
    let g = gap(x, y);
    lemma_pow2_adds(54, 920);
    lemma2_to64_rest();
    assert(pow2(54) == 0x40_0000_0000_0000);
    assert(g >= pow2(920));
    lemma_pow2_unfold(920);
    lemma_pow2_unfold(919);
    lemma_pow2_unfold(1175);
    lemma_pow2_unfold(1176);
    assert(g <= pow2(1174));
}

proof fn lemma_amount(x: Binary64)
    requires
        is_moderate(x) || x.bits == 0,
    ensures
        is_amount(x),
        x.bits == 0 ==> x.size() == 0,
{
    if x.bits == 0 {
        binary64::lemma_parts(x);
    }
}

/// The sum of two moderate numbers, one of which may be zero.
proof fn lemma_sum_between(x: Binary64, y: Binary64)
    requires
        is_moderate(x) || is_moderate(y),
        is_moderate(x) || x.bits == 0,
        is_moderate(y) || y.bits == 0,
    ensures
        is_between(Binary64::sum(x, y), 973, 1176),
        is_near(Binary64::sum(x, y).size() as int, (x.size() + y.size()) as int, 1),
{
    lemma_amount(x);
    lemma_amount(y);
    let n = x.size() + y.size();
    lemma_pow2_unfold(1175);
    lemma_pow2_unfold(1176);
    lemma_pow2_unfold(974);
    lemma_pow2_strictly_increases(1175, 2097);
    lemma_pow2_pos(1174);
    monotone::lemma_sum_of_amounts(x, y);
    assert(n / 1 == n);
    precision::lemma_nearest_finite(n, 1);
    nearness::lemma_sum_is_near(x, y);
}

/// The imbalance of two totals, times both together, is a hundred times their
/// distance; it is below zero where the asks prevail, and zero where neither
/// does.
pub proof fn lemma_imbalance(bids: Binary64, asks: Binary64)
    requires
        is_moderate(bids) || is_moderate(asks),
        is_moderate(bids) || bids.bits == 0,
        is_moderate(asks) || asks.bits == 0,
    ensures
        ({
            let x = screen::imbalance_of(bids, asks);
            &&& x.finite()
            &&& is_near(
                (x.size() * (bids.size() + asks.size())) as int,
                (100 * (gap(bids, asks) * precision::one())) as int,
                8,
            )
            &&& bids.size() > asks.size() ==> !x.negative() && x.size() > 0
            &&& bids.size() < asks.size() ==> x.negative() && x.size() > 0
            &&& bids.size() == asks.size() ==> x.size() == 0
        }),
{
    let x = screen::imbalance_of(bids, asks);
    let both = Binary64::sum(bids, asks);
    lemma_amount(bids);
    lemma_amount(asks);
    lemma_sum_between(bids, asks);
    estimates::lemma_moderate(both, 973, 1176);
    crate::slippage::lemma_more_than_nothing(both);
    rounding::lemma_pow2_monotone(900, 973);
    rounding::lemma_pow2_monotone(900, 918);
    rounding::lemma_pow2_monotone(1176, 1300);
    lemma_sizes(bids, asks);
    let hundred = Binary64 { bits: HUNDRED_BITS };
    if asks.magnitude() < bids.magnitude() {
        lemma_distance_between(bids, asks);
        let d = Binary64::difference(bids, asks);
        lemma_hundred_times_ratio(d, both);
        lemma_imbalance_chain(x, d, both, bids, asks);
    } else if bids.magnitude() < asks.magnitude() {
        lemma_distance_between(asks, bids);
        let d = Binary64::difference(asks, bids);
        lemma_hundred_times_ratio(d, both);
        lemma_difference_negated(bids, asks);
        estimates::lemma_moderate(d, 918, 1176);
        lemma_ratio_between(d, both);
        lemma_negated_percent(d, both);
        let y = Binary64::product(Binary64::quotient(d, both), hundred);
        assert(gap(bids, asks) == gap(asks, bids));
        lemma_imbalance_chain(y, d, both, bids, asks);
    } else {
        let d = Binary64::difference(bids, asks);
        monotone::lemma_difference_of_amounts(bids, asks);
        nearness::lemma_difference_is_near(bids, asks);
        estimates::lemma_exact_zero(d, both);
        lemma_zero_product(x, bids, asks);
    }
}

proof fn lemma_zero_product(x: Binary64, bids: Binary64, asks: Binary64)
    requires
        x.size() == 0,
        bids.size() == asks.size(),
    ensures
        x.size() * (bids.size() + asks.size()) == 0,
        gap(bids, asks) * precision::one() == 0,
{
    lemma_mul_basics((bids.size() + asks.size()) as int);
    lemma_mul_basics(precision::one() as int);
}

/// Sizes are ordered as magnitudes are.
proof fn lemma_sizes(x: Binary64, y: Binary64)
    requires
        is_amount(x),
        is_amount(y),
    ensures
        x.magnitude() < y.magnitude() <==> x.size() < y.size(),
        x.magnitude() == y.magnitude() <==> x.size() == y.size(),
{
    monotone::lemma_number_is_exact(x);
    monotone::lemma_number_is_exact(y);
    if x.magnitude() <= y.magnitude() {
        precision::lemma_size_ordered(x, y);
    } else {
        precision::lemma_size_ordered(y, x);
    }
}

proof fn lemma_imbalance_chain(
    y: Binary64,
    d: Binary64,
    both: Binary64,
    bids: Binary64,
    asks: Binary64,
)
    requires
        is_ordinary(y),
        is_near(
            (y.size() * both.size()) as int,
            (100 * (d.size() * precision::one())) as int,
            5,
        ),
        is_near(both.size() as int, (bids.size() + asks.size()) as int, 1),
        is_near(d.size() as int, gap(bids, asks) as int, 1),
    ensures
        is_near(
            (y.size() * (bids.size() + asks.size())) as int,
            (100 * (gap(bids, asks) * precision::one())) as int,
            8,
        ),
        y.size() > 0,
{
    let t = PRECISION_LIMIT as int;
    let one = precision::one();
    let s = bids.size() + asks.size();
    let v = y.size();
    let g = gap(bids, asks);
    let yb = v * both.size();
    let ys = v * s;
    let dn = d.size() * one;
    let gn = g * one;
    nearness::lemma_ordinary_size(y);
    assert((t - 1) * ys <= t * yb <= (t + 1) * ys) by (nonlinear_arith)
        requires
            (t - 1) * s <= t * both.size() <= (t + 1) * s,
            yb == v * both.size(),
            ys == v * s,
            v >= 0,
    {
        assert(v * ((t - 1) * s) <= v * (t * both.size()));
        assert(v * (t * both.size()) <= v * ((t + 1) * s));
    }
    assert((t - 1) * gn <= t * dn <= (t + 1) * gn) by (nonlinear_arith)
        requires
            (t - 1) * g <= t * d.size() <= (t + 1) * g,
            dn == d.size() * one,
            gn == g * one,
            one >= 0,
    {
        assert(((t - 1) * g) * one <= (t * d.size()) * one);
        assert((t * d.size()) * one <= ((t + 1) * g) * one);
    }
    assert(ys >= 0 && gn >= 0) by (nonlinear_arith)
        requires
            ys == v * s,
            gn == g * one,
            v >= 0,
            s >= 0,
            g >= 0,
            one >= 0,
    ;
}

/// A difference turned round is the negative one.
proof fn lemma_difference_negated(x: Binary64, y: Binary64)
    requires
        is_amount(x),
        is_amount(y),
        x.magnitude() < y.magnitude(),
    ensures
        Binary64::difference(x, y) == Binary64::opposite(Binary64::difference(y, x)),
        !Binary64::difference(y, x).negative(),
{
    let u = Binary64::opposite(x);
    let v = Binary64::opposite(y);
    precision::lemma_size_ordered(x, y);
    monotone::lemma_number_is_exact(x);
    monotone::lemma_number_is_exact(y);
    assert(x.size() != y.size());
    assert(u.magnitude() == x.magnitude() && v.magnitude() == y.magnitude());
    assert(u.negative() && v.negative());
    assert(u.units() == -(x.size() as int) && v.units() == -(y.size() as int));
    let m = rounding::nearest_magnitude((y.size() - x.size()) as nat, 1);
    assert(Binary64::difference(y, x) == Binary64::assemble(false, m));
    assert(Binary64::difference(x, y) == Binary64::assemble(true, m));
    monotone::lemma_difference_of_amounts(y, x);
}

/// The percentage of a negative number is the negative one.
proof fn lemma_negated_percent(d: Binary64, both: Binary64)
    requires
        is_ordinary(d),
        is_ordinary(both),
        is_ordinary(Binary64::quotient(d, both)),
        is_ordinary(
            Binary64::product(Binary64::quotient(d, both), Binary64 { bits: HUNDRED_BITS }),
        ),
    ensures
        ({
            let hundred = Binary64 { bits: HUNDRED_BITS };
            let y = Binary64::product(Binary64::quotient(d, both), hundred);
            let x = Binary64::product(Binary64::quotient(Binary64::opposite(d), both), hundred);
            x.finite() && x.negative() && x.magnitude() == y.magnitude() && x.size() == y.size()
        }),
{
    let hundred = Binary64 { bits: HUNDRED_BITS };
    let e = Binary64::opposite(d);
    let r = Binary64::quotient(d, both);
    let q = Binary64::quotient(e, both);
    estimates::lemma_hundred_size();
    assert(e.magnitude() == d.magnitude() && e.negative());
    assert(e.size() == d.size());
    assert(q.magnitude() == r.magnitude() && q.negative());
    assert(q.size() == r.size());
}

/// The prices at the top of a book: twice the middle is the sum of both, the
/// spread is their distance, and its percentage times the middle is a hundred
/// times it.
pub proof fn lemma_quote(b: BookSides)
    requires
        b.bids.len() > 0,
        b.asks.len() > 0,
        is_moderate(b.bids.last().0),
        is_moderate(b.asks[0].0),
        b.bids.last().0.size() <= b.asks[0].0.size(),
    ensures
        ({
            let q = screen::quote_of(b);
            let bid = b.bids.last().0;
            let ask = b.asks[0].0;
            &&& is_amount(q.mid_price) && is_amount(q.spread) && is_amount(q.spread_pct)
            &&& is_near((2 * q.mid_price.size()) as int, (bid.size() + ask.size()) as int, 4)
            &&& is_near(q.spread.size() as int, ask.size() - bid.size(), 1)
            &&& is_near(
                (q.spread_pct.size() * q.mid_price.size()) as int,
                (100 * (q.spread.size() * precision::one())) as int,
                5,
            )
        }),
{
    let q = screen::quote_of(b);
    let bid = b.bids.last().0;
    let ask = b.asks[0].0;
    let mid = q.mid_price;
    let one = precision::one();
    lemma_amount(bid);
    lemma_amount(ask);
    lemma_sizes(bid, ask);
    lemma_sum_between(bid, ask);
    lemma_half(Binary64::sum(bid, ask));
    estimates::lemma_moderate(mid, 971, 1176);
    crate::slippage::lemma_more_than_nothing(mid);
    rounding::lemma_pow2_monotone(900, 971);
    rounding::lemma_pow2_monotone(900, 918);
    rounding::lemma_pow2_monotone(1176, 1300);
    nearness::lemma_difference_is_near(ask, bid);
    if bid.size() < ask.size() {
        lemma_distance_between(ask, bid);
        lemma_hundred_times_ratio(q.spread, mid);
        nearness::lemma_ordinary_size(q.spread_pct);
    } else {
        estimates::lemma_exact_zero(q.spread, mid);
        assert(q.spread.size() == 0);
        lemma_mul_basics(mid.size() as int);
        lemma_mul_basics(one as int);
        binary64::lemma_parts(q.spread_pct);
    }
}

/// Half of a number.
proof fn lemma_half(x: Binary64)
    requires
        is_between(x, 973, 1176),
    ensures
        ({
            let y = Binary64::quotient(x, Binary64 { bits: screen::TWO_BITS });
            &&& is_between(y, 971, 1176)
            &&& is_near((2 * y.size()) as int, x.size() as int, 2)
        }),
{
    let one = precision::one();
    let two = Binary64 { bits: screen::TWO_BITS };
    let y = Binary64::quotient(x, two);
    screen::lemma_two();
    precision::lemma_small_integer(2);
    estimates::lemma_moderate(x, 973, 1176);
    assert(two == Binary64::of_integer(2));
    assert(two.size() == 2 * one);
    lemma_pow2_pos(1074);
    binary64::lemma_parts(two);
    let top = x.size() * one;
    let d = two.size();
    lemma_pow2_unfold(973);
    lemma_pow2_unfold(1176);
    assert(pow2(972) * d <= top <= pow2(1175) * d) by (nonlinear_arith)
        requires
            top == x.size() * one,
            d == 2 * one,
            pow2(973) == 2 * pow2(972),
            pow2(1176) == 2 * pow2(1175),
            pow2(973) <= x.size() <= pow2(1176),
            one > 0,
    {
        assert(pow2(972) * d == pow2(973) * one);
        assert(pow2(1175) * d == pow2(1176) * one);
        assert(pow2(973) * one <= x.size() * one);
        assert(x.size() * one <= pow2(1176) * one);
    }
    estimates::lemma_fraction_between(top, d, 972, 1175);
    nearness::lemma_quotient_is_near(x, two);
    let t = PRECISION_LIMIT as int;
    let v = y.size();
    let s = x.size();
    assert((t - 2) * s <= t * (2 * v) <= (t + 2) * s) by (nonlinear_arith)
        requires
            (t - 2) * (s * one) <= t * (v * d) <= (t + 2) * (s * one),
            d == 2 * one,
            one > 0,
    {
        assert(t * (v * d) == (t * (2 * v)) * one);
        assert((t - 2) * (s * one) == ((t - 2) * s) * one);
        assert((t + 2) * (s * one) == ((t + 2) * s) * one);
        if (t - 2) * s > t * (2 * v) {
            assert(((t - 2) * s) * one > (t * (2 * v)) * one);
        }
        if t * (2 * v) > (t + 2) * s {
            assert((t * (2 * v)) * one > ((t + 2) * s) * one);
        }
    }
}

/// Whether all quantities of a list are moderate.
pub open spec fn has_moderate_quantities(list: Seq<(Binary64, Binary64)>) -> bool {
    forall|i: int| 0 <= i < list.len() ==> is_moderate((#[trigger] list[i]).1)
}

/// A running sum is the sum of the quantities so far, up to two of `2^53` parts
/// for each.
pub proof fn lemma_running_sum(list: Seq<(Binary64, Binary64)>, n: nat)
    requires
        has_moderate_quantities(list),
        n <= list.len() <= estimates::SUM_LIMIT,
    ensures
        ({
            let x = screen::running_sum(list, Binary64 { bits: 0 }, n);
            &&& is_amount(x)
            &&& is_near(x.size() as int, quantity_of(list, n) as int, 2 * n as int + 2)
            &&& n > 0 ==> screen::running_sum(list, Binary64 { bits: SIGN_WEIGHT }, n) == x
        }),
        quantity_of(list, n) <= n * pow2(1174),
    decreases n,
{
    let zero = Binary64 { bits: 0 };
    let minus = Binary64 { bits: SIGN_WEIGHT };
    binary64::lemma_parts(zero);
    binary64::lemma_parts(minus);
    lemma_amount(zero);
    if n == 0 {
        lemma_mul_basics(pow2(1174) as int);
        assert(screen::running_sum(list, zero, 0) == zero);
        assert(quantity_of(list, 0) == 0);
        assert(zero.size() == 0);
    } else {
        let front = (n - 1) as nat;
        let x = screen::running_sum(list, zero, front);
        let y = list[n - 1].1;
        lemma_running_sum(list, front);
        assert(is_moderate(list[n - 1].1));
        estimates::lemma_moderate(y, 974, 1174);
        let parts = 2 * front as int + 2;
        estimates::lemma_quantity_finite(x, y, quantity_of(list, front), front, parts);
        nearness::lemma_sum_is_near(x, y);
        estimates::lemma_near_sum(
            Binary64::sum(x, y).size() as int,
            x.size() as int,
            y.size() as int,
            quantity_of(list, front) as int,
            y.size() as int,
            2 * front as int + 2,
        );
        assert(n * pow2(1174) == front * pow2(1174) + pow2(1174)) by (nonlinear_arith)
            requires
                n == front + 1,
        ;
        if n == 1 {
            assert(screen::running_sum(list, zero, 0) == zero);
            assert(screen::running_sum(list, minus, 0) == minus);
            assert(minus.units() == 0 && zero.units() == 0);
            assert(Binary64::sum(minus, y) == Binary64::sum(zero, y));
        }
    }
}

/// A bar takes the share of the full width that its quantity has in the deepest
/// one, cut to a whole number.
pub proof fn lemma_share(qty: Binary64, deepest: Binary64, full: nat)
    requires
        is_moderate(qty),
        is_moderate(deepest),
        qty.size() <= deepest.size(),
        0 < full <= u32::MAX,
        full <= usize::MAX,
    ensures
        ({
            let share = screen::bar_share(qty, deepest, full);
            let d = PRECISION_LIMIT as int;
            &&& share <= full
            &&& d * (share * deepest.size()) <= (d + 5) * (qty.size() * full)
            &&& (d - 5) * (qty.size() * full) < d * ((share + 1) * deepest.size())
        }),
{
    let one = precision::one();
    let t = PRECISION_LIMIT as int;
    let r = Binary64::quotient(qty, deepest);
    let wide = Binary64::of_integer(full);
    let x = Binary64::product(r, wide);
    estimates::lemma_moderate(qty, 974, 1174);
    estimates::lemma_moderate(deepest, 974, 1174);
    crate::slippage::lemma_more_than_nothing(deepest);
    rounding::lemma_pow2_monotone(900, 974);
    rounding::lemma_pow2_monotone(1174, 1300);
    lemma_ratio_between(qty, deepest);
    precision::lemma_small_integer(full);
    lemma_pow2_pos(1074);
    lemma_sizes(deepest, qty);
    screen::lemma_share_fits(qty, deepest, full);
    let v = r.size();
    let top = v * wide.size();
    assert(top == (v * full) * one) by (nonlinear_arith)
        requires
            top == v * wide.size(),
            wide.size() == full * one,
    ;
    lemma_pow2_adds(32, 1475);
    lemma2_to64();
    assert(pow2(672) * one <= top <= pow2(1507) * one) by (nonlinear_arith)
        requires
            top == (v * full) * one,
            pow2(672) <= v <= pow2(1475),
            pow2(1507) == 0x1_0000_0000 * pow2(1475),
            1 <= full <= 0xffff_ffff,
            one > 0,
    {
        assert(v <= v * full);
        assert(v * full <= pow2(1475) * 0x1_0000_0000);
        assert(pow2(672) * one <= (v * full) * one);
        assert((v * full) * one <= (0x1_0000_0000 * pow2(1475)) * one);
    }
    estimates::lemma_fraction_between(top, one, 672, 1507);
    nearness::lemma_product_is_near(r, wide);
    let w = x.size();
    let share = w / one;
    lemma_fundamental_div_mod(w as int, one as int);
    assert(share == x.whole());
    screen::lemma_share_is_small(qty, deepest, full);
    assert(screen::bar_share(qty, deepest, full) == share);
    assert(share * one <= w < (share + 1) * one) by (nonlinear_arith)
        requires
            w == one * share + w % one,
            0 <= w % one < one,
    ;
    lemma_share_chain(
        w as int,
        v as int,
        full as int,
        qty.size() as int,
        deepest.size() as int,
        one as int,
        share as int,
    );
}

proof fn lemma_share_chain(w: int, v: int, full: int, q: int, m: int, one: int, share: int)
    requires
        0 <= w && 0 <= v && 0 < full && 0 <= q && 0 < m && 0 < one && 0 <= share,
        is_near(w * one, (v * full) * one, 2),
        is_near(v * m, q * one, 2),
        share * one <= w < (share + 1) * one,
    ensures
        PRECISION_LIMIT * (share * m) <= (PRECISION_LIMIT + 5) * (q * full),
        (PRECISION_LIMIT - 5) * (q * full) < PRECISION_LIMIT * ((share + 1) * m),
{
    let t = PRECISION_LIMIT as int;
    let vf = v * full;
    assert((t - 2) * vf <= t * w <= (t + 2) * vf) by (nonlinear_arith)
        requires
            (t - 2) * (vf * one) <= t * (w * one) <= (t + 2) * (vf * one),
            one > 0,
    {
        assert((t - 2) * (vf * one) == ((t - 2) * vf) * one);
        assert((t + 2) * (vf * one) == ((t + 2) * vf) * one);
        assert(t * (w * one) == (t * w) * one);
        if (t - 2) * vf > t * w {
            assert(((t - 2) * vf) * one > (t * w) * one);
        }
        if t * w > (t + 2) * vf {
            assert((t * w) * one > ((t + 2) * vf) * one);
        }
    }
    let wm = w * m;
    let b = (v * m) * full;
    let c = (q * one) * full;
    assert((t - 2) * b <= t * wm <= (t + 2) * b) by (nonlinear_arith)
        requires
            (t - 2) * vf <= t * w <= (t + 2) * vf,
            vf == v * full,
            wm == w * m,
            b == (v * m) * full,
            m > 0,
    {
        assert(((t - 2) * vf) * m <= (t * w) * m);
        assert((t * w) * m <= ((t + 2) * vf) * m);
        assert(vf * m == b);
    }
    assert((t - 2) * c <= t * b <= (t + 2) * c) by (nonlinear_arith)
        requires
            (t - 2) * (q * one) <= t * (v * m) <= (t + 2) * (q * one),
            b == (v * m) * full,
            c == (q * one) * full,
            full > 0,
    {
        assert(((t - 2) * (q * one)) * full <= (t * (v * m)) * full);
        assert((t * (v * m)) * full <= ((t + 2) * (q * one)) * full);
    }
    assert(c >= 0 && c == (q * full) * one) by (nonlinear_arith)
        requires
            c == (q * one) * full,
            q >= 0,
            one > 0,
            full > 0,
    ;
    assert(is_near(wm, c, 5));
    assert((share * m) * one <= wm && wm < ((share + 1) * m) * one) by (nonlinear_arith)
        requires
            share * one <= w,
            w < (share + 1) * one,
            wm == w * m,
            m > 0,
    {
        assert((share * one) * m <= w * m);
        assert(w * m < ((share + 1) * one) * m);
    }
    let a = share * m;
    let e = (share + 1) * m;
    let f = q * full;
    assert(t * a <= (t + 5) * f) by (nonlinear_arith)
        requires
            a * one <= wm,
            t * wm <= (t + 5) * (f * one),
            one > 0,
            t > 0,
    {
        assert((t * a) * one <= ((t + 5) * f) * one);
        if t * a > (t + 5) * f {
            assert((t * a) * one > ((t + 5) * f) * one);
        }
    }
    assert((t - 5) * f < t * e) by (nonlinear_arith)
        requires
            wm < e * one,
            (t - 5) * (f * one) <= t * wm,
            one > 0,
            t > 0,
    {
        assert(((t - 5) * f) * one < (t * e) * one);
        if (t - 5) * f >= t * e {
            assert(((t - 5) * f) * one >= (t * e) * one);
        }
    }
}

/// The bucket of a price: it starts at or below the price, and the next one
/// above it, up to rounding.
pub proof fn lemma_bucket(price: Binary64, width: Binary64)
    requires
        is_moderate(price),
        is_moderate(width),
        price.size() <= 0x4000_0000_0000_0000 * width.size(),
    ensures
        ({
            let k = buckets::bucket_of(price, width);
            let d = PRECISION_LIMIT as int;
            &&& 0 <= k
            &&& d * (k * width.size()) <= (d + 2) * price.size()
            &&& (d - 2) * price.size() < d * ((k + 1) * width.size())
            &&& k > 0 ==> is_near(
                buckets::bucket_start(k, width).size() as int,
                k * width.size(),
                4,
            )
            &&& k == 0 ==> buckets::bucket_start(k, width).bits == 0
        }),
{
    let one = precision::one();
    let t = PRECISION_LIMIT as int;
    let r = Binary64::quotient(price, width);
    estimates::lemma_moderate(price, 974, 1174);
    estimates::lemma_moderate(width, 974, 1174);
    rounding::lemma_pow2_monotone(900, 974);
    rounding::lemma_pow2_monotone(1174, 1300);
    lemma_ratio_between(price, width);
    nearness::lemma_ordinary_size(r);
    lemma_pow2_pos(1074);
    let v = r.size() as int;
    let m = width.size() as int;
    let p = price.size() as int;
    let k = v / (one as int);
    lemma_fundamental_div_mod(v, one as int);
    assert(k >= 0 && k * one <= v < (k + 1) * one) by (nonlinear_arith)
        requires
            v == one * k + v % (one as int),
            0 <= v % (one as int) < one,
            v >= 0,
            one > 0,
    ;
    let km = k * m;
    let kn = (k + 1) * m;
    assert(t * km <= (t + 2) * p && (t - 2) * p < t * kn) by (nonlinear_arith)
        requires
            k * one <= v,
            v < (k + 1) * one,
            (t - 2) * (p * one) <= t * (v * m) <= (t + 2) * (p * one),
            km == k * m,
            kn == (k + 1) * m,
            m > 0,
            one > 0,
            t > 2,
    {
        assert((k * one) * m <= v * m);
        assert(v * m < ((k + 1) * one) * m);
        assert((k * one) * m == km * one);
        assert(((k + 1) * one) * m == kn * one);
        assert((t * km) * one <= ((t + 2) * p) * one);
        if t * km > (t + 2) * p {
            assert((t * km) * one > ((t + 2) * p) * one);
        }
        assert(((t - 2) * p) * one < (t * kn) * one);
        if (t - 2) * p >= t * kn {
            assert(((t - 2) * p) * one >= (t * kn) * one);
        }
    }
    assert(k <= i64::MAX) by (nonlinear_arith)
        requires
            t * (k * m) <= (t + 2) * p,
            p <= 0x4000_0000_0000_0000 * m,
            m > 0,
            t == 0x20_0000_0000_0000,
            k >= 0,
    {
        if k > 0x7fff_ffff_ffff_ffff {
            assert(k * m >= 0x8000_0000_0000_0000 * m);
            assert((t + 2) * p <= (t + 2) * (0x4000_0000_0000_0000 * m));
        }
    }
    assert(buckets::bucket_of(price, width) == k);
    if k > 0 {
        lemma_bucket_start(k as nat, width);
    }
}

proof fn lemma_bucket_start(k: nat, width: Binary64)
    requires
        0 < k <= i64::MAX,
        is_moderate(width),
    ensures
        is_near(
            buckets::bucket_start(k as int, width).size() as int,
            (k * width.size()) as int,
            4,
        ),
{
    let one = precision::one();
    let t = PRECISION_LIMIT as int;
    let x = Binary64::of_integer(k);
    let y = Binary64::product(x, width);
    crate::rates::lemma_integer_near(k);
    estimates::lemma_moderate(x, 1073, 1139);
    estimates::lemma_moderate(width, 974, 1174);
    lemma_pow2_pos(1074);
    let m = width.size();
    let top = x.size() * m;
    lemma_pow2_adds(1073, 974);
    lemma_pow2_adds(973, 1074);
    lemma_pow2_adds(1139, 1174);
    lemma_pow2_adds(1239, 1074);
    assert(pow2(973) * one <= top <= pow2(1239) * one) by (nonlinear_arith)
        requires
            top == x.size() * m,
            pow2(1073) <= x.size() <= pow2(1139),
            pow2(974) <= m <= pow2(1174),
            pow2(2047) == pow2(1073) * pow2(974),
            pow2(2047) == pow2(973) * pow2(1074),
            pow2(2313) == pow2(1139) * pow2(1174),
            pow2(2313) == pow2(1239) * pow2(1074),
            one == pow2(1074),
    ;
    estimates::lemma_fraction_between(top, one, 973, 1239);
    nearness::lemma_product_is_near(x, width);
    let v = y.size();
    let km = k * m;
    assert((t - 1) * (km * one) <= t * top <= (t + 1) * (km * one)) by (nonlinear_arith)
        requires
            (t - 1) * (k * one) <= t * x.size() <= (t + 1) * (k * one),
            top == x.size() * m,
            km == k * m,
            m >= 0,
    {
        assert(((t - 1) * (k * one)) * m <= (t * x.size()) * m);
        assert((t * x.size()) * m <= ((t + 1) * (k * one)) * m);
        assert((k * one) * m == km * one);
    }
    let a = km * one;
    assert(a >= 0) by (nonlinear_arith)
        requires
            a == km * one,
            km >= 0,
            one > 0,
    ;
    assert(is_near((v * one) as int, a as int, 4));
    assert((t - 4) * km <= t * v <= (t + 4) * km) by (nonlinear_arith)
        requires
            (t - 4) * (km * one) <= t * (v * one) <= (t + 4) * (km * one),
            one > 0,
    {
        assert((t - 4) * (km * one) == ((t - 4) * km) * one);
        assert((t + 4) * (km * one) == ((t + 4) * km) * one);
        assert(t * (v * one) == (t * v) * one);
        if (t - 4) * km > t * v {
            assert(((t - 4) * km) * one > (t * v) * one);
        }
        if t * v > (t + 4) * km {
            assert((t * v) * one > ((t + 4) * km) * one);
        }
    }
}

/// The quantity of the levels in a bucket, in units.
pub open spec fn quantity_in(
    levels: Seq<(Binary64, Binary64)>,
    width: Binary64,
    bucket: int,
) -> nat
    decreases levels.len(),
{
    if levels.len() == 0 {
        0
    } else {
        quantity_in(levels.drop_last(), width, bucket) + if buckets::bucket_of(
            levels.last().0,
            width,
        ) == bucket {
            levels.last().1.size()
        } else {
            0
        }
    }
}

/// A bucket is listed where a level is in it, and holds the quantities of all
/// levels that are, up to two of `2^53` parts for each level.
pub proof fn lemma_bucket_holds(
    levels: Seq<(Binary64, Binary64)>,
    width: Binary64,
    bucket: int,
)
    requires
        has_moderate_quantities(levels),
        levels.len() <= estimates::SUM_LIMIT,
    ensures
        ({
            let totals = buckets::bucket_totals(levels, width);
            &&& totals.contains_key(bucket) <==> exists|i: int|
                0 <= i < levels.len() && buckets::bucket_of((#[trigger] levels[i]).0, width)
                    == bucket
            &&& totals.contains_key(bucket) ==> is_amount(totals[bucket]) && is_near(
                totals[bucket].size() as int,
                quantity_in(levels, width, bucket) as int,
                2 * levels.len() as int + 2,
            )
            &&& !totals.contains_key(bucket) ==> quantity_in(levels, width, bucket) == 0
            &&& quantity_in(levels, width, bucket) <= levels.len() * pow2(1174)
        }),
    decreases levels.len(),
{
    if levels.len() == 0 {
        lemma_mul_basics(pow2(1174) as int);
    } else {
        let front = levels.drop_last();
        let n = levels.len();
        let last = levels.last();
        let before = buckets::bucket_totals(front, width);
        assert forall|i: int| 0 <= i < front.len() implies is_moderate((#[trigger] front[i]).1) by {
            assert(front[i] == levels[i]);
        }
        lemma_bucket_holds(front, width, bucket);
        assert(is_moderate(levels[n - 1].1));
        lemma_listed_levels(levels, width, bucket);
        assert(n * pow2(1174) == (n - 1) * pow2(1174) + pow2(1174)) by (nonlinear_arith);
        if buckets::bucket_of(last.0, width) == bucket {
            let zero = Binary64 { bits: 0 };
            lemma_amount(zero);
            let x = if before.contains_key(bucket) {
                before[bucket]
            } else {
                zero
            };
            let y = last.1;
            let q = quantity_in(front, width, bucket);
            let parts = 2 * front.len() as int + 2;
            estimates::lemma_moderate(y, 974, 1174);
            if !before.contains_key(bucket) {
                assert(is_near(0, 0, parts)) by {
                    lemma_mul_basics(PRECISION_LIMIT - parts);
                    lemma_mul_basics(PRECISION_LIMIT + parts);
                }
            }
            estimates::lemma_quantity_finite(x, y, q, front.len(), parts);
            nearness::lemma_sum_is_near(x, y);
            estimates::lemma_near_sum(
                Binary64::sum(x, y).size() as int,
                x.size() as int,
                y.size() as int,
                q as int,
                y.size() as int,
                parts,
            );
        } else {
            let q = quantity_in(front, width, bucket);
            if before.contains_key(bucket) {
                lemma_near_widened(
                    before[bucket].size() as int,
                    q as int,
                    2 * front.len() as int + 2,
                );
            }
        }
    }
}

proof fn lemma_near_widened(v: int, n: int, parts: int)
    requires
        is_near(v, n, parts),
        n >= 0,
    ensures
        is_near(v, n, parts + 2),
{
    let t = PRECISION_LIMIT as int;
    assert((t - (parts + 2)) * n <= (t - parts) * n && (t + parts) * n <= (t + (parts + 2)) * n)
        by (nonlinear_arith)
        requires
            n >= 0,
    ;
}

proof fn lemma_listed_levels(
    levels: Seq<(Binary64, Binary64)>,
    width: Binary64,
    bucket: int,
)
    requires
        levels.len() > 0,
    ensures
        (exists|i: int|
            0 <= i < levels.len() && buckets::bucket_of((#[trigger] levels[i]).0, width) == bucket)
            <==> buckets::bucket_of(levels.last().0, width) == bucket || exists|i: int|
            0 <= i < levels.drop_last().len() && buckets::bucket_of(
                (#[trigger] levels.drop_last()[i]).0,
                width,
            ) == bucket,
{
    let front = levels.drop_last();
    if exists|i: int|
        0 <= i < levels.len() && buckets::bucket_of((#[trigger] levels[i]).0, width) == bucket {
        let i = choose|i: int|
            0 <= i < levels.len() && buckets::bucket_of((#[trigger] levels[i]).0, width) == bucket;
        if i < front.len() {
            assert(front[i] == levels[i]);
        }
    }
    if exists|i: int|
        0 <= i < front.len() && buckets::bucket_of((#[trigger] front[i]).0, width) == bucket {
        let i = choose|i: int|
            0 <= i < front.len() && buckets::bucket_of((#[trigger] front[i]).0, width) == bucket;
        assert(levels[i] == front[i]);
    }
    if buckets::bucket_of(levels.last().0, width) == bucket {
        assert(levels[levels.len() - 1] == levels.last());
    }
}

/// At most ten rows are shown, and all where there are no more: of bids the
/// buckets of highest price, highest first, of asks those of lowest price,
/// lowest first; each with where it starts and what it holds.
pub proof fn lemma_rows(list: Seq<(i64, Binary64)>, width: Binary64)
    ensures
        ({
            let n = if list.len() < 10 {
                list.len()
            } else {
                10
            };
            let bids = buckets::top_down(list, width);
            let asks = buckets::bottom_up(list, width);
            &&& bids.len() == n
            &&& asks.len() == n
            &&& forall|i: int|
                0 <= i < n ==> (#[trigger] bids[i]).1 == list[list.len() - 1 - i].1 && bids[i].0
                    == buckets::bucket_start(list[list.len() - 1 - i].0 as int, width)
            &&& forall|i: int|
                0 <= i < n ==> (#[trigger] asks[i]).1 == list[i].1 && asks[i].0
                    == buckets::bucket_start(list[i].0 as int, width)
        }),
{
}

proof fn lemma_near_through(a: int, b: int, c: int)
    requires
        is_near(a, b, 2),
        is_near(b, c, 1),
        c >= 0,
    ensures
        is_near(a, c, 4),
{
}

/// With one side only, twice the middle is its best price, and there is no
/// spread; an empty book has neither.
pub proof fn lemma_quote_of_one_side(b: BookSides)
    requires
        b.bids.len() == 0 || b.asks.len() == 0,
        b.bids.len() > 0 ==> is_moderate(b.bids.last().0),
        b.asks.len() > 0 ==> is_moderate(b.asks[0].0),
    ensures
        screen::quote_of(b).spread.bits == 0,
        screen::quote_of(b).spread_pct.size() == 0,
        screen::quote_of(b).spread_pct.finite(),
        b.bids.len() > 0 ==> is_near(
            (2 * screen::quote_of(b).mid_price.size()) as int,
            b.bids.last().0.size() as int,
            4,
        ),
        b.asks.len() > 0 ==> is_near(
            (2 * screen::quote_of(b).mid_price.size()) as int,
            b.asks[0].0.size() as int,
            4,
        ),
        b.bids.len() == 0 && b.asks.len() == 0 ==> screen::quote_of(b).mid_price.size() == 0,
{
    let q = screen::quote_of(b);
    let zero = Binary64 { bits: 0 };
    lemma_amount(zero);
    if b.bids.len() > 0 || b.asks.len() > 0 {
        let bid = if b.bids.len() > 0 {
            b.bids.last().0
        } else {
            zero
        };
        let ask = if b.asks.len() > 0 {
            b.asks[0].0
        } else {
            zero
        };
        lemma_sum_between(bid, ask);
        lemma_half(Binary64::sum(bid, ask));
        estimates::lemma_moderate(q.mid_price, 971, 1176);
        crate::slippage::lemma_more_than_nothing(q.mid_price);
        estimates::lemma_exact_zero(zero, q.mid_price);
        assert(q.spread == zero);
        let sum = Binary64::sum(bid, ask);
        assert(q.mid_price == Binary64::quotient(sum, Binary64 { bits: screen::TWO_BITS }));
        assert(is_near((2 * q.mid_price.size()) as int, sum.size() as int, 2));
        lemma_near_through(
            (2 * q.mid_price.size()) as int,
            sum.size() as int,
            (bid.size() + ask.size()) as int,
        );
        if b.bids.len() > 0 {
            assert(ask.size() == 0);
            assert(bid == b.bids.last().0);
        } else {
            assert(bid.size() == 0);
            assert(ask == b.asks[0].0);
        }
    } else {
        let two = Binary64 { bits: screen::TWO_BITS };
        screen::lemma_two();
        precision::lemma_small_integer(2);
        lemma_pow2_pos(1074);
        binary64::lemma_parts(two);
        assert(two == Binary64::of_integer(2));
        crate::rates::lemma_zero_quotient(two);
        monotone::lemma_sum_of_amounts(zero, zero);
        assert(Binary64::sum(zero, zero) == zero);
        assert(q.mid_price == zero);
        assert(q.spread_pct == zero);
    }
}

} // verus!
