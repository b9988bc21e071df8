//! Laws of averages and rates: what they say of the numbers they are made of,
//! up to rounding.

use crate::binary64;
use crate::binary64::Binary64;
use crate::estimates;
use crate::monotone;
use crate::monotone::is_amount;
use crate::nearness;
use crate::nearness::is_near;
use crate::precision;
use crate::rounding;
use crate::rounding::PRECISION_LIMIT;
use crate::stats;
use crate::stats::Tally;
use crate::trades;
use crate::trades::Trade;
use vstd::arithmetic::mul::*;
use vstd::arithmetic::power2::*;
use vstd::prelude::*;

verus! {

/// An integer as a number.
pub(crate) proof fn lemma_integer_near(n: nat)
    requires
        n <= u64::MAX,
    ensures
        is_amount(Binary64::of_integer(n)),
        is_near(
            Binary64::of_integer(n).size() as int,
            (n * precision::one()) as int,
            1,
        ),
        n == 0 ==> Binary64::of_integer(n).bits == 0 && Binary64::of_integer(n).size() == 0,
        n > 0 ==> estimates::is_between(Binary64::of_integer(n), 1073, 1139),
{
    let one = precision::one();
    let x = Binary64::of_integer(n);
    lemma_pow2_pos(1074);
    if n == 0 {
        precision::lemma_integer_encoded_zero();
        precision::lemma_small_integer(0);
        lemma_mul_basics(one as int);
    } else {
        precision::lemma_integer_error(n);
        let v = x.size();
        let m = n * one;
        assert(v * PRECISION_LIMIT <= m * PRECISION_LIMIT + m);
        lemma_pow2_adds(64, 1074);
        lemma2_to64();
        lemma_pow2_unfold(1139);
        lemma_pow2_unfold(1074);
        assert(m <= pow2(1138) && m >= one) by (nonlinear_arith)
            requires
                m == n * one,
                1 <= n <= u64::MAX,
                pow2(1138) == 0x1_0000_0000_0000_0000 * one,
                one > 0,
        ;
    }
}

/// The quotient of two integers, times the second, is the first.
pub proof fn lemma_quotient_of_integers(a: nat, b: nat)
    requires
        a <= u64::MAX,
        0 < b <= u64::MAX,
    ensures
        ({
            let q = Binary64::quotient(Binary64::of_integer(a), Binary64::of_integer(b));
            &&& is_amount(q)
            &&& is_near((q.size() * b) as int, (a * precision::one()) as int, 5)
            &&& a == 0 ==> q.size() == 0
            &&& a > 0 ==> estimates::is_between(q, 1000, 1300)
        }),
{
    let one = precision::one();
    let x = Binary64::of_integer(a);
    let y = Binary64::of_integer(b);
    let q = Binary64::quotient(x, y);
    lemma_integer_near(a);
    lemma_integer_near(b);
    lemma_pow2_pos(1074);
    estimates::lemma_moderate(y, 1073, 1139);
    if a == 0 {
        lemma_zero_quotient(y);
        assert(0 * b == 0 && 0 * one == 0);
    } else {
        let top = x.size() * one;
        let d = y.size();
        lemma_pow2_adds(1073, 1074);
        lemma_pow2_adds(1008, 1139);
        lemma_pow2_adds(1139, 1074);
        lemma_pow2_adds(1140, 1073);
        assert(pow2(1008) * d <= top) by (nonlinear_arith)
            requires
                top == x.size() * one,
                one == pow2(1074),
                x.size() >= pow2(1073),
                d <= pow2(1139),
                pow2(2147) == pow2(1073) * pow2(1074),
                pow2(2147) == pow2(1008) * pow2(1139),
        {
            assert(top >= pow2(1073) * pow2(1074));
            assert(pow2(1008) * d <= pow2(1008) * pow2(1139));
        }
        assert(top <= pow2(1140) * d) by (nonlinear_arith)
            requires
                top == x.size() * one,
                one == pow2(1074),
                x.size() <= pow2(1139),
                d >= pow2(1073),
                pow2(2213) == pow2(1139) * pow2(1074),
                pow2(2213) == pow2(1140) * pow2(1073),
        {
            assert(top <= pow2(1139) * pow2(1074));
            assert(pow2(1140) * d >= pow2(1140) * pow2(1073));
        }
        estimates::lemma_moderate(x, 1073, 1139);
        estimates::lemma_fraction_between(top, d, 1008, 1140);
        rounding::lemma_pow2_monotone(1000, 1007);
        rounding::lemma_pow2_monotone(1141, 1300);
        nearness::lemma_quotient_is_near(x, y);
        lemma_chain(q.size() as int, a as int, b as int, x.size() as int, d as int, one as int);
    }
}

pub(crate) proof fn lemma_zero_quotient(y: Binary64)
    requires
        is_amount(y),
        !y.zero(),
    ensures
        Binary64::quotient(Binary64 { bits: 0 }, y) == (Binary64 { bits: 0 }),
        (Binary64 { bits: 0 }).size() == 0,
{
    let one = precision::one();
    let zero = Binary64 { bits: 0 };
    binary64::lemma_parts(zero);
    binary64::lemma_parts(y);
    monotone::lemma_number_is_exact(zero);
    assert(zero.significand() == 0);
    lemma_mul_basics(pow2(zero.scale()) as int);
    assert(0 * one == 0);
    assert(rounding::nearest_magnitude(0, 1) == 0);
    precision::lemma_nearest_same(0, y.size(), 0, 1);
}

/// From the rounded operands to the exact ones.
proof fn lemma_chain(q: int, a: int, b: int, x: int, y: int, one: int)
    requires
        0 <= q && 0 <= a && 0 <= b && 0 < one,
        is_near(x, a * one, 1),
        is_near(y, b * one, 1),
        is_near(q * y, x * one, 2),
    ensures
        is_near(q * b, a * one, 5),
{
    let d = PRECISION_LIMIT as int;
    let qy = q * y;
    let xo = x * one;
    let qb = (q * b) * one;
    let ao = (a * one) * one;
    assert((d - 1) * qb <= d * qy <= (d + 1) * qb) by (nonlinear_arith)
        requires
            (d - 1) * (b * one) <= d * y <= (d + 1) * (b * one),
            qy == q * y,
            qb == (q * b) * one,
            q >= 0,
    {
        assert(q * ((d - 1) * (b * one)) <= q * (d * y));
        assert(q * (d * y) <= q * ((d + 1) * (b * one)));
        assert(q * ((d - 1) * (b * one)) == (d - 1) * ((q * b) * one));
        assert(q * ((d + 1) * (b * one)) == (d + 1) * ((q * b) * one));
    }
    assert((d - 1) * ao <= d * xo <= (d + 1) * ao) by (nonlinear_arith)
        requires
            (d - 1) * (a * one) <= d * x <= (d + 1) * (a * one),
            xo == x * one,
            ao == (a * one) * one,
            one > 0,
    {
        assert(((d - 1) * (a * one)) * one <= (d * x) * one);
        assert((d * x) * one <= ((d + 1) * (a * one)) * one);
    }
    assert(qb >= 0 && ao >= 0) by (nonlinear_arith)
        requires
            qb == (q * b) * one,
            ao == (a * one) * one,
            q >= 0,
            b >= 0,
            a >= 0,
            one > 0,
    ;
    assert(is_near(qb, ao, 5));
    let u = q * b;
    let v = a * one;
    assert((d - 5) * v <= d * u <= (d + 5) * v) by (nonlinear_arith)
        requires
            (d - 5) * ao <= d * qb <= (d + 5) * ao,
            qb == u * one,
            ao == v * one,
            one > 0,
    {
        assert((d - 5) * ao == ((d - 5) * v) * one);
        assert((d + 5) * ao == ((d + 5) * v) * one);
        assert(d * qb == (d * u) * one);
        if (d - 5) * v > d * u {
            assert(((d - 5) * v) * one > (d * u) * one);
        }
        if d * u > (d + 5) * v {
            assert((d * u) * one > ((d + 5) * v) * one);
        }
    }
}

/// The constant is one thousand.
proof fn lemma_thousand_is()
    ensures
        Binary64::of_integer(1000) == (Binary64 { bits: trades::THOUSAND_BITS }),
{
    trades::lemma_thousand();
}

/// An average, times the number of samples, is their sum.
pub proof fn lemma_average(t: Tally)
    ensures
        is_amount(stats::average(t)),
        t.count == 0 ==> stats::average(t).bits == 0,
        t.count > 0 ==> is_near(
            (stats::average(t).size() * t.count) as int,
            (t.total * precision::one()) as int,
            5,
        ),
{
    if t.count > 0 {
        lemma_quotient_of_integers(t.total as nat, t.count as nat);
    } else {
        binary64::lemma_parts(Binary64 { bits: 0 });
    }
}

/// A thousandth of a number, times a thousand, is the number.
proof fn lemma_thousandth(x: Binary64)
    requires
        is_amount(x),
        x.zero() || estimates::is_between(x, 1000, 1300),
    ensures
        ({
            let y = Binary64::quotient(x, Binary64 { bits: trades::THOUSAND_BITS });
            &&& is_amount(y)
            &&& is_near((y.size() * 1000) as int, x.size() as int, 2)
        }),
{
    let one = precision::one();
    let thousand = Binary64 { bits: trades::THOUSAND_BITS };
    lemma_thousand_is();
    lemma_pow2_pos(1074);
    precision::lemma_small_integer(1000);
    lemma_integer_near(1000);
    estimates::lemma_moderate(thousand, 1073, 1139);
    assert(thousand.size() == 1000 * one);
    let y = Binary64::quotient(x, thousand);
    if x.zero() {
        assert(x == (Binary64 { bits: 0 }));
        lemma_zero_quotient(thousand);
    } else {
        estimates::lemma_moderate(x, 1000, 1300);
        let top = x.size() * one;
        let d = thousand.size();
        lemma_pow2_adds(10, 990);
        lemma2_to64();
        lemma_pow2_pos(990);
        assert(pow2(990) * d <= top) by (nonlinear_arith)
            requires
                top == x.size() * one,
                d == 1000 * one,
                x.size() >= pow2(1000),
                pow2(1000) == 1024 * pow2(990),
                one > 0,
        {
            assert(pow2(990) * d == (1000 * pow2(990)) * one);
            assert(x.size() >= 1000 * pow2(990));
        }
        assert(top <= pow2(1300) * d) by (nonlinear_arith)
            requires
                top == x.size() * one,
                d == 1000 * one,
                x.size() <= pow2(1300),
                one > 0,
        {
            assert(x.size() * one <= pow2(1300) * one);
            assert(pow2(1300) * one <= (1000 * pow2(1300)) * one);
            assert(pow2(1300) * d == (1000 * pow2(1300)) * one);
        }
        estimates::lemma_fraction_between(top, d, 990, 1300);
        nearness::lemma_quotient_is_near(x, thousand);
        let t = PRECISION_LIMIT as int;
        let v = y.size();
        let s = x.size();
        assert((t - 2) * s <= t * (v * 1000) <= (t + 2) * s) by (nonlinear_arith)
            requires
                (t - 2) * (s * one) <= t * (v * d) <= (t + 2) * (s * one),
                d == 1000 * one,
                one > 0,
        {
            assert(t * (v * d) == (t * (v * 1000)) * one);
            assert((t - 2) * (s * one) == ((t - 2) * s) * one);
            assert((t + 2) * (s * one) == ((t + 2) * s) * one);
            if (t - 2) * s > t * (v * 1000) {
                assert(((t - 2) * s) * one > (t * (v * 1000)) * one);
            }
            if t * (v * 1000) > (t + 2) * s {
                assert((t * (v * 1000)) * one > ((t + 2) * s) * one);
            }
        }
    }
}

/// A thousandth of an average, times a thousand and the number of samples, is
/// their sum.
pub proof fn lemma_average_in_thousands(t: Tally)
    ensures
        is_amount(stats::average_in_thousands(t)),
        is_near(
            (stats::average_in_thousands(t).size() * 1000) as int,
            stats::average(t).size() as int,
            2,
        ),
{
    lemma_average(t);
    let x = stats::average(t);
    if t.count > 0 {
        lemma_quotient_of_integers(t.total as nat, t.count as nat);
        if t.total == 0 {
            lemma_integer_near(t.count as nat);
            lemma_integer_near(0);
            estimates::lemma_moderate(Binary64::of_integer(t.count as nat), 1073, 1139);
            lemma_zero_quotient(Binary64::of_integer(t.count as nat));
        }
    }
    lemma_thousandth(x);
}

/// Microseconds in milliseconds.
pub proof fn lemma_millis(micros: u64)
    ensures
        ({
            let x = Binary64::quotient(
                Binary64::of_integer(micros as nat),
                Binary64 { bits: trades::THOUSAND_BITS },
            );
            &&& is_amount(x)
            &&& is_near((x.size() * 1000) as int, (micros * precision::one()) as int, 5)
        }),
{
    lemma_thousand_is();
    lemma_quotient_of_integers(micros as nat, 1000);
}

/// The trades per second, times the seconds of the window, are the trades that
/// were made in it: those not more than the window before now.
pub proof fn lemma_rate(all: Seq<Trade>, now_ms: u64, window_ms: u64)
    requires
        all.len() <= u64::MAX,
    ensures
        ({
            let rate = trades::trades_per_second(all, now_ms, window_ms);
            let made = all.filter(|t: Trade| t.timestamp_ms + window_ms >= now_ms);
            &&& is_amount(rate)
            &&& window_ms == 0 ==> rate.bits == 0
            &&& window_ms > 0 ==> is_near(
                (rate.size() * window_ms) as int,
                (1000 * (made.len() * precision::one())) as int,
                10,
            )
        }),
{
    let made = all.filter(|t: Trade| t.timestamp_ms + window_ms >= now_ms);
    binary64::lemma_parts(Binary64 { bits: 0 });
    if window_ms > 0 {
        if all.len() == 0 {
            reveal(Seq::filter);
            lemma_zero_times(window_ms as nat);
        } else {
            lemma_same_trades(all, now_ms, window_ms);
            lemma_made_count(all, now_ms, window_ms);
            lemma_rate_of(made.len(), window_ms as nat);
        }
    }
}

proof fn lemma_zero_times(n: nat)
    ensures
        (Binary64 { bits: 0 }).size() == 0,
        0 * n == 0,
        0 * precision::one() == 0,
{
    let zero = Binary64 { bits: 0 };
    assert(zero.significand() == 0);
    lemma_mul_basics(pow2(zero.scale()) as int);
    lemma_mul_basics(n as int);
    lemma_mul_basics(precision::one() as int);
}

/// The trades since the start of the window are those not more than the window
/// before now.
proof fn lemma_same_trades(all: Seq<Trade>, now_ms: u64, window_ms: u64)
    ensures
        trades::made_since(all, crate::depth::cutoff_time(now_ms, window_ms)) == all.filter(
            |t: Trade| t.timestamp_ms + window_ms >= now_ms,
        ),
    decreases all.len(),
{
    reveal(Seq::filter);
    if all.len() > 0 {
        lemma_same_trades(all.drop_last(), now_ms, window_ms);
    }
}

proof fn lemma_made_count(all: Seq<Trade>, now_ms: u64, window_ms: u64)
    ensures
        all.filter(|t: Trade| t.timestamp_ms + window_ms >= now_ms).len() <= all.len(),
    decreases all.len(),
{
    reveal(Seq::filter);
    if all.len() > 0 {
        lemma_made_count(all.drop_last(), now_ms, window_ms);
    }
}

/// A count divided by a number of seconds that is given in thousandths.
proof fn lemma_rate_of(n: nat, window: nat)
    requires
        n <= u64::MAX,
        0 < window <= u64::MAX,
    ensures
        ({
            let seconds = Binary64::quotient(
                Binary64::of_integer(window),
                Binary64 { bits: trades::THOUSAND_BITS },
            );
            let rate = Binary64::quotient(Binary64::of_integer(n), seconds);
            &&& is_amount(rate)
            &&& is_near(
                (rate.size() * window) as int,
                (1000 * (n * precision::one())) as int,
                10,
            )
        }),
{
    let one = precision::one();
    let x = Binary64::of_integer(n);
    let seconds = Binary64::quotient(
        Binary64::of_integer(window),
        Binary64 { bits: trades::THOUSAND_BITS },
    );
    let rate = Binary64::quotient(x, seconds);
    lemma_thousand_is();
    lemma_quotient_of_integers(window, 1000);
    lemma_integer_near(n);
    lemma_pow2_pos(1074);
    estimates::lemma_moderate(seconds, 1000, 1300);
    if n == 0 {
        lemma_zero_quotient(seconds);
        lemma_zero_times(window);
    } else {
        let top = x.size() * one;
        let d = seconds.size();
        lemma_pow2_adds(1073, 1074);
        lemma_pow2_adds(847, 1300);
        lemma_pow2_adds(1139, 1074);
        lemma_pow2_adds(1213, 1000);
        assert(pow2(847) * d <= top) by (nonlinear_arith)
            requires
                top == x.size() * one,
                one == pow2(1074),
                x.size() >= pow2(1073),
                d <= pow2(1300),
                pow2(2147) == pow2(1073) * pow2(1074),
                pow2(2147) == pow2(847) * pow2(1300),
        {
            assert(top >= pow2(1073) * pow2(1074));
            assert(pow2(847) * d <= pow2(847) * pow2(1300));
        }
        assert(top <= pow2(1213) * d) by (nonlinear_arith)
            requires
                top == x.size() * one,
                one == pow2(1074),
                x.size() <= pow2(1139),
                d >= pow2(1000),
                pow2(2213) == pow2(1139) * pow2(1074),
                pow2(2213) == pow2(1213) * pow2(1000),
        {
            assert(top <= pow2(1139) * pow2(1074));
            assert(pow2(1213) * d >= pow2(1213) * pow2(1000));
        }
        estimates::lemma_moderate(x, 1073, 1139);
        estimates::lemma_fraction_between(top, d, 847, 1213);
        nearness::lemma_quotient_is_near(x, seconds);
        lemma_rate_chain(
            rate.size() as int,
            n as int,
            window as int,
            x.size() as int,
            d as int,
            one as int,
        );
    }
}

proof fn lemma_rate_chain(r: int, n: int, window: int, x: int, s: int, one: int)
    requires
        0 <= r && 0 <= n && 0 <= window && 0 < one,
        is_near(x, n * one, 1),
        is_near(s * 1000, window * one, 5),
        is_near(r * s, x * one, 2),
    ensures
        is_near(r * window, 1000 * (n * one), 10),
{
    let d = PRECISION_LIMIT as int;
    let rs = r * s;
    let xo = x * one;
    let rw = (r * window) * one;
    let no = (n * one) * one;
    assert((d - 5) * rw <= d * (1000 * rs) <= (d + 5) * rw) by (nonlinear_arith)
        requires
            (d - 5) * (window * one) <= d * (s * 1000) <= (d + 5) * (window * one),
            rs == r * s,
            rw == (r * window) * one,
            r >= 0,
    {
        assert(r * ((d - 5) * (window * one)) <= r * (d * (s * 1000)));
        assert(r * (d * (s * 1000)) <= r * ((d + 5) * (window * one)));
        assert(r * ((d - 5) * (window * one)) == (d - 5) * ((r * window) * one));
        assert(r * ((d + 5) * (window * one)) == (d + 5) * ((r * window) * one));
        assert(r * (d * (s * 1000)) == d * (1000 * (r * s)));
    }
    assert((d - 1) * no <= d * xo <= (d + 1) * no) by (nonlinear_arith)
        requires
            (d - 1) * (n * one) <= d * x <= (d + 1) * (n * one),
            xo == x * one,
            no == (n * one) * one,
            one > 0,
    {
        assert(((d - 1) * (n * one)) * one <= (d * x) * one);
        assert((d * x) * one <= ((d + 1) * (n * one)) * one);
    }
    assert(rw >= 0 && no >= 0) by (nonlinear_arith)
        requires
            rw == (r * window) * one,
            no == (n * one) * one,
            r >= 0,
            window >= 0,
            n >= 0,
            one > 0,
    ;
    assert(is_near(rw, 1000 * no, 10));
    let u = r * window;
    let v = 1000 * (n * one);
    assert((d - 10) * v <= d * u <= (d + 10) * v) by (nonlinear_arith)
        requires
            (d - 10) * (1000 * no) <= d * rw <= (d + 10) * (1000 * no),
            rw == u * one,
            no == (n * one) * one,
            v == 1000 * (n * one),
            one > 0,
    {
        assert((d - 10) * (1000 * no) == ((d - 10) * v) * one);
        assert((d + 10) * (1000 * no) == ((d + 10) * v) * one);
        assert(d * rw == (d * u) * one);
        if (d - 10) * v > d * u {
            assert(((d - 10) * v) * one > (d * u) * one);
        }
        if d * u > (d + 10) * v {
            assert((d * u) * one > ((d + 10) * v) * one);
        }
    }
}

} // verus!
