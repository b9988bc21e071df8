//! Running averages of how long things take.

use crate::binary64;
use crate::binary64::{Binary64, FRACTION_PLACES};
use crate::precision;
use crate::rounding;
use crate::rounding::PRECISION_LIMIT;
use crate::text;
use crate::trades::THOUSAND_BITS;
use vstd::arithmetic::power2::*;
use vstd::prelude::*;

verus! {

/// What is measured.
#[derive(Clone, Copy, Debug, PartialEq, Eq, Structural)]
pub enum Metric {
    WsParse,
    OrderbookUpdate,
    LockAcquire,
    Render,
    Aggregation,
    Network,
    Processing,
}

/// A sum of samples and their number; both wrap around.
#[derive(Clone, Copy, Debug, PartialEq, Eq, Structural)]
pub struct Tally {
    pub total: u64,
    pub count: u64,
}

/// The samples of every metric so far.
#[derive(Clone, Copy, Debug, PartialEq, Eq, Structural)]
pub struct ProfilingStats {
    pub ws_parse: Tally,
    pub orderbook_update: Tally,
    pub lock_acquire: Tally,
    pub render: Tally,
    pub aggregation: Tally,
    pub network: Tally,
    pub processing: Tally,
}

/// No samples.
pub open spec fn no_samples() -> Tally {
    Tally { total: 0, count: 0 }
}

/// A tally after one more sample.
pub open spec fn with_sample(t: Tally, micros: u64) -> Tally {
    Tally { total: t.total.wrapping_add(micros), count: t.count.wrapping_add(1) }
}

/// The average of a tally; zero where there are no samples.
pub open spec fn average(t: Tally) -> Binary64 {
    if t.count == 0 {
        Binary64 { bits: 0 }
    } else {
        Binary64::quotient(
            Binary64::of_integer(t.total as nat),
            Binary64::of_integer(t.count as nat),
        )
    }
}

/// A thousandth of the average of a tally.
pub open spec fn average_in_thousands(t: Tally) -> Binary64 {
    Binary64::quotient(average(t), Binary64 { bits: THOUSAND_BITS })
}

/// A line of the summary.
pub open spec fn summary_line(
    label: Seq<char>,
    value: Binary64,
    unit: Seq<char>,
    count: u64,
) -> Seq<char> {
    label + text::right_aligned(text::one_place(value), 8) + unit + text::digits(count as nat)
        + " samples)"@
}

/// The summary of all metrics.  Samples are in microseconds, but for those of
/// the network, which are in milliseconds.
pub open spec fn summary_text(s: ProfilingStats) -> Seq<char> {
    "PROFILING (avg μs):"@ + summary_line(
        "\n├─ WS Parse:     "@,
        average(s.ws_parse),
        " μs ("@,
        s.ws_parse.count,
    ) + summary_line(
        "\n├─ Lock Acquire: "@,
        average(s.lock_acquire),
        " μs ("@,
        s.lock_acquire.count,
    ) + summary_line(
        "\n├─ OB Update:    "@,
        average(s.orderbook_update),
        " μs ("@,
        s.orderbook_update.count,
    ) + summary_line(
        "\n├─ Aggregation:  "@,
        average(s.aggregation),
        " μs ("@,
        s.aggregation.count,
    ) + summary_line(
        "\n├─ Render:       "@,
        average_in_thousands(s.render),
        " μs ("@,
        s.render.count,
    ) + summary_line(
        "\n├─ Processing:   "@,
        average_in_thousands(s.processing),
        " μs ("@,
        s.processing.count,
    ) + summary_line(
        "\n└─ Network Lat:  "@,
        average(s.network),
        " ms ("@,
        s.network.count,
    )
}

/// An average, and a thousandth of it, can be printed.
pub proof fn lemma_averages_are_printable(t: Tally)
    ensures
        text::is_printable(average(t)),
        text::is_printable(average_in_thousands(t)),
{
    let f = precision::one();
    let x = Binary64::of_integer(t.total as nat);
    let y = Binary64::of_integer(t.count as nat);
    let thousand = Binary64 { bits: THOUSAND_BITS };
    lemma_pow2_pos(FRACTION_PLACES as nat);
    lemma_pow2_adds(70, FRACTION_PLACES as nat);
    lemma_pow2_adds(66, FRACTION_PLACES as nat);
    lemma_pow2_adds(66, 4);
    lemma_pow2_adds(64, 2);
    lemma2_to64();
    assert(x.finite() && !x.negative() && x.size() <= pow2(65) * f) by {
        lemma_pow2_unfold(65);
        if t.total == 0 {
            precision::lemma_small_integer(0);
            vstd::arithmetic::mul::lemma_mul_basics(f as int);
        } else {
            precision::lemma_integer_error(t.total as nat);
            let n = t.total as nat;
            assert(x.size() <= pow2(65) * f) by (nonlinear_arith)
                requires
                    x.size() * PRECISION_LIMIT <= n * f * PRECISION_LIMIT + n * f,
                    n < 0x1_0000_0000_0000_0000,
                    pow2(65) == 0x2_0000_0000_0000_0000,
                    f > 0,
            {
                assert(n * f <= 0x1_0000_0000_0000_0000 * f);
            }
        }
    }
    let a = average(t);
    assert(a.finite() && !a.negative() && a.size() <= 2 * (pow2(65) * f) + 2) by {
        binary64::lemma_parts(a);
        assert(pow2(65) * f < pow2(2000)) by {
            lemma_pow2_adds(65, FRACTION_PLACES as nat);
            lemma_pow2_strictly_increases(1139, 2000);
        }
        if t.count > 0 {
            precision::lemma_integer_error(t.count as nat);
            let m = t.count as nat;
            let e = PRECISION_LIMIT;
            assert(y.size() >= f) by {
                if m < PRECISION_LIMIT {
                    precision::lemma_small_integer(m);
                    assert(m * f >= f) by (nonlinear_arith)
                        requires
                            m >= 1,
                            f > 0,
                    ;
                } else {
                    assert(y.size() >= f) by (nonlinear_arith)
                        requires
                            y.size() * e >= m * f * e - m * f,
                            m >= e,
                            e >= 2,
                            f > 0,
                    {
                        assert(m * f >= e * f);
                        assert(m * f * e - m * f == (m * f) * (e - 1));
                        assert((m * f) * (e - 1) >= (e * f) * (e - 1));
                        assert((e * f) * (e - 1) >= e * f);
                        if y.size() < f {
                            assert(y.size() * e < f * e);
                        }
                    }
                }
            }
            precision::lemma_quotient_bound(x, y);
        }
    }
    lemma_pow2_unfold(66);
    assert(2 * (pow2(65) * f) == pow2(66) * f) by (nonlinear_arith)
        requires
            pow2(66) == 2 * pow2(65),
    ;
    assert(thousand.finite() && !thousand.negative() && thousand.size() >= f) by {
        assert(thousand.magnitude() == THOUSAND_BITS);
        assert(thousand.scale() == 1031);
        assert(thousand.significand() >= 0x10_0000_0000_0000);
        lemma_pow2_adds(52, 1031);
        lemma2_to64_rest();
        rounding::lemma_pow2_monotone(FRACTION_PLACES as nat, 1083);
        assert(thousand.size() >= pow2(52) * pow2(1031)) by (nonlinear_arith)
            requires
                thousand.size() == thousand.significand() * pow2(1031),
                thousand.significand() >= pow2(52),
        ;
    }
    assert(a.size() < pow2(2000)) by {
        rounding::lemma_pow2_monotone(1141, 2000);
        rounding::lemma_pow2_monotone(64, 1140);
        lemma_pow2_unfold(1141);
    }
    precision::lemma_quotient_bound(a, thousand);
    assert(pow2(70) * f >= 16 * (pow2(66) * f)) by (nonlinear_arith)
        requires
            pow2(70) == pow2(66) * 16,
    ;
}

/// A number of microseconds in milliseconds.
pub fn in_millis(micros: u64) -> (x: Binary64)
    ensures
        x == Binary64::quotient(
            Binary64::of_integer(micros as nat),
            Binary64 { bits: THOUSAND_BITS },
        ),
        crate::nearness::is_near(
            (x.size() * 1000) as int,
            (micros * precision::one()) as int,
            5,
        ),
{
    proof {
        crate::rates::lemma_millis(micros);
    }
    Binary64::from_u64(micros).over(Binary64::from_bits(THOUSAND_BITS))
}

fn append_line(out: &mut String, label: &str, value: Binary64, unit: &str, count: u64)
    requires
        text::is_printable(value),
    ensures
        final(out)@ == old(out)@ + summary_line(label@, value, unit@, count),
{
    let ghost before = out@;
    out.append(label);
    text::append_one_place(out, value, 8);
    out.append(unit);
    text::append_integer(out, count as u128);
    out.append(" samples)");
    assert(out@ =~= before + summary_line(label@, value, unit@, count));
}

fn mean(t: Tally) -> (x: Binary64)
    ensures
        x == average(t),
{
    if t.count == 0 {
        Binary64::from_bits(0)
    } else {
        Binary64::from_u64(t.total).over(Binary64::from_u64(t.count))
    }
}

fn extended(t: Tally, micros: u64) -> (r: Tally)
    ensures
        r == with_sample(t, micros),
{
    Tally { total: t.total.wrapping_add(micros), count: t.count.wrapping_add(1) }
}

impl Default for ProfilingStats {
    fn default() -> (stats: ProfilingStats)
        ensures
            forall|m: Metric| #[trigger] stats.tally(m) == no_samples(),
            forall|m: Metric| #[trigger] stats.tally(m).count == 0 && stats.tally(m).total == 0,
    {
        let none = Tally { total: 0, count: 0 };
        ProfilingStats {
            ws_parse: none,
            orderbook_update: none,
            lock_acquire: none,
            render: none,
            aggregation: none,
            network: none,
            processing: none,
        }
    }
}

impl ProfilingStats {
    /// The tally of a metric.
    pub open spec fn tally(self, metric: Metric) -> Tally {
        match metric {
            Metric::WsParse => self.ws_parse,
            Metric::OrderbookUpdate => self.orderbook_update,
            Metric::LockAcquire => self.lock_acquire,
            Metric::Render => self.render,
            Metric::Aggregation => self.aggregation,
            Metric::Network => self.network,
            Metric::Processing => self.processing,
        }
    }

    /// Adds a sample to a metric: microseconds, or milliseconds for the network.
    pub fn record(&mut self, metric: Metric, micros: u64)
        ensures
            forall|m: Metric| #[trigger]
                final(self).tally(m) == if m == metric {
                    with_sample(old(self).tally(m), micros)
                } else {
                    old(self).tally(m)
                },
            final(self).tally(metric).count as int == (old(self).tally(metric).count + 1)
                % 0x1_0000_0000_0000_0000,
            final(self).tally(metric).total as int == (old(self).tally(metric).total + micros)
                % 0x1_0000_0000_0000_0000,
            forall|m: Metric|
                m != metric ==> #[trigger] final(self).tally(m) == old(self).tally(m),
    {
        match metric {
            Metric::WsParse => self.ws_parse = extended(self.ws_parse, micros),
            Metric::OrderbookUpdate => self.orderbook_update = extended(
                self.orderbook_update,
                micros,
            ),
            Metric::LockAcquire => self.lock_acquire = extended(self.lock_acquire, micros),
            Metric::Render => self.render = extended(self.render, micros),
            Metric::Aggregation => self.aggregation = extended(self.aggregation, micros),
            Metric::Network => self.network = extended(self.network, micros),
            Metric::Processing => self.processing = extended(self.processing, micros),
        }
    }

    /// The average of the samples of a metric; zero where there are none.
    pub fn get_avg(&self, metric: Metric) -> (x: Binary64)
        ensures
            x == average(self.tally(metric)),
    {
        match metric {
            Metric::WsParse => mean(self.ws_parse),
            Metric::OrderbookUpdate => mean(self.orderbook_update),
            Metric::LockAcquire => mean(self.lock_acquire),
            Metric::Render => mean(self.render),
            Metric::Aggregation => mean(self.aggregation),
            Metric::Network => mean(self.network),
            Metric::Processing => mean(self.processing),
        }
    }

    /// A thousandth of the average of a metric: milliseconds for microseconds.
    pub fn get_avg_in_thousands(&self, metric: Metric) -> (x: Binary64)
        ensures
            x == average_in_thousands(self.tally(metric)),
    {
        self.get_avg(metric).over(Binary64::from_bits(THOUSAND_BITS))
    }

    /// All averages as text, one metric per line.
    pub fn summary(&self) -> (out: String)
        ensures
            out@ == summary_text(*self),
    {
        proof {
            lemma_averages_are_printable(self.ws_parse);
            lemma_averages_are_printable(self.lock_acquire);
            lemma_averages_are_printable(self.orderbook_update);
            lemma_averages_are_printable(self.aggregation);
            lemma_averages_are_printable(self.render);
            lemma_averages_are_printable(self.processing);
            lemma_averages_are_printable(self.network);
        }
        let thousand = Binary64::from_bits(THOUSAND_BITS);
        let mut out = String::from_str("PROFILING (avg μs):");
        append_line(
            &mut out,
            "\n├─ WS Parse:     ",
            mean(self.ws_parse),
            " μs (",
            self.ws_parse.count,
        );
        append_line(
            &mut out,
            "\n├─ Lock Acquire: ",
            mean(self.lock_acquire),
            " μs (",
            self.lock_acquire.count,
        );
        append_line(
            &mut out,
            "\n├─ OB Update:    ",
            mean(self.orderbook_update),
            " μs (",
            self.orderbook_update.count,
        );
        append_line(
            &mut out,
            "\n├─ Aggregation:  ",
            mean(self.aggregation),
            " μs (",
            self.aggregation.count,
        );
        append_line(
            &mut out,
            "\n├─ Render:       ",
            mean(self.render).over(thousand),
            " μs (",
            self.render.count,
        );
        append_line(
            &mut out,
            "\n├─ Processing:   ",
            mean(self.processing).over(thousand),
            " μs (",
            self.processing.count,
        );
        append_line(
            &mut out,
            "\n└─ Network Lat:  ",
            mean(self.network),
            " ms (",
            self.network.count,
        );
        out
    }

    /// Forgets all samples.
    pub fn reset(&mut self)
        ensures
            forall|m: Metric| #[trigger]
                final(self).tally(m).count == 0 && final(self).tally(m).total == 0,
            forall|m: Metric| #[trigger] final(self).tally(m) == no_samples(),
    {
        let none = Tally { total: 0, count: 0 };
        self.ws_parse = none;
        self.orderbook_update = none;
        self.lock_acquire = none;
        self.render = none;
        self.aggregation = none;
        self.network = none;
        self.processing = none;
    }
}

/// The sum of the samples that a sequence records.
pub open spec fn sum_of(samples: Seq<u64>) -> nat
    decreases samples.len(),
{
    if samples.len() == 0 {
        0
    } else {
        sum_of(samples.drop_last()) + samples.last() as nat
    }
}

/// A tally after a sequence of samples.
pub open spec fn with_samples(t: Tally, samples: Seq<u64>) -> Tally
    decreases samples.len(),
{
    if samples.len() == 0 {
        t
    } else {
        with_sample(with_samples(t, samples.drop_last()), samples.last())
    }
}

/// From a reset on, a tally is the sum and the number of its samples, as long
/// as a `u64` can hold both; its average is their mean.
pub proof fn lemma_tally_is_sum(samples: Seq<u64>)
    requires
        sum_of(samples) <= u64::MAX,
        samples.len() <= u64::MAX,
    ensures
        with_samples(no_samples(), samples).total == sum_of(samples),
        with_samples(no_samples(), samples).count == samples.len(),
        samples.len() > 0 ==> average(with_samples(no_samples(), samples)) == Binary64::quotient(
            Binary64::of_integer(sum_of(samples)),
            Binary64::of_integer(samples.len()),
        ),
    decreases samples.len(),
{
    if samples.len() > 0 {
        lemma_tally_is_sum(samples.drop_last());
    }
}

} // verus!
