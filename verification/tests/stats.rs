use cli_ob::binary64::Binary64;
use cli_ob::stats;
use cli_ob::stats::{Metric, ProfilingStats, Tally};

fn val(x: Binary64) -> f64 {
    f64::from_bits(x.to_bits())
}

fn expected(s: &ProfilingStats) -> String {
    let avg = |t: Tally| if t.count == 0 { 0.0 } else { t.total as f64 / t.count as f64 };
    format!(
        "PROFILING (avg μs):\n\
         ├─ WS Parse:     {:>8.1} μs ({} samples)\n\
         ├─ Lock Acquire: {:>8.1} μs ({} samples)\n\
         ├─ OB Update:    {:>8.1} μs ({} samples)\n\
         ├─ Aggregation:  {:>8.1} μs ({} samples)\n\
         ├─ Render:       {:>8.1} μs ({} samples)\n\
         ├─ Processing:   {:>8.1} μs ({} samples)\n\
         └─ Network Lat:  {:>8.1} ms ({} samples)",
        avg(s.ws_parse),
        s.ws_parse.count,
        avg(s.lock_acquire),
        s.lock_acquire.count,
        avg(s.orderbook_update),
        s.orderbook_update.count,
        avg(s.aggregation),
        s.aggregation.count,
        avg(s.render) / 1000.0,
        s.render.count,
        avg(s.processing) / 1000.0,
        s.processing.count,
        avg(s.network),
        s.network.count,
    )
}

#[test]
fn a_new_summary_is_all_zero() {
    let stats = ProfilingStats::default();
    assert_eq!(stats.summary(), expected(&stats));
    assert!(stats.summary().starts_with("PROFILING (avg μs):\n├─ WS Parse:          0.0 μs (0 samples)\n"));
    assert!(stats.summary().ends_with("└─ Network Lat:       0.0 ms (0 samples)"));
}

#[test]
fn samples_are_averaged() {
    let mut stats = ProfilingStats::default();
    stats.record(Metric::WsParse, 10);
    stats.record(Metric::WsParse, 15);
    stats.record(Metric::Render, 1_500);
    stats.record(Metric::Network, 7);
    stats.record(Metric::Processing, 123_456);
    stats.record(Metric::Aggregation, u64::MAX);
    stats.record(Metric::LockAcquire, 1);
    stats.record(Metric::OrderbookUpdate, 0);
    assert_eq!(val(stats.get_avg(Metric::WsParse)), 12.5);
    assert_eq!(val(stats.get_avg(Metric::Render)), 1_500.0);
    assert_eq!(stats.ws_parse, Tally { total: 25, count: 2 });
    assert_eq!(stats.summary(), expected(&stats));
    assert_eq!(val(stats.get_avg_in_thousands(Metric::Processing)), 123.456);
    assert_eq!(val(stats::in_millis(2_500)), 2.5);
}

#[test]
fn averages_are_those_of_the_samples() {
    let mut stats = ProfilingStats::default();
    let mut sum: u64 = 0;
    for i in 1..=200_u64 {
        let sample = (i * 7919) % 1_000;
        sum += sample;
        stats.record(Metric::Processing, sample);
        assert_eq!(val(stats.get_avg(Metric::Processing)), sum as f64 / i as f64);
        assert_eq!(stats.summary(), expected(&stats));
    }
    assert_eq!(val(stats.get_avg(Metric::Network)), 0.0);
}

#[test]
fn network_latency_is_in_milliseconds() {
    let mut stats = ProfilingStats::default();
    stats.record(Metric::Network, 100);
    stats.record(Metric::Network, 150);
    let summary = stats.summary();
    assert_eq!(summary.lines().last(), Some("└─ Network Lat:     125.0 ms (2 samples)"));
    let fresh = ProfilingStats::default().summary();
    let rest = |s: &str| s.lines().take(7).map(|l| l.to_string()).collect::<Vec<String>>();
    assert_eq!(rest(&summary), rest(&fresh));
}

#[test]
fn sums_wrap_around() {
    let mut stats = ProfilingStats::default();
    stats.record(Metric::WsParse, u64::MAX);
    stats.record(Metric::WsParse, 3);
    assert_eq!(stats.ws_parse, Tally { total: 2, count: 2 });
}

#[test]
fn reset_forgets_all_samples() {
    let mut stats = ProfilingStats::default();
    for metric in [
        Metric::WsParse,
        Metric::OrderbookUpdate,
        Metric::LockAcquire,
        Metric::Render,
        Metric::Aggregation,
        Metric::Network,
        Metric::Processing,
    ] {
        stats.record(metric, 5);
        assert_eq!(val(stats.get_avg(metric)), 5.0);
    }
    stats.reset();
    assert_eq!(stats, ProfilingStats::default());
}

#[test]
fn numbers_print_with_one_place() {
    let mut x: u64 = 3;
    let mut next = || {
        x = x.wrapping_mul(6364136223846793005).wrapping_add(1442695040888963407);
        x
    };
    let fixed = [
        (1, 20), (1, 25), (1, 4), (3, 4), (7, 20), (19, 20), (21, 20), (5, 4), (199, 20), (25, 2),
        (1999, 20), (u64::MAX, 1), (u64::MAX, 2), (1, u64::MAX), (u64::MAX, u64::MAX), (0, 7),
        (9007199254740995, 2), (50, 1), (250, 1), (350, 1), (150, 1), (999_950, 1), (50, 1000),
    ];
    for i in 0..300 {
        let mut stats = ProfilingStats::default();
        let tally = if i < fixed.len() {
            Tally { total: fixed[i].0, count: fixed[i].1 }
        } else {
            Tally { total: next() >> (i % 60), count: next() >> (next() % 63) }
        };
        stats.ws_parse = tally;
        stats.render = tally;
        stats.network = Tally { total: next() >> 20, count: (next() >> 50) + 1 };
        stats.lock_acquire = Tally { total: (next() >> 40) * 5, count: 100 };
        assert_eq!(stats.summary(), expected(&stats));
    }
}
