use cli_ob::binary64::Binary64;
use cli_ob::depth::HISTORY_MAX_AGE_MS;
use cli_ob::trades::{Trade, TradeHistory};

fn num(x: f64) -> Binary64 {
    Binary64::from_bits(x.to_bits())
}

fn val(x: Binary64) -> f64 {
    f64::from_bits(x.to_bits())
}

fn assert_close(left: f64, right: f64, tol: f64) {
    assert!((left - right).abs() <= tol, "left={left}, right={right}, tol={tol}");
}

fn trade(timestamp_ms: u64, received_at_ms: u64, price: f64, quantity: f64, is_buy: bool) -> Trade {
    Trade { timestamp_ms, received_at_ms, price: num(price), quantity: num(quantity), is_buy }
}

#[test]
fn rolling_tps_returns_zero_for_empty_history() {
    let history = TradeHistory::new(300_000);
    assert_eq!(val(history.rolling_tps(100_000, 10_000)), 0.0);
}

#[test]
fn rolling_tps_returns_zero_when_all_trades_are_older_than_window() {
    let mut history = TradeHistory::new(300_000);
    history.trades.push_back(trade(89_000, 89_000, 100.0, 1.0, true));
    history.trades.push_back(trade(89_500, 89_500, 100.0, 1.0, false));

    assert_eq!(val(history.rolling_tps(100_000, 10_000)), 0.0);
}

#[test]
fn rolling_tps_counts_only_trades_inside_window() {
    let mut history = TradeHistory::new(300_000);
    history.trades.push_back(trade(89_999, 89_999, 100.0, 1.0, true));
    history.trades.push_back(trade(90_000, 90_000, 101.0, 2.0, false));
    history.trades.push_back(trade(95_000, 95_000, 102.0, 1.0, true));
    history.trades.push_back(trade(99_500, 99_500, 103.0, 3.0, false));

    let tps = history.rolling_tps(100_000, 10_000);
    assert_close(val(tps), 0.3, 1e-12);
}

#[test]
fn rolling_tps_includes_trade_at_exact_cutoff() {
    let mut history = TradeHistory::new(300_000);
    history.trades.push_back(trade(90_000, 90_000, 100.0, 1.0, true));

    let tps = history.rolling_tps(100_000, 10_000);
    assert_close(val(tps), 0.1, 1e-12);
}

#[test]
fn rolling_tps_handles_dense_burst_with_decimal_result() {
    let mut history = TradeHistory::new(300_000);
    for i in 0..37_u64 {
        history.trades.push_back(trade(90_000 + i, 90_000 + i, 100.0, 1.0, i % 2 == 0));
    }

    let tps = history.rolling_tps(100_000, 10_000);
    assert_close(val(tps), 3.7, 1e-12);
}

#[test]
fn trade_history_prunes_without_new_trades() {
    let mut history = TradeHistory::new(HISTORY_MAX_AGE_MS);
    history.trades.push_back(trade(1_000, 1_000, 100.0, 1.0, true));
    history.trades.push_back(trade(2_000, 2_000, 101.0, 1.0, false));
    history.trades.push_back(trade(310_000, 310_000, 102.0, 1.0, true));

    let removed = history.prune_now(400_000);

    assert_eq!(removed, 2);
    assert_eq!(history.trades.len(), 1);
    assert_eq!(history.trades.front().map(|trade| trade.received_at_ms), Some(310_000));
}

#[test]
fn trade_history_uses_received_at_for_retention() {
    let mut history = TradeHistory::new(HISTORY_MAX_AGE_MS);
    history.trades.push_back(trade(399_000, 90_000, 101.0, 1.0, false));
    history.trades.push_back(trade(1_000, 350_000, 100.0, 1.0, true));

    let removed = history.prune_now(400_000);

    assert_eq!(removed, 1);
    assert_eq!(history.trades.len(), 1);
    assert_eq!(history.trades.front().map(|trade| trade.timestamp_ms), Some(1_000));
    assert_eq!(history.trades.front().map(|trade| trade.received_at_ms), Some(350_000));
}

#[test]
fn an_added_trade_stays_and_old_ones_go() {
    let mut history = TradeHistory::new(1_000);
    history.add_trade(trade(1, 10_000, 1.0, 1.0, true));
    history.add_trade(trade(2, 11_000, 2.0, 1.0, true));
    assert_eq!(history.trades.len(), 2);
    history.add_trade(trade(3, 11_001, 3.0, 1.0, true));
    assert_eq!(history.trades.len(), 2);
    assert_eq!(history.trades[0].timestamp_ms, 2);
    history.add_trade(trade(4, 50_000, 4.0, 1.0, true));
    assert_eq!(history.trades.len(), 1);
    assert_eq!(history.trades[0].timestamp_ms, 4);
}

#[test]
fn a_window_of_nothing_has_no_rate() {
    let mut history = TradeHistory::new(1_000);
    history.add_trade(trade(1, 10_000, 1.0, 1.0, true));
    assert_eq!(val(history.rolling_tps(1, 0)), 0.0);
    assert_eq!(val(history.rolling_tps(1, 3)), 1.0 / (3.0 / 1000.0));
}

#[test]
fn room_is_given_back_after_a_burst() {
    let mut history = TradeHistory::new(1_000);
    for i in 0..5_000_u64 {
        history.trades.push_back(trade(i, 0, 1.0, 1.0, true));
    }
    for i in 0..100_u64 {
        history.trades.push_back(trade(i, 9_999, 2.0, 1.0, false));
    }
    assert!(history.trades.capacity() >= 5_100);
    assert_eq!(history.prune_now(10_000), 5_000);
    assert_eq!(history.trades.len(), 100);
    assert!(history.trades.capacity() < 1_024);
    assert!(history.trades.iter().all(|t| !t.is_buy && t.received_at_ms == 9_999));
    assert_eq!(history.prune_now(10_000), 0);
}
