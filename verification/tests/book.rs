use cli_ob::binary64::Binary64;
use cli_ob::book::{DepthSide, OrderBook};
use cli_ob::impact::MarketImpact;
use cli_ob::messages::{RestDepthResponse, WsDepthUpdate};
use cli_ob::levels::PriceLevels;

fn num(x: f64) -> Binary64 {
    Binary64::from_bits(x.to_bits())
}

fn val(x: Binary64) -> f64 {
    f64::from_bits(x.to_bits())
}

fn assert_close(left: Binary64, right: f64, tol: f64) {
    let left = val(left);
    assert!((left - right).abs() <= tol, "left={left}, right={right}, tol={tol}");
}

fn entries(list: &[(&str, &str)]) -> Vec<[String; 2]> {
    list.iter().map(|(p, q)| [p.to_string(), q.to_string()]).collect()
}

fn update(id: u64, bids: &[(&str, &str)], asks: &[(&str, &str)]) -> WsDepthUpdate {
    WsDepthUpdate {
        event_type: "depthUpdate".to_string(),
        event_time: 1_000 + id,
        transaction_time: 1_000 + id,
        symbol: "BTCUSDT".to_string(),
        first_update_id: id,
        final_update_id: id,
        prev_final_update_id: id - 1,
        bids: entries(bids),
        asks: entries(asks),
    }
}

fn levels(side: &PriceLevels) -> Vec<(f64, f64)> {
    side.to_vec().iter().map(|(p, q)| (val(*p), val(*q))).collect()
}

#[test]
fn estimate_market_impact_buy_with_partial_last_level() {
    let mut book = OrderBook::new();
    book.asks.insert(num(100.0), num(1.0));
    book.asks.insert(num(101.0), num(2.0));

    let impact = book.estimate_market_impact(num(150.0), true, num(100.0));

    assert!(impact.fully_filled);
    assert_eq!(impact.levels_consumed, 2);
    assert_close(impact.total_notional, 150.0, 1e-9);
    assert_close(impact.total_qty_filled, 1.495049504950495, 1e-12);
    assert_close(impact.avg_fill_price, 100.33112582781457, 1e-10);
    assert_close(impact.worst_fill_price, 101.0, 1e-9);
    assert_close(impact.slippage_bps, 33.11258278145695, 1e-9);
}

#[test]
fn estimate_market_impact_sell_partial_when_book_is_thin() {
    let mut book = OrderBook::new();
    book.bids.insert(num(99.0), num(1.0));
    book.bids.insert(num(98.0), num(1.0));

    let impact = book.estimate_market_impact(num(300.0), false, num(100.0));

    assert!(!impact.fully_filled);
    assert_eq!(impact.levels_consumed, 2);
    assert_close(impact.total_notional, 197.0, 1e-9);
    assert_close(impact.total_qty_filled, 2.0, 1e-9);
    assert_close(impact.avg_fill_price, 98.5, 1e-9);
    assert_close(impact.worst_fill_price, 98.0, 1e-9);
    assert_close(impact.slippage_pct, 1.5, 1e-9);
}

#[test]
fn estimate_market_impact_zero_notional_returns_default() {
    let book = OrderBook::new();
    let impact = book.estimate_market_impact(num(0.0), true, num(100.0));
    assert_eq!(
        impact,
        MarketImpact {
            avg_fill_price: num(0.0),
            worst_fill_price: num(0.0),
            slippage_bps: num(0.0),
            slippage_pct: num(0.0),
            levels_consumed: 0,
            total_qty_filled: num(0.0),
            total_notional: num(0.0),
            fully_filled: false,
        }
    );
}

#[test]
fn impact_is_exact_on_round_numbers() {
    let mut book = OrderBook::new();
    book.asks.insert(num(100.0), num(1.0));
    book.asks.insert(num(104.0), num(1.0));
    let impact = book.estimate_market_impact(num(204.0), true, num(100.0));
    assert!(impact.fully_filled);
    assert_eq!(val(impact.total_qty_filled), 2.0);
    assert_eq!(val(impact.avg_fill_price), 102.0);
    assert_eq!(val(impact.slippage_pct), 2.0);
    assert_eq!(val(impact.slippage_bps), 200.0);
    assert_eq!(val(impact.worst_fill_price), 104.0);
}

#[test]
fn deeper_levels_do_not_change_a_filled_order() {
    let mut book = OrderBook::new();
    book.asks.insert(num(100.0), num(5.0));
    let near = book.estimate_market_impact(num(300.0), true, num(99.0));
    book.asks.insert(num(150.0), num(5.0));
    let deep = book.estimate_market_impact(num(300.0), true, num(99.0));
    assert_eq!(near, deep);
}

#[test]
fn impact_skips_levels_that_cannot_trade() {
    let mut book = OrderBook::new();
    book.asks.insert(num(-1.0), num(5.0));
    book.asks.insert(num(10.0), num(0.0));
    book.asks.insert(num(20.0), num(1.0));
    let impact = book.estimate_market_impact(num(20.0), true, num(0.0));
    assert_eq!(impact.levels_consumed, 1);
    assert!(impact.fully_filled);
    assert_eq!(val(impact.avg_fill_price), 20.0);
    assert_eq!(val(impact.slippage_pct), 0.0);
}

#[test]
fn snapshot_replaces_the_book() {
    let mut book = OrderBook::new();
    book.bids.insert(num(1.0), num(1.0));
    book.clock_offset = 17;
    let snapshot = RestDepthResponse {
        last_update_id: 42,
        bids: entries(&[("99.5", "2"), ("99.0", "0"), ("bad", "1"), ("98", "x"), ("100", "-1")]),
        asks: entries(&[("101", "3"), ("100.5", "1.25"), ("101.0", "4")]),
    };
    book.apply_snapshot(&snapshot);
    assert_eq!(levels(&book.bids), vec![(99.5, 2.0)]);
    assert_eq!(levels(&book.asks), vec![(100.5, 1.25), (101.0, 4.0)]);
    assert_eq!(book.last_update_id, 42);
    assert_eq!(book.clock_offset, 17);
}

#[test]
fn updates_set_and_take_out_levels() {
    let mut book = OrderBook::new();
    book.apply_update(&update(1, &[("10", "1"), ("11", "2")], &[("12", "3")]));
    book.apply_update(&update(2, &[("10", "0"), ("9", "-0")], &[("12", "5"), ("13", "-1")]));
    assert_eq!(levels(&book.bids), vec![(11.0, 2.0)]);
    assert_eq!(levels(&book.asks), vec![(12.0, 5.0), (13.0, -1.0)]);
    assert_eq!(book.last_update_id, 2);
    assert_eq!(book.last_event_time, 1_002);
}

#[test]
fn the_two_zeros_and_the_non_numbers_are_one_price_each() {
    let mut book = OrderBook::new();
    book.apply_update(&update(1, &[("0", "1"), ("-0", "2"), ("nan", "3"), ("-nan", "4")], &[]));
    assert_eq!(book.bids.len(), 2);
    let first = book.bids.at(0);
    assert_eq!(first.0.to_bits(), 0);
    assert_eq!(val(first.1), 2.0);
    assert!(book.bids.at(1).0.is_nan());
    assert_eq!(val(book.bids.at(1).1), 4.0);
}

#[test]
fn tracked_updates_report_what_changes() {
    let mut book = OrderBook::new();
    book.apply_update(&update(1, &[("10", "1")], &[("12", "3")]));
    let deltas = book.apply_update_with_deltas(&update(
        2,
        &[("10", "1"), ("10", "1.5"), ("7", "0"), ("8", "oops")],
        &[("12", "0"), ("12", "0"), ("14", "1")],
    ));
    let seen: Vec<(DepthSide, f64, f64)> =
        deltas.iter().map(|d| (d.side, val(d.price), val(d.qty))).collect();
    assert_eq!(
        seen,
        vec![
            (DepthSide::Bid, 10.0, 1.5),
            (DepthSide::Ask, 12.0, 0.0),
            (DepthSide::Ask, 14.0, 1.0),
        ]
    );
    assert_eq!(levels(&book.bids), vec![(10.0, 1.5)]);
    assert_eq!(levels(&book.asks), vec![(14.0, 1.0)]);
}

#[test]
fn reported_changes_replay_to_the_same_book() {
    let mut book = OrderBook::new();
    book.apply_update(&update(1, &[("10", "1"), ("9", "2")], &[("12", "3")]));
    let mut copy = book.clone();
    let deltas = book.apply_update_with_deltas(&update(2, &[("9", "0")], &[("11.5", "7")]));
    for _ in 0..2 {
        for d in &deltas {
            let side = match d.side {
                DepthSide::Bid => &mut copy.bids,
                DepthSide::Ask => &mut copy.asks,
            };
            cli_ob::book::change_level(side, d.price, d.qty);
        }
        assert_eq!(levels(&copy.bids), levels(&book.bids));
        assert_eq!(levels(&copy.asks), levels(&book.asks));
    }
}

#[test]
fn tiny_changes_are_not_reported() {
    let mut book = OrderBook::new();
    book.apply_update(&update(1, &[("10", "1")], &[]));
    let deltas = book.apply_update_with_deltas(&update(2, &[("10", "1.0000000000000002")], &[]));
    assert!(deltas.is_empty());
    assert_eq!(levels(&book.bids), vec![(10.0, 1.0)]);
    let deltas = book.apply_update_with_deltas(&update(3, &[("11", "1e-16")], &[]));
    assert!(deltas.is_empty());
    assert_eq!(book.bids.len(), 1);
}

#[test]
fn best_prices_and_spread() {
    let mut book = OrderBook::new();
    assert!(book.best_bid().is_none());
    assert!(book.best_ask().is_none());
    assert!(book.spread().is_none());
    book.bids.insert(num(99.0), num(1.0));
    book.bids.insert(num(99.5), num(2.0));
    assert!(book.spread().is_none());
    book.asks.insert(num(101.0), num(3.0));
    book.asks.insert(num(100.25), num(4.0));
    assert_eq!(book.best_bid().map(|(p, q)| (val(p), val(q))), Some((99.5, 2.0)));
    assert_eq!(book.best_ask().map(|(p, q)| (val(p), val(q))), Some((100.25, 4.0)));
    assert_eq!(book.spread().map(val), Some(0.75));
}

#[test]
fn pruning_keeps_the_levels_closest_to_the_best() {
    let mut book = OrderBook::new();
    for i in 0..10 {
        book.bids.insert(num(90.0 + i as f64), num(1.0));
        book.asks.insert(num(101.0 + i as f64), num(1.0));
    }
    book.prune_to_max_levels(20);
    assert_eq!(book.bids.len(), 10);
    book.prune_to_max_levels(3);
    assert_eq!(levels(&book.bids), vec![(97.0, 1.0), (98.0, 1.0), (99.0, 1.0)]);
    assert_eq!(levels(&book.asks), vec![(101.0, 1.0), (102.0, 1.0), (103.0, 1.0)]);
    book.prune_to_max_levels(0);
    assert!(book.bids.is_empty());
    assert!(book.asks.is_empty());
}

#[test]
fn sides_behave_as_a_sorted_map() {
    let mut side = PriceLevels::new();
    let mut map = std::collections::BTreeMap::new();
    let mut x: u64 = 12345;
    for _ in 0..2000 {
        x = x.wrapping_mul(6364136223846793005).wrapping_add(1442695040888963407);
        let price = ((x >> 33) % 50) as f64 / 4.0;
        let qty = ((x >> 20) % 7) as f64;
        if qty == 0.0 {
            side.remove(num(price));
            map.remove(&ordered_float::OrderedFloat(price));
        } else {
            side.insert(num(price), num(qty));
            map.insert(ordered_float::OrderedFloat(price), qty);
        }
        assert_eq!(side.get(num(price)).map(val), map.get(&ordered_float::OrderedFloat(price)).copied());
    }
    let theirs: Vec<(f64, f64)> = map.iter().map(|(p, q)| (p.0, *q)).collect();
    assert_eq!(levels(&side), theirs);
    side.clear();
    assert!(side.first().is_none());
    assert!(side.last().is_none());
}

#[test]
fn the_worst_price_is_the_last_one_paid() {
    let mut book = OrderBook::new();
    for (p, q) in [(10.0, 1.0), (11.0, 1.0), (12.0, 1.0)] {
        book.asks.insert(num(p), num(q));
        book.bids.insert(num(p - 5.0), num(q));
    }
    let buy = book.estimate_market_impact(num(20.0), true, num(9.0));
    assert_eq!((buy.levels_consumed, val(buy.worst_fill_price)), (2, 11.0));
    let sell = book.estimate_market_impact(num(8.0), false, num(9.0));
    assert_eq!((sell.levels_consumed, val(sell.worst_fill_price)), (2, 6.0));
}

#[test]
fn no_level_is_left_without_a_quantity() {
    let mut book = OrderBook::new();
    book.apply_update(&update(1, &[("10", "1"), ("11", "0"), ("12", "-0.0"), ("10", "0e5")], &[]));
    assert!(book.bids.is_empty());
}

#[test]
fn a_larger_order_takes_no_fewer_levels() {
    let mut book = OrderBook::new();
    for i in 0..8 {
        book.asks.insert(num(100.1 + i as f64 * 0.3), num(0.7 + i as f64 * 0.11));
        book.bids.insert(num(99.9 - i as f64 * 0.3), num(0.9 + i as f64 * 0.07));
    }
    for is_buy in [true, false] {
        let mut last = book.estimate_market_impact(num(0.5), is_buy, num(100.0));
        for i in 1..400 {
            let wanted = num(0.5 + i as f64 * 2.37);
            let next = book.estimate_market_impact(wanted, is_buy, num(100.0));
            assert!(last.levels_consumed <= next.levels_consumed);
            assert!(last.fully_filled || !next.fully_filled);
            assert!(val(last.total_notional) <= val(next.total_notional));
            last = next;
        }
        assert!(!last.fully_filled);
    }
}

#[test]
fn a_larger_order_gets_no_better_price() {
    let mut book = OrderBook::new();
    for i in 0..8 {
        book.asks.insert(num(100.1 + i as f64 * 0.3), num(0.7 + i as f64 * 0.11));
        book.bids.insert(num(99.9 - i as f64 * 0.3), num(0.9 + i as f64 * 0.07));
    }
    // Eight levels, no price twice another.
    let slack = 1.0 + 11.0 / (1_u64 << 49) as f64;
    for is_buy in [true, false] {
        let mut last = book.estimate_market_impact(num(0.5), is_buy, num(100.0));
        for i in 1..400 {
            let wanted = num(0.5 + i as f64 * 2.37);
            let next = book.estimate_market_impact(wanted, is_buy, num(100.0));
            assert!(val(last.total_qty_filled) <= val(next.total_qty_filled) * slack);
            let (small, large) = (val(last.avg_fill_price), val(next.avg_fill_price));
            if is_buy {
                assert!(small <= large * slack);
            } else {
                assert!(large <= small * slack);
            }
            last = next;
        }
    }
    // At one price, the averages differ by rounding only.
    let price = 85.72100659068235;
    let mut book = OrderBook::new();
    book.asks.insert(num(price), num(1_000.0));
    let small = book.estimate_market_impact(num(818.7444910306795), true, num(price));
    let large = book.estimate_market_impact(num(1087.3538971435298), true, num(price));
    assert!(val(small.avg_fill_price) > val(large.avg_fill_price));
    assert!(val(small.avg_fill_price) <= val(large.avg_fill_price) * slack);
}
