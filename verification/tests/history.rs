use cli_ob::binary64::Binary64;
use cli_ob::book::{DepthLevelDelta, DepthSide, OrderBook};
use cli_ob::depth::{
    DepthDeltaEvent, DepthSlice, EventDepthHistory, DEPTH_DELTA_TO_CHECKPOINT_THRESHOLD,
};

fn num(x: f64) -> Binary64 {
    Binary64::from_bits(x.to_bits())
}

fn val(x: Binary64) -> f64 {
    f64::from_bits(x.to_bits())
}

fn assert_close(left: f64, right: f64, tol: f64) {
    assert!((left - right).abs() <= tol, "left={left}, right={right}, tol={tol}");
}

fn delta(side: DepthSide, price: f64, qty: f64) -> DepthLevelDelta {
    DepthLevelDelta { side, price: num(price), qty: num(qty) }
}

fn bids_of(slice: &DepthSlice) -> Vec<(f64, f64)> {
    slice.levels[..slice.bids_len].iter().map(|(p, q)| (val(*p), val(*q))).collect()
}

fn asks_of(slice: &DepthSlice) -> Vec<(f64, f64)> {
    slice.levels[slice.bids_len..].iter().map(|(p, q)| (val(*p), val(*q))).collect()
}

fn small_book() -> OrderBook {
    let mut book = OrderBook::new();
    book.bids.insert(num(100.0), num(1.0));
    book.asks.insert(num(101.0), num(1.0));
    book
}

#[test]
fn event_depth_history_push_and_prune_by_age() {
    let mut book = OrderBook::new();
    book.bids.insert(num(100.0), num(1.0));
    book.asks.insert(num(101.0), num(1.0));

    let mut history = EventDepthHistory::new();
    history.reset_from_book(&book, 100_000, 1);

    history.push_event(200_000, 2, vec![delta(DepthSide::Bid, 99.0, 2.0)], &book);
    history.push_event(350_000, 3, vec![delta(DepthSide::Ask, 102.0, 3.0)], &book);

    history.prune(600_000);

    assert!(history.deltas.is_empty());
    assert!(!history.checkpoints.is_empty());
}

#[test]
fn event_depth_history_enforces_memory_cap() {
    let mut book = OrderBook::new();
    for i in 0..500 {
        book.bids.insert(num(100.0 + i as f64), num(1000.0));
        book.asks.insert(num(200.0 + i as f64), num(1000.0));
    }

    let mut history = EventDepthHistory::new();
    history.max_bytes = 1024;
    history.reset_from_book(&book, 1_000, 1);

    for i in 0..100 {
        history.push_event(
            2_000 + i * 100,
            2 + i,
            vec![delta(DepthSide::Bid, 99.0, i as f64)],
            &book,
        );
    }

    history.prune(100_000);

    assert!(!history.checkpoints.is_empty());
    assert_eq!(history.checkpoints.len(), 1);
    assert!(history.deltas.is_empty());
}

#[test]
fn delta_threshold_promotes_checkpoint() {
    let mut book = OrderBook::new();
    book.bids.insert(num(100.0), num(1.0));
    book.asks.insert(num(101.0), num(1.0));

    let mut history = EventDepthHistory::new();
    history.reset_from_book(&book, 1_000, 1);
    let initial_checkpoints = history.checkpoints.len();

    let large_changes: Vec<DepthLevelDelta> = (0..DEPTH_DELTA_TO_CHECKPOINT_THRESHOLD)
        .map(|i| delta(DepthSide::Bid, 50.0 + i as f64 * 0.01, 1.0))
        .collect();

    history.push_event(2_000, 2, large_changes, &book);

    assert_eq!(history.checkpoints.len(), initial_checkpoints + 1);
    assert!(history.deltas.is_empty());
}

#[test]
fn materialize_columns_replays_deltas_correctly() {
    let mut book = OrderBook::new();
    book.bids.insert(num(100.0), num(5.0));
    book.asks.insert(num(101.0), num(3.0));

    let mut history = EventDepthHistory::new();
    history.reset_from_book(&book, 1_000, 1);

    book.bids.insert(num(100.0), num(10.0));
    history.push_event(1_500, 2, vec![delta(DepthSide::Bid, 100.0, 10.0)], &book);

    let columns = history.materialize_columns(1_000, 2_000, 2);
    assert_eq!(columns.len(), 2);

    let col0 = &columns[0];
    let bid_qty_0: f64 = bids_of(col0)
        .iter()
        .find(|(p, _)| (*p - 100.0).abs() < 1e-9)
        .map(|(_, q)| *q)
        .unwrap_or(0.0);
    assert_close(bid_qty_0, 5.0, 1e-9);

    let col1 = &columns[1];
    let bid_qty_1: f64 = bids_of(col1)
        .iter()
        .find(|(p, _)| (*p - 100.0).abs() < 1e-9)
        .map(|(_, q)| *q)
        .unwrap_or(0.0);
    assert_close(bid_qty_1, 10.0, 1e-9);
    assert_eq!(col0.timestamp_ms, 1_000);
    assert_eq!(col1.timestamp_ms, 1_500);
}

#[test]
fn reset_from_book_clears_old_state() {
    let mut book = OrderBook::new();
    book.bids.insert(num(100.0), num(1.0));

    let mut history = EventDepthHistory::new();
    history.reset_from_book(&book, 1_000, 1);
    history.push_event(2_000, 2, vec![delta(DepthSide::Bid, 99.0, 2.0)], &book);

    let mut new_book = OrderBook::new();
    new_book.bids.insert(num(200.0), num(5.0));
    history.reset_from_book(&new_book, 10_000, 100);

    assert_eq!(history.checkpoints.len(), 1);
    assert!(history.deltas.is_empty());
    assert_eq!(history.checkpoints[0].timestamp_ms, 10_000);
}

#[test]
fn events_never_go_back_in_time() {
    let book = small_book();
    let mut history = EventDepthHistory::new();
    history.reset_from_book(&book, 5_000, 1);
    history.push_event(4_000, 2, vec![delta(DepthSide::Bid, 99.0, 2.0)], &book);
    assert_eq!(history.deltas[0].timestamp_ms, 5_000);
    history.push_event(5_500, 3, vec![], &book);
    history.push_event(5_200, 4, vec![], &book);
    assert_eq!(history.deltas[2].timestamp_ms, 5_500);
    assert_eq!(history.time_range(), Some((5_000, 5_500)));
}

#[test]
fn a_checkpoint_follows_when_one_is_due() {
    let book = small_book();
    let mut history = EventDepthHistory::new();
    history.reset_from_book(&book, 5_000, 1);
    history.push_event(5_999, 2, vec![], &book);
    assert_eq!(history.checkpoints.len(), 1);
    history.push_event(6_000, 3, vec![], &book);
    assert_eq!(history.checkpoints.len(), 2);
    assert_eq!(history.deltas.len(), 2);
    assert_eq!(history.last_checkpoint_ms, 6_000);
    assert_eq!(history.checkpoints[1].update_id, 3);
}

#[test]
fn the_range_of_an_empty_history_is_none() {
    let history = EventDepthHistory::new();
    assert_eq!(history.time_range(), None);
    assert!(history.materialize_columns(0, 100, 10).is_empty());
}

#[test]
fn no_columns_without_time_or_room() {
    let book = small_book();
    let mut history = EventDepthHistory::new();
    history.reset_from_book(&book, 5_000, 1);
    assert!(history.materialize_columns(5_000, 5_000, 10).is_empty());
    assert!(history.materialize_columns(5_001, 5_000, 10).is_empty());
    assert!(history.materialize_columns(5_000, 6_000, 0).is_empty());
    assert_eq!(history.materialize_columns(5_000, 5_003, 10).len(), 3);
}

#[test]
fn columns_are_evenly_spaced() {
    let book = small_book();
    let mut history = EventDepthHistory::new();
    history.reset_from_book(&book, 1_000, 1);
    let columns = history.materialize_columns(1_000, 2_000, 7);
    let step = 1000.0 / 7.0;
    for (i, column) in columns.iter().enumerate() {
        assert_eq!(column.timestamp_ms, 1_000 + (i as f64 * step) as u64);
    }
    let columns = history.materialize_columns(0, u64::MAX, 3);
    let step = u64::MAX as f64 / 3.0;
    for (i, column) in columns.iter().enumerate() {
        assert_eq!(column.timestamp_ms, (i as f64 * step) as u64);
    }
}

#[test]
fn the_past_is_read_back_as_it_was() {
    let mut book = small_book();
    let mut history = EventDepthHistory::new();
    history.reset_from_book(&book, 10_000, 1);
    let mut recorded: Vec<(u64, Vec<(f64, f64)>, Vec<(f64, f64)>)> = vec![];
    let mut x: u64 = 99;
    for i in 0..60_u64 {
        x = x.wrapping_mul(6364136223846793005).wrapping_add(1442695040888963407);
        let price = 90.0 + ((x >> 33) % 20) as f64;
        let qty = ((x >> 50) % 4) as f64;
        let side = if (x >> 40) % 2 == 0 { DepthSide::Bid } else { DepthSide::Ask };
        let change = delta(side, price, qty);
        match side {
            DepthSide::Bid => cli_ob::book::change_level(&mut book.bids, num(price), num(qty)),
            DepthSide::Ask => cli_ob::book::change_level(&mut book.asks, num(price), num(qty)),
        }
        let time = 10_000 + i * 130;
        history.push_event(time, i + 2, vec![change], &book);
        let pair = |v: Vec<(Binary64, Binary64)>| -> Vec<(f64, f64)> {
            v.iter().map(|(p, q)| (val(*p), val(*q))).collect()
        };
        recorded.push((time, pair(book.bids.to_vec()), pair(book.asks.to_vec())));
    }
    for (time, bids, asks) in &recorded {
        let columns = history.materialize_columns(*time, *time + 1, 1);
        assert_eq!(columns.len(), 1);
        assert_eq!(&bids_of(&columns[0]), bids, "bids at {time}");
        assert_eq!(&asks_of(&columns[0]), asks, "asks at {time}");
    }
    for count in [2, 3, 7, 20, 500] {
        let columns = history.materialize_columns(10_000, 19_000, count);
        assert_eq!(columns.len(), count);
        for column in &columns {
            let last = recorded.iter().filter(|(t, _, _)| *t <= column.timestamp_ms).last();
            let (time, bids, asks) = last.unwrap();
            assert_eq!(&bids_of(column), bids, "bids of {time} at {}", column.timestamp_ms);
            assert_eq!(&asks_of(column), asks, "asks of {time} at {}", column.timestamp_ms);
        }
    }
}

#[test]
fn events_after_a_checkpoint_on_the_way_are_shown() {
    let mut book = small_book();
    let mut history = EventDepthHistory::new();
    history.reset_from_book(&book, 1_000, 1);
    book.bids.insert(num(99.0), num(7.0));
    history.push_event(2_000, 2, vec![delta(DepthSide::Bid, 99.0, 7.0)], &book);
    assert_eq!(history.checkpoints.len(), 2);
    book.bids.insert(num(98.0), num(3.0));
    history.push_event(2_100, 3, vec![delta(DepthSide::Bid, 98.0, 3.0)], &book);
    // The second column stands at 2500 and comes upon the checkpoint of 2000.
    let columns = history.materialize_columns(1_500, 3_500, 2);
    assert_eq!(bids_of(&columns[0]), vec![(100.0, 1.0)]);
    assert_eq!(bids_of(&columns[1]), vec![(98.0, 3.0), (99.0, 7.0), (100.0, 1.0)]);
}

#[test]
fn a_column_shows_the_book_of_its_time() {
    let mut book = OrderBook::new();
    book.bids.insert(num(100.0), num(1.0));
    let mut history = EventDepthHistory::new();
    history.reset_from_book(&book, 1_000, 1);
    book.bids.insert(num(100.0), num(2.0));
    history.push_event(2_000, 2, vec![delta(DepthSide::Bid, 100.0, 2.0)], &book);
    book.bids.insert(num(100.0), num(3.0));
    history.push_event(2_400, 3, vec![delta(DepthSide::Bid, 100.0, 3.0)], &book);
    let columns = history.materialize_columns(1_000, 4_000, 2);
    assert_eq!(columns.len(), 2);
    assert_eq!((columns[0].timestamp_ms, columns[0].bids_len), (1_000, 1));
    assert_eq!(bids_of(&columns[0]), vec![(100.0, 1.0)]);
    assert_eq!((columns[1].timestamp_ms, columns[1].bids_len), (2_500, 1));
    assert_eq!(bids_of(&columns[1]), vec![(100.0, 3.0)]);
    assert!(asks_of(&columns[1]).is_empty());
}

#[test]
fn before_the_first_checkpoint_its_book_is_shown() {
    let book = small_book();
    let mut history = EventDepthHistory::new();
    history.reset_from_book(&book, 5_000, 1);
    let columns = history.materialize_columns(1_000, 2_000, 1);
    assert_eq!(bids_of(&columns[0]), vec![(100.0, 1.0)]);
    assert_eq!(asks_of(&columns[0]), vec![(101.0, 1.0)]);
}

#[test]
fn pruning_counts_memory_and_is_done_once() {
    let book = small_book();
    let mut history = EventDepthHistory::new();
    history.reset_from_book(&book, 0, 1);
    for i in 1..400_u64 {
        history.push_event(i * 1_000, i, vec![delta(DepthSide::Bid, 99.0, i as f64)], &book);
    }
    let total = |h: &EventDepthHistory| -> usize {
        h.checkpoints.iter().map(|c| c.estimated_bytes()).sum::<usize>()
            + h.deltas.iter().map(|d| d.estimated_bytes()).sum::<usize>()
    };
    assert_eq!(history.approx_bytes, total(&history));
    history.prune(399_000);
    assert_eq!(history.deltas[0].timestamp_ms, 219_000);
    assert_eq!(history.checkpoints[0].timestamp_ms, 219_000);
    assert_eq!(history.approx_bytes, total(&history));
    let (checkpoints, deltas) = (history.checkpoints.len(), history.deltas.len());
    history.prune(399_000);
    assert_eq!((checkpoints, deltas), (history.checkpoints.len(), history.deltas.len()));
    history.max_bytes = history.approx_bytes / 2;
    history.prune(399_000);
    assert!(history.approx_bytes <= history.max_bytes);
    assert!(!history.checkpoints.is_empty());
    assert_eq!(history.approx_bytes, total(&history));
}

#[test]
fn every_call_keeps_the_count() {
    let book = small_book();
    let mut history = EventDepthHistory::new();
    let mut x: u64 = 17;
    for i in 0..400_u64 {
        x = x.wrapping_mul(6364136223846793005).wrapping_add(1442695040888963407);
        match (x >> 40) % 12 {
            0 => history.reset_from_book(&book, i * 700, i),
            1 | 2 => history.prune(i * 700),
            _ => history.push_event(
                i * 700,
                i,
                vec![delta(DepthSide::Bid, 99.0, i as f64); ((x >> 50) % 5) as usize],
                &book,
            ),
        }
        let total = history.checkpoints.iter().map(|c| c.estimated_bytes()).sum::<usize>()
            + history.deltas.iter().map(|d| d.estimated_bytes()).sum::<usize>();
        assert_eq!(history.approx_bytes, total);
        assert_eq!(history.max_age_ms, 180_000);
        assert_eq!(history.max_bytes, 160 * 1024 * 1024);
        assert_eq!(history.target_checkpoint_interval_ms, 1_000);
    }
}

#[test]
fn estimates_count_the_payload() {
    let book = small_book();
    let mut history = EventDepthHistory::new();
    history.reset_from_book(&book, 0, 1);
    let checkpoint = &history.checkpoints[0];
    assert_eq!(
        checkpoint.estimated_bytes(),
        std::mem::size_of::<cli_ob::depth::DepthCheckpoint>() + 2 * 16
    );
    assert_eq!(checkpoint.bids_len, 1);
}

#[test]
fn columns_stand_before_the_end() {
    let book = small_book();
    let mut history = EventDepthHistory::new();
    history.reset_from_book(&book, 0, 1);
    for span in [1, 2, 3, 999, 1_000, 123_456_789] {
        for count in [1, 2, 7, 64] {
            let columns = history.materialize_columns(50, 50 + span, count);
            let mut last = 0;
            for column in &columns {
                assert!(column.timestamp_ms >= 50 && column.timestamp_ms < 50 + span);
                assert!(column.timestamp_ms >= last);
                last = column.timestamp_ms + 1;
            }
        }
    }
}

fn burst(price: f64, qty: f64) -> Vec<DepthLevelDelta> {
    (0..DEPTH_DELTA_TO_CHECKPOINT_THRESHOLD).map(|_| delta(DepthSide::Bid, price, qty)).collect()
}

#[test]
fn a_burst_at_the_time_of_an_event_is_shown() {
    let mut book = small_book();
    let mut history = EventDepthHistory::new();
    history.reset_from_book(&book, 1_000, 1);
    book.bids.insert(num(99.0), num(2.0));
    history.push_event(1_500, 2, vec![delta(DepthSide::Bid, 99.0, 2.0)], &book);
    book.bids.insert(num(99.0), num(5.0));
    history.push_event(1_500, 3, burst(99.0, 5.0), &book);
    let shown = vec![(99.0, 5.0), (100.0, 1.0)];
    let columns = history.materialize_columns(1_500, 1_501, 1);
    assert_eq!(bids_of(&columns[0]), shown);
    let columns = history.materialize_columns(1_000, 2_000, 4);
    assert_eq!(bids_of(&columns[1]), vec![(100.0, 1.0)]);
    assert_eq!(bids_of(&columns[2]), shown);
    assert_eq!(bids_of(&columns[3]), shown);
    // An event after the burst, given an earlier time, is recorded at its time.
    book.bids.insert(num(98.0), num(4.0));
    history.push_event(1_400, 4, vec![delta(DepthSide::Bid, 98.0, 4.0)], &book);
    assert_eq!(history.deltas[1].timestamp_ms, 1_500);
    let columns = history.materialize_columns(1_500, 1_501, 1);
    assert_eq!(bids_of(&columns[0]), vec![(98.0, 4.0), (99.0, 5.0), (100.0, 1.0)]);
}

#[test]
fn a_burst_is_shown_after_the_start_is_dropped() {
    let mut book = small_book();
    let mut history = EventDepthHistory::new();
    history.reset_from_book(&book, 1_000, 1);
    book.bids.insert(num(99.0), num(2.0));
    history.push_event(1_500, 2, vec![delta(DepthSide::Bid, 99.0, 2.0)], &book);
    book.bids.insert(num(99.0), num(5.0));
    history.push_event(1_500, 3, burst(99.0, 5.0), &book);
    assert!(!history.starts_midway);
    history.prune(181_200);
    assert!(history.starts_midway);
    assert_eq!((history.checkpoints.len(), history.deltas.len()), (1, 1));
    let columns = history.materialize_columns(1_500, 2_500, 2);
    assert_eq!(bids_of(&columns[0]), vec![(99.0, 5.0), (100.0, 1.0)]);
    assert_eq!(bids_of(&columns[1]), vec![(99.0, 5.0), (100.0, 1.0)]);
    history.reset_from_book(&small_book(), 9_000, 9);
    assert!(!history.starts_midway);
}

#[test]
fn a_burst_before_any_other_checkpoint_is_shown() {
    let mut book = small_book();
    let mut history = EventDepthHistory::new();
    book.bids.insert(num(99.0), num(2.0));
    history.push_event(500, 2, vec![delta(DepthSide::Bid, 99.0, 2.0)], &book);
    assert!(history.checkpoints.is_empty());
    book.bids.insert(num(99.0), num(5.0));
    history.push_event(500, 3, burst(99.0, 5.0), &book);
    assert!(history.starts_midway);
    let columns = history.materialize_columns(500, 501, 1);
    assert_eq!(bids_of(&columns[0]), vec![(99.0, 5.0), (100.0, 1.0)]);
}

#[test]
fn events_at_the_time_of_the_start_are_shown() {
    for update_id in [0, 7, 8] {
        let book = small_book();
        let mut history = EventDepthHistory::new();
        history.reset_from_book(&book, 1_000, 7);
        history.deltas.push_back(std::sync::Arc::new(DepthDeltaEvent {
            timestamp_ms: 1_000,
            update_id,
            changes: vec![delta(DepthSide::Bid, 100.0, 4.0)],
        }));
        let columns = history.materialize_columns(1_000, 1_001, 1);
        assert_eq!(bids_of(&columns[0]), vec![(100.0, 4.0)]);
    }
}

#[test]
fn events_of_equal_times_are_read_back() {
    let mut book = small_book();
    let mut history = EventDepthHistory::new();
    history.reset_from_book(&book, 10_000, 1);
    let mut recorded: Vec<(u64, Vec<(f64, f64)>)> = vec![];
    let mut x: u64 = 5;
    let mut time = 10_000;
    for i in 0..80_u64 {
        x = x.wrapping_mul(6364136223846793005).wrapping_add(1442695040888963407);
        let price = 90.0 + ((x >> 33) % 6) as f64;
        let qty = ((x >> 50) % 4) as f64;
        time += ((x >> 40) % 3) * 400;
        cli_ob::book::change_level(&mut book.bids, num(price), num(qty));
        let changes = if (x >> 45) % 4 == 0 {
            burst(price, qty)
        } else {
            vec![delta(DepthSide::Bid, price, qty)]
        };
        history.push_event(time, i + 2, changes, &book);
        let bids = book.bids.to_vec().iter().map(|(p, q)| (val(*p), val(*q))).collect();
        recorded.push((time, bids));
    }
    for count in [1, 5, 64, 333] {
        for column in &history.materialize_columns(10_000, time + 400, count) {
            let last = recorded.iter().filter(|(t, _)| *t <= column.timestamp_ms).last();
            if let Some((_, bids)) = last {
                assert_eq!(&bids_of(column), bids, "at {}", column.timestamp_ms);
            }
        }
    }
}

#[test]
fn columns_of_long_spans_are_evenly_spaced() {
    let mut history = EventDepthHistory::new();
    history.reset_from_book(&small_book(), 0, 1);
    for (span, count) in [(15 * (1_u64 << 48) + 7, 15), ((1_u64 << 52) - 1, 977), (180_000, 640)] {
        for (i, column) in history.materialize_columns(0, span, count).iter().enumerate() {
            let share = i as i128 * span as i128;
            let stands = count as i128 * column.timestamp_ms as i128;
            assert!(share - 2 * (count as i128) < stands && stands < share + count as i128);
        }
    }
}

#[test]
fn a_quiet_history_loses_events_to_age() {
    let mut book = small_book();
    let mut history = EventDepthHistory::new();
    history.reset_from_book(&book, 0, 1);
    book.bids.insert(num(99.0), num(2.0));
    history.push_event(500, 2, vec![delta(DepthSide::Bid, 99.0, 2.0)], &book);
    history.prune(180_500);
    assert_eq!(history.deltas.len(), 1);
    history.prune(180_501);
    assert!(history.deltas.is_empty());
    assert_eq!(history.checkpoints.len(), 1);
}
