use cli_ob::messages::WsDepthUpdate;
use cli_ob::sync;
use cli_ob::sync::{DepthSync, SyncStep};

fn update(first: u64, last: u64, prev: u64) -> WsDepthUpdate {
    WsDepthUpdate {
        event_type: "depthUpdate".to_string(),
        event_time: 0,
        transaction_time: 0,
        symbol: "BTCUSDT".to_string(),
        first_update_id: first,
        final_update_id: last,
        prev_final_update_id: prev,
        bids: vec![],
        asks: vec![],
    }
}

#[test]
fn buffered_updates_bridge_the_snapshot() {
    let mut s = DepthSync::new(100);
    assert_eq!(s.on_buffered(&update(80, 90, 79)), SyncStep::Skip);
    assert_eq!(s.on_buffered(&update(91, 100, 90)), SyncStep::Skip);
    assert_eq!(s.on_buffered(&update(101, 110, 100)), SyncStep::Skip);
    assert!(!s.synced);
    assert_eq!(s.on_buffered(&update(95, 105, 94)), SyncStep::Bridge);
    assert!(s.synced);
    assert_eq!(s.last_final_update_id, 105);
    assert_eq!(s.on_buffered(&update(106, 110, 105)), SyncStep::Apply);
    assert_eq!(s.on_buffered(&update(120, 130, 119)), SyncStep::Skip);
    assert_eq!(s.on_buffered(&update(50, 60, 110)), SyncStep::Skip);
    assert_eq!(s.last_final_update_id, 110);
}

#[test]
fn live_updates_bridge_the_snapshot_too() {
    let mut s = DepthSync::new(100);
    assert_eq!(s.on_live(&update(80, 90, 79)), SyncStep::Skip);
    assert_eq!(s.on_live(&update(101, 110, 100)), SyncStep::Skip);
    assert_eq!(s.on_live(&update(100, 101, 99)), SyncStep::Bridge);
    assert_eq!(s.on_live(&update(102, 103, 101)), SyncStep::Apply);
    assert_eq!(s.on_live(&update(102, 103, 101)), SyncStep::Skip);
}

#[test]
fn a_gap_is_reported_and_changes_nothing() {
    let mut s = DepthSync::new(100);
    assert_eq!(s.on_live(&update(100, 105, 99)), SyncStep::Bridge);
    let before = s;
    assert_eq!(s.on_live(&update(110, 115, 109)), SyncStep::Gap);
    assert_eq!(s, before);
    assert_eq!(s.on_live(&update(106, 109, 105)), SyncStep::Apply);
}

#[test]
fn applied_updates_are_contiguous() {
    let mut s = DepthSync::new(1_000);
    let mut x: u64 = 5;
    let mut last: Option<u64> = None;
    for i in 0..3_000 {
        x = x.wrapping_mul(6364136223846793005).wrapping_add(1442695040888963407);
        let first = 950 + (x >> 35) % 200;
        let u = update(first, first + (x >> 50) % 20, first - (x >> 20) % 3);
        let step = if i < 1_500 { s.on_buffered(&u) } else { s.on_live(&u) };
        match step {
            SyncStep::Bridge => {
                assert!(last.is_none());
                assert!(u.first_update_id <= 1_000 && u.final_update_id > 1_000);
                last = Some(u.final_update_id);
            }
            SyncStep::Apply => {
                assert_eq!(Some(u.prev_final_update_id), last);
                last = Some(u.final_update_id);
            }
            SyncStep::Skip | SyncStep::Gap => {}
        }
        assert_eq!(s.synced, last.is_some());
    }
    assert!(s.synced);
}

#[test]
fn clocks_are_compared_at_the_middle() {
    assert_eq!(sync::clock_offset(1_000, 1_100, 1_000), 50);
    assert_eq!(sync::clock_offset(1_000, 1_101, 1_060), -10);
    assert_eq!(sync::clock_offset(-3, 0, 0), -1);
    assert_eq!(sync::clock_offset(i64::MIN / 2, i64::MIN / 2, 0), i64::MIN / 2);
}

#[test]
fn latencies_are_corrected_by_the_offset() {
    assert_eq!(sync::network_latency(2_000, 1_900, 30), 70);
    assert_eq!(sync::network_latency(2_000, 1_990, 30), 0);
    assert_eq!(sync::network_latency(2_000, 1_990, -30), 40);
    assert_eq!(sync::display_latency(2_000, 1_990, 30), -20);
    assert_eq!(sync::display_latency(2_000, 0, 30), 0);
    assert_eq!(sync::display_latency(2_000, u64::MAX, 30), 0);
}

#[test]
fn clocks_out_of_range_give_nothing() {
    assert_eq!(sync::checked_clock_offset(1_000, 1_101, 1_060), Some(-10));
    assert_eq!(sync::checked_clock_offset(-3, 0, 0), Some(-1));
    assert_eq!(sync::checked_clock_offset(i64::MAX, 1, 0), None);
    assert_eq!(sync::checked_clock_offset(i64::MIN, 0, i64::MAX as u64), None);
    assert_eq!(sync::checked_network_latency(2_000, 1_900, 30), Some(70));
    assert_eq!(sync::checked_network_latency(2_000, 1_990, 30), Some(0));
    assert_eq!(sync::checked_network_latency(i64::MAX, u64::MAX, 0), None);
    assert_eq!(sync::checked_network_latency(0, 1, i64::MAX), Some(0));
    assert_eq!(sync::checked_network_latency(-1, 1, i64::MAX), None);
    assert_eq!(sync::checked_display_latency(2_000, 1_990, 30), Some(-20));
    assert_eq!(sync::checked_display_latency(i64::MAX, u64::MAX, 30), Some(0));
    assert_eq!(sync::checked_display_latency(i64::MIN, 1, 0), None);
}
