use cli_ob::binary64::Binary64;
use cli_ob::config;
use cli_ob::state::{LiveTicker, MicroMetrics, PickerSharedState, PickerStatus, SharedState};

fn num(x: f64) -> Binary64 {
    Binary64::from_bits(x.to_bits())
}

fn val(x: Binary64) -> f64 {
    f64::from_bits(x.to_bits())
}

#[test]
fn white_space_is_that_of_unicode() {
    for code in 0..0x11_0000_u32 {
        if let Some(c) = char::from_u32(code) {
            assert_eq!(config::is_white_space(c), c.is_whitespace(), "{code:x}");
        }
    }
}

#[test]
fn texts_are_trimmed() {
    for s in ["", " ", "a", " a ", "\t a b \r\n", "\u{3000}x\u{2029}", "  \n ", "\u{85}\u{a0}y"] {
        assert_eq!(config::trim(s), s.trim());
    }
}

#[test]
fn symbols_are_lower_case() {
    assert_eq!(config::symbol_from_input("  EthUSDT\n"), "ethusdt");
    assert_eq!(config::symbol_from_input("solusdt"), "solusdt");
    assert_eq!(config::symbol_from_input("\n"), "btcusdt");
    assert_eq!(config::symbol_from_input(""), "btcusdt");
    assert_eq!(config::symbol_from_input("ÄB"), "ÄB".to_lowercase());
    assert_eq!(config::symbol_or_default(String::new()), "btcusdt");
    assert_eq!(config::symbol_or_default("abc".to_string()), "abc");
}

#[test]
fn bin_widths_are_above_zero() {
    assert_eq!(val(config::bin_width_from_input(" 10 \n")), 10.0);
    assert_eq!(val(config::bin_width_from_input("0.001")), 0.001);
    assert_eq!(val(config::bin_width_from_input("0")), 1.0);
    assert_eq!(val(config::bin_width_from_input("-5")), 1.0);
    assert_eq!(val(config::bin_width_from_input("ten")), 1.0);
    assert_eq!(val(config::bin_width_from_input("")), 1.0);
    assert!(config::bin_width_from_input("nan").is_nan());
    assert_eq!(val(config::width_or_default(Some(num(2.5)))), 2.5);
    assert_eq!(val(config::width_or_default(Some(num(-0.0)))), 1.0);
    assert_eq!(val(config::width_or_default(None)), 1.0);
}

#[test]
fn addresses_name_the_symbol() {
    assert_eq!(
        config::stream_url("btcusdt"),
        "wss://fstream.binance.com/stream?streams=btcusdt@depth@100ms"
    );
    assert_eq!(
        config::snapshot_url("btcusdt"),
        "https://fapi.binance.com/fapi/v1/depth?symbol=BTCUSDT&limit=1000"
    );
    assert_eq!(
        config::snapshot_url_of("ETHUSDT"),
        "https://fapi.binance.com/fapi/v1/depth?symbol=ETHUSDT&limit=1000"
    );
    assert_eq!(config::upper_symbol("straße1"), "straße1".to_uppercase());
}

#[test]
fn a_new_state_has_nothing_to_show() {
    let mut state: SharedState<u8, u8> = SharedState::new();
    assert_eq!(state.status_msg, "Initializing...");
    assert_eq!(state.latency_ms, -1);
    assert_eq!(val(state.tick_size), 0.1);
    assert_eq!(state.price_decimals, 1);
    assert_eq!(state.snapshot_book_epoch, u64::MAX);
    assert_eq!(state.trade_history.window_ms, 180_000);
    assert!(!state.connected);
    assert!(state.order_book.bids.is_empty());
    state.micro_metrics = MicroMetrics { fill_kill_epoch: 3, cumulative_epoch: 4 };
    state.sync_micro_epochs();
    assert_eq!((state.fill_kill_epoch, state.cumulative_epoch), (3, 4));
}

#[test]
fn a_new_picker_is_loading() {
    let picker = PickerSharedState::new();
    assert!(picker.catalog.is_empty());
    assert!(picker.live_tickers.is_empty());
    assert_eq!(picker.ticker_epoch, 0);
    assert_eq!(picker.status, PickerStatus::Loading);
    let ticker = LiveTicker::default();
    assert_eq!(val(ticker.last_price), 0.0);
    assert_eq!(ticker.event_time_ms, 0);
}
