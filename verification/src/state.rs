//! What the feed and the views share.

use crate::binary64::Binary64;
use crate::book::{BookSides, OrderBook};
use crate::depth::{
    DepthCheckpoint, DepthDeltaEvent, DepthSlice, EventDepthHistory, HistoryView,
    DEPTH_CHECKPOINT_INTERVAL_MS, DEPTH_HISTORY_MAX_BYTES, HISTORY_MAX_AGE_MS,
};
use crate::trades::{Trade, TradeHistory};
use std::collections::HashMap;
use std::sync::Arc;
use vstd::prelude::*;

verus! {

/// The encoding of one tenth.
pub const TENTH_BITS: u64 = 0x3fb9_9999_9999_999a;

/// The versions of the derived series.
#[derive(Clone, Copy, Debug, PartialEq, Eq, Structural)]
pub struct MicroMetrics {
    pub fill_kill_epoch: u64,
    pub cumulative_epoch: u64,
}

impl Default for MicroMetrics {
    fn default() -> (m: MicroMetrics)
        ensures
            m == (MicroMetrics { fill_kill_epoch: 0, cumulative_epoch: 0 }),
    {
        MicroMetrics { fill_kill_epoch: 0, cumulative_epoch: 0 }
    }
}

/// What the feed and the views share.  `F` and `C` are the samples of the two
/// derived series.
pub struct SharedState<F, C> {
    pub order_book: OrderBook,
    pub trade_history: TradeHistory,
    pub depth_history: EventDepthHistory,
    pub depth_epoch: u64,
    pub depth_history_epoch: u64,
    pub trade_epoch: u64,
    pub fill_kill_epoch: u64,
    pub cumulative_epoch: u64,
    pub micro_metrics: MicroMetrics,
    pub snapshot_trade_epoch: u64,
    pub snapshot_depth_history_epoch: u64,
    pub snapshot_fill_kill_epoch: u64,
    pub snapshot_cumulative_epoch: u64,
    pub snapshot_book_epoch: u64,
    pub snapshot_bids: Arc<Vec<(Binary64, Binary64)>>,
    pub snapshot_asks: Arc<Vec<(Binary64, Binary64)>>,
    pub snapshot_trades: Arc<Vec<(u64, Binary64, Binary64, bool)>>,
    pub snapshot_depth_checkpoints: Arc<Vec<Arc<DepthCheckpoint>>>,
    pub snapshot_depth_deltas: Arc<Vec<Arc<DepthDeltaEvent>>>,
    pub snapshot_depth_slices: Arc<Vec<Arc<DepthSlice>>>,
    pub snapshot_fill_kill_series: Arc<Vec<F>>,
    pub snapshot_cumulative_series: Arc<Vec<C>>,
    pub snapshot_depth_slices_epoch: u64,
    pub connected: bool,
    pub status_msg: String,
    pub latency_ms: i64,
    pub tick_size: Binary64,
    pub price_decimals: usize,
}

impl<F, C> SharedState<F, C> {
    /// Whether no snapshot has been taken yet.
    pub open spec fn has_no_snapshot(self) -> bool {
        &&& self.snapshot_trade_epoch == u64::MAX
        &&& self.snapshot_depth_history_epoch == u64::MAX
        &&& self.snapshot_fill_kill_epoch == u64::MAX
        &&& self.snapshot_cumulative_epoch == u64::MAX
        &&& self.snapshot_book_epoch == u64::MAX
        &&& self.snapshot_depth_slices_epoch == u64::MAX
        &&& self.snapshot_bids@.len() == 0
        &&& self.snapshot_asks@.len() == 0
        &&& self.snapshot_trades@.len() == 0
        &&& self.snapshot_depth_checkpoints@.len() == 0
        &&& self.snapshot_depth_deltas@.len() == 0
        &&& self.snapshot_depth_slices@.len() == 0
        &&& self.snapshot_fill_kill_series@.len() == 0
        &&& self.snapshot_cumulative_series@.len() == 0
    }

    /// The state before anything has arrived.
    pub fn new() -> (state: SharedState<F, C>)
        ensures
            state.order_book.sides() == (BookSides { bids: Seq::empty(), asks: Seq::empty() }),
            state.order_book.last_update_id == 0,
            state.order_book.last_event_time == 0,
            state.order_book.clock_offset == 0,
            state.trade_history.trades@ == Seq::<Trade>::empty(),
            state.trade_history.window_ms == HISTORY_MAX_AGE_MS,
            state.depth_history@ == (HistoryView {
                checkpoints: Seq::empty(),
                deltas: Seq::empty(),
                max_age_ms: HISTORY_MAX_AGE_MS,
                target_checkpoint_interval_ms: DEPTH_CHECKPOINT_INTERVAL_MS,
                approx_bytes: 0,
                max_bytes: DEPTH_HISTORY_MAX_BYTES as nat,
                last_checkpoint_ms: 0,
                starts_midway: false,
            }),
            state.depth_epoch == 0,
            state.depth_history_epoch == 0,
            state.trade_epoch == 0,
            state.fill_kill_epoch == 0,
            state.cumulative_epoch == 0,
            state.micro_metrics == (MicroMetrics { fill_kill_epoch: 0, cumulative_epoch: 0 }),
            state.has_no_snapshot(),
            !state.connected,
            state.status_msg@ == "Initializing..."@,
            state.latency_ms == -1,
            state.tick_size.bits == TENTH_BITS,
            state.tick_size.bits == 0x3fb9_9999_9999_999a,
            state.price_decimals == 1,
    {
        SharedState {
            order_book: OrderBook::new(),
            trade_history: TradeHistory::new(HISTORY_MAX_AGE_MS),
            depth_history: EventDepthHistory::new(),
            depth_epoch: 0,
            depth_history_epoch: 0,
            trade_epoch: 0,
            fill_kill_epoch: 0,
            cumulative_epoch: 0,
            micro_metrics: MicroMetrics::default(),
            snapshot_trade_epoch: u64::MAX,
            snapshot_depth_history_epoch: u64::MAX,
            snapshot_fill_kill_epoch: u64::MAX,
            snapshot_cumulative_epoch: u64::MAX,
            snapshot_book_epoch: u64::MAX,
            snapshot_bids: Arc::new(Vec::new()),
            snapshot_asks: Arc::new(Vec::new()),
            snapshot_trades: Arc::new(Vec::new()),
            snapshot_depth_checkpoints: Arc::new(Vec::new()),
            snapshot_depth_deltas: Arc::new(Vec::new()),
            snapshot_depth_slices: Arc::new(Vec::new()),
            snapshot_fill_kill_series: Arc::new(Vec::new()),
            snapshot_cumulative_series: Arc::new(Vec::new()),
            snapshot_depth_slices_epoch: u64::MAX,
            connected: false,
            status_msg: "Initializing...".to_owned(),
            latency_ms: -1,
            tick_size: Binary64::from_bits(TENTH_BITS),
            price_decimals: 1,
        }
    }

    /// Takes over the versions of the derived series; nothing else changes.
    pub fn sync_micro_epochs(&mut self)
        ensures
            *final(self) == (SharedState::<F, C> {
                fill_kill_epoch: old(self).micro_metrics.fill_kill_epoch,
                cumulative_epoch: old(self).micro_metrics.cumulative_epoch,
                ..*old(self)
            }),
    {
        self.fill_kill_epoch = self.micro_metrics.fill_kill_epoch;
        self.cumulative_epoch = self.micro_metrics.cumulative_epoch;
    }
}

/// A symbol of the exchange.
#[derive(Clone, Debug)]
pub struct SymbolCatalogEntry {
    pub symbol: String,
    pub base_asset: String,
    pub quote_asset: String,
}

/// The latest ticker of a symbol.
#[derive(Clone, Copy, Debug)]
pub struct LiveTicker {
    pub last_price: Binary64,
    pub open_24h: Binary64,
    pub change_pct_24h: Binary64,
    pub quote_volume_24h: Binary64,
    pub event_time_ms: u64,
}

impl Default for LiveTicker {
    fn default() -> (t: LiveTicker)
        ensures
            t.last_price.bits == 0,
            t.open_24h.bits == 0,
            t.change_pct_24h.bits == 0,
            t.quote_volume_24h.bits == 0,
            t.event_time_ms == 0,
    {
        let zero = Binary64::from_bits(0);
        LiveTicker {
            last_price: zero,
            open_24h: zero,
            change_pct_24h: zero,
            quote_volume_24h: zero,
            event_time_ms: 0,
        }
    }
}

/// How the feed of the symbol picker is doing.
#[derive(Clone, Debug, PartialEq)]
pub enum PickerStatus {
    Loading,
    Live,
    Stale,
    Reconnecting,
    Error(String),
}

/// What the symbol picker shows.
pub struct PickerSharedState {
    pub catalog: Vec<SymbolCatalogEntry>,
    pub live_tickers: HashMap<String, LiveTicker>,
    pub ticker_epoch: u64,
    pub status: PickerStatus,
}

impl PickerSharedState {
    /// The picker before anything has arrived.
    pub fn new() -> (state: PickerSharedState)
        ensures
            state.catalog@.len() == 0,
            state.live_tickers@ == Map::<String, LiveTicker>::empty(),
            state.ticker_epoch == 0,
            state.status is Loading,
    {
        PickerSharedState {
            catalog: Vec::new(),
            live_tickers: HashMap::new(),
            ticker_epoch: 0,
            status: PickerStatus::Loading,
        }
    }
}

} // verus!
