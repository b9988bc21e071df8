//! The history of the book: full checkpoints and the changes between them.

use crate::binary64::Binary64;
use crate::book::{BookSides, DepthLevelDelta, OrderBook};
use crate::levels::PriceLevels;
use crate::retention;
use std::collections::VecDeque;
use std::sync::Arc;
use vstd::layout;
use vstd::prelude::*;

verus! {

/// How long the histories reach back, in milliseconds.
pub const HISTORY_MAX_AGE_MS: u64 = 180_000;

/// The number of levels that a side of a book is cut to.
pub const ORDER_BOOK_MAX_LEVELS_PER_SIDE: usize = 3000;

/// The memory that a depth history may take, in bytes.
pub const DEPTH_HISTORY_MAX_BYTES: usize = 160 * 1024 * 1024;

/// The time after which a new checkpoint is due, in milliseconds.
pub const DEPTH_CHECKPOINT_INTERVAL_MS: u64 = 1_000;

/// The number of changes from which on an event becomes a checkpoint.
pub const DEPTH_DELTA_TO_CHECKPOINT_THRESHOLD: usize = 1_200;

/// The changes of one event.
#[derive(Clone, Debug)]
pub struct DepthDeltaEvent {
    pub timestamp_ms: u64,
    pub update_id: u64,
    pub changes: Vec<DepthLevelDelta>,
}

/// The whole book at one time: the first `bids_len` levels are bids, the rest
/// are asks.
#[derive(Clone, Debug)]
pub struct DepthCheckpoint {
    pub timestamp_ms: u64,
    pub update_id: u64,
    pub levels: Vec<(Binary64, Binary64)>,
    pub bids_len: usize,
}

/// A column of the heatmap: the whole book at one time, bids first, each side
/// in ascending price order.
#[derive(Clone)]
pub struct DepthSlice {
    pub timestamp_ms: u64,
    pub levels: Vec<(Binary64, Binary64)>,
    pub bids_len: usize,
}

/// What a [`DepthDeltaEvent`] holds.
#[verifier::ext_equal]
pub struct EventView {
    pub timestamp_ms: u64,
    pub update_id: u64,
    pub changes: Seq<DepthLevelDelta>,
}

/// What a [`DepthCheckpoint`] holds.
#[verifier::ext_equal]
pub struct CheckpointView {
    pub timestamp_ms: u64,
    pub update_id: u64,
    pub levels: Seq<(Binary64, Binary64)>,
    pub bids_len: nat,
}

/// What a [`DepthSlice`] holds.
#[verifier::ext_equal]
pub struct SliceView {
    pub timestamp_ms: u64,
    pub levels: Seq<(Binary64, Binary64)>,
    pub bids_len: nat,
}

/// What an [`EventDepthHistory`] holds.
#[verifier::ext_equal]
pub struct HistoryView {
    pub checkpoints: Seq<CheckpointView>,
    pub deltas: Seq<EventView>,
    pub max_age_ms: u64,
    pub target_checkpoint_interval_ms: u64,
    pub approx_bytes: nat,
    pub max_bytes: nat,
    pub last_checkpoint_ms: u64,
    pub starts_midway: bool,
}

impl View for DepthDeltaEvent {
    type V = EventView;

    open spec fn view(&self) -> EventView {
        EventView {
            timestamp_ms: self.timestamp_ms,
            update_id: self.update_id,
            changes: self.changes@,
        }
    }
}

impl View for DepthCheckpoint {
    type V = CheckpointView;

    open spec fn view(&self) -> CheckpointView {
        CheckpointView {
            timestamp_ms: self.timestamp_ms,
            update_id: self.update_id,
            levels: self.levels@,
            bids_len: self.bids_len as nat,
        }
    }
}

impl View for DepthSlice {
    type V = SliceView;

    open spec fn view(&self) -> SliceView {
        SliceView {
            timestamp_ms: self.timestamp_ms,
            levels: self.levels@,
            bids_len: self.bids_len as nat,
        }
    }
}

/// Both sides of a book as one sequence, bids first.
pub open spec fn joined(b: BookSides) -> Seq<(Binary64, Binary64)> {
    b.bids + b.asks
}

/// A sum of sizes, cut at what a `usize` can hold.
pub open spec fn capped(n: nat) -> nat {
    if n <= usize::MAX {
        n
    } else {
        usize::MAX as nat
    }
}

/// `n` less `m`, but not below zero.
pub open spec fn less_or_zero(n: nat, m: nat) -> nat {
    if n >= m {
        (n - m) as nat
    } else {
        0
    }
}

/// The memory that a checkpoint takes, not counting the allocator's own.
pub open spec fn checkpoint_bytes(c: CheckpointView) -> nat {
    capped(
        layout::size_of::<DepthCheckpoint>() + c.levels.len() * layout::size_of::<
            (Binary64, Binary64),
        >(),
    )
}

/// The memory that an event takes, not counting the allocator's own.
pub open spec fn event_bytes(e: EventView) -> nat {
    capped(
        layout::size_of::<DepthDeltaEvent>() + e.changes.len() * layout::size_of::<
            DepthLevelDelta,
        >(),
    )
}

fn sized(fixed: usize, count: usize, each: usize) -> (n: usize)
    ensures
        n == capped((fixed + count * each) as nat),
{
    assert(count * each <= 0xffff_ffff_ffff_ffff * 0xffff_ffff_ffff_ffff) by (nonlinear_arith)
        requires
            0 <= count <= 0xffff_ffff_ffff_ffff,
            0 <= each <= 0xffff_ffff_ffff_ffff,
    ;
    assert(count * each >= 0) by (nonlinear_arith)
        requires
            0 <= count,
            0 <= each,
    ;
    let total: u128 = fixed as u128 + count as u128 * each as u128;
    if total <= usize::MAX as u128 {
        total as usize
    } else {
        usize::MAX
    }
}

impl DepthCheckpoint {
    /// The memory that the checkpoint takes, as an estimate.
    pub fn estimated_bytes(&self) -> (n: usize)
        ensures
            n == checkpoint_bytes(self@),
            layout::size_of::<DepthCheckpoint>() + self.levels@.len() * layout::size_of::<
                (Binary64, Binary64),
            >() <= usize::MAX ==> n == layout::size_of::<DepthCheckpoint>() + self.levels@.len()
                * layout::size_of::<(Binary64, Binary64)>(),
    {
        sized(
            std::mem::size_of::<DepthCheckpoint>(),
            self.levels.len(),
            std::mem::size_of::<(Binary64, Binary64)>(),
        )
    }
}

impl DepthDeltaEvent {
    /// The memory that the event takes, as an estimate.
    pub fn estimated_bytes(&self) -> (n: usize)
        ensures
            n == event_bytes(self@),
            layout::size_of::<DepthDeltaEvent>() + self.changes@.len() * layout::size_of::<
                DepthLevelDelta,
            >() <= usize::MAX ==> n == layout::size_of::<DepthDeltaEvent>() + self.changes@.len()
                * layout::size_of::<DepthLevelDelta>(),
    {
        sized(
            std::mem::size_of::<DepthDeltaEvent>(),
            self.changes.len(),
            std::mem::size_of::<DepthLevelDelta>(),
        )
    }
}

/// The recent past of a book.
pub struct EventDepthHistory {
    pub checkpoints: VecDeque<Arc<DepthCheckpoint>>,
    pub deltas: VecDeque<Arc<DepthDeltaEvent>>,
    pub max_age_ms: u64,
    pub target_checkpoint_interval_ms: u64,
    pub approx_bytes: usize,
    pub max_bytes: usize,
    pub last_checkpoint_ms: u64,
    /// Whether events may have been recorded before the first checkpoint.
    pub starts_midway: bool,
}

impl View for EventDepthHistory {
    type V = HistoryView;

    open spec fn view(&self) -> HistoryView {
        HistoryView {
            checkpoints: Seq::new(self.checkpoints@.len(), |i: int| self.checkpoints@[i]@),
            deltas: Seq::new(self.deltas@.len(), |i: int| self.deltas@[i]@),
            max_age_ms: self.max_age_ms,
            target_checkpoint_interval_ms: self.target_checkpoint_interval_ms,
            approx_bytes: self.approx_bytes as nat,
            max_bytes: self.max_bytes as nat,
            last_checkpoint_ms: self.last_checkpoint_ms,
            starts_midway: self.starts_midway,
        }
    }
}

/// Whether the parts of every checkpoint fit its list.
pub open spec fn has_whole_checkpoints(h: HistoryView) -> bool {
    forall|i: int|
        0 <= i < h.checkpoints.len() ==> (#[trigger] h.checkpoints[i]).bids_len
            <= h.checkpoints[i].levels.len()
}

/// The latest time that a history knows of.
pub open spec fn latest_time(h: HistoryView) -> Option<u64> {
    if h.checkpoints.len() > 0 && h.deltas.len() > 0 {
        let a = h.checkpoints.last().timestamp_ms;
        let b = h.deltas.last().timestamp_ms;
        Some(
            if a >= b {
                a
            } else {
                b
            },
        )
    } else if h.checkpoints.len() > 0 {
        Some(h.checkpoints.last().timestamp_ms)
    } else if h.deltas.len() > 0 {
        Some(h.deltas.last().timestamp_ms)
    } else {
        None
    }
}

/// The time at which an event is recorded: never before what is recorded.
pub open spec fn recorded_time(h: HistoryView, timestamp_ms: u64) -> u64 {
    match latest_time(h) {
        Some(last) if last > timestamp_ms => last,
        _ => timestamp_ms,
    }
}

/// A history after one more checkpoint.
pub open spec fn with_checkpoint(
    h: HistoryView,
    b: BookSides,
    timestamp_ms: u64,
    update_id: u64,
) -> HistoryView {
    let c = CheckpointView { timestamp_ms, update_id, levels: joined(b), bids_len: b.bids.len() };
    HistoryView {
        checkpoints: h.checkpoints.push(c),
        approx_bytes: capped(h.approx_bytes + checkpoint_bytes(c)),
        last_checkpoint_ms: timestamp_ms,
        starts_midway: h.starts_midway || (h.checkpoints.len() == 0 && h.deltas.len() > 0),
        ..h
    }
}

/// A history that starts with a book.
pub open spec fn restarted(
    h: HistoryView,
    b: BookSides,
    timestamp_ms: u64,
    update_id: u64,
) -> HistoryView {
    with_checkpoint(
        HistoryView {
            checkpoints: Seq::empty(),
            deltas: Seq::empty(),
            approx_bytes: 0,
            last_checkpoint_ms: 0,
            starts_midway: false,
            ..h
        },
        b,
        timestamp_ms,
        update_id,
    )
}

/// Whether an event is large enough to be recorded as a checkpoint.
pub open spec fn is_burst(changes: Seq<DepthLevelDelta>) -> bool {
    changes.len() >= DEPTH_DELTA_TO_CHECKPOINT_THRESHOLD
}

/// A history after one more event, which left the book as `b`: a burst
/// becomes a checkpoint; anything else is recorded as it is, followed by a
/// checkpoint when one is due.
pub open spec fn with_event(
    h: HistoryView,
    timestamp_ms: u64,
    update_id: u64,
    changes: Seq<DepthLevelDelta>,
    b: BookSides,
) -> HistoryView {
    let time = recorded_time(h, timestamp_ms);
    if is_burst(changes) {
        with_checkpoint(h, b, time, update_id)
    } else {
        let e = EventView { timestamp_ms: time, update_id, changes };
        let g = HistoryView {
            deltas: h.deltas.push(e),
            approx_bytes: capped(h.approx_bytes + event_bytes(e)),
            ..h
        };
        if less_or_zero(time as nat, h.last_checkpoint_ms as nat)
            >= h.target_checkpoint_interval_ms {
            with_checkpoint(g, b, time, update_id)
        } else {
            g
        }
    }
}

/// What recording an event does, in plain terms.
proof fn lemma_recording(
    h: HistoryView,
    timestamp_ms: u64,
    update_id: u64,
    changes: Seq<DepthLevelDelta>,
    b: BookSides,
)
    ensures
        ({
            let g = with_event(h, timestamp_ms, update_id, changes, b);
            let bids = b.bids;
            let asks = b.asks;
            let burst = changes.len() >= 1200;
            let time = if burst {
                g.checkpoints.last().timestamp_ms
            } else {
                g.deltas.last().timestamp_ms
            };
            let due = if time >= h.last_checkpoint_ms {
                time - h.last_checkpoint_ms >= h.target_checkpoint_interval_ms
            } else {
                h.target_checkpoint_interval_ms == 0
            };
            &&& time >= timestamp_ms
            &&& h.checkpoints.len() > 0 ==> time >= h.checkpoints.last().timestamp_ms
            &&& h.deltas.len() > 0 ==> time >= h.deltas.last().timestamp_ms
            &&& time == timestamp_ms || (h.checkpoints.len() > 0 && time
                == h.checkpoints.last().timestamp_ms) || (h.deltas.len() > 0 && time
                == h.deltas.last().timestamp_ms)
            &&& burst ==> g.deltas == h.deltas
            &&& !burst ==> g.deltas.len() == h.deltas.len() + 1 && g.deltas.drop_last() == h.deltas
                && g.deltas.last().update_id == update_id && g.deltas.last().changes == changes
            &&& burst || due ==> {
                let c = g.checkpoints.last();
                &&& g.checkpoints.len() == h.checkpoints.len() + 1
                &&& g.checkpoints.drop_last() == h.checkpoints
                &&& c.timestamp_ms == time
                &&& c.update_id == update_id
                &&& c.levels == bids + asks
                &&& c.bids_len == bids.len()
                &&& g.last_checkpoint_ms == time
            }
            &&& !burst && !due ==> g.checkpoints == h.checkpoints && g.last_checkpoint_ms
                == h.last_checkpoint_ms
        }),
{
    let g = with_event(h, timestamp_ms, update_id, changes, b);
    if g.checkpoints.len() > h.checkpoints.len() {
        assert(g.checkpoints.drop_last() =~= h.checkpoints);
    }
    if g.deltas.len() > h.deltas.len() {
        assert(g.deltas.drop_last() =~= h.deltas);
    }
}

fn add_capped(n: usize, m: usize) -> (sum: usize)
    ensures
        sum == capped((n + m) as nat),
{
    if m <= usize::MAX - n {
        n + m
    } else {
        usize::MAX
    }
}

impl EventDepthHistory {
    /// An empty history.
    pub fn new() -> (history: EventDepthHistory)
        ensures
            history@ == (HistoryView {
                checkpoints: Seq::empty(),
                deltas: Seq::empty(),
                max_age_ms: HISTORY_MAX_AGE_MS,
                target_checkpoint_interval_ms: DEPTH_CHECKPOINT_INTERVAL_MS,
                approx_bytes: 0,
                max_bytes: DEPTH_HISTORY_MAX_BYTES as nat,
                last_checkpoint_ms: 0,
                starts_midway: false,
            }),
            history.max_age_ms == 180_000,
            history.target_checkpoint_interval_ms == 1_000,
            history.max_bytes == 160 * 1024 * 1024,
            has_whole_checkpoints(history@),
    {
        EventDepthHistory {
            checkpoints: VecDeque::new(),
            deltas: VecDeque::new(),
            max_age_ms: HISTORY_MAX_AGE_MS,
            target_checkpoint_interval_ms: DEPTH_CHECKPOINT_INTERVAL_MS,
            approx_bytes: 0,
            max_bytes: DEPTH_HISTORY_MAX_BYTES,
            last_checkpoint_ms: 0,
            starts_midway: false,
        }
    }

    /// Forgets everything and starts with a checkpoint of `book`.
    pub fn reset_from_book(&mut self, book: &OrderBook, timestamp_ms: u64, update_id: u64)
        ensures
            final(self)@ == restarted(old(self)@, book.sides(), timestamp_ms, update_id),
            final(self)@.deltas.len() == 0,
            final(self)@.checkpoints.len() == 1,
            final(self)@.checkpoints[0].timestamp_ms == timestamp_ms,
            final(self)@.checkpoints[0].update_id == update_id,
            final(self)@.checkpoints[0].levels == book.bids@ + book.asks@,
            final(self)@.checkpoints[0].bids_len == book.bids@.len(),
            final(self).last_checkpoint_ms == timestamp_ms,
            final(self).max_age_ms == old(self).max_age_ms,
            final(self).max_bytes == old(self).max_bytes,
            final(self).target_checkpoint_interval_ms == old(self).target_checkpoint_interval_ms,
            final(self).approx_bytes == checkpoint_bytes(final(self)@.checkpoints[0]),
            has_whole_checkpoints(final(self)@),
    {
        let ghost before = self@;
        self.checkpoints.clear();
        self.deltas.clear();
        self.approx_bytes = 0;
        self.last_checkpoint_ms = 0;
        self.starts_midway = false;
        assert(self@ =~= (HistoryView {
            checkpoints: Seq::empty(),
            deltas: Seq::empty(),
            approx_bytes: 0,
            last_checkpoint_ms: 0,
            starts_midway: false,
            ..before
        }));
        self.push_checkpoint_from_book(book, timestamp_ms, update_id);
    }

    fn push_checkpoint_from_book(&mut self, book: &OrderBook, timestamp_ms: u64, update_id: u64)
        ensures
            final(self)@ == with_checkpoint(old(self)@, book.sides(), timestamp_ms, update_id),
    {
        let ghost before = self@;
        let (levels, bids_len) = join_sides(&book.bids, &book.asks);
        let checkpoint = DepthCheckpoint { timestamp_ms, update_id, levels, bids_len };
        let bytes = checkpoint.estimated_bytes();
        self.approx_bytes = add_capped(self.approx_bytes, bytes);
        if self.checkpoints.len() == 0 && self.deltas.len() > 0 {
            self.starts_midway = true;
        }
        self.checkpoints.push_back(Arc::new(checkpoint));
        self.last_checkpoint_ms = timestamp_ms;
        assert(self@.checkpoints =~= with_checkpoint(
            before,
            book.sides(),
            timestamp_ms,
            update_id,
        ).checkpoints);
        assert(self@.deltas =~= before.deltas);
    }

    /// Records the changes of an event that left the book as `book`.
    pub fn push_event(
        &mut self,
        timestamp_ms: u64,
        update_id: u64,
        changes: Vec<DepthLevelDelta>,
        book: &OrderBook,
    )
        ensures
            final(self)@ == with_event(
                old(self)@,
                timestamp_ms,
                update_id,
                changes@,
                book.sides(),
            ),
            has_whole_checkpoints(old(self)@) ==> has_whole_checkpoints(final(self)@),
            final(self).max_age_ms == old(self).max_age_ms,
            final(self).max_bytes == old(self).max_bytes,
            final(self).target_checkpoint_interval_ms == old(self).target_checkpoint_interval_ms,
            // The event is recorded at its time, or at the latest recorded one where that
            // is later.  One of 1200 changes or more becomes a checkpoint of the book;
            // any other is kept as it is, with a checkpoint behind it where the last
            // one is at least the interval old.
            ({
                let h = old(self)@;
                let g = final(self)@;
                let bids = book.bids@;
                let asks = book.asks@;
                let changes = changes@;
                let burst = changes.len() >= 1200;
                let time = if burst {
                    g.checkpoints.last().timestamp_ms
                } else {
                    g.deltas.last().timestamp_ms
                };
                let due = if time >= h.last_checkpoint_ms {
                    time - h.last_checkpoint_ms >= h.target_checkpoint_interval_ms
                } else {
                    h.target_checkpoint_interval_ms == 0
                };
                &&& time >= timestamp_ms
                &&& h.checkpoints.len() > 0 ==> time >= h.checkpoints.last().timestamp_ms
                &&& h.deltas.len() > 0 ==> time >= h.deltas.last().timestamp_ms
                &&& time == timestamp_ms || (h.checkpoints.len() > 0 && time
                    == h.checkpoints.last().timestamp_ms) || (h.deltas.len() > 0 && time
                    == h.deltas.last().timestamp_ms)
                &&& burst ==> g.deltas == h.deltas
                &&& !burst ==> g.deltas.len() == h.deltas.len() + 1 && g.deltas.drop_last() == h.deltas
                    && g.deltas.last().update_id == update_id && g.deltas.last().changes == changes
                &&& burst || due ==> {
                    let c = g.checkpoints.last();
                    &&& g.checkpoints.len() == h.checkpoints.len() + 1
                    &&& g.checkpoints.drop_last() == h.checkpoints
                    &&& c.timestamp_ms == time
                    &&& c.update_id == update_id
                    &&& c.levels == bids + asks
                    &&& c.bids_len == bids.len()
                    &&& g.last_checkpoint_ms == time
                }
                &&& !burst && !due ==> g.checkpoints == h.checkpoints && g.last_checkpoint_ms
                    == h.last_checkpoint_ms
            }),
    {
        let ghost before = self@;
        proof {
            lemma_recording(before, timestamp_ms, update_id, changes@, book.sides());
        }
        let time: u64 = match self.last_event_timestamp() {
            Some(last) => if last > timestamp_ms {
                last
            } else {
                timestamp_ms
            },
            None => timestamp_ms,
        };
        if changes.len() >= DEPTH_DELTA_TO_CHECKPOINT_THRESHOLD {
            self.push_checkpoint_from_book(book, time, update_id);
            return;
        }
        let event = DepthDeltaEvent { timestamp_ms: time, update_id, changes };
        let bytes = event.estimated_bytes();
        self.approx_bytes = add_capped(self.approx_bytes, bytes);
        self.deltas.push_back(Arc::new(event));
        proof {
            let e = EventView { timestamp_ms: time, update_id, changes: changes@ };
            assert(self@.deltas =~= before.deltas.push(e));
            assert(self@.checkpoints =~= before.checkpoints);
        }
        let age: u64 = if time > self.last_checkpoint_ms {
            time - self.last_checkpoint_ms
        } else {
            0
        };
        if age >= self.target_checkpoint_interval_ms {
            self.push_checkpoint_from_book(book, time, update_id);
        }
    }

    fn last_event_timestamp(&self) -> (time: Option<u64>)
        ensures
            time == latest_time(self@),
    {
        let n = self.checkpoints.len();
        let m = self.deltas.len();
        if n > 0 && m > 0 {
            let a = self.checkpoints[n - 1].timestamp_ms;
            let b = self.deltas[m - 1].timestamp_ms;
            if a >= b {
                Some(a)
            } else {
                Some(b)
            }
        } else if n > 0 {
            Some(self.checkpoints[n - 1].timestamp_ms)
        } else if m > 0 {
            Some(self.deltas[m - 1].timestamp_ms)
        } else {
            None
        }
    }
}

/// A history without its oldest event.
pub open spec fn without_first_event(h: HistoryView) -> HistoryView {
    HistoryView {
        deltas: h.deltas.drop_first(),
        approx_bytes: less_or_zero(h.approx_bytes, event_bytes(h.deltas[0])),
        ..h
    }
}

/// A history without its oldest checkpoint.
pub open spec fn without_first_checkpoint(h: HistoryView) -> HistoryView {
    HistoryView {
        checkpoints: h.checkpoints.drop_first(),
        approx_bytes: less_or_zero(h.approx_bytes, checkpoint_bytes(h.checkpoints[0])),
        starts_midway: true,
        ..h
    }
}

/// A history after the leading events from before `cutoff` are dropped.
pub open spec fn without_stale_events(h: HistoryView, cutoff: int) -> HistoryView
    decreases h.deltas.len(),
{
    if h.deltas.len() > 0 && h.deltas[0].timestamp_ms < cutoff {
        without_stale_events(without_first_event(h), cutoff)
    } else {
        h
    }
}

/// A history after the leading checkpoints from before `cutoff` are dropped,
/// but for the last one.
pub open spec fn without_stale_checkpoints(h: HistoryView, cutoff: int) -> HistoryView
    decreases h.checkpoints.len(),
{
    if h.checkpoints.len() > 1 && h.checkpoints[0].timestamp_ms < cutoff {
        without_stale_checkpoints(without_first_checkpoint(h), cutoff)
    } else {
        h
    }
}

/// A history after its oldest events, and then its oldest checkpoints but for
/// the last one, are dropped until the rest fits the memory it may take.
pub open spec fn within_memory(h: HistoryView) -> HistoryView
    decreases h.deltas.len() + h.checkpoints.len(),
{
    if h.approx_bytes <= h.max_bytes {
        h
    } else if h.deltas.len() > 0 {
        within_memory(without_first_event(h))
    } else if h.checkpoints.len() > 1 {
        within_memory(without_first_checkpoint(h))
    } else {
        h
    }
}

/// The time before which things are too old.
pub open spec fn cutoff_time(now_ms: u64, max_age_ms: u64) -> int {
    less_or_zero(now_ms as nat, max_age_ms as nat) as int
}

/// A history after what is too old or too much is dropped.
pub open spec fn pruned(h: HistoryView, now_ms: u64) -> HistoryView {
    let cutoff = cutoff_time(now_ms, h.max_age_ms);
    within_memory(without_stale_checkpoints(without_stale_events(h, cutoff), cutoff))
}

/// The first and the last time that a history covers.
pub open spec fn covered(h: HistoryView) -> Option<(u64, u64)> {
    let first = if h.checkpoints.len() > 0 {
        h.checkpoints[0].timestamp_ms
    } else {
        u64::MAX
    };
    let last = match latest_time(h) {
        Some(time) => time,
        None => 0,
    };
    if last >= first {
        Some((first, last))
    } else {
        None
    }
}

impl EventDepthHistory {
    fn drop_first_event(&mut self)
        requires
            old(self)@.deltas.len() > 0,
        ensures
            final(self)@ == without_first_event(old(self)@),
    {
        let ghost before = self@;
        if let Some(event) = self.deltas.pop_front() {
            let bytes = event.estimated_bytes();
            self.approx_bytes = if self.approx_bytes >= bytes {
                self.approx_bytes - bytes
            } else {
                0
            };
        }
        assert(self@ =~= without_first_event(before));
    }

    fn drop_first_checkpoint(&mut self)
        requires
            old(self)@.checkpoints.len() > 0,
        ensures
            final(self)@ == without_first_checkpoint(old(self)@),
    {
        let ghost before = self@;
        self.starts_midway = true;
        if let Some(checkpoint) = self.checkpoints.pop_front() {
            let bytes = checkpoint.estimated_bytes();
            self.approx_bytes = if self.approx_bytes >= bytes {
                self.approx_bytes - bytes
            } else {
                0
            };
        }
        assert(self@ =~= without_first_checkpoint(before));
    }

    /// Drops what is older than `max_age_ms`, and as much more as the limit on
    /// memory asks for. The last checkpoint always stays.
    pub fn prune(&mut self, now_ms: u64)
        ensures
            final(self)@ == pruned(old(self)@, now_ms),
            has_whole_checkpoints(old(self)@) ==> has_whole_checkpoints(final(self)@),
    {
        let ghost before = self@;
        proof {
            retention::lemma_pruned(before, now_ms);
        }
        let cutoff: u64 = if now_ms > self.max_age_ms {
            now_ms - self.max_age_ms
        } else {
            0
        };
        while self.deltas.len() > 0 && self.deltas[0].timestamp_ms < cutoff
            invariant
                without_stale_events(self@, cutoff as int) == without_stale_events(
                    before,
                    cutoff as int,
                ),
            decreases self@.deltas.len(),
        {
            assert(self@.deltas[0].timestamp_ms < cutoff);
            self.drop_first_event();
        }
        assert(self@ == without_stale_events(before, cutoff as int));
        let ghost middle = self@;
        while self.checkpoints.len() > 1 && self.checkpoints[0].timestamp_ms < cutoff
            invariant
                without_stale_checkpoints(self@, cutoff as int) == without_stale_checkpoints(
                    middle,
                    cutoff as int,
                ),
            decreases self@.checkpoints.len(),
        {
            assert(self@.checkpoints[0].timestamp_ms < cutoff);
            self.drop_first_checkpoint();
        }
        assert(self@ == without_stale_checkpoints(middle, cutoff as int));
        let ghost aged = self@;
        while self.approx_bytes > self.max_bytes && (self.deltas.len() > 0
            || self.checkpoints.len() > 1)
            invariant
                within_memory(self@) == within_memory(aged),
            decreases self@.deltas.len() + self@.checkpoints.len(),
        {
            if self.deltas.len() > 0 {
                self.drop_first_event();
            } else {
                self.drop_first_checkpoint();
            }
        }
    }

    /// The first and the last time that the history covers.
    pub fn time_range(&self) -> (range: Option<(u64, u64)>)
        ensures
            range == covered(self@),
            range is Some <==> self@.checkpoints.len() > 0 && (self@.checkpoints[0].timestamp_ms
                <= self@.checkpoints.last().timestamp_ms || (self@.deltas.len() > 0
                && self@.checkpoints[0].timestamp_ms <= self@.deltas.last().timestamp_ms))
                || self@.checkpoints.len() == 0 && self@.deltas.len() > 0
                && self@.deltas.last().timestamp_ms == u64::MAX,
            range is Some && self@.checkpoints.len() > 0 ==> (range->0).0
                == self@.checkpoints[0].timestamp_ms && (range->0).1
                >= self@.checkpoints.last().timestamp_ms && ((range->0).1
                == self@.checkpoints.last().timestamp_ms || self@.deltas.len() > 0 && (range->0).1
                == self@.deltas.last().timestamp_ms) && (self@.deltas.len() > 0 ==> (range->0).1
                >= self@.deltas.last().timestamp_ms),
    {
        let first: u64 = if self.checkpoints.len() > 0 {
            self.checkpoints[0].timestamp_ms
        } else {
            u64::MAX
        };
        let last: u64 = match self.last_event_timestamp() {
            Some(time) => time,
            None => 0,
        };
        if last >= first {
            Some((first, last))
        } else {
            None
        }
    }
}

/// Both sides as one list, bids first, and the number of bids.
pub(crate) fn join_sides(bids: &PriceLevels, asks: &PriceLevels) -> (r: (Vec<(Binary64, Binary64)>, usize))
    ensures
        r.0@ == bids@ + asks@,
        r.1 == bids@.len(),
{
    let mut all = bids.to_vec();
    let bids_len = all.len();
    let n = asks.len();
    let mut i: usize = 0;
    while i < n
        invariant
            i <= n == asks@.len(),
            all@ == bids@ + asks@.take(i as int),
        decreases n - i,
    {
        all.push(asks.at(i));
        i = i + 1;
        assert(all@ =~= bids@ + asks@.take(i as int));
    }
    assert(all@ =~= bids@ + asks@);
    (all, bids_len)
}

} // verus!
