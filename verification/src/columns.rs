//! The heatmap: the book at evenly spaced times of the past.

use crate::binary64::Binary64;
use crate::book;
use crate::book::{BookSides, DepthLevelDelta, DepthSide};
use crate::depth;
use crate::depth::{
    CheckpointView, DepthCheckpoint, DepthDeltaEvent, DepthSlice, EventDepthHistory, EventView,
    HistoryView, SliceView,
};
use crate::levels;
use crate::levels::PriceLevels;
use crate::replay;
use crate::timeline;
use crate::timeline::COLUMN_LIMIT;
use std::sync::Arc;
use vstd::prelude::*;

verus! {

/// The levels that a list makes when it is entered one by one.
pub open spec fn collected(list: Seq<(Binary64, Binary64)>) -> Seq<(Binary64, Binary64)>
    decreases list.len(),
{
    if list.len() == 0 {
        Seq::empty()
    } else {
        levels::with_level(collected(list.drop_last()), list.last().0, list.last().1)
    }
}

/// The book that a checkpoint holds.
pub open spec fn restored(c: CheckpointView) -> BookSides {
    BookSides {
        bids: collected(c.levels.take(c.bids_len as int)),
        asks: collected(c.levels.skip(c.bids_len as int)),
    }
}

/// The changes of the events from `from` up to but not including `to`.
pub open spec fn changes_between(events: Seq<EventView>, from: nat, to: nat) -> Seq<
    DepthLevelDelta,
>
    decreases to,
{
    if from >= to {
        Seq::empty()
    } else {
        changes_between(events, from, (to - 1) as nat) + events[to - 1].changes
    }
}

/// The first event from `from` on that is later than `time`.
pub open spec fn events_passed(events: Seq<EventView>, from: nat, time: int) -> nat
    decreases events.len() - from,
{
    if from < events.len() && events[from as int].timestamp_ms <= time {
        events_passed(events, from + 1, time)
    } else {
        from
    }
}

/// The first checkpoint from `from` on that is later than `time`.
pub open spec fn checkpoints_passed(
    checkpoints: Seq<CheckpointView>,
    from: nat,
    time: int,
) -> nat
    decreases checkpoints.len() - from,
{
    if from < checkpoints.len() && checkpoints[from as int].timestamp_ms <= time {
        checkpoints_passed(checkpoints, from + 1, time)
    } else {
        from
    }
}

/// The checkpoint that the book of a time is built on: the latest one that is
/// not after the time, or the first.
pub open spec fn base_checkpoint(checkpoints: Seq<CheckpointView>, time: int) -> nat {
    let passed = checkpoints_passed(checkpoints, 0, time);
    if passed == 0 {
        0
    } else {
        (passed - 1) as nat
    }
}

/// Whether an event is already in the book of the checkpoint `base`: it is of
/// an earlier time, or of the same time and recorded before the checkpoint,
/// which the update ids tell.  Nothing is recorded before the checkpoint that a
/// history starts with.
pub open spec fn is_held(h: HistoryView, base: nat, e: EventView) -> bool {
    let c = h.checkpoints[base as int];
    ||| e.timestamp_ms < c.timestamp_ms
    ||| e.timestamp_ms == c.timestamp_ms && e.update_id < c.update_id && (base > 0
        || h.starts_midway)
}

/// The first event from `from` on that is not in the book of the checkpoint
/// `base`.
pub open spec fn events_held(h: HistoryView, base: nat, from: nat) -> nat
    decreases h.deltas.len() - from,
{
    if from < h.deltas.len() && is_held(h, base, h.deltas[from as int]) {
        events_held(h, base, from + 1)
    } else {
        from
    }
}

/// The book at a time: that of the latest checkpoint that is not after it,
/// with the events that it does not hold replayed up to the time.
pub open spec fn book_at(h: HistoryView, time: int) -> BookSides {
    let base = base_checkpoint(h.checkpoints, time);
    let from = events_held(h, base, 0);
    book::replayed(
        restored(h.checkpoints[base as int]),
        changes_between(h.deltas, from, events_passed(h.deltas, from, time)),
    )
}

/// The time at which the column `i` of `count` stands.
pub open spec fn column_time(start_ms: u64, span: nat, count: nat, i: nat) -> int {
    start_ms + timeline::column_offset(span, count, i)
}

/// A book as a column.
pub open spec fn as_slice(time: int, b: BookSides) -> SliceView {
    SliceView { timestamp_ms: time as u64, levels: depth::joined(b), bids_len: b.bids.len() }
}

/// The columns of a history between two times: the book at each.
pub open spec fn columns_between(
    h: HistoryView,
    start_ms: u64,
    end_ms: u64,
    max_columns: nat,
) -> Seq<SliceView> {
    if h.checkpoints.len() == 0 || end_ms <= start_ms {
        Seq::empty()
    } else {
        let span = (end_ms - start_ms) as nat;
        let count = timeline::column_count(span, max_columns);
        Seq::new(
            count,
            |i: int|
                as_slice(
                    column_time(start_ms, span, count, i as nat),
                    book_at(h, column_time(start_ms, span, count, i as nat)),
                ),
        )
    }
}

fn collect_levels(list: &Vec<(Binary64, Binary64)>, from: usize, to: usize) -> (side: PriceLevels)
    requires
        from <= to <= list@.len(),
    ensures
        side@ == collected(list@.subrange(from as int, to as int)),
{
    let mut side = PriceLevels::new();
    let mut i = from;
    assert(list@.subrange(from as int, from as int) =~= Seq::empty());
    while i < to
        invariant
            from <= i <= to <= list@.len(),
            side@ == collected(list@.subrange(from as int, i as int)),
        decreases to - i,
    {
        let (price, qty) = list[i];
        side.insert(price, qty);
        proof {
            let longer = list@.subrange(from as int, i + 1);
            assert(longer.drop_last() =~= list@.subrange(from as int, i as int));
            assert(longer.last() == list@[i as int]);
        }
        i = i + 1;
    }
    side
}

fn restore(checkpoint: &DepthCheckpoint) -> (sides: (PriceLevels, PriceLevels))
    requires
        checkpoint.bids_len <= checkpoint.levels@.len(),
    ensures
        restored(checkpoint@) == (BookSides { bids: sides.0@, asks: sides.1@ }),
{
    let n = checkpoint.levels.len();
    let bids = collect_levels(&checkpoint.levels, 0, checkpoint.bids_len);
    let asks = collect_levels(&checkpoint.levels, checkpoint.bids_len, n);
    proof {
        let list = checkpoint.levels@;
        let cut = checkpoint.bids_len as int;
        assert(list.take(cut) =~= list.subrange(0, cut));
        assert(list.skip(cut) =~= list.subrange(cut, n as int));
    }
    (bids, asks)
}

fn replay_event(bids: &mut PriceLevels, asks: &mut PriceLevels, event: &DepthDeltaEvent)
    ensures
        (BookSides { bids: final(bids)@, asks: final(asks)@ }) == book::replayed(
            (BookSides { bids: old(bids)@, asks: old(asks)@ }),
            event@.changes,
        ),
{
    let ghost before = BookSides { bids: bids@, asks: asks@ };
    let changes = &event.changes;
    let mut i: usize = 0;
    assert(changes@.take(0) =~= Seq::empty());
    while i < changes.len()
        invariant
            i <= changes@.len(),
            (BookSides { bids: bids@, asks: asks@ }) == book::replayed(
                before,
                changes@.take(i as int),
            ),
        decreases changes@.len() - i,
    {
        let change = &changes[i];
        match change.side {
            DepthSide::Bid => book::change_level(bids, change.price, change.qty),
            DepthSide::Ask => book::change_level(asks, change.price, change.qty),
        }
        proof {
            let longer = changes@.take(i + 1);
            assert(longer.drop_last() =~= changes@.take(i as int));
            assert(longer.last() == changes@[i as int]);
        }
        i = i + 1;
    }
    assert(changes@.take(i as int) =~= changes@);
}

/// What [`events_passed`] gives.
pub(crate) proof fn lemma_events_passed(events: Seq<EventView>, from: nat, time: int)
    requires
        from <= events.len(),
    ensures
        from <= events_passed(events, from, time) <= events.len(),
        forall|i: int|
            from <= i < events_passed(events, from, time) ==> (#[trigger] events[i]).timestamp_ms
                <= time,
        events_passed(events, from, time) < events.len() ==> events[events_passed(
            events,
            from,
            time,
        ) as int].timestamp_ms > time,
    decreases events.len() - from,
{
    if from < events.len() && events[from as int].timestamp_ms <= time {
        lemma_events_passed(events, from + 1, time);
    }
}

/// A position that splits the events as [`events_passed`] does is it.
pub(crate) proof fn lemma_events_passed_unique(
    events: Seq<EventView>,
    from: nat,
    at: nat,
    time: int,
)
    requires
        from <= at <= events.len(),
        forall|i: int| from <= i < at ==> (#[trigger] events[i]).timestamp_ms <= time,
        at < events.len() ==> events[at as int].timestamp_ms > time,
    ensures
        events_passed(events, from, time) == at,
    decreases at - from,
{
    if from < at {
        assert(events[from as int].timestamp_ms <= time);
        lemma_events_passed_unique(events, from + 1, at, time);
    }
}

/// What [`events_held`] gives.
pub(crate) proof fn lemma_events_held(h: HistoryView, base: nat, from: nat)
    requires
        from <= h.deltas.len(),
    ensures
        from <= events_held(h, base, from) <= h.deltas.len(),
        forall|i: int|
            from <= i < events_held(h, base, from) ==> is_held(h, base, #[trigger] h.deltas[i]),
        events_held(h, base, from) < h.deltas.len() ==> !is_held(
            h,
            base,
            h.deltas[events_held(h, base, from) as int],
        ),
    decreases h.deltas.len() - from,
{
    if from < h.deltas.len() && is_held(h, base, h.deltas[from as int]) {
        lemma_events_held(h, base, from + 1);
    }
}

/// A position that splits the events as [`events_held`] does is it.
pub(crate) proof fn lemma_events_held_unique(h: HistoryView, base: nat, from: nat, at: nat)
    requires
        from <= at <= h.deltas.len(),
        forall|i: int| from <= i < at ==> is_held(h, base, #[trigger] h.deltas[i]),
        at < h.deltas.len() ==> !is_held(h, base, h.deltas[at as int]),
    ensures
        events_held(h, base, from) == at,
    decreases at - from,
{
    if from < at {
        assert(is_held(h, base, h.deltas[from as int]));
        lemma_events_held_unique(h, base, from + 1, at);
    }
}

/// Passing events in two steps is passing them at once.
pub(crate) proof fn lemma_events_passed_twice(
    events: Seq<EventView>,
    from: nat,
    time: int,
    later: int,
)
    requires
        from <= events.len(),
        time <= later,
    ensures
        events_passed(events, events_passed(events, from, time), later) == events_passed(
            events,
            from,
            later,
        ),
    decreases events.len() - from,
{
    if from < events.len() && events[from as int].timestamp_ms <= time {
        lemma_events_passed_twice(events, from + 1, time, later);
    }
}

/// Passing checkpoints in two steps is passing them at once.
proof fn lemma_checkpoints_passed_twice(
    checkpoints: Seq<CheckpointView>,
    from: nat,
    time: int,
    later: int,
)
    requires
        from <= checkpoints.len(),
        time <= later,
    ensures
        checkpoints_passed(checkpoints, checkpoints_passed(checkpoints, from, time), later)
            == checkpoints_passed(checkpoints, from, later),
    decreases checkpoints.len() - from,
{
    if from < checkpoints.len() && checkpoints[from as int].timestamp_ms <= time {
        lemma_checkpoints_passed_twice(checkpoints, from + 1, time, later);
    }
}

/// The changes of a range of events are those of its parts.
pub(crate) proof fn lemma_changes_joined(
    events: Seq<EventView>,
    from: nat,
    middle: nat,
    to: nat,
)
    requires
        from <= middle <= to,
    ensures
        changes_between(events, from, to) == changes_between(events, from, middle)
            + changes_between(events, middle, to),
    decreases to,
{
    if middle < to {
        lemma_changes_joined(events, from, middle, (to - 1) as nat);
    }
    assert(changes_between(events, from, to) =~= changes_between(events, from, middle)
        + changes_between(events, middle, to));
}

/// Whether `b` is a checkpoint's book with the events up to `next` replayed,
/// and none is left out on the way to `reached` and beyond.
spec fn is_on_the_way(
    h: HistoryView,
    base: nat,
    next: nat,
    b: BookSides,
    reached: int,
) -> bool {
    let c = h.checkpoints[base as int];
    let from = events_held(h, base, 0);
    &&& from <= next <= h.deltas.len()
    &&& b == book::replayed(restored(c), changes_between(h.deltas, from, next))
    &&& forall|later: int|
        later >= reached ==> #[trigger] events_passed(h.deltas, next, later) == events_passed(
            h.deltas,
            from,
            later,
        )
}

/// Replaying up to `time` gives the book of that time, and the way goes on.
proof fn lemma_replayed_on_the_way(
    h: HistoryView,
    base: nat,
    next: nat,
    b: BookSides,
    time: int,
)
    requires
        is_on_the_way(h, base, next, b, time),
        base == base_checkpoint(h.checkpoints, time),
    ensures
        ({
            let to = events_passed(h.deltas, next, time);
            let after = book::replayed(b, changes_between(h.deltas, next, to));
            &&& after == book_at(h, time)
            &&& is_on_the_way(h, base, to, after, time)
        }),
{
    let c = h.checkpoints[base as int];
    let from = events_held(h, base, 0);
    let to = events_passed(h.deltas, next, time);
    lemma_events_passed(h.deltas, next, time);
    lemma_changes_joined(h.deltas, from, next, to);
    replay::lemma_replayed_joined(
        restored(c),
        changes_between(h.deltas, from, next),
        changes_between(h.deltas, next, to),
    );
    assert forall|later: int| later >= time implies #[trigger] events_passed(h.deltas, to, later)
        == events_passed(h.deltas, from, later) by {
        lemma_events_passed_twice(h.deltas, next, time, later);
        assert(events_passed(h.deltas, next, later) == events_passed(h.deltas, from, later));
    }
}

/// Columns stand in order, evenly spaced, and both of their sides ascend.
proof fn lemma_columns(
    h: HistoryView,
    start_ms: u64,
    end_ms: u64,
    max_columns: nat,
    columns: Seq<Arc<DepthSlice>>,
)
    requires
        h.checkpoints.len() > 0,
        start_ms < end_ms,
        1 <= columns.len() <= COLUMN_LIMIT,
        columns.len() == timeline::column_count((end_ms - start_ms) as nat, max_columns),
        forall|i: int|
            0 <= i < columns.len() ==> (#[trigger] columns[i])@ == as_slice(
                column_time(start_ms, (end_ms - start_ms) as nat, columns.len(), i as nat),
                book_at(
                    h,
                    column_time(start_ms, (end_ms - start_ms) as nat, columns.len(), i as nat),
                ),
            ),
    ensures
        columns[0].timestamp_ms == start_ms,
        forall|i: int|
            0 <= i < columns.len() ==> start_ms <= (#[trigger] columns[i]).timestamp_ms < end_ms,
        forall|i: int, j: int|
            0 <= i < j < columns.len() ==> (#[trigger] columns[i]).timestamp_ms <= (
            #[trigger] columns[j]).timestamp_ms,
        end_ms - start_ms <= 0x10_0000_0000_0000 ==> forall|i: int|
            0 <= i < columns.len() ==> i * (end_ms - start_ms) - 2 * columns.len() < columns.len()
                * ((#[trigger] columns[i]).timestamp_ms - start_ms) < i * (end_ms - start_ms)
                + columns.len(),
        columns.len() * (end_ms - start_ms) <= 0x4_0000_0000_0000 ==> forall|i: int|
            0 <= i < columns.len() ==> i * (end_ms - start_ms) - columns.len() <= columns.len() * ((
            #[trigger] columns[i]).timestamp_ms - start_ms) <= i * (end_ms - start_ms),
        forall|i: int|
            0 <= i < columns.len() ==> (#[trigger] columns[i]).bids_len
                <= columns[i].levels@.len() && levels::ascending(
                columns[i].levels@.take(columns[i].bids_len as int),
            ) && levels::ascending(columns[i].levels@.skip(columns[i].bids_len as int)),
{
    let span = (end_ms - start_ms) as nat;
    let n = columns.len();
    assert forall|i: int| 0 <= i < n implies start_ms <= (#[trigger] columns[i]).timestamp_ms
        < end_ms && columns[i].timestamp_ms == start_ms + timeline::column_offset(
        span,
        n,
        i as nat,
    ) by {
        timeline::lemma_offset_within_span(span, n, i as nat);
    }
    timeline::lemma_first_offset(span, n);
    assert forall|i: int, j: int| 0 <= i < j < n implies (#[trigger] columns[i]).timestamp_ms <= (
    #[trigger] columns[j]).timestamp_ms by {
        timeline::lemma_offsets_ordered(span, n, i as nat, j as nat);
    }
    if span <= 0x10_0000_0000_0000 {
        assert forall|i: int| 0 <= i < n implies i * (end_ms - start_ms) - 2 * n < n * ((
        #[trigger] columns[i]).timestamp_ms - start_ms) < i * (end_ms - start_ms) + n by {
            timeline::lemma_offsets_evenly_spaced(span, n, i as nat);
        }
    }
    if n * span <= 0x4_0000_0000_0000 {
        assert forall|i: int| 0 <= i < n implies i * (end_ms - start_ms) - n <= n * ((
        #[trigger] columns[i]).timestamp_ms - start_ms) <= i * (end_ms - start_ms) by {
            timeline::lemma_offset_within_one_millisecond(span, n, i as nat);
        }
    }
    assert forall|i: int| 0 <= i < n implies (#[trigger] columns[i]).bids_len
        <= columns[i].levels@.len() && levels::ascending(
        columns[i].levels@.take(columns[i].bids_len as int),
    ) && levels::ascending(columns[i].levels@.skip(columns[i].bids_len as int)) by {
        let time = column_time(start_ms, span, n, i as nat);
        let b = book_at(h, time);
        crate::history::lemma_columns_are_sorted(h, time);
        assert(columns[i]@ == as_slice(time, b));
        assert(columns[i].levels@ == b.bids + b.asks);
        assert(columns[i].levels@.take(columns[i].bids_len as int) =~= b.bids);
        assert(columns[i].levels@.skip(columns[i].bids_len as int) =~= b.asks);
    }
}

impl EventDepthHistory {
    /// The first checkpoint from `from` on that is after `time`.
    fn pass_checkpoints(&self, from: usize, time: u64) -> (passed: usize)
        requires
            from <= self@.checkpoints.len(),
        ensures
            passed == checkpoints_passed(self@.checkpoints, from as nat, time as int),
            from <= passed <= self@.checkpoints.len(),
    {
        let mut i: usize = from;
        while i < self.checkpoints.len() && self.checkpoints[i].timestamp_ms <= time
            invariant
                from <= i <= self.checkpoints@.len(),
                checkpoints_passed(self@.checkpoints, from as nat, time as int)
                    == checkpoints_passed(self@.checkpoints, i as nat, time as int),
            decreases self.checkpoints@.len() - i,
        {
            assert(self@.checkpoints[i as int].timestamp_ms <= time);
            i = i + 1;
        }
        i
    }

    /// Counts the events at the front that are in the book of a checkpoint.
    fn pass_events(&self, base: usize) -> (held: usize)
        requires
            base < self@.checkpoints.len(),
        ensures
            held == events_held(self@, base as nat, 0),
            held <= self@.deltas.len(),
    {
        let checkpoint = &self.checkpoints[base];
        let is_start = base == 0 && !self.starts_midway;
        let mut i: usize = 0;
        while i < self.deltas.len() && (self.deltas[i].timestamp_ms < checkpoint.timestamp_ms || (
        self.deltas[i].timestamp_ms == checkpoint.timestamp_ms && self.deltas[i].update_id
            < checkpoint.update_id && !is_start))
            invariant
                i <= self.deltas@.len(),
                base < self@.checkpoints.len(),
                checkpoint@ == self@.checkpoints[base as int],
                is_start == (base == 0 && !self.starts_midway),
                events_held(self@, base as nat, 0) == events_held(self@, base as nat, i as nat),
            decreases self.deltas@.len() - i,
        {
            assert(is_held(self@, base as nat, self@.deltas[i as int]));
            i = i + 1;
        }
        i
    }

    /// Replays the events from `from` on up to `time`, and gives the first one
    /// that is left.
    fn replay_until(
        &self,
        bids: &mut PriceLevels,
        asks: &mut PriceLevels,
        from: usize,
        time: u64,
    ) -> (next: usize)
        requires
            from <= self@.deltas.len(),
        ensures
            from <= next <= self@.deltas.len(),
            next == events_passed(self@.deltas, from as nat, time as int),
            (BookSides { bids: final(bids)@, asks: final(asks)@ }) == book::replayed(
                (BookSides { bids: old(bids)@, asks: old(asks)@ }),
                changes_between(self@.deltas, from as nat, next as nat),
            ),
    {
        let ghost before = BookSides { bids: bids@, asks: asks@ };
        let mut i = from;
        while i < self.deltas.len() && self.deltas[i].timestamp_ms <= time
            invariant
                from <= i <= self.deltas@.len(),
                events_passed(self@.deltas, from as nat, time as int) == events_passed(
                    self@.deltas,
                    i as nat,
                    time as int,
                ),
                (BookSides { bids: bids@, asks: asks@ }) == book::replayed(
                    before,
                    changes_between(self@.deltas, from as nat, i as nat),
                ),
            decreases self.deltas@.len() - i,
        {
            assert(self@.deltas[i as int].timestamp_ms <= time);
            replay_event(bids, asks, &self.deltas[i]);
            proof {
                let so_far = changes_between(self@.deltas, from as nat, i as nat);
                let more = self@.deltas[i as int].changes;
                replay::lemma_replayed_joined(before, so_far, more);
                assert(changes_between(self@.deltas, from as nat, (i + 1) as nat) == so_far + more);
            }
            i = i + 1;
        }
        i
    }

    /// The book at up to `max_columns` evenly spaced times from `start_ms` on
    /// and before `end_ms`, rebuilt from checkpoints and the events after them.
    pub fn materialize_columns(&self, start_ms: u64, end_ms: u64, max_columns: usize) -> (columns:
        Vec<Arc<DepthSlice>>)
        requires
            depth::has_whole_checkpoints(self@),
            timeline::column_count(
                if end_ms > start_ms {
                    (end_ms - start_ms) as nat
                } else {
                    0
                },
                max_columns as nat,
            ) <= COLUMN_LIMIT,
        ensures
            columns@.len() == columns_between(self@, start_ms, end_ms, max_columns as nat).len(),
            forall|i: int|
                0 <= i < columns@.len() ==> (#[trigger] columns@[i])@ == columns_between(
                    self@,
                    start_ms,
                    end_ms,
                    max_columns as nat,
                )[i],
            self@.checkpoints.len() == 0 || end_ms <= start_ms ==> columns@.len() == 0,
            self@.checkpoints.len() > 0 && start_ms < end_ms && max_columns <= end_ms - start_ms
                ==> columns@.len() == max_columns,
            self@.checkpoints.len() > 0 && start_ms < end_ms && max_columns > end_ms - start_ms
                ==> columns@.len() == end_ms - start_ms,
            columns@.len() > 0 ==> columns@[0].timestamp_ms == start_ms,
            forall|i: int|
                0 <= i < columns@.len() ==> start_ms <= (#[trigger] columns@[i]).timestamp_ms
                    < end_ms,
            forall|i: int, j: int|
                0 <= i < j < columns@.len() ==> (#[trigger] columns@[i]).timestamp_ms <= (
                #[trigger] columns@[j]).timestamp_ms,
            end_ms - start_ms <= 0x10_0000_0000_0000 ==> forall|i: int|
                0 <= i < columns@.len() ==> i * (end_ms - start_ms) - 2 * columns@.len()
                    < columns@.len() * ((#[trigger] columns@[i]).timestamp_ms - start_ms) < i * (
                end_ms - start_ms) + columns@.len(),
            columns@.len() * (end_ms - start_ms) <= 0x4_0000_0000_0000 ==> forall|i: int|
                0 <= i < columns@.len() ==> i * (end_ms - start_ms) - columns@.len()
                    <= columns@.len() * ((#[trigger] columns@[i]).timestamp_ms - start_ms) <= i * (
                end_ms - start_ms),
            forall|i: int|
                0 <= i < columns@.len() ==> (#[trigger] columns@[i]).bids_len
                    <= columns@[i].levels@.len() && levels::ascending(
                    columns@[i].levels@.take(columns@[i].bids_len as int),
                ) && levels::ascending(
                    columns@[i].levels@.skip(columns@[i].bids_len as int),
                ),
    {
        let mut columns: Vec<Arc<DepthSlice>> = Vec::new();
        if max_columns == 0 || self.checkpoints.len() == 0 || end_ms <= start_ms {
            return columns;
        }
        let span = end_ms - start_ms;
        let count: u64 = if max_columns as u64 <= span {
            max_columns as u64
        } else {
            span
        };
        let step = Binary64::from_u64(span).over(Binary64::from_u64(count));
        let ghost h = self@;
        let ghost n = count as nat;
        let ghost width = span as nat;
        proof {
            timeline::lemma_first_offset(width, n);
        }
        let mut passed = self.pass_checkpoints(0, start_ms);
        let mut base: usize = if passed == 0 {
            0
        } else {
            passed - 1
        };
        assert(h.checkpoints[base as int] == self.checkpoints@[base as int]@);
        let (mut bids, mut asks) = restore(&self.checkpoints[base]);
        let mut next_event = self.pass_events(base);
        let ghost mut reached = start_ms as int;
        let mut i: u64 = 0;
        while i < count
            invariant
                i <= count,
                h == self@,
                depth::has_whole_checkpoints(h),
                n == count,
                width == span,
                span == end_ms - start_ms,
                1 <= count <= span,
                count <= COLUMN_LIMIT,
                step == Binary64::quotient(
                    Binary64::of_integer(width),
                    Binary64::of_integer(n),
                ),
                n == timeline::column_count(width, max_columns as nat),
                columns@.len() == i,
                forall|j: int|
                    0 <= j < columns@.len() ==> (#[trigger] columns@[j])@ == as_slice(
                        column_time(start_ms, width, n, j as nat),
                        book_at(h, column_time(start_ms, width, n, j as nat)),
                    ),
                i < count ==> reached <= column_time(start_ms, width, n, i as nat),
                passed == checkpoints_passed(h.checkpoints, 0, reached),
                passed <= h.checkpoints.len(),
                base == base_checkpoint(h.checkpoints, reached),
                base < h.checkpoints.len(),
                is_on_the_way(
                    h,
                    base as nat,
                    next_event as nat,
                    BookSides { bids: bids@, asks: asks@ },
                    reached,
                ),
            decreases count - i,
        {
            proof {
                timeline::lemma_offset_within_span(width, n, i as nat);
            }
            let time = start_ms + Binary64::from_u64(i).times(step).to_u64();
            let ghost earlier = reached;
            passed = self.pass_checkpoints(passed, time);
            proof {
                lemma_checkpoints_passed_twice(h.checkpoints, 0, earlier, time as int);
            }
            let latest: usize = if passed == 0 {
                0
            } else {
                passed - 1
            };
            if latest != base {
                base = latest;
                assert(h.checkpoints[base as int] == self.checkpoints@[base as int]@);
                let sides = restore(&self.checkpoints[base]);
                bids = sides.0;
                asks = sides.1;
                next_event = self.pass_events(base);
            }
            let ghost before = BookSides { bids: bids@, asks: asks@ };
            let ghost at = next_event as nat;
            assert(is_on_the_way(h, base as nat, at, before, time as int));
            next_event = self.replay_until(&mut bids, &mut asks, next_event, time);
            proof {
                reached = time as int;
                lemma_replayed_on_the_way(h, base as nat, at, before, time as int);
                if i + 1 < count {
                    timeline::lemma_offsets_ordered(width, n, i as nat, (i + 1) as nat);
                }
            }
            let (all, bids_len) = depth::join_sides(&bids, &asks);
            columns.push(Arc::new(DepthSlice { timestamp_ms: time, levels: all, bids_len }));
            i = i + 1;
        }
        proof {
            lemma_columns(h, start_ms, end_ms, max_columns as nat, columns@);
        }
        columns
    }
}

} // verus!
