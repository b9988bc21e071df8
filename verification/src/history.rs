//! Laws of the history: what it keeps, and that the book of any time can be
//! read back from it.

use crate::binary64::Binary64;
use crate::book;
use crate::book::{BookSides, DepthLevelDelta};
use crate::columns;
use crate::depth;
use crate::depth::{CheckpointView, EventView, HistoryView};
use crate::levels;
use crate::replay;
use crate::timeline;
use vstd::prelude::*;

verus! {

/// Whether checkpoints and events are recorded in the order of time.
pub open spec fn is_ordered(h: HistoryView) -> bool {
    &&& forall|i: int, j: int|
        0 <= i <= j < h.checkpoints.len() ==> (#[trigger] h.checkpoints[i]).timestamp_ms <= (
        #[trigger] h.checkpoints[j]).timestamp_ms
    &&& forall|i: int, j: int|
        0 <= i <= j < h.deltas.len() ==> (#[trigger] h.deltas[i]).timestamp_ms <= (
        #[trigger] h.deltas[j]).timestamp_ms
}

/// Whether a history is in order and `b` is its latest book.
pub open spec fn tracks(h: HistoryView, b: BookSides) -> bool {
    &&& h.checkpoints.len() > 0
    &&& is_ordered(h)
    &&& replay::is_sound(b)
    &&& columns::book_at(h, u64::MAX as int) == b
}

/// Entering levels that are in order gives the same levels.
pub proof fn lemma_collected_in_order(list: Seq<(Binary64, Binary64)>)
    requires
        levels::ascending(list),
    ensures
        columns::collected(list) == list,
    decreases list.len(),
{
    if list.len() > 0 {
        let front = list.drop_last();
        let price = list.last().0;
        lemma_collected_in_order(front);
        assert forall|i: int| 0 <= i < front.len() implies (#[trigger] front[i]).0.order_key()
            < price.order_key() by {
            assert(list[i].0.order_key() < list[list.len() - 1].0.order_key());
        }
        levels::lemma_slot_unique(front, price.order_key(), front.len() as int);
        assert(front.insert(front.len() as int, list.last()) =~= list);
    } else {
        assert(list =~= Seq::empty());
    }
}

/// Entering levels puts them in order.
pub proof fn lemma_collected_ascends(list: Seq<(Binary64, Binary64)>)
    ensures
        levels::ascending(columns::collected(list)),
    decreases list.len(),
{
    if list.len() > 0 {
        lemma_collected_ascends(list.drop_last());
        levels::lemma_with_level(
            columns::collected(list.drop_last()),
            list.last().0,
            list.last().1,
            0,
        );
    }
}

/// A checkpoint gives back the book that it was taken of.
pub proof fn lemma_checkpoint_restores(
    h: HistoryView,
    b: BookSides,
    timestamp_ms: u64,
    update_id: u64,
)
    requires
        replay::is_sound(b),
    ensures
        columns::restored(
            depth::with_checkpoint(h, b, timestamp_ms, update_id).checkpoints.last(),
        ) == b,
{
    let list = depth::joined(b);
    let cut = b.bids.len() as int;
    assert(list.take(cut) =~= b.bids);
    assert(list.skip(cut) =~= b.asks);
    lemma_collected_in_order(b.bids);
    lemma_collected_in_order(b.asks);
}

pub(crate) proof fn lemma_checkpoints_passed(checkpoints: Seq<CheckpointView>, from: nat, time: int)
    requires
        from <= checkpoints.len(),
    ensures
        from <= columns::checkpoints_passed(checkpoints, from, time) <= checkpoints.len(),
        forall|i: int|
            from <= i < columns::checkpoints_passed(checkpoints, from, time) ==> (
            #[trigger] checkpoints[i]).timestamp_ms <= time,
        columns::checkpoints_passed(checkpoints, from, time) < checkpoints.len()
            ==> checkpoints[columns::checkpoints_passed(
            checkpoints,
            from,
            time,
        ) as int].timestamp_ms > time,
    decreases checkpoints.len() - from,
{
    if from < checkpoints.len() && checkpoints[from as int].timestamp_ms <= time {
        lemma_checkpoints_passed(checkpoints, from + 1, time);
    }
}

pub(crate) proof fn lemma_checkpoints_passed_unique(
    checkpoints: Seq<CheckpointView>,
    from: nat,
    at: nat,
    time: int,
)
    requires
        from <= at <= checkpoints.len(),
        forall|i: int| from <= i < at ==> (#[trigger] checkpoints[i]).timestamp_ms <= time,
        at < checkpoints.len() ==> checkpoints[at as int].timestamp_ms > time,
    ensures
        columns::checkpoints_passed(checkpoints, from, time) == at,
    decreases at - from,
{
    if from < at {
        assert(checkpoints[from as int].timestamp_ms <= time);
        lemma_checkpoints_passed_unique(checkpoints, from + 1, at, time);
    }
}

/// Events that agree on a range have the same changes there.
pub(crate) proof fn lemma_same_changes(
    x: Seq<EventView>,
    y: Seq<EventView>,
    shift: int,
    from: nat,
    to: nat,
)
    requires
        0 <= from + shift,
        forall|i: int| from <= i < to ==> #[trigger] x[i] == y[i + shift],
    ensures
        columns::changes_between(x, from, to) == columns::changes_between(
            y,
            (from + shift) as nat,
            if from <= to {
                (to + shift) as nat
            } else {
                0
            },
        ),
    decreases to,
{
    if from < to {
        lemma_same_changes(x, y, shift, from, (to - 1) as nat);
        assert(x[to - 1] == y[to - 1 + shift]);
    }
}

/// Whether nothing is recorded after `time`.
pub open spec fn ends_by(h: HistoryView, time: int) -> bool {
    &&& forall|i: int|
        0 <= i < h.checkpoints.len() ==> (#[trigger] h.checkpoints[i]).timestamp_ms <= time
    &&& forall|i: int| 0 <= i < h.deltas.len() ==> (#[trigger] h.deltas[i]).timestamp_ms <= time
}

/// Whether what is recorded at `time` has update ids up to `id`.
pub open spec fn ids_end_by(h: HistoryView, time: int, id: int) -> bool {
    &&& forall|i: int|
        0 <= i < h.checkpoints.len() && (#[trigger] h.checkpoints[i]).timestamp_ms == time
            ==> h.checkpoints[i].update_id <= id
    &&& forall|i: int|
        0 <= i < h.deltas.len() && (#[trigger] h.deltas[i]).timestamp_ms == time
            ==> h.deltas[i].update_id <= id
}

/// The position of the last checkpoint.
spec fn last_base(h: HistoryView) -> nat {
    (h.checkpoints.len() - 1) as nat
}

/// The latest book of a history.
spec fn latest_book(h: HistoryView) -> BookSides {
    book::replayed(
        columns::restored(h.checkpoints.last()),
        columns::changes_between(
            h.deltas,
            columns::events_held(h, last_base(h), 0),
            h.deltas.len(),
        ),
    )
}

/// From its end on, a history gives its latest book.
proof fn lemma_latest_book(h: HistoryView, time: int)
    requires
        h.checkpoints.len() > 0,
        ends_by(h, time),
    ensures
        columns::book_at(h, time) == latest_book(h),
{
    lemma_checkpoints_passed_unique(h.checkpoints, 0, h.checkpoints.len(), time);
    let from = columns::events_held(h, last_base(h), 0);
    columns::lemma_events_held(h, last_base(h), 0);
    columns::lemma_events_passed_unique(h.deltas, from, h.deltas.len(), time);
}

/// What is recorded is not recorded after the recorded time of a new event.
pub proof fn lemma_recorded_time(h: HistoryView, timestamp_ms: u64)
    requires
        is_ordered(h),
    ensures
        ends_by(h, depth::recorded_time(h, timestamp_ms) as int),
        depth::recorded_time(h, timestamp_ms) >= timestamp_ms,
{
    let time = depth::recorded_time(h, timestamp_ms);
    if h.checkpoints.len() > 0 {
        assert forall|i: int| 0 <= i < h.checkpoints.len() implies (
        #[trigger] h.checkpoints[i]).timestamp_ms <= time by {
            assert(h.checkpoints[i].timestamp_ms <= h.checkpoints[h.checkpoints.len()
                - 1].timestamp_ms);
        }
    }
    if h.deltas.len() > 0 {
        assert forall|i: int| 0 <= i < h.deltas.len() implies (#[trigger] h.deltas[i]).timestamp_ms
            <= time by {
            assert(h.deltas[i].timestamp_ms <= h.deltas[h.deltas.len() - 1].timestamp_ms);
        }
    }
}

/// An event at the end changes the latest book by its changes.
proof fn lemma_event_extends(h: HistoryView, e: EventView)
    requires
        h.checkpoints.len() > 0,
        is_ordered(h),
        ends_by(h, e.timestamp_ms as int),
        ids_end_by(h, e.timestamp_ms as int, e.update_id - 1),
    ensures
        ({
            let g = HistoryView { deltas: h.deltas.push(e), ..h };
            &&& is_ordered(g)
            &&& ends_by(g, e.timestamp_ms as int)
            &&& latest_book(g) == book::replayed(latest_book(h), e.changes)
        }),
{
    let g = HistoryView { deltas: h.deltas.push(e), ..h };
    let c = h.checkpoints.last();
    assert(h.checkpoints[h.checkpoints.len() - 1].timestamp_ms <= e.timestamp_ms);
    let base = last_base(h);
    assert(h.checkpoints[base as int] == c);
    let from = columns::events_held(h, base, 0);
    columns::lemma_events_held(h, base, 0);
    assert forall|i: int| 0 <= i < from implies columns::is_held(
        g,
        base,
        #[trigger] g.deltas[i],
    ) by {
        assert(g.deltas[i] == h.deltas[i]);
    }
    columns::lemma_events_held_unique(g, base, 0, from);
    lemma_same_changes(h.deltas, g.deltas, 0, from, h.deltas.len());
    let old_changes = columns::changes_between(h.deltas, from, h.deltas.len());
    assert(columns::changes_between(g.deltas, from, g.deltas.len()) == old_changes + e.changes);
    replay::lemma_replayed_joined(columns::restored(c), old_changes, e.changes);
}

/// A book that a checkpoint holds is in order.
proof fn lemma_restored_is_sound(c: CheckpointView)
    ensures
        replay::is_sound(columns::restored(c)),
{
    lemma_collected_ascends(c.levels.take(c.bids_len as int));
    lemma_collected_ascends(c.levels.skip(c.bids_len as int));
}

/// A checkpoint of the book that the last event left gives that book as the
/// latest one, though the event is replayed over it.
proof fn lemma_checkpoint_settles(h: HistoryView, before: BookSides)
    requires
        h.checkpoints.len() > 0,
        h.deltas.len() > 0,
        ends_by(h, h.deltas.last().timestamp_ms as int),
        forall|i: int|
            0 <= i < h.deltas.len() - 1 && (#[trigger] h.deltas[i]).timestamp_ms
                == h.deltas.last().timestamp_ms ==> h.deltas[i].update_id
                < h.deltas.last().update_id,
        replay::is_sound(before),
    ensures
        ({
            let e = h.deltas.last();
            let b = book::replayed(before, e.changes);
            latest_book(depth::with_checkpoint(h, b, e.timestamp_ms, e.update_id)) == b
        }),
{
    let e = h.deltas.last();
    let b = book::replayed(before, e.changes);
    let g = depth::with_checkpoint(h, b, e.timestamp_ms, e.update_id);
    let at = (h.deltas.len() - 1) as nat;
    assert forall|i: int| 0 <= i < at implies columns::is_held(
        g,
        last_base(g),
        #[trigger] g.deltas[i],
    ) by {
        assert(h.deltas[i].timestamp_ms <= e.timestamp_ms);
    }
    columns::lemma_events_held_unique(g, last_base(g), 0, at);
    let empty = columns::changes_between(g.deltas, at, at);
    assert(empty + e.changes =~= e.changes);
    assert(columns::changes_between(g.deltas, at, g.deltas.len()) == empty + e.changes);
    replay::lemma_replayed_levels(before, e.changes, book::DepthSide::Bid, 0);
    replay::lemma_replay_twice(before, e.changes);
    lemma_checkpoint_restores(h, b, e.timestamp_ms, e.update_id);
}

/// Adding a checkpoint at the end keeps a history in order.
proof fn lemma_checkpoint_in_order(h: HistoryView, b: BookSides, time: u64, update_id: u64)
    requires
        is_ordered(h),
        ends_by(h, time as int),
    ensures
        is_ordered(depth::with_checkpoint(h, b, time, update_id)),
        ends_by(depth::with_checkpoint(h, b, time, update_id), time as int),
{
}

/// Recording an event keeps a history in order.
pub proof fn lemma_event_in_order(
    h: HistoryView,
    timestamp_ms: u64,
    update_id: u64,
    changes: Seq<DepthLevelDelta>,
    b: BookSides,
)
    requires
        is_ordered(h),
    ensures
        is_ordered(depth::with_event(h, timestamp_ms, update_id, changes, b)),
        ends_by(
            depth::with_event(h, timestamp_ms, update_id, changes, b),
            depth::recorded_time(h, timestamp_ms) as int,
        ),
{
    let time = depth::recorded_time(h, timestamp_ms);
    lemma_recorded_time(h, timestamp_ms);
    if depth::is_burst(changes) {
        lemma_checkpoint_in_order(h, b, time, update_id);
    } else {
        let e = EventView { timestamp_ms: time, update_id, changes };
        let g = HistoryView {
            deltas: h.deltas.push(e),
            approx_bytes: depth::capped(h.approx_bytes + depth::event_bytes(e)),
            ..h
        };
        lemma_checkpoint_in_order(g, b, time, update_id);
    }
}

/// A history that starts with a book gives that book back for every time.
pub proof fn lemma_restart_is_read_back(
    h: HistoryView,
    b: BookSides,
    timestamp_ms: u64,
    update_id: u64,
    time: int,
)
    requires
        replay::is_sound(b),
    ensures
        columns::book_at(depth::restarted(h, b, timestamp_ms, update_id), time) == b,
        tracks(depth::restarted(h, b, timestamp_ms, update_id), b),
{
    let empty = HistoryView {
        checkpoints: Seq::empty(),
        deltas: Seq::empty(),
        approx_bytes: 0,
        last_checkpoint_ms: 0,
        starts_midway: false,
        ..h
    };
    let g = depth::restarted(h, b, timestamp_ms, update_id);
    lemma_checkpoint_restores(empty, b, timestamp_ms, update_id);
    lemma_checkpoints_passed(g.checkpoints, 0, time);
    lemma_checkpoints_passed(g.checkpoints, 0, u64::MAX as int);
}

/// An event is read back, be it a burst or not: from its recorded time on, the
/// history gives the book as the event left it.  Of what is recorded at the
/// same time, the event has the largest update id.
pub proof fn lemma_event_is_read_back(
    h: HistoryView,
    timestamp_ms: u64,
    update_id: u64,
    changes: Seq<DepthLevelDelta>,
    b: BookSides,
    time: int,
)
    requires
        tracks(h, b),
        time >= depth::recorded_time(h, timestamp_ms),
        ids_end_by(h, depth::recorded_time(h, timestamp_ms) as int, update_id - 1),
    ensures
        ({
            let after = book::replayed(b, changes);
            let g = depth::with_event(h, timestamp_ms, update_id, changes, after);
            &&& columns::book_at(g, time) == after
            &&& tracks(g, after)
            &&& ids_end_by(g, depth::recorded_time(h, timestamp_ms) as int, update_id as int)
        }),
{
    let after = book::replayed(b, changes);
    let at = depth::recorded_time(h, timestamp_ms);
    let g = depth::with_event(h, timestamp_ms, update_id, changes, after);
    lemma_recorded_time(h, timestamp_ms);
    lemma_latest_book(h, u64::MAX as int);
    lemma_event_in_order(h, timestamp_ms, update_id, changes, after);
    replay::lemma_replayed_levels(b, changes, book::DepthSide::Bid, 0);
    if depth::is_burst(changes) {
        lemma_checkpoint_restores(h, after, at, update_id);
        assert forall|i: int| 0 <= i < g.deltas.len() implies columns::is_held(
            g,
            last_base(g),
            #[trigger] g.deltas[i],
        ) by {
            assert(h.deltas[i].timestamp_ms <= at);
        }
        columns::lemma_events_held_unique(g, last_base(g), 0, g.deltas.len());
        assert(columns::changes_between(g.deltas, g.deltas.len(), g.deltas.len())
            =~= Seq::empty());
        assert(latest_book(g) == after);
    } else {
        let e = EventView { timestamp_ms: at, update_id, changes };
        let plain = HistoryView { deltas: h.deltas.push(e), ..h };
        let middle = HistoryView {
            deltas: h.deltas.push(e),
            approx_bytes: depth::capped(h.approx_bytes + depth::event_bytes(e)),
            ..h
        };
        lemma_event_extends(h, e);
        let base = last_base(h);
        let from = columns::events_held(plain, base, 0);
        columns::lemma_events_held(plain, base, 0);
        assert forall|i: int| 0 <= i < from implies columns::is_held(
            middle,
            base,
            #[trigger] middle.deltas[i],
        ) by {
            assert(columns::is_held(plain, base, plain.deltas[i]));
        }
        columns::lemma_events_held_unique(middle, base, 0, from);
        assert(latest_book(middle) == after);
        if g != middle {
            assert(ends_by(middle, at as int));
            assert forall|i: int|
                0 <= i < middle.deltas.len() - 1 && (#[trigger] middle.deltas[i]).timestamp_ms
                    == at implies middle.deltas[i].update_id < update_id by {
                assert(middle.deltas[i] == h.deltas[i]);
            }
            lemma_checkpoint_settles(middle, b);
        }
    }
    assert(latest_book(g) == after);
    lemma_latest_book(g, time);
    lemma_latest_book(g, u64::MAX as int);
}

/// An update is read back: where the changes that it reports are recorded, the
/// history gives, from the recorded time on, the book as the update left it.
pub proof fn lemma_update_is_read_back(
    h: HistoryView,
    b: BookSides,
    bids: Seq<[String; 2]>,
    asks: Seq<[String; 2]>,
    timestamp_ms: u64,
    update_id: u64,
    time: int,
)
    requires
        tracks(h, b),
        time >= depth::recorded_time(h, timestamp_ms),
        ids_end_by(h, depth::recorded_time(h, timestamp_ms) as int, update_id - 1),
    ensures
        ({
            let changes = book::tracked_deltas(b.bids, bids, book::DepthSide::Bid)
                + book::tracked_deltas(b.asks, asks, book::DepthSide::Ask);
            let after = BookSides {
                bids: book::tracked_side(b.bids, bids),
                asks: book::tracked_side(b.asks, asks),
            };
            let g = depth::with_event(h, timestamp_ms, update_id, changes, after);
            &&& columns::book_at(g, time) == after
            &&& tracks(g, after)
        }),
{
    let changes = book::tracked_deltas(b.bids, bids, book::DepthSide::Bid) + book::tracked_deltas(
        b.asks,
        asks,
        book::DepthSide::Ask,
    );
    replay::lemma_reported_deltas_replay(b, bids, asks);
    lemma_event_is_read_back(h, timestamp_ms, update_id, changes, b, time);
}

/// Recording an event leaves the past as it was.
pub proof fn lemma_past_is_kept(
    h: HistoryView,
    timestamp_ms: u64,
    update_id: u64,
    changes: Seq<DepthLevelDelta>,
    b: BookSides,
    time: int,
)
    requires
        h.checkpoints.len() > 0,
        is_ordered(h),
        time < depth::recorded_time(h, timestamp_ms),
    ensures
        columns::book_at(depth::with_event(h, timestamp_ms, update_id, changes, b), time) == columns::book_at(
            h,
            time,
        ),
{
    let g = depth::with_event(h, timestamp_ms, update_id, changes, b);
    let passed = columns::checkpoints_passed(h.checkpoints, 0, time);
    lemma_checkpoints_passed(h.checkpoints, 0, time);
    assert forall|i: int| 0 <= i < passed implies (#[trigger] g.checkpoints[i]).timestamp_ms
        <= time by {
        assert(g.checkpoints[i] == h.checkpoints[i]);
    }
    lemma_checkpoints_passed_unique(g.checkpoints, 0, passed, time);
    let base = columns::base_checkpoint(h.checkpoints, time);
    let c = h.checkpoints[base as int];
    assert(g.checkpoints[base as int] == c);
    lemma_recorded_time(h, timestamp_ms);
    assert forall|i: int| 0 <= i < h.deltas.len() implies #[trigger] g.deltas[i] == h.deltas[i] by {}
    let from = columns::events_held(h, base, 0);
    columns::lemma_events_held(h, base, 0);
    let held = columns::events_held(g, base, 0);
    columns::lemma_events_held(g, base, 0);
    let to = columns::events_passed(h.deltas, from, time);
    columns::lemma_events_passed(h.deltas, from, time);
    if c.timestamp_ms <= time {
        assert forall|i: int| 0 <= i < from implies columns::is_held(
            g,
            base,
            #[trigger] g.deltas[i],
        ) by {
            assert(columns::is_held(h, base, h.deltas[i]));
        }
        columns::lemma_events_held_unique(g, base, 0, from);
        columns::lemma_events_passed_unique(g.deltas, from, to, time);
        lemma_same_changes(h.deltas, g.deltas, 0, from, to);
    } else {
        columns::lemma_events_passed_unique(h.deltas, from, from, time);
        columns::lemma_events_passed_unique(g.deltas, held, held, time);
        assert(columns::changes_between(h.deltas, from, from) =~= columns::changes_between(
            g.deltas,
            held,
            held,
        ));
    }
}

/// The book after a series of events.
pub open spec fn book_after(b: BookSides, events: Seq<EventView>) -> BookSides
    decreases events.len(),
{
    if events.len() == 0 {
        b
    } else {
        book::replayed(book_after(b, events.drop_last()), events.last().changes)
    }
}

/// A history after a series of events was recorded, each with the book that it
/// left.
pub open spec fn recorded(h: HistoryView, b: BookSides, events: Seq<EventView>) -> HistoryView
    decreases events.len(),
{
    if events.len() == 0 {
        h
    } else {
        let e = events.last();
        depth::with_event(
            recorded(h, b, events.drop_last()),
            e.timestamp_ms,
            e.update_id,
            e.changes,
            book_after(b, events),
        )
    }
}

/// Whether an event comes after a time and an update id: it is of a later
/// time, or of the same time with a larger id.
pub open spec fn comes_after(e: EventView, time: u64, update_id: u64) -> bool {
    e.timestamp_ms > time || (e.timestamp_ms == time && e.update_id > update_id)
}

/// Whether a series of events comes after a time and an update id, and each one
/// after the one before it.
pub open spec fn is_series_after(time: u64, update_id: u64, events: Seq<EventView>) -> bool {
    &&& forall|i: int| 0 <= i < events.len() ==> comes_after(#[trigger] events[i], time, update_id)
    &&& forall|i: int, j: int|
        0 <= i < j < events.len() ==> comes_after(
            #[trigger] events[j],
            (#[trigger] events[i]).timestamp_ms,
            events[i].update_id,
        )
}

/// The time of the last event of a series.
pub open spec fn last_time(start: u64, events: Seq<EventView>) -> u64 {
    if events.len() == 0 {
        start
    } else {
        events.last().timestamp_ms
    }
}

/// The update id of the last event of a series.
pub open spec fn last_id(update_id: u64, events: Seq<EventView>) -> u64 {
    if events.len() == 0 {
        update_id
    } else {
        events.last().update_id
    }
}

/// Whatever series of events is recorded from a restart on, the history gives
/// for every time the book as the last event up to that time left it.
pub proof fn lemma_series_is_read_back(
    h: HistoryView,
    b: BookSides,
    start: u64,
    update_id: u64,
    events: Seq<EventView>,
    time: int,
)
    requires
        replay::is_sound(b),
        is_series_after(start, update_id, events),
    ensures
        ({
            let g = recorded(depth::restarted(h, b, start, update_id), b, events);
            &&& tracks(g, book_after(b, events))
            &&& ends_by(g, last_time(start, events) as int)
            &&& ids_end_by(g, last_time(start, events) as int, last_id(update_id, events) as int)
            &&& columns::book_at(g, time) == book_after(
                b,
                events.take(columns::events_passed(events, 0, time) as int),
            )
        }),
    decreases events.len(),
{
    let first = depth::restarted(h, b, start, update_id);
    lemma_restart_is_read_back(h, b, start, update_id, time);
    let passed = columns::events_passed(events, 0, time);
    columns::lemma_events_passed(events, 0, time);
    if events.len() == 0 {
        assert(events.take(0) =~= events);
    } else {
        let front = events.drop_last();
        let e = events.last();
        let before = recorded(first, b, front);
        assert(is_series_after(start, update_id, front)) by {
            assert forall|i: int| 0 <= i < front.len() implies comes_after(
                #[trigger] front[i],
                start,
                update_id,
            ) by {
                assert(front[i] == events[i]);
            }
            assert forall|i: int, j: int| 0 <= i < j < front.len() implies comes_after(
                #[trigger] front[j],
                (#[trigger] front[i]).timestamp_ms,
                front[i].update_id,
            ) by {
                assert(front[i] == events[i] && front[j] == events[j]);
            }
        }
        lemma_series_is_read_back(h, b, start, update_id, front, time);
        let last = last_time(start, front);
        assert(comes_after(e, last, last_id(update_id, front))) by {
            if front.len() > 0 {
                assert(front.last() == events[events.len() - 2]);
                assert(events.last() == events[events.len() - 1]);
            } else {
                assert(comes_after(events[0], start, update_id));
            }
        }
        assert(depth::recorded_time(before, e.timestamp_ms) == e.timestamp_ms) by {
            if before.checkpoints.len() > 0 {
                assert(before.checkpoints[before.checkpoints.len() - 1].timestamp_ms <= last);
            }
            if before.deltas.len() > 0 {
                assert(before.deltas[before.deltas.len() - 1].timestamp_ms <= last);
            }
        }
        assert(ids_end_by(before, e.timestamp_ms as int, e.update_id - 1)) by {
            if e.timestamp_ms > last {
                assert forall|i: int|
                    0 <= i < before.checkpoints.len() && (
                    #[trigger] before.checkpoints[i]).timestamp_ms
                        == e.timestamp_ms implies before.checkpoints[i].update_id <= e.update_id
                    - 1 by {
                    assert(before.checkpoints[i].timestamp_ms <= last);
                }
            }
        }
        let late = if time >= e.timestamp_ms {
            time
        } else {
            e.timestamp_ms as int
        };
        lemma_event_is_read_back(
            before,
            e.timestamp_ms,
            e.update_id,
            e.changes,
            book_after(b, front),
            late,
        );
        lemma_event_in_order(
            before,
            e.timestamp_ms,
            e.update_id,
            e.changes,
            book_after(b, events),
        );
        if time >= e.timestamp_ms {
            assert forall|i: int| 0 <= i < events.len() implies (#[trigger] events[i]).timestamp_ms
                <= time by {
                if i < events.len() - 1 {
                    assert(comes_after(
                        events[events.len() - 1],
                        events[i].timestamp_ms,
                        events[i].update_id,
                    ));
                }
            }
            columns::lemma_events_passed_unique(events, 0, events.len(), time);
            assert(events.take(events.len() as int) =~= events);
        } else {
            lemma_past_is_kept(
                before,
                e.timestamp_ms,
                e.update_id,
                e.changes,
                book_after(b, events),
                time,
            );
            columns::lemma_events_passed(front, 0, time);
            let k = columns::events_passed(front, 0, time);
            assert forall|i: int| 0 <= i < k implies (#[trigger] events[i]).timestamp_ms <= time by {
                assert(events[i] == front[i]);
            }
            columns::lemma_events_passed_unique(events, 0, k, time);
            assert(front.take(k as int) =~= events.take(k as int));
        }
    }
}

/// Every column of the heatmap shows the recorded book of its time.
pub proof fn lemma_every_column_shows_the_recorded_book(
    h: HistoryView,
    b: BookSides,
    start: u64,
    update_id: u64,
    events: Seq<EventView>,
    start_ms: u64,
    end_ms: u64,
    max_columns: nat,
    i: int,
)
    requires
        replay::is_sound(b),
        is_series_after(start, update_id, events),
        ({
            let g = recorded(depth::restarted(h, b, start, update_id), b, events);
            0 <= i < columns::columns_between(g, start_ms, end_ms, max_columns).len()
        }),
    ensures
        ({
            let g = recorded(depth::restarted(h, b, start, update_id), b, events);
            let span = (end_ms - start_ms) as nat;
            let count = timeline::column_count(span, max_columns);
            let time = columns::column_time(start_ms, span, count, i as nat);
            columns::columns_between(g, start_ms, end_ms, max_columns)[i] == columns::as_slice(
                time,
                book_after(b, events.take(columns::events_passed(events, 0, time) as int)),
            )
        }),
{
    let span = (end_ms - start_ms) as nat;
    let count = timeline::column_count(span, max_columns);
    let time = columns::column_time(start_ms, span, count, i as nat);
    lemma_series_is_read_back(h, b, start, update_id, events, time);
}

/// A heatmap of a recorded series has a column for each that is asked for, one
/// for each millisecond at most, and a column holds, bids first, the levels of
/// the book as the last event up to its time left it.
pub proof fn lemma_columns_hold_the_recorded_levels(
    h: HistoryView,
    b: BookSides,
    start: u64,
    update_id: u64,
    events: Seq<EventView>,
    start_ms: u64,
    end_ms: u64,
    max_columns: nat,
    i: int,
    k: int,
)
    requires
        replay::is_sound(b),
        is_series_after(start, update_id, events),
        start_ms < end_ms,
        max_columns <= 0x4_0000_0000_0000,
        0 <= i < max_columns,
        i < end_ms - start_ms,
        0 <= k <= events.len(),
        ({
            let g = recorded(depth::restarted(h, b, start, update_id), b, events);
            let c = columns::columns_between(g, start_ms, end_ms, max_columns)[i];
            &&& forall|j: int|
                0 <= j < k ==> (#[trigger] events[j]).timestamp_ms <= c.timestamp_ms
            &&& k < events.len() ==> events[k].timestamp_ms > c.timestamp_ms
        }),
    ensures
        ({
            let g = recorded(depth::restarted(h, b, start, update_id), b, events);
            let all = columns::columns_between(g, start_ms, end_ms, max_columns);
            let shown = book_after(b, events.take(k));
            &&& max_columns <= end_ms - start_ms ==> all.len() == max_columns
            &&& max_columns > end_ms - start_ms ==> all.len() == end_ms - start_ms
            &&& start_ms <= all[i].timestamp_ms < end_ms
            &&& all[i].levels == shown.bids + shown.asks
            &&& all[i].bids_len == shown.bids.len()
        }),
{
    let g = recorded(depth::restarted(h, b, start, update_id), b, events);
    let span = (end_ms - start_ms) as nat;
    let count = timeline::column_count(span, max_columns);
    let time = columns::column_time(start_ms, span, count, i as nat);
    lemma_series_is_read_back(h, b, start, update_id, events, time);
    timeline::lemma_offset_within_span(span, count, i as nat);
    assert(columns::columns_between(g, start_ms, end_ms, max_columns)[i].timestamp_ms == time);
    columns::lemma_events_passed_unique(events, 0, k as nat, time);
}

/// The book after some events is that before the last of them, changed by it,
/// one change after the other; no event leaves the book as it is.
pub proof fn lemma_book_after(b: BookSides, events: Seq<EventView>, e: EventView)
    ensures
        book_after(b, Seq::empty()) == b,
        e.changes.len() == 0 ==> book_after(b, events.push(e)) == book_after(b, events),
        e.changes.len() > 0 ==> book_after(b, events.push(e)) == book::with_delta(
            book_after(
                b,
                events.push(EventView { changes: e.changes.drop_last(), ..e }),
            ),
            e.changes.last(),
        ),
{
    assert(events.push(e).drop_last() =~= events);
    let f = EventView { changes: e.changes.drop_last(), ..e };
    assert(events.push(f).drop_last() =~= events);
}

/// Whatever is recorded, checkpoints stay whole.
pub proof fn lemma_checkpoints_stay_whole(
    h: HistoryView,
    timestamp_ms: u64,
    update_id: u64,
    changes: Seq<DepthLevelDelta>,
    b: BookSides,
)
    ensures
        depth::has_whole_checkpoints(depth::restarted(h, b, timestamp_ms, update_id)),
        depth::has_whole_checkpoints(h) ==> depth::has_whole_checkpoints(
            depth::with_event(h, timestamp_ms, update_id, changes, b),
        ),
{
}

/// The sides of every column are in ascending price order.
pub proof fn lemma_columns_are_sorted(h: HistoryView, time: int)
    ensures
        replay::is_sound(columns::book_at(h, time)),
{
    let base = columns::base_checkpoint(h.checkpoints, time);
    let c = h.checkpoints[base as int];
    let from = columns::events_held(h, base, 0);
    lemma_restored_is_sound(c);
    replay::lemma_replayed_levels(
        columns::restored(c),
        columns::changes_between(
            h.deltas,
            from,
            columns::events_passed(h.deltas, from, time),
        ),
        book::DepthSide::Bid,
        0,
    );
}

/// The range of a history holds the times of all its checkpoints, and no event
/// is after it.
pub proof fn lemma_time_range(h: HistoryView)
    requires
        h.checkpoints.len() > 0,
        is_ordered(h),
    ensures
        depth::covered(h) matches Some(range) && range.0 <= range.1 && ends_by(
            h,
            range.1 as int,
        ) && forall|i: int|
            0 <= i < h.checkpoints.len() ==> (#[trigger] h.checkpoints[i]).timestamp_ms >= range.0,
{
    lemma_recorded_time(h, 0);
    assert(h.checkpoints[0].timestamp_ms <= h.checkpoints[h.checkpoints.len() - 1].timestamp_ms);
}

} // verus!
