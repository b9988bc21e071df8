//! Laws of what a history keeps, and of the memory that it counts.

use crate::book::{BookSides, DepthLevelDelta};
use crate::columns;
use crate::depth;
use crate::depth::{CheckpointView, EventView, HistoryView};
use crate::history;
use vstd::prelude::*;

verus! {

/// Whether `g` is `h` without some of its oldest events and checkpoints.
pub open spec fn is_rest_of(g: HistoryView, h: HistoryView) -> bool {
    &&& g.checkpoints.len() <= h.checkpoints.len()
    &&& g.deltas.len() <= h.deltas.len()
    &&& g.checkpoints == h.checkpoints.skip(h.checkpoints.len() - g.checkpoints.len())
    &&& g.deltas == h.deltas.skip(h.deltas.len() - g.deltas.len())
    &&& g.max_age_ms == h.max_age_ms
    &&& g.target_checkpoint_interval_ms == h.target_checkpoint_interval_ms
    &&& g.max_bytes == h.max_bytes
    &&& g.last_checkpoint_ms == h.last_checkpoint_ms
    &&& g.starts_midway == (h.starts_midway || g.checkpoints.len() < h.checkpoints.len())
}

proof fn lemma_rest_of_rest(f: HistoryView, g: HistoryView, h: HistoryView)
    requires
        is_rest_of(f, g),
        is_rest_of(g, h),
    ensures
        is_rest_of(f, h),
{
    assert(f.checkpoints =~= h.checkpoints.skip(h.checkpoints.len() - f.checkpoints.len()));
    assert(f.deltas =~= h.deltas.skip(h.deltas.len() - f.deltas.len()));
}

proof fn lemma_dropping_first(h: HistoryView)
    ensures
        is_rest_of(h, h),
        h.deltas.len() > 0 ==> is_rest_of(depth::without_first_event(h), h),
        h.checkpoints.len() > 0 ==> is_rest_of(depth::without_first_checkpoint(h), h),
{
    assert(h.checkpoints =~= h.checkpoints.skip(0));
    assert(h.deltas =~= h.deltas.skip(0));
    if h.deltas.len() > 0 {
        assert(h.deltas.drop_first() =~= h.deltas.skip(1));
    }
    if h.checkpoints.len() > 0 {
        assert(h.checkpoints.drop_first() =~= h.checkpoints.skip(1));
    }
}

proof fn lemma_stale_events(h: HistoryView, cutoff: int)
    ensures
        is_rest_of(depth::without_stale_events(h, cutoff), h),
        depth::without_stale_events(h, cutoff).checkpoints == h.checkpoints,
        depth::without_stale_events(h, cutoff).deltas.len() > 0
            ==> depth::without_stale_events(h, cutoff).deltas[0].timestamp_ms >= cutoff,
        accounted(h) ==> accounted(depth::without_stale_events(h, cutoff)),
    decreases h.deltas.len(),
{
    lemma_dropping_first(h);
    if h.deltas.len() > 0 && h.deltas[0].timestamp_ms < cutoff {
        let g = depth::without_first_event(h);
        lemma_stale_events(g, cutoff);
        lemma_rest_of_rest(depth::without_stale_events(h, cutoff), g, h);
    }
}

proof fn lemma_stale_checkpoints(h: HistoryView, cutoff: int)
    ensures
        is_rest_of(depth::without_stale_checkpoints(h, cutoff), h),
        depth::without_stale_checkpoints(h, cutoff).deltas == h.deltas,
        h.checkpoints.len() > 0 ==> depth::without_stale_checkpoints(h, cutoff).checkpoints.len()
            > 0,
        depth::without_stale_checkpoints(h, cutoff).checkpoints.len() > 1
            ==> depth::without_stale_checkpoints(h, cutoff).checkpoints[0].timestamp_ms >= cutoff,
        accounted(h) ==> accounted(depth::without_stale_checkpoints(h, cutoff)),
    decreases h.checkpoints.len(),
{
    lemma_dropping_first(h);
    if h.checkpoints.len() > 1 && h.checkpoints[0].timestamp_ms < cutoff {
        let g = depth::without_first_checkpoint(h);
        lemma_stale_checkpoints(g, cutoff);
        lemma_rest_of_rest(depth::without_stale_checkpoints(h, cutoff), g, h);
    }
}

proof fn lemma_within_memory(h: HistoryView)
    ensures
        is_rest_of(depth::within_memory(h), h),
        h.checkpoints.len() > 0 ==> depth::within_memory(h).checkpoints.len() > 0,
        depth::within_memory(h).approx_bytes <= h.max_bytes || (depth::within_memory(
            h,
        ).deltas.len() == 0 && depth::within_memory(h).checkpoints.len() <= 1),
        accounted(h) ==> accounted(depth::within_memory(h)),
    decreases h.deltas.len() + h.checkpoints.len(),
{
    lemma_dropping_first(h);
    if h.approx_bytes > h.max_bytes {
        if h.deltas.len() > 0 {
            let g = depth::without_first_event(h);
            lemma_within_memory(g);
            lemma_rest_of_rest(depth::within_memory(h), g, h);
        } else if h.checkpoints.len() > 1 {
            let g = depth::without_first_checkpoint(h);
            lemma_within_memory(g);
            lemma_rest_of_rest(depth::within_memory(h), g, h);
        }
    }
}

/// The memory that a list of checkpoints takes.
pub open spec fn checkpoints_bytes(checkpoints: Seq<CheckpointView>) -> nat
    decreases checkpoints.len(),
{
    if checkpoints.len() == 0 {
        0
    } else {
        depth::checkpoint_bytes(checkpoints[0]) + checkpoints_bytes(checkpoints.drop_first())
    }
}

/// The memory that a list of events takes.
pub open spec fn events_bytes(events: Seq<EventView>) -> nat
    decreases events.len(),
{
    if events.len() == 0 {
        0
    } else {
        depth::event_bytes(events[0]) + events_bytes(events.drop_first())
    }
}

/// The memory that a history takes.
pub open spec fn total_bytes(h: HistoryView) -> nat {
    checkpoints_bytes(h.checkpoints) + events_bytes(h.deltas)
}

/// Whether the running count of memory is exact.
pub open spec fn accounted(h: HistoryView) -> bool {
    h.approx_bytes == total_bytes(h)
}

proof fn lemma_checkpoints_bytes_push(checkpoints: Seq<CheckpointView>, c: CheckpointView)
    ensures
        checkpoints_bytes(checkpoints.push(c)) == checkpoints_bytes(checkpoints)
            + depth::checkpoint_bytes(c),
    decreases checkpoints.len(),
{
    let longer = checkpoints.push(c);
    if checkpoints.len() > 0 {
        assert(longer.drop_first() =~= checkpoints.drop_first().push(c));
        lemma_checkpoints_bytes_push(checkpoints.drop_first(), c);
    } else {
        assert(longer.drop_first() =~= Seq::empty());
        reveal_with_fuel(checkpoints_bytes, 2);
    }
}

proof fn lemma_events_bytes_push(events: Seq<EventView>, e: EventView)
    ensures
        events_bytes(events.push(e)) == events_bytes(events) + depth::event_bytes(e),
    decreases events.len(),
{
    let longer = events.push(e);
    if events.len() > 0 {
        assert(longer.drop_first() =~= events.drop_first().push(e));
        lemma_events_bytes_push(events.drop_first(), e);
    } else {
        assert(longer.drop_first() =~= Seq::empty());
        reveal_with_fuel(events_bytes, 2);
    }
}

/// A restart counts memory exactly.
pub proof fn lemma_restart_is_accounted(
    h: HistoryView,
    b: BookSides,
    timestamp_ms: u64,
    update_id: u64,
)
    ensures
        accounted(depth::restarted(h, b, timestamp_ms, update_id)),
{
    let g = depth::restarted(h, b, timestamp_ms, update_id);
    lemma_checkpoints_bytes_push(Seq::empty(), g.checkpoints[0]);
    assert(g.checkpoints =~= Seq::empty().push(g.checkpoints[0]));
}

/// The running count stays exact when an event is recorded, as long as a
/// `usize` can hold it.
pub proof fn lemma_event_is_accounted(
    h: HistoryView,
    timestamp_ms: u64,
    update_id: u64,
    changes: Seq<DepthLevelDelta>,
    b: BookSides,
)
    requires
        accounted(h),
        total_bytes(depth::with_event(h, timestamp_ms, update_id, changes, b)) <= usize::MAX,
    ensures
        accounted(depth::with_event(h, timestamp_ms, update_id, changes, b)),
{
    let time = depth::recorded_time(h, timestamp_ms);
    let e = EventView { timestamp_ms: time, update_id, changes };
    let c = CheckpointView {
        timestamp_ms: time,
        update_id,
        levels: depth::joined(b),
        bids_len: b.bids.len(),
    };
    lemma_checkpoints_bytes_push(h.checkpoints, c);
    lemma_events_bytes_push(h.deltas, e);
}

/// Pruning drops the oldest events and checkpoints only; the last checkpoint
/// stays; no event from before the age limit stays, and of the checkpoints
/// from before it at most the last; the rest fits the memory limit or holds
/// nothing more to drop; and the running count of memory stays exact, as the
/// checkpoints stay whole.
pub proof fn lemma_pruned(h: HistoryView, now_ms: u64)
    ensures
        ({
            let g = depth::pruned(h, now_ms);
            let cutoff = depth::cutoff_time(now_ms, h.max_age_ms);
            &&& is_rest_of(g, h)
            &&& h.checkpoints.len() > 0 ==> g.checkpoints.len() > 0
            &&& h.checkpoints.len() > 0 ==> g.checkpoints.last() == h.checkpoints.last()
            &&& history::is_ordered(h) ==> history::is_ordered(g)
            &&& history::is_ordered(h) ==> forall|i: int|
                0 <= i < g.deltas.len() ==> (#[trigger] g.deltas[i]).timestamp_ms >= cutoff
            &&& history::is_ordered(h) && g.checkpoints.len() > 1 ==> forall|i: int|
                0 <= i < g.checkpoints.len() ==> (#[trigger] g.checkpoints[i]).timestamp_ms
                    >= cutoff
            &&& g.approx_bytes <= g.max_bytes || (g.deltas.len() == 0 && g.checkpoints.len() <= 1)
            &&& accounted(h) ==> accounted(g)
            &&& depth::has_whole_checkpoints(h) ==> depth::has_whole_checkpoints(g)
        }),
{
    let cutoff = depth::cutoff_time(now_ms, h.max_age_ms);
    let x = depth::without_stale_events(h, cutoff);
    let y = depth::without_stale_checkpoints(x, cutoff);
    let g = depth::within_memory(y);
    lemma_stale_events(h, cutoff);
    lemma_stale_checkpoints(x, cutoff);
    lemma_within_memory(y);
    lemma_rest_of_rest(y, x, h);
    lemma_rest_of_rest(g, y, h);
    let a = h.checkpoints.len() - g.checkpoints.len();
    let b = h.deltas.len() - g.deltas.len();
    assert forall|i: int| 0 <= i < g.checkpoints.len() implies #[trigger] g.checkpoints[i]
        == h.checkpoints[i + a] by {}
    assert forall|i: int| 0 <= i < g.deltas.len() implies #[trigger] g.deltas[i] == h.deltas[i
        + b] by {}
    if history::is_ordered(h) {
        let b2 = y.deltas.len() - g.deltas.len();
        assert forall|i: int| 0 <= i < g.deltas.len() implies (#[trigger] g.deltas[i]).timestamp_ms
            >= cutoff by {
            let b1 = h.deltas.len() - y.deltas.len();
            assert(g.deltas[i] == y.deltas[i + b2]);
            assert(y.deltas[0] == h.deltas[b1]);
            assert(y.deltas[i + b2] == h.deltas[i + b2 + b1]);
            assert(h.deltas[b1].timestamp_ms <= h.deltas[i + b2 + b1].timestamp_ms);
        }
        let a2 = y.checkpoints.len() - g.checkpoints.len();
        if g.checkpoints.len() > 1 {
            assert forall|i: int| 0 <= i < g.checkpoints.len() implies (
            #[trigger] g.checkpoints[i]).timestamp_ms >= cutoff by {
                let a1 = h.checkpoints.len() - y.checkpoints.len();
                assert(g.checkpoints[i] == y.checkpoints[i + a2]);
                assert(y.checkpoints[0] == h.checkpoints[a1]);
                assert(y.checkpoints[i + a2] == h.checkpoints[i + a2 + a1]);
                assert(h.checkpoints[a1].timestamp_ms <= h.checkpoints[i + a2 + a1].timestamp_ms);
            }
        }
    }
}

/// A call that changes a history.
pub enum HistoryCall {
    Reset { sides: BookSides, timestamp_ms: u64, update_id: u64 },
    Push {
        timestamp_ms: u64,
        update_id: u64,
        changes: Seq<DepthLevelDelta>,
        sides: BookSides,
    },
    Prune { now_ms: u64 },
}

/// A history after one call.
pub open spec fn after_call(h: HistoryView, call: HistoryCall) -> HistoryView {
    match call {
        HistoryCall::Reset { sides, timestamp_ms, update_id } => depth::restarted(
            h,
            sides,
            timestamp_ms,
            update_id,
        ),
        HistoryCall::Push { timestamp_ms, update_id, changes, sides } => depth::with_event(
            h,
            timestamp_ms,
            update_id,
            changes,
            sides,
        ),
        HistoryCall::Prune { now_ms } => depth::pruned(h, now_ms),
    }
}

/// A history after a series of calls.
pub open spec fn after_calls(h: HistoryView, calls: Seq<HistoryCall>) -> HistoryView
    decreases calls.len(),
{
    if calls.len() == 0 {
        h
    } else {
        after_call(after_calls(h, calls.drop_last()), calls.last())
    }
}

/// Whatever calls are made on a history without entries, after each of them
/// the running count of memory is exact, as long as a `usize` can hold it, the
/// history is in order, its checkpoints are whole, and its limits are those it
/// had.
pub proof fn lemma_every_call_keeps_the_count(h: HistoryView, calls: Seq<HistoryCall>)
    requires
        h.checkpoints.len() == 0,
        h.deltas.len() == 0,
        h.approx_bytes == 0,
        forall|n: int|
            0 <= n <= calls.len() ==> total_bytes(#[trigger] after_calls(h, calls.take(n)))
                <= usize::MAX,
    ensures
        ({
            let g = after_calls(h, calls);
            &&& accounted(g)
            &&& history::is_ordered(g)
            &&& depth::has_whole_checkpoints(g)
            &&& g.max_age_ms == h.max_age_ms
            &&& g.max_bytes == h.max_bytes
            &&& g.target_checkpoint_interval_ms == h.target_checkpoint_interval_ms
        }),
    decreases calls.len(),
{
    if calls.len() > 0 {
        let front = calls.drop_last();
        assert forall|n: int| 0 <= n <= front.len() implies total_bytes(
            #[trigger] after_calls(h, front.take(n)),
        ) <= usize::MAX by {
            assert(front.take(n) =~= calls.take(n));
        }
        lemma_every_call_keeps_the_count(h, front);
        assert(calls.take(calls.len() as int) =~= calls);
        assert(total_bytes(after_calls(h, calls.take(calls.len() as int))) <= usize::MAX);
        let g = after_calls(h, front);
        assert(after_calls(h, calls) == after_call(g, calls.last()));
        match calls.last() {
            HistoryCall::Reset { sides, timestamp_ms, update_id } => {
                lemma_restart_is_accounted(g, sides, timestamp_ms, update_id);
            },
            HistoryCall::Push { timestamp_ms, update_id, changes, sides } => {
                lemma_event_is_accounted(g, timestamp_ms, update_id, changes, sides);
                history::lemma_event_in_order(g, timestamp_ms, update_id, changes, sides);
            },
            HistoryCall::Prune { now_ms } => {
                lemma_pruned(g, now_ms);
            },
        }
    }
}

/// Pruning twice at one time is pruning once.
pub proof fn lemma_prune_twice(h: HistoryView, now_ms: u64)
    requires
        history::is_ordered(h),
    ensures
        depth::pruned(depth::pruned(h, now_ms), now_ms) == depth::pruned(h, now_ms),
{
    lemma_pruned(h, now_ms);
    let g = depth::pruned(h, now_ms);
    let cutoff = depth::cutoff_time(now_ms, h.max_age_ms);
    assert(depth::without_stale_events(g, cutoff) == g);
    assert(depth::without_stale_checkpoints(g, cutoff) == g);
}

/// What pruning leaves gives back the same books: from the first checkpoint
/// that stays on, as long as no event from after that checkpoint was dropped.
pub proof fn lemma_pruning_keeps_books(h: HistoryView, now_ms: u64, time: int)
    requires
        h.checkpoints.len() > 0,
        history::is_ordered(h),
        ({
            let g = depth::pruned(h, now_ms);
            let first = g.checkpoints[0].timestamp_ms;
            &&& time >= first
            &&& forall|i: int|
                0 <= i < h.deltas.len() - g.deltas.len() ==> (#[trigger] h.deltas[i]).timestamp_ms
                    < first
        }),
    ensures
        columns::book_at(depth::pruned(h, now_ms), time) == columns::book_at(h, time),
{
    lemma_pruned(h, now_ms);
    let g = depth::pruned(h, now_ms);
    let a = (h.checkpoints.len() - g.checkpoints.len()) as nat;
    let b = (h.deltas.len() - g.deltas.len()) as nat;
    assert forall|i: int| 0 <= i < g.checkpoints.len() implies #[trigger] g.checkpoints[i]
        == h.checkpoints[i + a] by {}
    assert forall|i: int| 0 <= i < g.deltas.len() implies #[trigger] g.deltas[i] == h.deltas[i
        + b] by {}
    // The base is the same checkpoint.
    let passed = columns::checkpoints_passed(g.checkpoints, 0, time);
    history::lemma_checkpoints_passed(g.checkpoints, 0, time);
    assert(passed > 0);
    assert forall|i: int| 0 <= i < passed + a implies (#[trigger] h.checkpoints[i]).timestamp_ms
        <= time by {
        let last = passed + a - 1;
        assert(g.checkpoints[passed - 1] == h.checkpoints[last]);
        assert(h.checkpoints[i].timestamp_ms <= h.checkpoints[last].timestamp_ms);
    }
    if passed < g.checkpoints.len() {
        assert(g.checkpoints[passed as int] == h.checkpoints[(passed + a) as int]);
    }
    history::lemma_checkpoints_passed_unique(h.checkpoints, 0, passed + a, time);
    let c = g.checkpoints[passed - 1];
    assert(c == h.checkpoints[passed - 1 + a]);
    assert(g.checkpoints[0].timestamp_ms <= c.timestamp_ms);
    // So are the events that it does not hold.
    let base = (passed - 1) as nat;
    let from = columns::events_held(g, base, 0);
    columns::lemma_events_held(g, base, 0);
    assert forall|i: int| 0 <= i < from + b implies columns::is_held(
        h,
        base + a,
        #[trigger] h.deltas[i],
    ) by {
        if i >= b {
            assert(g.deltas[i - b] == h.deltas[i]);
        }
    }
    if from < g.deltas.len() {
        assert(g.deltas[from as int] == h.deltas[(from + b) as int]);
    }
    columns::lemma_events_held_unique(h, base + a, 0, from + b);
    let to = columns::events_passed(g.deltas, from, time);
    columns::lemma_events_passed(g.deltas, from, time);
    assert forall|i: int| from + b <= i < to + b implies (#[trigger] h.deltas[i]).timestamp_ms
        <= time by {
        assert(g.deltas[i - b] == h.deltas[i]);
    }
    if to < g.deltas.len() {
        assert(g.deltas[to as int] == h.deltas[(to + b) as int]);
    }
    columns::lemma_events_passed_unique(h.deltas, from + b, to + b, time);
    history::lemma_same_changes(g.deltas, h.deltas, b as int, from, to);
}

/// What the memory limit drops: nothing where all fits; otherwise no more than
/// it has to, and checkpoints only where no event is left.
proof fn lemma_within_memory_is_minimal(h: HistoryView)
    ensures
        ({
            let g = depth::within_memory(h);
            let a = h.checkpoints.len() - g.checkpoints.len();
            let b = h.deltas.len() - g.deltas.len();
            &&& h.approx_bytes <= h.max_bytes ==> g == h
            &&& 0 <= a && 0 <= b
            &&& a == 0 && b == 0 ==> g.approx_bytes == h.approx_bytes
            &&& a > 0 ==> g.deltas.len() == 0 && g.approx_bytes + depth::checkpoint_bytes(
                h.checkpoints[a - 1],
            ) > h.max_bytes
            &&& a == 0 && b > 0 ==> g.approx_bytes + depth::event_bytes(h.deltas[b - 1])
                > h.max_bytes
        }),
    decreases h.deltas.len() + h.checkpoints.len(),
{
    if h.approx_bytes > h.max_bytes {
        if h.deltas.len() > 0 {
            let r = depth::without_first_event(h);
            lemma_within_memory_is_minimal(r);
            lemma_within_memory(r);
            let b = r.deltas.len() - depth::within_memory(r).deltas.len();
            if b > 0 {
                assert(r.deltas[b - 1] == h.deltas[b]);
            }
        } else if h.checkpoints.len() > 1 {
            let r = depth::without_first_checkpoint(h);
            lemma_within_memory_is_minimal(r);
            lemma_within_memory(r);
            let a = r.checkpoints.len() - depth::within_memory(r).checkpoints.len();
            if a > 0 {
                assert(r.checkpoints[a - 1] == h.checkpoints[a]);
            }
        }
    }
}

/// The number of events that are dropped for their age.
proof fn lemma_stale_events_dropped(h: HistoryView, cutoff: int)
    ensures
        ({
            let g = depth::without_stale_events(h, cutoff);
            let b = h.deltas.len() - g.deltas.len();
            &&& forall|i: int| 0 <= i < b ==> (#[trigger] h.deltas[i]).timestamp_ms < cutoff
            &&& b < h.deltas.len() ==> h.deltas[b].timestamp_ms >= cutoff
            &&& g.approx_bytes <= h.approx_bytes
        }),
    decreases h.deltas.len(),
{
    lemma_stale_events(h, cutoff);
    if h.deltas.len() > 0 && h.deltas[0].timestamp_ms < cutoff {
        let rest = depth::without_first_event(h);
        lemma_stale_events_dropped(rest, cutoff);
        lemma_stale_events(rest, cutoff);
        let b = h.deltas.len() - depth::without_stale_events(h, cutoff).deltas.len();
        assert forall|i: int| 0 <= i < b implies (#[trigger] h.deltas[i]).timestamp_ms < cutoff by {
            if i > 0 {
                assert(rest.deltas[i - 1] == h.deltas[i]);
            }
        }
    }
}

proof fn lemma_stale_checkpoints_dropped(h: HistoryView, cutoff: int)
    ensures
        ({
            let g = depth::without_stale_checkpoints(h, cutoff);
            let a = h.checkpoints.len() - g.checkpoints.len();
            &&& forall|i: int| 0 <= i < a ==> (#[trigger] h.checkpoints[i]).timestamp_ms < cutoff
            &&& a + 1 < h.checkpoints.len() ==> h.checkpoints[a].timestamp_ms >= cutoff
            &&& g.approx_bytes <= h.approx_bytes
        }),
    decreases h.checkpoints.len(),
{
    lemma_stale_checkpoints(h, cutoff);
    if h.checkpoints.len() > 1 && h.checkpoints[0].timestamp_ms < cutoff {
        let rest = depth::without_first_checkpoint(h);
        lemma_stale_checkpoints_dropped(rest, cutoff);
        lemma_stale_checkpoints(rest, cutoff);
        let a = h.checkpoints.len() - depth::without_stale_checkpoints(
            h,
            cutoff,
        ).checkpoints.len();
        assert forall|i: int| 0 <= i < a implies (#[trigger] h.checkpoints[i]).timestamp_ms
            < cutoff by {
            if i > 0 {
                assert(rest.checkpoints[i - 1] == h.checkpoints[i]);
            }
        }
    }
}

/// Pruning drops what is older than the age limit, and nothing younger unless
/// the memory limit asks for it.  A checkpoint stays in any case.  Where the
/// memory limit asks, events go before checkpoints, and no more goes than has to.
pub proof fn lemma_pruning_is_minimal(h: HistoryView, now_ms: u64)
    requires
        history::is_ordered(h),
    ensures
        ({
            let g = depth::pruned(h, now_ms);
            let a = h.checkpoints.len() - g.checkpoints.len();
            let b = h.deltas.len() - g.deltas.len();
            &&& 0 <= a && 0 <= b
            &&& h.checkpoints.len() > 0 ==> g.checkpoints.len() > 0
            &&& g.checkpoints == h.checkpoints.skip(a)
            &&& g.deltas == h.deltas.skip(b)
            &&& g.max_age_ms == h.max_age_ms && g.max_bytes == h.max_bytes
            // Everything too old is dropped.
            &&& forall|i: int|
                b <= i < h.deltas.len() ==> (#[trigger] h.deltas[i]).timestamp_ms + h.max_age_ms
                    >= now_ms
            &&& forall|i: int|
                a <= i < h.checkpoints.len() - 1 ==> (#[trigger] h.checkpoints[i]).timestamp_ms
                    + h.max_age_ms >= now_ms
            // Nothing else is, where the memory limit is kept.
            &&& h.approx_bytes <= h.max_bytes ==> forall|i: int|
                0 <= i < b ==> (#[trigger] h.deltas[i]).timestamp_ms + h.max_age_ms < now_ms
            &&& h.approx_bytes <= h.max_bytes ==> forall|i: int|
                0 <= i < a ==> (#[trigger] h.checkpoints[i]).timestamp_ms + h.max_age_ms < now_ms
            // Where it is not, no more than has to.
            &&& a > 0 && h.checkpoints[a - 1].timestamp_ms + h.max_age_ms >= now_ms
                ==> g.deltas.len() == 0 && g.approx_bytes + depth::checkpoint_bytes(
                h.checkpoints[a - 1],
            ) > h.max_bytes
            &&& b > 0 && h.deltas[b - 1].timestamp_ms + h.max_age_ms >= now_ms && (a == 0
                || h.checkpoints[a - 1].timestamp_ms + h.max_age_ms < now_ms)
                ==> g.approx_bytes + depth::event_bytes(h.deltas[b - 1]) > h.max_bytes
            // The limit is kept, but for one last checkpoint.
            &&& g.approx_bytes <= g.max_bytes || (g.deltas.len() == 0 && g.checkpoints.len() <= 1)
        }),
{
    let g = depth::pruned(h, now_ms);
    let y = lemma_without_stale(h, now_ms);
    lemma_within_memory(y);
    lemma_within_memory_is_minimal(y);
    lemma_rest_of_rest(g, y, h);
    let a = h.checkpoints.len() - g.checkpoints.len();
    let b = h.deltas.len() - g.deltas.len();
    let a1 = h.checkpoints.len() - y.checkpoints.len();
    let b1 = h.deltas.len() - y.deltas.len();
    lemma_rest_is_young(h, now_ms, a1, b1);
    if a > a1 {
        assert(y.checkpoints[a - a1 - 1] == h.checkpoints[a - 1]);
    }
    if b > b1 {
        assert(y.deltas[b - b1 - 1] == h.deltas[b - 1]);
    }
}

/// Where the first event and the first checkpoint that stay are not too old,
/// none behind them is.
proof fn lemma_rest_is_young(h: HistoryView, now_ms: u64, a: int, b: int)
    requires
        history::is_ordered(h),
        0 <= a <= h.checkpoints.len(),
        0 <= b <= h.deltas.len(),
        b < h.deltas.len() ==> h.deltas[b].timestamp_ms + h.max_age_ms >= now_ms,
        a + 1 < h.checkpoints.len() ==> h.checkpoints[a].timestamp_ms + h.max_age_ms >= now_ms,
    ensures
        forall|i: int|
            b <= i < h.deltas.len() ==> (#[trigger] h.deltas[i]).timestamp_ms + h.max_age_ms
                >= now_ms,
        forall|i: int|
            a <= i < h.checkpoints.len() && a + 1 < h.checkpoints.len() ==> (
            #[trigger] h.checkpoints[i]).timestamp_ms + h.max_age_ms >= now_ms,
{
    assert forall|i: int| b <= i < h.deltas.len() implies (#[trigger] h.deltas[i]).timestamp_ms
        + h.max_age_ms >= now_ms by {
        assert(h.deltas[b].timestamp_ms <= h.deltas[i].timestamp_ms);
    }
    assert forall|i: int| a <= i < h.checkpoints.len() && a + 1 < h.checkpoints.len() implies (
    #[trigger] h.checkpoints[i]).timestamp_ms + h.max_age_ms >= now_ms by {
        assert(h.checkpoints[a].timestamp_ms <= h.checkpoints[i].timestamp_ms);
    }
}

/// A history after what is too old was dropped.
proof fn lemma_without_stale(h: HistoryView, now_ms: u64) -> (y: HistoryView)
    ensures
        depth::pruned(h, now_ms) == depth::within_memory(y),
        is_rest_of(y, h),
        y.approx_bytes <= h.approx_bytes,
        h.checkpoints.len() > 0 ==> y.checkpoints.len() > 0,
        ({
            let a = h.checkpoints.len() - y.checkpoints.len();
            let b = h.deltas.len() - y.deltas.len();
            &&& forall|i: int|
                0 <= i < b ==> (#[trigger] h.deltas[i]).timestamp_ms + h.max_age_ms < now_ms
            &&& b < h.deltas.len() ==> h.deltas[b].timestamp_ms + h.max_age_ms >= now_ms
            &&& forall|i: int|
                0 <= i < a ==> (#[trigger] h.checkpoints[i]).timestamp_ms + h.max_age_ms < now_ms
            &&& a + 1 < h.checkpoints.len() ==> h.checkpoints[a].timestamp_ms + h.max_age_ms
                >= now_ms
        }),
{
    let cutoff = depth::cutoff_time(now_ms, h.max_age_ms);
    let x = depth::without_stale_events(h, cutoff);
    let y = depth::without_stale_checkpoints(x, cutoff);
    lemma_stale_events(h, cutoff);
    lemma_stale_checkpoints(x, cutoff);
    lemma_stale_events_dropped(h, cutoff);
    lemma_stale_checkpoints_dropped(x, cutoff);
    lemma_rest_of_rest(y, x, h);
    y
}

} // verus!
