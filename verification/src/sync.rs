//! Joining a snapshot with the stream of updates, without gaps.

use crate::messages::WsDepthUpdate;
use vstd::prelude::*;

verus! {

/// How far the book is in step with the stream.
#[derive(Clone, Copy, Debug, PartialEq, Eq, Structural)]
pub struct DepthSync {
    pub snapshot_update_id: u64,
    pub synced: bool,
    pub last_final_update_id: u64,
}

/// What is to be done with an update.
#[derive(Clone, Copy, Debug, PartialEq, Eq, Structural)]
pub enum SyncStep {
    /// It is older than the book, or cannot follow it: it is dropped.
    Skip,
    /// It is the first one to apply: it reaches from the snapshot onward.
    Bridge,
    /// It follows the last one that was applied: it is applied.
    Apply,
    /// An update before it is missing: it is dropped.
    Gap,
}

/// Whether an update is to be applied.
pub open spec fn is_taken(step: SyncStep) -> bool {
    step == SyncStep::Bridge || step == SyncStep::Apply
}

/// Whether an update reaches from the snapshot, or before it, to beyond it.
pub open spec fn bridges(s: DepthSync, u: WsDepthUpdate) -> bool {
    u.first_update_id <= s.snapshot_update_id < u.final_update_id
}

/// Whether an update follows the last one that was applied.
pub open spec fn follows(s: DepthSync, u: WsDepthUpdate) -> bool {
    u.prev_final_update_id == s.last_final_update_id
}

/// What is to be done with an update that arrived before the snapshot did.
pub open spec fn buffered_step(s: DepthSync, u: WsDepthUpdate) -> SyncStep {
    if u.final_update_id < s.snapshot_update_id {
        SyncStep::Skip
    } else if !s.synced {
        if bridges(s, u) {
            SyncStep::Bridge
        } else {
            SyncStep::Skip
        }
    } else if follows(s, u) {
        SyncStep::Apply
    } else {
        SyncStep::Skip
    }
}

/// What is to be done with an update as it arrives.
pub open spec fn live_step(s: DepthSync, u: WsDepthUpdate) -> SyncStep {
    if u.final_update_id <= s.last_final_update_id {
        SyncStep::Skip
    } else if !s.synced {
        if bridges(s, u) {
            SyncStep::Bridge
        } else {
            SyncStep::Skip
        }
    } else if follows(s, u) {
        SyncStep::Apply
    } else {
        SyncStep::Gap
    }
}

/// The state after an update was dealt with.
pub open spec fn after_step(s: DepthSync, u: WsDepthUpdate, step: SyncStep) -> DepthSync {
    if is_taken(step) {
        DepthSync { synced: true, last_final_update_id: u.final_update_id, ..s }
    } else {
        s
    }
}

impl DepthSync {
    /// The state after a snapshot, before any update.
    pub fn new(snapshot_update_id: u64) -> (s: DepthSync)
        ensures
            s == (DepthSync { snapshot_update_id, synced: false, last_final_update_id: 0 }),
    {
        DepthSync { snapshot_update_id, synced: false, last_final_update_id: 0 }
    }

    fn take(&mut self, update: &WsDepthUpdate)
        ensures
            *final(self) == after_step(*old(self), *update, SyncStep::Apply),
    {
        self.synced = true;
        self.last_final_update_id = update.final_update_id;
    }

    /// Deals with an update that arrived before the snapshot did.
    pub fn on_buffered(&mut self, update: &WsDepthUpdate) -> (step: SyncStep)
        ensures
            step == buffered_step(*old(self), *update),
            *final(self) == after_step(*old(self), *update, step),
            final(self).snapshot_update_id == old(self).snapshot_update_id,
            step == SyncStep::Bridge <==> !old(self).synced
                && update.first_update_id <= old(self).snapshot_update_id
                && update.final_update_id > old(self).snapshot_update_id,
            step == SyncStep::Apply <==> old(self).synced
                && update.final_update_id >= old(self).snapshot_update_id
                && update.prev_final_update_id == old(self).last_final_update_id,
            step != SyncStep::Gap,
            step == SyncStep::Bridge || step == SyncStep::Apply ==> final(self).synced
                && final(self).last_final_update_id == update.final_update_id,
            step == SyncStep::Skip ==> *final(self) == *old(self),
    {
        if update.final_update_id < self.snapshot_update_id {
            return SyncStep::Skip;
        }
        if !self.synced {
            if update.first_update_id <= self.snapshot_update_id && update.final_update_id
                > self.snapshot_update_id {
                self.take(update);
                return SyncStep::Bridge;
            }
            return SyncStep::Skip;
        }
        if update.prev_final_update_id == self.last_final_update_id {
            self.take(update);
            return SyncStep::Apply;
        }
        SyncStep::Skip
    }

    /// Deals with an update as it arrives.
    pub fn on_live(&mut self, update: &WsDepthUpdate) -> (step: SyncStep)
        ensures
            step == live_step(*old(self), *update),
            *final(self) == after_step(*old(self), *update, step),
            final(self).snapshot_update_id == old(self).snapshot_update_id,
            step == SyncStep::Bridge <==> !old(self).synced
                && update.final_update_id > old(self).last_final_update_id
                && update.first_update_id <= old(self).snapshot_update_id
                && update.final_update_id > old(self).snapshot_update_id,
            step == SyncStep::Apply <==> old(self).synced
                && update.final_update_id > old(self).last_final_update_id
                && update.prev_final_update_id == old(self).last_final_update_id,
            step == SyncStep::Gap <==> old(self).synced
                && update.final_update_id > old(self).last_final_update_id
                && update.prev_final_update_id != old(self).last_final_update_id,
            step == SyncStep::Bridge || step == SyncStep::Apply ==> final(self).synced
                && final(self).last_final_update_id == update.final_update_id,
            step == SyncStep::Skip || step == SyncStep::Gap ==> *final(self) == *old(self),
    {
        if update.final_update_id <= self.last_final_update_id {
            return SyncStep::Skip;
        }
        if !self.synced {
            if update.first_update_id <= self.snapshot_update_id && update.final_update_id
                > self.snapshot_update_id {
                self.take(update);
                return SyncStep::Bridge;
            }
            return SyncStep::Skip;
        }
        if update.prev_final_update_id != self.last_final_update_id {
            return SyncStep::Gap;
        }
        self.take(update);
        SyncStep::Apply
    }
}

/// An update on its way to the book.
pub struct Arrival {
    pub update: WsDepthUpdate,
    pub is_live: bool,
}

pub open spec fn arrival_step(s: DepthSync, a: Arrival) -> SyncStep {
    if a.is_live {
        live_step(s, a.update)
    } else {
        buffered_step(s, a.update)
    }
}

/// The state after a series of arrivals.
pub open spec fn synced_by(s: DepthSync, arrivals: Seq<Arrival>) -> DepthSync
    decreases arrivals.len(),
{
    if arrivals.len() == 0 {
        s
    } else {
        let t = synced_by(s, arrivals.drop_last());
        after_step(t, arrivals.last().update, arrival_step(t, arrivals.last()))
    }
}

/// The updates of a series of arrivals that are applied.
pub open spec fn applied(s: DepthSync, arrivals: Seq<Arrival>) -> Seq<WsDepthUpdate>
    decreases arrivals.len(),
{
    if arrivals.len() == 0 {
        Seq::empty()
    } else {
        let front = arrivals.drop_last();
        let rest = applied(s, front);
        if is_taken(arrival_step(synced_by(s, front), arrivals.last())) {
            rest.push(arrivals.last().update)
        } else {
            rest
        }
    }
}

/// Whether updates continue a snapshot without a gap: the first one reaches
/// from the snapshot onward, and each one follows the one before it.
pub open spec fn is_contiguous(snapshot_update_id: u64, updates: Seq<WsDepthUpdate>) -> bool {
    &&& updates.len() > 0 ==> updates[0].first_update_id <= snapshot_update_id
        < updates[0].final_update_id
    &&& forall|i: int|
        0 < i < updates.len() ==> (#[trigger] updates[i]).prev_final_update_id == updates[i
            - 1].final_update_id
}

/// Whatever arrives, the updates that are applied continue the snapshot
/// without a gap, and the state knows the last of them.
pub proof fn lemma_applied_updates_are_contiguous(snapshot_update_id: u64, arrivals: Seq<Arrival>)
    ensures
        ({
            let start = DepthSync { snapshot_update_id, synced: false, last_final_update_id: 0 };
            let s = synced_by(start, arrivals);
            let updates = applied(start, arrivals);
            &&& is_contiguous(snapshot_update_id, updates)
            &&& s.snapshot_update_id == snapshot_update_id
            &&& s.synced <==> updates.len() > 0
            &&& updates.len() > 0 ==> s.last_final_update_id == updates.last().final_update_id
        }),
    decreases arrivals.len(),
{
    if arrivals.len() > 0 {
        let front = arrivals.drop_last();
        let start = DepthSync { snapshot_update_id, synced: false, last_final_update_id: 0 };
        lemma_applied_updates_are_contiguous(snapshot_update_id, front);
        let before = applied(start, front);
        let updates = applied(start, arrivals);
        if updates != before {
            assert(updates.drop_last() =~= before);
            assert forall|i: int| 0 < i < updates.len() implies (
            #[trigger] updates[i]).prev_final_update_id == updates[i - 1].final_update_id by {
                if i < before.len() {
                    assert(before[i].prev_final_update_id == before[i - 1].final_update_id);
                }
            }
        }
    }
}

/// An update that names the last one applied, and is newer, is taken once the
/// book is in step, whatever number it begins with; before that, one that
/// reaches from the snapshot onward is taken.
pub proof fn lemma_next_update_is_taken(s: DepthSync, u: WsDepthUpdate)
    ensures
        s.synced && u.final_update_id > s.last_final_update_id && u.prev_final_update_id
            == s.last_final_update_id ==> live_step(s, u) == SyncStep::Apply,
        s.synced && u.final_update_id >= s.snapshot_update_id && u.prev_final_update_id
            == s.last_final_update_id ==> buffered_step(s, u) == SyncStep::Apply,
        !s.synced && u.first_update_id <= s.snapshot_update_id < u.final_update_id
            ==> buffered_step(s, u) == SyncStep::Bridge && (s.last_final_update_id
            < u.final_update_id ==> live_step(s, u) == SyncStep::Bridge),
        forall|step: SyncStep|
            step == SyncStep::Apply || step == SyncStep::Bridge ==> (#[trigger] after_step(
                s,
                u,
                step,
            )).synced && after_step(s, u, step).last_final_update_id == u.final_update_id,
{
}

/// Whether each update of a stream is newer than the one before it and names
/// it.
pub open spec fn is_stream(arrivals: Seq<Arrival>) -> bool {
    forall|i: int|
        0 < i < arrivals.len() ==> (#[trigger] arrivals[i]).update.prev_final_update_id
            == arrivals[i - 1].update.final_update_id && arrivals[i].update.final_update_id
            > arrivals[i - 1].update.final_update_id
}

/// Of a stream in which each update names the one before it, all are applied
/// from the first one on that reaches from the snapshot onward, and none before
/// that, whether they were kept back or came live.
pub proof fn lemma_whole_stream_is_applied(
    snapshot_update_id: u64,
    arrivals: Seq<Arrival>,
    first: int,
)
    requires
        is_stream(arrivals),
        0 <= first < arrivals.len(),
        arrivals[first].update.first_update_id <= snapshot_update_id
            < arrivals[first].update.final_update_id,
        forall|i: int|
            0 <= i < first ==> !((#[trigger] arrivals[i]).update.first_update_id
                <= snapshot_update_id < arrivals[i].update.final_update_id),
    ensures
        ({
            let start = DepthSync { snapshot_update_id, synced: false, last_final_update_id: 0 };
            let updates = applied(start, arrivals);
            &&& updates.len() == arrivals.len() - first
            &&& forall|i: int|
                first <= i < arrivals.len() ==> #[trigger] arrivals[i].update == updates[i - first]
            &&& synced_by(start, arrivals).last_final_update_id
                == arrivals.last().update.final_update_id
        }),
    decreases arrivals.len(),
{
    let start = DepthSync { snapshot_update_id, synced: false, last_final_update_id: 0 };
    let front = arrivals.drop_last();
    let last = arrivals.last();
    assert(is_stream(front)) by {
        assert forall|i: int| 0 < i < front.len() implies (
        #[trigger] front[i]).update.prev_final_update_id == front[i - 1].update.final_update_id
            && front[i].update.final_update_id > front[i - 1].update.final_update_id by {
            assert(front[i] == arrivals[i] && front[i - 1] == arrivals[i - 1]);
        }
    }
    lemma_applied_updates_are_contiguous(snapshot_update_id, front);
    if first < front.len() {
        lemma_whole_stream_is_applied(snapshot_update_id, front, first);
        let n = front.len() as int;
        assert(arrivals[n] == last);
        assert(front[n - 1] == arrivals[n - 1]);
        lemma_stream_rises(arrivals, first, n);
        let before = applied(start, front);
        let updates = applied(start, arrivals);
        assert(updates == before.push(last.update));
        assert forall|i: int| first <= i < arrivals.len() implies #[trigger] arrivals[i].update
            == updates[i - first] by {
            if i < n {
                assert(front[i] == arrivals[i]);
            }
        }
    } else {
        lemma_nothing_reaches(snapshot_update_id, front);
        assert(applied(start, arrivals) =~= seq![last.update]);
    }
}

proof fn lemma_stream_rises(arrivals: Seq<Arrival>, i: int, j: int)
    requires
        is_stream(arrivals),
        0 <= i <= j < arrivals.len(),
    ensures
        arrivals[i].update.final_update_id <= arrivals[j].update.final_update_id,
    decreases j - i,
{
    if i < j {
        lemma_stream_rises(arrivals, i, j - 1);
        assert(arrivals[j].update.final_update_id > arrivals[j - 1].update.final_update_id);
    }
}

/// As long as no update reaches from the snapshot onward, none is applied.
pub proof fn lemma_nothing_reaches(snapshot_update_id: u64, arrivals: Seq<Arrival>)
    requires
        forall|i: int|
            0 <= i < arrivals.len() ==> !((#[trigger] arrivals[i]).update.first_update_id
                <= snapshot_update_id < arrivals[i].update.final_update_id),
    ensures
        ({
            let start = DepthSync { snapshot_update_id, synced: false, last_final_update_id: 0 };
            &&& applied(start, arrivals).len() == 0
            &&& synced_by(start, arrivals) == start
        }),
    decreases arrivals.len(),
{
    if arrivals.len() > 0 {
        let front = arrivals.drop_last();
        assert forall|i: int| 0 <= i < front.len() implies !((
        #[trigger] front[i]).update.first_update_id <= snapshot_update_id
            < front[i].update.final_update_id) by {
            assert(front[i] == arrivals[i]);
        }
        lemma_nothing_reaches(snapshot_update_id, front);
        assert(arrivals.last() == arrivals[arrivals.len() - 1]);
    }
}

/// A gap changes nothing, and is reported for an update that is newer than the
/// book but does not follow it.
pub proof fn lemma_gap(s: DepthSync, u: WsDepthUpdate)
    ensures
        live_step(s, u) == SyncStep::Gap <==> s.synced && u.final_update_id
            > s.last_final_update_id && u.prev_final_update_id != s.last_final_update_id,
        live_step(s, u) == SyncStep::Gap ==> after_step(s, u, live_step(s, u)) == s,
        buffered_step(s, u) != SyncStep::Gap,
{
}

/// A time of the exchange as a signed number.
pub open spec fn signed_time(time_ms: u64) -> int {
    (time_ms as i64) as int
}

/// Half of a sum, cut toward zero.
pub open spec fn half_toward_zero(n: int) -> int {
    if n >= 0 {
        n / 2
    } else {
        -((-n) / 2)
    }
}

pub open spec fn fits_i64(n: int) -> bool {
    i64::MIN <= n <= i64::MAX
}

fn halve(n: i64) -> (half: i64)
    ensures
        half == half_toward_zero(n as int),
{
    if n >= 0 {
        n / 2
    } else if n == i64::MIN {
        -0x4000_0000_0000_0000
    } else {
        -((-n) / 2)
    }
}

/// How far the local clock is ahead of that of the exchange, which gave its
/// time between the two local times.
pub fn clock_offset(local_before: i64, local_after: i64, server_time: u64) -> (offset: i64)
    requires
        fits_i64(local_before + local_after),
        fits_i64(half_toward_zero(local_before + local_after) - signed_time(server_time)),
    ensures
        offset == half_toward_zero(local_before + local_after) - signed_time(server_time),
        -1 <= local_before + local_after - 2 * (offset + (server_time as i64)) <= 1,
{
    halve(local_before + local_after) - server_time as i64
}

/// [`clock_offset`], or nothing where it leaves the range of the clock.
pub fn checked_clock_offset(local_before: i64, local_after: i64, server_time: u64) -> (offset:
    Option<i64>)
    ensures
        offset == if fits_i64(local_before + local_after) && fits_i64(
            half_toward_zero(local_before + local_after) - signed_time(server_time),
        ) {
            Some(
                (half_toward_zero(local_before + local_after) - signed_time(server_time)) as i64,
            )
        } else {
            None
        },
        i64::MIN <= local_before + local_after <= i64::MAX && 2 * i64::MIN <= local_before
            + local_after - 2 * (server_time as i64) <= 2 * i64::MAX ==> offset is Some,
        offset matches Some(x) ==> -1 <= local_before + local_after - 2 * (x + (
        server_time as i64)) <= 1,
{
    let sum = local_before.checked_add(local_after)?;
    match halve(sum).checked_sub(server_time as i64) {
        Some(_) => Some(clock_offset(local_before, local_after, server_time)),
        None => None,
    }
}

/// The age of an event by the clock of the exchange.
pub open spec fn age(now_ms: i64, event_time: u64, offset: i64) -> int {
    now_ms - signed_time(event_time) - offset
}

/// Whether the age of an event can be computed.
pub open spec fn has_age(now_ms: i64, event_time: u64, offset: i64) -> bool {
    fits_i64(now_ms - signed_time(event_time)) && fits_i64(age(now_ms, event_time, offset))
}

fn is_age_known(now_ms: i64, event_time: u64, offset: i64) -> (known: bool)
    ensures
        known == has_age(now_ms, event_time, offset),
{
    match now_ms.checked_sub(event_time as i64) {
        Some(elapsed) => elapsed.checked_sub(offset).is_some(),
        None => false,
    }
}

/// The time that an event took to arrive; zero where the clocks say that it
/// arrived before it happened.
pub fn network_latency(now_ms: i64, event_time: u64, offset: i64) -> (latency: u64)
    requires
        has_age(now_ms, event_time, offset),
    ensures
        latency == if age(now_ms, event_time, offset) > 0 {
            age(now_ms, event_time, offset)
        } else {
            0
        },
        latency == if now_ms - (event_time as i64) - offset > 0 {
            now_ms - (event_time as i64) - offset
        } else {
            0
        },
{
    let elapsed = now_ms - event_time as i64 - offset;
    if elapsed > 0 {
        elapsed as u64
    } else {
        0
    }
}

/// [`network_latency`], or nothing where the age of the event leaves the range
/// of the clock.
pub fn checked_network_latency(now_ms: i64, event_time: u64, offset: i64) -> (latency: Option<
    u64,
>)
    ensures
        latency == if !has_age(now_ms, event_time, offset) {
            None
        } else if age(now_ms, event_time, offset) > 0 {
            Some(age(now_ms, event_time, offset) as u64)
        } else {
            Some(0)
        },
        latency is Some <==> i64::MIN <= now_ms - (event_time as i64) <= i64::MAX && i64::MIN
            <= now_ms - (event_time as i64) - offset <= i64::MAX,
        latency matches Some(x) ==> x == if now_ms - (event_time as i64) - offset > 0 {
            now_ms - (event_time as i64) - offset
        } else {
            0
        },
{
    if is_age_known(now_ms, event_time, offset) {
        Some(network_latency(now_ms, event_time, offset))
    } else {
        None
    }
}

/// The age of the latest event of a book; zero where there was none.
pub fn display_latency(now_ms: i64, last_event_time: u64, offset: i64) -> (latency: i64)
    requires
        signed_time(last_event_time) > 0 ==> has_age(now_ms, last_event_time, offset),
    ensures
        latency == if signed_time(last_event_time) > 0 {
            age(now_ms, last_event_time, offset)
        } else {
            0
        },
        latency == if (last_event_time as i64) > 0 {
            now_ms - (last_event_time as i64) - offset
        } else {
            0
        },
{
    let event_time = last_event_time as i64;
    if event_time > 0 {
        now_ms - event_time - offset
    } else {
        0
    }
}

/// [`display_latency`], or nothing where the age of the event leaves the range
/// of the clock.
pub fn checked_display_latency(now_ms: i64, last_event_time: u64, offset: i64) -> (latency: Option<
    i64,
>)
    ensures
        latency == if signed_time(last_event_time) <= 0 {
            Some(0)
        } else if has_age(now_ms, last_event_time, offset) {
            Some(age(now_ms, last_event_time, offset) as i64)
        } else {
            None
        },
        latency is None <==> (last_event_time as i64) > 0 && !(i64::MIN <= now_ms - (
        last_event_time as i64) <= i64::MAX && i64::MIN <= now_ms - (last_event_time as i64)
            - offset <= i64::MAX),
        latency matches Some(x) ==> x == if (last_event_time as i64) > 0 {
            now_ms - (last_event_time as i64) - offset
        } else {
            0
        },
{
    if last_event_time as i64 <= 0 || is_age_known(now_ms, last_event_time, offset) {
        Some(display_latency(now_ms, last_event_time, offset))
    } else {
        None
    }
}

} // verus!
