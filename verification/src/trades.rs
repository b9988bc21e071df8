//! Recent trades and how many there are per second.

use crate::binary64::Binary64;
use crate::depth;
use crate::precision;
use std::collections::VecDeque;
use vstd::arithmetic::power2::*;
use vstd::prelude::*;

verus! {

/// The encoding of one thousand.
pub const THOUSAND_BITS: u64 = 0x408f_4000_0000_0000;

/// The constant is one thousand.
pub proof fn lemma_thousand()
    ensures
        Binary64::of_integer(1000).bits == THOUSAND_BITS,
{
    lemma2_to64();
    lemma2_to64_rest();
    precision::lemma_integer_encoding(1000, 10);
}

/// Above this capacity, room that is no longer used is given back.
pub const SPARE_CAPACITY: usize = 1024;

/// A trade, with the time of the exchange and the time of its arrival.
#[derive(Clone, Debug)]
pub struct Trade {
    pub timestamp_ms: u64,
    pub received_at_ms: u64,
    pub price: Binary64,
    pub quantity: Binary64,
    pub is_buy: bool,
}

/// The trades of the last `window_ms` milliseconds, oldest first.
#[derive(Clone)]
pub struct TradeHistory {
    pub trades: VecDeque<Trade>,
    pub window_ms: u64,
}

/// The trades after the leading ones that arrived before `cutoff` are dropped.
pub open spec fn without_stale(trades: Seq<Trade>, cutoff: int) -> Seq<Trade>
    decreases trades.len(),
{
    if trades.len() > 0 && trades[0].received_at_ms < cutoff {
        without_stale(trades.drop_first(), cutoff)
    } else {
        trades
    }
}

/// The trades that the exchange made at `cutoff` or later.
pub open spec fn made_since(trades: Seq<Trade>, cutoff: int) -> Seq<Trade> {
    trades.filter(|t: Trade| t.timestamp_ms >= cutoff)
}

/// The trades per second over a window.
pub open spec fn trades_per_second(trades: Seq<Trade>, now_ms: u64, window_ms: u64) -> Binary64 {
    if trades.len() == 0 || window_ms == 0 {
        Binary64 { bits: 0 }
    } else {
        Binary64::quotient(
            Binary64::of_integer(
                made_since(trades, depth::cutoff_time(now_ms, window_ms)).len(),
            ),
            Binary64::quotient(
                Binary64::of_integer(window_ms as nat),
                Binary64 { bits: THOUSAND_BITS },
            ),
        )
    }
}

/// Calls [`VecDeque::capacity`], the number of trades that there is room for;
/// how much room an allocator gave is not stated.
#[verifier::external_body]
fn room(trades: &VecDeque<Trade>) -> (n: usize)
{
    trades.capacity()
}

/// Calls [`VecDeque::shrink_to`], which gives back room that is not in use:
/// what is claimed is that the trades stay as they are.
#[verifier::external_body]
fn give_back_room(trades: &mut VecDeque<Trade>, keep: usize)
    ensures
        final(trades)@ == old(trades)@,
{
    trades.shrink_to(keep);
}

impl TradeHistory {
    /// An empty history.
    pub fn new(window_ms: u64) -> (history: TradeHistory)
        ensures
            history.trades@ == Seq::<Trade>::empty(),
            history.window_ms == window_ms,
    {
        TradeHistory { trades: VecDeque::new(), window_ms }
    }

    /// Adds a trade and drops those that have become too old on its arrival.
    pub fn add_trade(&mut self, trade: Trade)
        ensures
            final(self).trades@ == without_stale(
                old(self).trades@.push(trade),
                depth::cutoff_time(trade.received_at_ms, old(self).window_ms),
            ),
            final(self).window_ms == old(self).window_ms,
            ({
                let all = old(self).trades@.push(trade);
                let dropped = all.len() - final(self).trades@.len();
                &&& 0 <= dropped < all.len()
                &&& final(self).trades@ == all.skip(dropped)
                &&& forall|i: int|
                    0 <= i < dropped ==> (#[trigger] all[i]).received_at_ms + old(self).window_ms
                        < trade.received_at_ms
                &&& all[dropped].received_at_ms + old(self).window_ms >= trade.received_at_ms
            }),
    {
        proof {
            lemma_added_trade_stays(self.trades@, trade, self.window_ms);
        }
        let now_ms = trade.received_at_ms;
        self.trades.push_back(trade);
        self.prune_now(now_ms);
    }

    /// Drops the trades that arrived more than `window_ms` ago, and gives their
    /// number.
    pub fn prune_now(&mut self, now_ms: u64) -> (removed: usize)
        ensures
            final(self).trades@ == without_stale(
                old(self).trades@,
                depth::cutoff_time(now_ms, old(self).window_ms),
            ),
            final(self).window_ms == old(self).window_ms,
            final(self).trades@ == old(self).trades@.skip(removed as int),
            forall|i: int|
                0 <= i < removed ==> (#[trigger] old(self).trades@[i]).received_at_ms
                    + old(self).window_ms < now_ms,
            removed < old(self).trades@.len() ==> old(self).trades@[removed as int].received_at_ms
                + old(self).window_ms >= now_ms,
            removed == old(self).trades@.len() - final(self).trades@.len(),
    {
        let ghost before = self.trades@;
        let cutoff: u64 = if now_ms > self.window_ms {
            now_ms - self.window_ms
        } else {
            0
        };
        let initial_len = self.trades.len();
        while self.trades.len() > 0 && self.trades[0].received_at_ms < cutoff
            invariant
                without_stale(self.trades@, cutoff as int) == without_stale(
                    before,
                    cutoff as int,
                ),
                self.trades@.len() <= initial_len,
                self.window_ms == old(self).window_ms,
            decreases self.trades@.len(),
        {
            let ghost all = self.trades@;
            let _ = self.trades.pop_front();
            assert(self.trades@ =~= all.drop_first());
        }
        proof {
            lemma_without_stale(before, cutoff as int);
        }
        let removed = initial_len - self.trades.len();
        if removed > 0 {
            let capacity = room(&self.trades);
            let len = self.trades.len();
            if capacity > SPARE_CAPACITY && (capacity - 1) / 2 >= len {
                give_back_room(&mut self.trades, len + len / 2);
            }
        }
        removed
    }

    /// The trades per second that the exchange made in the last `window_ms`
    /// milliseconds before `now_exchange_ms`.
    pub fn rolling_tps(&self, now_exchange_ms: u64, window_ms: u64) -> (tps: Binary64)
        ensures
            tps == trades_per_second(self.trades@, now_exchange_ms, window_ms),
    {
        if self.trades.len() == 0 || window_ms == 0 {
            return Binary64::from_bits(0);
        }
        let cutoff: u64 = if now_exchange_ms > window_ms {
            now_exchange_ms - window_ms
        } else {
            0
        };
        let mut count: u64 = 0;
        let mut i: usize = 0;
        assert(made_since(self.trades@.take(0), cutoff as int).len() == 0) by {
            reveal(Seq::filter);
        }
        while i < self.trades.len()
            invariant
                i <= self.trades@.len(),
                count <= i,
                count == made_since(self.trades@.take(i as int), cutoff as int).len(),
            decreases self.trades@.len() - i,
        {
            proof {
                reveal(Seq::filter);
                let longer = self.trades@.take(i + 1);
                assert(longer.drop_last() =~= self.trades@.take(i as int));
                assert(longer.last() == self.trades@[i as int]);
            }
            if self.trades[i].timestamp_ms >= cutoff {
                count = count + 1;
            }
            i = i + 1;
        }
        assert(self.trades@.take(i as int) =~= self.trades@);
        let seconds = Binary64::from_u64(window_ms).over(Binary64::from_bits(THOUSAND_BITS));
        Binary64::from_u64(count).over(seconds)
    }
}

/// Pruning drops the oldest trades only, and none that arrived in time; pruning
/// again drops nothing.
pub proof fn lemma_without_stale(trades: Seq<Trade>, cutoff: int)
    ensures
        ({
            let kept = without_stale(trades, cutoff);
            let dropped = trades.len() - kept.len();
            &&& kept.len() <= trades.len()
            &&& kept == trades.skip(dropped)
            &&& forall|i: int|
                0 <= i < dropped ==> (#[trigger] trades[i]).received_at_ms < cutoff
            &&& kept.len() > 0 ==> kept[0].received_at_ms >= cutoff
            &&& without_stale(kept, cutoff) == kept
        }),
    decreases trades.len(),
{
    if trades.len() > 0 && trades[0].received_at_ms < cutoff {
        let rest = trades.drop_first();
        lemma_without_stale(rest, cutoff);
        let kept = without_stale(trades, cutoff);
        let dropped = trades.len() - kept.len();
        assert(kept =~= trades.skip(dropped));
        assert forall|i: int| 0 <= i < dropped implies (#[trigger] trades[i]).received_at_ms
            < cutoff by {
            if i > 0 {
                assert(rest[i - 1] == trades[i]);
            }
        }
    } else {
        assert(trades =~= trades.skip(0));
    }
}

/// Where trades arrived in order, those that pruning keeps arrived in time.
pub proof fn lemma_kept_trades_are_recent(trades: Seq<Trade>, cutoff: int)
    requires
        forall|i: int, j: int|
            0 <= i <= j < trades.len() ==> (#[trigger] trades[i]).received_at_ms <= (
            #[trigger] trades[j]).received_at_ms,
    ensures
        forall|i: int|
            0 <= i < without_stale(trades, cutoff).len() ==> (#[trigger] without_stale(
                trades,
                cutoff,
            )[i]).received_at_ms >= cutoff,
{
    lemma_without_stale(trades, cutoff);
    let kept = without_stale(trades, cutoff);
    let dropped = trades.len() - kept.len();
    assert forall|i: int| 0 <= i < kept.len() implies (#[trigger] kept[i]).received_at_ms
        >= cutoff by {
        assert(kept[0] == trades[dropped]);
        assert(kept[i] == trades[dropped + i]);
    }
}

/// A trade that is added stays.
pub proof fn lemma_added_trade_stays(trades: Seq<Trade>, trade: Trade, window_ms: u64)
    ensures
        ({
            let kept = without_stale(
                trades.push(trade),
                depth::cutoff_time(trade.received_at_ms, window_ms),
            );
            kept.len() > 0 && kept.last() == trade
        }),
{
    let all = trades.push(trade);
    let cutoff = depth::cutoff_time(trade.received_at_ms, window_ms);
    lemma_without_stale(all, cutoff);
    let kept = without_stale(all, cutoff);
    if kept.len() == 0 {
        assert(all[trades.len() as int].received_at_ms < cutoff);
    }
}

} // verus!
