//! The order book and what can be read off it.

use crate::binary64::Binary64;
use crate::decimal;
use crate::levels;
use crate::levels::PriceLevels;
use crate::messages::{RestDepthResponse, WsDepthUpdate};
use crate::precision;
use vstd::arithmetic::power2::*;
use vstd::prelude::*;

verus! {

/// The encoding of `10^-15`: a quantity that differs by less is unchanged.
pub const NOOP_TOLERANCE_BITS: u64 = 0x3cd2_03af_9ee7_5616;

/// The encoding of one hundred.
pub const HUNDRED_BITS: u64 = 0x4059_0000_0000_0000;

/// The constant is one hundred.
pub proof fn lemma_hundred()
    ensures
        Binary64::of_integer(100).bits == HUNDRED_BITS,
{
    lemma2_to64();
    lemma2_to64_rest();
    precision::lemma_integer_encoding(100, 7);
}

/// The side of the book that a change is about.
#[derive(Clone, Copy, Debug, PartialEq, Eq, Structural)]
pub enum DepthSide {
    Bid,
    Ask,
}

/// A price and the quantity it now has; zero takes the price out.
#[derive(Clone, Debug)]
pub struct DepthLevelDelta {
    pub side: DepthSide,
    pub price: Binary64,
    pub qty: Binary64,
}

/// The levels of both sides, in ascending price order.
#[verifier::ext_equal]
pub struct BookSides {
    pub bids: Seq<(Binary64, Binary64)>,
    pub asks: Seq<(Binary64, Binary64)>,
}

/// The number zero.
pub open spec fn nothing() -> Binary64 {
    Binary64 { bits: 0 }
}

/// The price and the quantity of an entry, where both can be read.
pub open spec fn entry(e: [String; 2]) -> Option<(Binary64, Binary64)> {
    match (decimal::parsed(e@[0]@), decimal::parsed(e@[1]@)) {
        (Some(p), Some(q)) => Some((p, q)),
        _ => None,
    }
}

/// The levels after a price was given a quantity, zero taking it out.
pub open spec fn with_change(
    s: Seq<(Binary64, Binary64)>,
    price: Binary64,
    qty: Binary64,
) -> Seq<(Binary64, Binary64)> {
    if Binary64::same(qty, nothing()) {
        levels::without_level(s, price)
    } else {
        levels::with_level(s, price, qty)
    }
}

/// The levels that the entries of a snapshot make: those of positive quantity.
pub open spec fn snapshot_side(entries: Seq<[String; 2]>) -> Seq<(Binary64, Binary64)>
    decreases entries.len(),
{
    if entries.len() == 0 {
        Seq::empty()
    } else {
        let s = snapshot_side(entries.drop_last());
        match entry(entries.last()) {
            Some(e) if Binary64::less(nothing(), e.1) => levels::with_level(s, e.0, e.1),
            _ => s,
        }
    }
}

/// The levels after the entries of an update, in order; an entry that cannot
/// be read changes nothing.
pub open spec fn updated_side(
    s: Seq<(Binary64, Binary64)>,
    entries: Seq<[String; 2]>,
) -> Seq<(Binary64, Binary64)>
    decreases entries.len(),
{
    if entries.len() == 0 {
        s
    } else {
        let t = updated_side(s, entries.drop_last());
        match entry(entries.last()) {
            Some(e) => with_change(t, e.0, e.1),
            None => t,
        }
    }
}

/// Reads an entry.
fn read_entry(e: &[String; 2]) -> (r: Option<(Binary64, Binary64)>)
    ensures
        r == entry(*e),
{
    let p = decimal::parse(e[0].as_str());
    let q = decimal::parse(e[1].as_str());
    match (p, q) {
        (Some(p), Some(q)) => Some((p, q)),
        _ => None,
    }
}

/// The quantity at a price; zero where there is none.
pub open spec fn held_quantity(s: Seq<(Binary64, Binary64)>, price: Binary64) -> Binary64 {
    match levels::quantity_at(s, price) {
        Some(q) => q,
        None => nothing(),
    }
}

/// Whether giving a price this quantity counts as no change.
pub open spec fn is_noop(s: Seq<(Binary64, Binary64)>, price: Binary64, qty: Binary64) -> bool {
    Binary64::less(
        Binary64::absolute(Binary64::difference(held_quantity(s, price), qty)),
        Binary64 { bits: NOOP_TOLERANCE_BITS },
    )
}

/// The levels after the entries of an update, no-ops left out.
pub open spec fn tracked_side(
    s: Seq<(Binary64, Binary64)>,
    entries: Seq<[String; 2]>,
) -> Seq<(Binary64, Binary64)>
    decreases entries.len(),
{
    if entries.len() == 0 {
        s
    } else {
        let t = tracked_side(s, entries.drop_last());
        match entry(entries.last()) {
            Some(e) if !is_noop(t, e.0, e.1) => with_change(t, e.0, e.1),
            _ => t,
        }
    }
}

/// The changes that the entries of an update make, no-ops left out.
pub open spec fn tracked_deltas(
    s: Seq<(Binary64, Binary64)>,
    entries: Seq<[String; 2]>,
    side: DepthSide,
) -> Seq<DepthLevelDelta>
    decreases entries.len(),
{
    if entries.len() == 0 {
        Seq::empty()
    } else {
        let front = entries.drop_last();
        let deltas = tracked_deltas(s, front, side);
        match entry(entries.last()) {
            Some(e) if !is_noop(tracked_side(s, front), e.0, e.1) => deltas.push(
                DepthLevelDelta { side, price: e.0, qty: e.1 },
            ),
            _ => deltas,
        }
    }
}

/// The book after one change.
pub open spec fn with_delta(b: BookSides, d: DepthLevelDelta) -> BookSides {
    match d.side {
        DepthSide::Bid => BookSides { bids: with_change(b.bids, d.price, d.qty), asks: b.asks },
        DepthSide::Ask => BookSides { bids: b.bids, asks: with_change(b.asks, d.price, d.qty) },
    }
}

/// The book after a series of changes.
pub open spec fn replayed(b: BookSides, deltas: Seq<DepthLevelDelta>) -> BookSides
    decreases deltas.len(),
{
    if deltas.len() == 0 {
        b
    } else {
        with_delta(replayed(b, deltas.drop_last()), deltas.last())
    }
}

/// What is left of a side that may keep `max` levels, those of highest price.
pub open spec fn highest(s: Seq<(Binary64, Binary64)>, max: nat) -> Seq<(Binary64, Binary64)> {
    if s.len() > max {
        s.subrange(s.len() - max, s.len() as int)
    } else {
        s
    }
}

/// What is left of a side that may keep `max` levels, those of lowest price.
pub open spec fn lowest(s: Seq<(Binary64, Binary64)>, max: nat) -> Seq<(Binary64, Binary64)> {
    if s.len() > max {
        s.subrange(0, max as int)
    } else {
        s
    }
}

/// Cutting a side leaves at most as many levels as are asked for, of those
/// that were there the ones closest to the best price, which stays.
pub proof fn lemma_cut_sides(s: Seq<(Binary64, Binary64)>, max: nat)
    ensures
        highest(s, max).len() <= max,
        lowest(s, max).len() <= max,
        s.len() <= max ==> highest(s, max) == s && lowest(s, max) == s,
        max > 0 && s.len() > 0 ==> highest(s, max).last() == s.last(),
        max > 0 && s.len() > 0 ==> lowest(s, max)[0] == s[0],
        levels::ascending(s) ==> levels::ascending(highest(s, max)),
        levels::ascending(s) ==> levels::ascending(lowest(s, max)),
        s.len() > max ==> highest(s, max).len() == max && lowest(s, max).len() == max,
        forall|i: int|
            0 <= i < highest(s, max).len() ==> #[trigger] highest(s, max)[i] == s[i + s.len()
                - highest(s, max).len()],
        forall|i: int| 0 <= i < lowest(s, max).len() ==> #[trigger] lowest(s, max)[i] == s[i],
{
}

/// The bids and asks of a market, in step with the updates of the exchange.
#[derive(Clone, Debug)]
pub struct OrderBook {
    pub bids: PriceLevels,
    pub asks: PriceLevels,
    pub last_update_id: u64,
    pub last_event_time: u64,
    pub clock_offset: i64,
}

/// Gives a price a quantity, zero taking it out.
pub fn change_level(side: &mut PriceLevels, price: Binary64, qty: Binary64)
    ensures
        final(side)@ == with_change(old(side)@, price, qty),
        levels::ascending(final(side)@),
{
    if qty.is_same(Binary64::from_bits(0)) {
        side.remove(price);
    } else {
        side.insert(price, qty);
    }
}

fn load_side(side: &mut PriceLevels, entries: &Vec<[String; 2]>)
    ensures
        final(side)@ == snapshot_side(entries@),
{
    side.clear();
    let mut i: usize = 0;
    assert(entries@.take(0) =~= Seq::empty());
    while i < entries.len()
        invariant
            i <= entries@.len(),
            side@ == snapshot_side(entries@.take(i as int)),
        decreases entries@.len() - i,
    {
        assert(entries@.take(i + 1).drop_last() =~= entries@.take(i as int));
        assert(entries@.take(i + 1).last() == entries@[i as int]);
        if let Some((p, q)) = read_entry(&entries[i]) {
            if Binary64::from_bits(0).is_less(q) {
                side.insert(p, q);
            }
        }
        i = i + 1;
    }
    assert(entries@.take(i as int) =~= entries@);
}

fn update_side(side: &mut PriceLevels, entries: &Vec<[String; 2]>)
    ensures
        final(side)@ == updated_side(old(side)@, entries@),
{
    let ghost before = side@;
    let mut i: usize = 0;
    assert(entries@.take(0) =~= Seq::empty());
    while i < entries.len()
        invariant
            i <= entries@.len(),
            side@ == updated_side(before, entries@.take(i as int)),
        decreases entries@.len() - i,
    {
        assert(entries@.take(i + 1).drop_last() =~= entries@.take(i as int));
        assert(entries@.take(i + 1).last() == entries@[i as int]);
        if let Some((p, q)) = read_entry(&entries[i]) {
            change_level(side, p, q);
        }
        i = i + 1;
    }
    assert(entries@.take(i as int) =~= entries@);
}

fn track_side(
    side: &mut PriceLevels,
    entries: &Vec<[String; 2]>,
    which: DepthSide,
    deltas: &mut Vec<DepthLevelDelta>,
)
    ensures
        final(side)@ == tracked_side(old(side)@, entries@),
        final(deltas)@ == old(deltas)@ + tracked_deltas(old(side)@, entries@, which),
{
    let ghost before = side@;
    let ghost earlier = deltas@;
    let mut i: usize = 0;
    assert(entries@.take(0) =~= Seq::empty());
    assert(earlier + Seq::<DepthLevelDelta>::empty() =~= earlier);
    while i < entries.len()
        invariant
            i <= entries@.len(),
            side@ == tracked_side(before, entries@.take(i as int)),
            deltas@ == earlier + tracked_deltas(before, entries@.take(i as int), which),
        decreases entries@.len() - i,
    {
        assert(entries@.take(i + 1).drop_last() =~= entries@.take(i as int));
        assert(entries@.take(i + 1).last() == entries@[i as int]);
        if let Some((p, q)) = read_entry(&entries[i]) {
            let held = match side.get(p) {
                Some(x) => x,
                None => Binary64::from_bits(0),
            };
            if !held.minus(q).abs().is_less(Binary64::from_bits(NOOP_TOLERANCE_BITS)) {
                change_level(side, p, q);
                deltas.push(DepthLevelDelta { side: which, price: p, qty: q });
                assert(deltas@ =~= earlier + tracked_deltas(
                    before,
                    entries@.take(i + 1),
                    which,
                ));
            }
        }
        i = i + 1;
    }
    assert(entries@.take(i as int) =~= entries@);
}

impl OrderBook {
    /// The levels of both sides.
    pub open spec fn sides(self) -> BookSides {
        BookSides { bids: self.bids@, asks: self.asks@ }
    }

    /// An empty book.
    pub fn new() -> (book: OrderBook)
        ensures
            book.bids@ == Seq::<(Binary64, Binary64)>::empty(),
            book.asks@ == Seq::<(Binary64, Binary64)>::empty(),
            book.last_update_id == 0,
            book.last_event_time == 0,
            book.clock_offset == 0,
    {
        OrderBook {
            bids: PriceLevels::new(),
            asks: PriceLevels::new(),
            last_update_id: 0,
            last_event_time: 0,
            clock_offset: 0,
        }
    }

    /// Replaces both sides by those of a snapshot.
    pub fn apply_snapshot(&mut self, snapshot: &RestDepthResponse)
        ensures
            final(self).bids@ == snapshot_side(snapshot.bids@),
            final(self).asks@ == snapshot_side(snapshot.asks@),
            final(self).last_update_id == snapshot.last_update_id,
            final(self).last_event_time == old(self).last_event_time,
            final(self).clock_offset == old(self).clock_offset,
    {
        load_side(&mut self.bids, &snapshot.bids);
        load_side(&mut self.asks, &snapshot.asks);
        self.last_update_id = snapshot.last_update_id;
    }

    /// Applies an update.
    pub fn apply_update(&mut self, update: &WsDepthUpdate)
        ensures
            final(self).bids@ == updated_side(old(self).bids@, update.bids@),
            final(self).asks@ == updated_side(old(self).asks@, update.asks@),
            final(self).last_update_id == update.final_update_id,
            final(self).last_event_time == update.event_time,
            final(self).clock_offset == old(self).clock_offset,
    {
        update_side(&mut self.bids, &update.bids);
        update_side(&mut self.asks, &update.asks);
        self.last_update_id = update.final_update_id;
        self.last_event_time = update.event_time;
    }

    /// Applies an update and returns the changes that it made, bids first.
    /// An entry that leaves its quantity as it was, but for less than `10^-15`,
    /// is no change and is skipped.
    pub fn apply_update_with_deltas(&mut self, update: &WsDepthUpdate) -> (deltas: Vec<
        DepthLevelDelta,
    >)
        ensures
            final(self).bids@ == tracked_side(old(self).bids@, update.bids@),
            final(self).asks@ == tracked_side(old(self).asks@, update.asks@),
            final(self).last_update_id == update.final_update_id,
            final(self).last_event_time == update.event_time,
            final(self).clock_offset == old(self).clock_offset,
            deltas@ == tracked_deltas(old(self).bids@, update.bids@, DepthSide::Bid)
                + tracked_deltas(old(self).asks@, update.asks@, DepthSide::Ask),
    {
        let mut deltas: Vec<DepthLevelDelta> = Vec::new();
        track_side(&mut self.bids, &update.bids, DepthSide::Bid, &mut deltas);
        track_side(&mut self.asks, &update.asks, DepthSide::Ask, &mut deltas);
        self.last_update_id = update.final_update_id;
        self.last_event_time = update.event_time;
        deltas
    }

    /// The bid of highest price.
    pub fn best_bid(&self) -> (level: Option<(Binary64, Binary64)>)
        ensures
            level == if self.bids@.len() > 0 {
                Some(self.bids@.last())
            } else {
                None
            },
            levels::ascending(self.bids@),
    {
        self.bids.last()
    }

    /// The ask of lowest price.
    pub fn best_ask(&self) -> (level: Option<(Binary64, Binary64)>)
        ensures
            level == if self.asks@.len() > 0 {
                Some(self.asks@.first())
            } else {
                None
            },
            levels::ascending(self.asks@),
    {
        self.asks.first()
    }

    /// The best ask less the best bid, where there are both.
    pub fn spread(&self) -> (width: Option<Binary64>)
        ensures
            width == if self.bids@.len() > 0 && self.asks@.len() > 0 {
                Some(Binary64::difference(self.asks@.first().0, self.bids@.last().0))
            } else {
                None
            },
            levels::ascending(self.bids@),
            levels::ascending(self.asks@),
    {
        match (self.best_bid(), self.best_ask()) {
            (Some((bid, _)), Some((ask, _))) => Some(ask.minus(bid)),
            _ => None,
        }
    }

    /// Cuts each side to at most `max_levels`, those closest to the best price.
    pub fn prune_to_max_levels(&mut self, max_levels: usize)
        ensures
            final(self).bids@ == highest(old(self).bids@, max_levels as nat),
            final(self).asks@ == lowest(old(self).asks@, max_levels as nat),
            old(self).bids@.len() <= max_levels ==> final(self).bids@ == old(self).bids@,
            old(self).asks@.len() <= max_levels ==> final(self).asks@ == old(self).asks@,
            old(self).bids@.len() > max_levels ==> final(self).bids@.len() == max_levels,
            old(self).asks@.len() > max_levels ==> final(self).asks@.len() == max_levels,
            forall|i: int|
                0 <= i < final(self).bids@.len() ==> #[trigger] final(self).bids@[i]
                    == old(self).bids@[i + old(self).bids@.len() - final(self).bids@.len()],
            forall|i: int|
                0 <= i < final(self).asks@.len() ==> #[trigger] final(self).asks@[i]
                    == old(self).asks@[i],
            levels::ascending(old(self).bids@),
            levels::ascending(old(self).asks@),
            final(self).last_update_id == old(self).last_update_id,
            final(self).last_event_time == old(self).last_event_time,
            final(self).clock_offset == old(self).clock_offset,
    {
        let n = self.bids.len();
        if n > max_levels {
            self.bids.keep(n - max_levels, n);
        }
        if self.asks.len() > max_levels {
            self.asks.keep(0, max_levels);
        }
    }
}

} // verus!
