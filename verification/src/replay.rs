//! Laws of the changes that updates make to a book.

use crate::binary64::Binary64;
use crate::book;
use crate::book::{BookSides, DepthLevelDelta, DepthSide};
use crate::levels;
use vstd::prelude::*;

verus! {

/// The levels of one side.
pub open spec fn side_of(b: BookSides, side: DepthSide) -> Seq<(Binary64, Binary64)> {
    match side {
        DepthSide::Bid => b.bids,
        DepthSide::Ask => b.asks,
    }
}

/// Whether both sides ascend.
pub open spec fn is_sound(b: BookSides) -> bool {
    levels::ascending(b.bids) && levels::ascending(b.asks)
}

/// A level after a price equal to its own was given a quantity.
pub open spec fn changed_level(
    level: Option<(Binary64, Binary64)>,
    price: Binary64,
    qty: Binary64,
) -> Option<(Binary64, Binary64)> {
    if Binary64::same(qty, book::nothing()) {
        None
    } else {
        match level {
            Some(l) => Some((l.0, qty)),
            None => Some((price, qty)),
        }
    }
}

pub open spec fn is_about(d: DepthLevelDelta, side: DepthSide, key: int) -> bool {
    d.side == side && d.price.order_key() == key
}

/// One level after a series of changes.
pub open spec fn level_after(
    level: Option<(Binary64, Binary64)>,
    deltas: Seq<DepthLevelDelta>,
    side: DepthSide,
    key: int,
) -> Option<(Binary64, Binary64)>
    decreases deltas.len(),
{
    if deltas.len() == 0 {
        level
    } else {
        let l = level_after(level, deltas.drop_last(), side, key);
        let d = deltas.last();
        if is_about(d, side, key) {
            changed_level(l, d.price, d.qty)
        } else {
            l
        }
    }
}

/// A change keeps the order and touches its own price only.
pub proof fn lemma_with_change(
    s: Seq<(Binary64, Binary64)>,
    price: Binary64,
    qty: Binary64,
    key: int,
)
    requires
        levels::ascending(s),
    ensures
        levels::ascending(book::with_change(s, price, qty)),
        levels::level_at(book::with_change(s, price, qty), key) == if key == price.order_key() {
            changed_level(levels::level_at(s, key), price, qty)
        } else {
            levels::level_at(s, key)
        },
{
    levels::lemma_with_level(s, price, qty, key);
    levels::lemma_without_level(s, price, key);
}

/// A series of changes keeps both sides in order and acts on each level by
/// itself.
pub proof fn lemma_replayed_levels(
    b: BookSides,
    deltas: Seq<DepthLevelDelta>,
    side: DepthSide,
    key: int,
)
    requires
        is_sound(b),
    ensures
        is_sound(book::replayed(b, deltas)),
        levels::level_at(side_of(book::replayed(b, deltas), side), key) == level_after(
            levels::level_at(side_of(b, side), key),
            deltas,
            side,
            key,
        ),
    decreases deltas.len(),
{
    if deltas.len() > 0 {
        let front = deltas.drop_last();
        let d = deltas.last();
        lemma_replayed_levels(b, front, side, key);
        let r = book::replayed(b, front);
        lemma_with_change(side_of(r, d.side), d.price, d.qty, key);
    }
}

/// Replaying two series one after the other is replaying them joined.
pub proof fn lemma_replayed_joined(
    b: BookSides,
    first: Seq<DepthLevelDelta>,
    second: Seq<DepthLevelDelta>,
)
    ensures
        book::replayed(b, first + second) == book::replayed(book::replayed(b, first), second),
    decreases second.len(),
{
    if second.len() == 0 {
        assert(first + second =~= first);
    } else {
        let joined = first + second;
        assert(joined.drop_last() =~= first + second.drop_last());
        assert(joined.last() == second.last());
        lemma_replayed_joined(b, first, second.drop_last());
    }
}

/// Whether some change takes the level out.
pub open spec fn takes_out(deltas: Seq<DepthLevelDelta>, side: DepthSide, key: int) -> bool
    decreases deltas.len(),
{
    deltas.len() > 0 && (takes_out(deltas.drop_last(), side, key) || (is_about(
        deltas.last(),
        side,
        key,
    ) && Binary64::same(deltas.last().qty, book::nothing())))
}

/// Once a level has been taken out, what it was before has no influence.
proof fn lemma_taken_out_forgets(
    x: Option<(Binary64, Binary64)>,
    y: Option<(Binary64, Binary64)>,
    deltas: Seq<DepthLevelDelta>,
    side: DepthSide,
    key: int,
)
    requires
        takes_out(deltas, side, key),
    ensures
        level_after(x, deltas, side, key) == level_after(y, deltas, side, key),
    decreases deltas.len(),
{
    if takes_out(deltas.drop_last(), side, key) {
        lemma_taken_out_forgets(x, y, deltas.drop_last(), side, key);
    }
}

/// A level that is never taken out keeps the price it was made with.
proof fn lemma_kept_price(
    level: (Binary64, Binary64),
    deltas: Seq<DepthLevelDelta>,
    side: DepthSide,
    key: int,
)
    requires
        !takes_out(deltas, side, key),
    ensures
        level_after(Some(level), deltas, side, key) is Some,
        (level_after(Some(level), deltas, side, key)->0).0 == level.0,
    decreases deltas.len(),
{
    if deltas.len() > 0 {
        lemma_kept_price(level, deltas.drop_last(), side, key);
    }
}

/// Changes that leave a missing level missing, though they never take it out,
/// leave a level that is there as it is.
proof fn lemma_untouched(
    level: Option<(Binary64, Binary64)>,
    deltas: Seq<DepthLevelDelta>,
    side: DepthSide,
    key: int,
)
    requires
        !takes_out(deltas, side, key),
        level_after(None, deltas, side, key) is None,
    ensures
        level_after(level, deltas, side, key) == level,
    decreases deltas.len(),
{
    if deltas.len() > 0 {
        lemma_untouched(level, deltas.drop_last(), side, key);
    }
}

/// A second run of the same changes leaves a level as the first one did.
proof fn lemma_level_after_twice(
    level: Option<(Binary64, Binary64)>,
    deltas: Seq<DepthLevelDelta>,
    side: DepthSide,
    key: int,
)
    ensures
        level_after(level_after(level, deltas, side, key), deltas, side, key) == level_after(
            level,
            deltas,
            side,
            key,
        ),
    decreases deltas.len(),
{
    if deltas.len() > 0 {
        let front = deltas.drop_last();
        let d = deltas.last();
        if !is_about(d, side, key) {
            lemma_level_after_twice(level, front, side, key);
        } else if !Binary64::same(d.qty, book::nothing()) {
            let x = level_after(level, front, side, key);
            let y = changed_level(x, d.price, d.qty);
            let z = level_after(y, front, side, key);
            if takes_out(front, side, key) {
                lemma_taken_out_forgets(level, y, front, side, key);
            } else {
                lemma_kept_price(y->0, front, side, key);
                if level is None && x is None {
                    lemma_untouched(y, front, side, key);
                } else if x is None {
                    lemma_kept_price(level->0, front, side, key);
                }
            }
        }
    }
}

/// Replaying the same changes a second time changes nothing.
pub proof fn lemma_replay_twice(b: BookSides, deltas: Seq<DepthLevelDelta>)
    requires
        is_sound(b),
    ensures
        book::replayed(book::replayed(b, deltas), deltas) == book::replayed(b, deltas),
{
    let once = book::replayed(b, deltas);
    let twice = book::replayed(once, deltas);
    lemma_replayed_levels(b, deltas, DepthSide::Bid, 0);
    lemma_replayed_levels(once, deltas, DepthSide::Bid, 0);
    assert forall|key: int| #[trigger]
        levels::level_at(twice.bids, key) == levels::level_at(once.bids, key) by {
        lemma_replayed_levels(b, deltas, DepthSide::Bid, key);
        lemma_replayed_levels(once, deltas, DepthSide::Bid, key);
        lemma_level_after_twice(levels::level_at(b.bids, key), deltas, DepthSide::Bid, key);
    }
    assert forall|key: int| #[trigger]
        levels::level_at(twice.asks, key) == levels::level_at(once.asks, key) by {
        lemma_replayed_levels(b, deltas, DepthSide::Ask, key);
        lemma_replayed_levels(once, deltas, DepthSide::Ask, key);
        lemma_level_after_twice(levels::level_at(b.asks, key), deltas, DepthSide::Ask, key);
    }
    levels::lemma_levels_determined(twice.bids, once.bids);
    levels::lemma_levels_determined(twice.asks, once.asks);
}

proof fn lemma_tracked_bids(b: BookSides, entries: Seq<[String; 2]>)
    ensures
        book::replayed(b, book::tracked_deltas(b.bids, entries, DepthSide::Bid)) == (BookSides {
            bids: book::tracked_side(b.bids, entries),
            asks: b.asks,
        }),
    decreases entries.len(),
{
    if entries.len() > 0 {
        let front = entries.drop_last();
        lemma_tracked_bids(b, front);
        let before = book::tracked_deltas(b.bids, front, DepthSide::Bid);
        let all = book::tracked_deltas(b.bids, entries, DepthSide::Bid);
        if all != before {
            assert(all.drop_last() =~= before);
        }
    }
}

proof fn lemma_tracked_asks(b: BookSides, entries: Seq<[String; 2]>)
    ensures
        book::replayed(b, book::tracked_deltas(b.asks, entries, DepthSide::Ask)) == (BookSides {
            bids: b.bids,
            asks: book::tracked_side(b.asks, entries),
        }),
    decreases entries.len(),
{
    if entries.len() > 0 {
        let front = entries.drop_last();
        lemma_tracked_asks(b, front);
        let before = book::tracked_deltas(b.asks, front, DepthSide::Ask);
        let all = book::tracked_deltas(b.asks, entries, DepthSide::Ask);
        if all != before {
            assert(all.drop_last() =~= before);
        }
    }
}

/// The changes that an update reports, replayed on the book as it was, give
/// the book as the update left it.
pub proof fn lemma_reported_deltas_replay(
    b: BookSides,
    bids: Seq<[String; 2]>,
    asks: Seq<[String; 2]>,
)
    ensures
        book::replayed(
            b,
            book::tracked_deltas(b.bids, bids, DepthSide::Bid) + book::tracked_deltas(
                b.asks,
                asks,
                DepthSide::Ask,
            ),
        ) == (BookSides {
            bids: book::tracked_side(b.bids, bids),
            asks: book::tracked_side(b.asks, asks),
        }),
{
    let first = book::tracked_deltas(b.bids, bids, DepthSide::Bid);
    let second = book::tracked_deltas(b.asks, asks, DepthSide::Ask);
    lemma_tracked_bids(b, bids);
    lemma_replayed_joined(b, first, second);
    lemma_tracked_asks(book::replayed(b, first), asks);
}

/// Snapshots and updates keep a side in order.
pub proof fn lemma_sides_stay_ascending(
    s: Seq<(Binary64, Binary64)>,
    entries: Seq<[String; 2]>,
)
    requires
        levels::ascending(s),
    ensures
        levels::ascending(book::snapshot_side(entries)),
        levels::ascending(book::updated_side(s, entries)),
        levels::ascending(book::tracked_side(s, entries)),
    decreases entries.len(),
{
    if entries.len() > 0 {
        let front = entries.drop_last();
        lemma_sides_stay_ascending(s, front);
        if let Some(e) = book::entry(entries.last()) {
            levels::lemma_with_level(book::snapshot_side(front), e.0, e.1, 0);
            lemma_with_change(book::updated_side(s, front), e.0, e.1, 0);
            lemma_with_change(book::tracked_side(s, front), e.0, e.1, 0);
        }
    }
}

/// A quantity that a price already has is a no-op, and so is taking out a
/// price that is not there; applying either would leave the levels as they are.
pub proof fn lemma_repeated_quantity_is_noop(
    s: Seq<(Binary64, Binary64)>,
    price: Binary64,
    qty: Binary64,
)
    requires
        levels::ascending(s),
        qty.finite(),
        levels::quantity_at(s, price) == if qty.zero() {
            None
        } else {
            Some(qty)
        },
    ensures
        book::is_noop(s, price, qty),
        book::with_change(s, price, qty) == s,
{
    let key = price.order_key();
    levels::lemma_slot(s, key);
    crate::binary64::lemma_parts(qty);
    crate::binary64::lemma_parts(Binary64::opposite(qty));
    crate::binary64::lemma_parts(book::nothing());
    assert(Binary64::opposite(qty).magnitude() == qty.magnitude());
    let held = book::held_quantity(s, price);
    assert(held.units() + Binary64::opposite(qty).units() == 0);
    assert(Binary64::absolute(Binary64::difference(held, qty)) == book::nothing());
    if !qty.zero() {
        let i = levels::slot(s, key);
        assert(s.update(i, (s[i].0, qty)) =~= s);
    }
}

/// A change that is reported is a real one: it does not leave the levels as
/// they are.
pub proof fn lemma_reported_change_is_real(
    s: Seq<(Binary64, Binary64)>,
    price: Binary64,
    qty: Binary64,
)
    requires
        levels::ascending(s),
        qty.finite(),
        !book::is_noop(s, price, qty),
    ensures
        book::with_change(s, price, qty) != s,
{
    let key = price.order_key();
    levels::lemma_slot(s, key);
    if book::with_change(s, price, qty) == s {
        if levels::holds(s, price) && !Binary64::same(qty, book::nothing()) {
            let i = levels::slot(s, key);
            assert(s.update(i, (s[i].0, qty))[i].1 == qty);
        }
        assert(levels::quantity_at(s, price) == if qty.zero() {
            None
        } else {
            Some(qty)
        });
        lemma_repeated_quantity_is_noop(s, price, qty);
    }
}

/// Whether no level is there without a quantity.
pub open spec fn has_no_empty_level(s: Seq<(Binary64, Binary64)>) -> bool {
    forall|i: int| 0 <= i < s.len() ==> !Binary64::same((#[trigger] s[i]).1, book::nothing())
}

/// A change leaves no level without a quantity.
pub proof fn lemma_change_leaves_no_empty_level(
    s: Seq<(Binary64, Binary64)>,
    price: Binary64,
    qty: Binary64,
)
    requires
        levels::ascending(s),
        has_no_empty_level(s),
    ensures
        has_no_empty_level(book::with_change(s, price, qty)),
{
    let t = book::with_change(s, price, qty);
    let at = levels::slot(s, price.order_key());
    levels::lemma_slot(s, price.order_key());
    assert forall|i: int| 0 <= i < t.len() implies !Binary64::same(
        (#[trigger] t[i]).1,
        book::nothing(),
    ) by {
        if Binary64::same(qty, book::nothing()) {
            if levels::holds(s, price) && i >= at {
                assert(t[i] == s[i + 1]);
            } else {
                assert(t[i] == s[i]);
            }
        } else if i != at {
            if levels::holds(s, price) || i < at {
                assert(t[i] == s[i]);
            } else {
                assert(t[i] == s[i - 1]);
            }
        }
    }
}

/// Snapshots and updates leave no level without a quantity.
pub proof fn lemma_sides_have_no_empty_level(
    s: Seq<(Binary64, Binary64)>,
    entries: Seq<[String; 2]>,
)
    requires
        levels::ascending(s),
        has_no_empty_level(s),
    ensures
        has_no_empty_level(book::snapshot_side(entries)),
        has_no_empty_level(book::updated_side(s, entries)),
        has_no_empty_level(book::tracked_side(s, entries)),
    decreases entries.len(),
{
    if entries.len() > 0 {
        let front = entries.drop_last();
        lemma_sides_have_no_empty_level(s, front);
        lemma_sides_stay_ascending(s, front);
        if let Some(e) = book::entry(entries.last()) {
            lemma_change_leaves_no_empty_level(book::updated_side(s, front), e.0, e.1);
            lemma_change_leaves_no_empty_level(book::tracked_side(s, front), e.0, e.1);
            if Binary64::less(book::nothing(), e.1) {
                lemma_change_leaves_no_empty_level(book::snapshot_side(front), e.0, e.1);
            }
        }
    }
}

/// Whether every entry that counts as a no-op would have changed nothing.
pub open spec fn skips_lose_nothing(
    s: Seq<(Binary64, Binary64)>,
    entries: Seq<[String; 2]>,
) -> bool
    decreases entries.len(),
{
    entries.len() > 0 ==> {
        let t = book::updated_side(s, entries.drop_last());
        &&& skips_lose_nothing(s, entries.drop_last())
        &&& book::entry(entries.last()) matches Some(e) ==> book::is_noop(t, e.0, e.1)
            ==> book::with_change(t, e.0, e.1) == t
    }
}

/// Leaving out no-ops gives the same levels as applying every entry, where the
/// entries left out would have changed nothing.
pub proof fn lemma_tracked_agrees_with_updated(
    s: Seq<(Binary64, Binary64)>,
    entries: Seq<[String; 2]>,
)
    requires
        skips_lose_nothing(s, entries),
    ensures
        book::tracked_side(s, entries) == book::updated_side(s, entries),
    decreases entries.len(),
{
    if entries.len() > 0 {
        lemma_tracked_agrees_with_updated(s, entries.drop_last());
    }
}

} // verus!
