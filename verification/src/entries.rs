//! Laws of what the entries of snapshots and updates do to the levels of a
//! price.

use crate::binary64;
use crate::binary64::Binary64;
use crate::book;
use crate::book::{BookSides, DepthLevelDelta, DepthSide};
use crate::decimal;
use crate::levels;
use crate::monotone;
use crate::precision;
use crate::replay;
use crate::rounding;
use vstd::arithmetic::mul::*;
use vstd::arithmetic::power2::*;
use vstd::prelude::*;

verus! {

/// Whether an entry can be read and is about the price with the given key.
pub open spec fn names(e: [String; 2], key: int) -> bool {
    &&& decimal::parsed(e@[0]@) matches Some(price) && price.order_key() == key
    &&& decimal::parsed(e@[1]@) is Some
}

/// The quantity of an entry that can be read.
pub open spec fn quantity(e: [String; 2]) -> Binary64 {
    decimal::parsed(e@[1]@)->0
}

/// Whether an entry can be read, is about the price with the given key, and its
/// quantity is above zero.
pub open spec fn offers(e: [String; 2], key: int) -> bool {
    names(e, key) && !quantity(e).nan() && !quantity(e).negative() && quantity(e).magnitude() > 0
}

/// After a snapshot, the level of a price has the quantity of the last entry
/// that gives the price a quantity above zero.
pub proof fn lemma_snapshot_holds(entries: Seq<[String; 2]>, key: int, i: int)
    requires
        0 <= i < entries.len(),
        offers(entries[i], key),
        forall|j: int| i < j < entries.len() ==> !offers(#[trigger] entries[j], key),
    ensures
        levels::ascending(book::snapshot_side(entries)),
        levels::level_at(book::snapshot_side(entries), key) matches Some(level)
            && level.0.order_key() == key && level.1 == quantity(entries[i]),
    decreases entries.len(),
{
    let front = entries.drop_last();
    let side = book::snapshot_side(front);
    lemma_snapshot_ascends(front);
    lemma_snapshot_ascends(entries);
    if let Some(e) = book::entry(entries.last()) {
        levels::lemma_with_level(side, e.0, e.1, key);
    }
    if i < entries.len() - 1 {
        assert(!offers(entries[entries.len() - 1], key));
        assert forall|j: int| i < j < front.len() implies !offers(#[trigger] front[j], key) by {
            assert(front[j] == entries[j]);
        }
        lemma_snapshot_holds(front, key, i);
    } else {
        levels::lemma_slot(book::snapshot_side(entries), key);
    }
}

/// After a snapshot, a price to which no entry gives a quantity above zero has
/// no level.
pub proof fn lemma_snapshot_lacks(entries: Seq<[String; 2]>, key: int)
    requires
        forall|i: int| 0 <= i < entries.len() ==> !offers(#[trigger] entries[i], key),
    ensures
        levels::level_at(book::snapshot_side(entries), key) is None,
    decreases entries.len(),
{
    if entries.len() > 0 {
        let front = entries.drop_last();
        assert forall|i: int| 0 <= i < front.len() implies !offers(#[trigger] front[i], key) by {
            assert(front[i] == entries[i]);
        }
        lemma_snapshot_lacks(front, key);
        lemma_snapshot_ascends(front);
        assert(!offers(entries[entries.len() - 1], key));
        if let Some(e) = book::entry(entries.last()) {
            levels::lemma_with_level(book::snapshot_side(front), e.0, e.1, key);
        }
    }
}

proof fn lemma_snapshot_ascends(entries: Seq<[String; 2]>)
    ensures
        levels::ascending(book::snapshot_side(entries)),
{
    replay::lemma_sides_stay_ascending(Seq::empty(), entries);
}

/// After an update, a price has the quantity of the last entry about it, and no
/// level where that is zero.
pub proof fn lemma_update_sets(
    s: Seq<(Binary64, Binary64)>,
    entries: Seq<[String; 2]>,
    key: int,
    i: int,
)
    requires
        levels::ascending(s),
        0 <= i < entries.len(),
        names(entries[i], key),
        forall|j: int| i < j < entries.len() ==> !names(#[trigger] entries[j], key),
    ensures
        levels::ascending(book::updated_side(s, entries)),
        quantity(entries[i]).magnitude() == 0 ==> levels::level_at(
            book::updated_side(s, entries),
            key,
        ) is None,
        quantity(entries[i]).magnitude() != 0 ==> (levels::level_at(
            book::updated_side(s, entries),
            key,
        ) matches Some(level) && level.0.order_key() == key && level.1 == quantity(entries[i])),
    decreases entries.len(),
{
    let front = entries.drop_last();
    replay::lemma_sides_stay_ascending(s, front);
    replay::lemma_sides_stay_ascending(s, entries);
    if let Some(e) = book::entry(entries.last()) {
        replay::lemma_with_change(book::updated_side(s, front), e.0, e.1, key);
    }
    if i < entries.len() - 1 {
        assert(!names(entries[entries.len() - 1], key));
        assert forall|j: int| i < j < front.len() implies !names(#[trigger] front[j], key) by {
            assert(front[j] == entries[j]);
        }
        lemma_update_sets(s, front, key, i);
    } else {
        levels::lemma_slot(book::updated_side(s, entries), key);
    }
}

/// An update leaves a price alone that no entry is about.
pub proof fn lemma_update_leaves(
    s: Seq<(Binary64, Binary64)>,
    entries: Seq<[String; 2]>,
    key: int,
)
    requires
        levels::ascending(s),
        forall|i: int| 0 <= i < entries.len() ==> !names(#[trigger] entries[i], key),
    ensures
        levels::level_at(book::updated_side(s, entries), key) == levels::level_at(s, key),
        levels::level_at(book::tracked_side(s, entries), key) == levels::level_at(s, key),
    decreases entries.len(),
{
    if entries.len() > 0 {
        let front = entries.drop_last();
        assert forall|i: int| 0 <= i < front.len() implies !names(#[trigger] front[i], key) by {
            assert(front[i] == entries[i]);
        }
        lemma_update_leaves(s, front, key);
        replay::lemma_sides_stay_ascending(s, front);
        assert(!names(entries[entries.len() - 1], key));
        if let Some(e) = book::entry(entries.last()) {
            replay::lemma_with_change(book::updated_side(s, front), e.0, e.1, key);
            replay::lemma_with_change(book::tracked_side(s, front), e.0, e.1, key);
        }
    }
}

/// The distance of two counts of units.
pub open spec fn distance(a: int, b: int) -> int {
    if a <= b {
        b - a
    } else {
        a - b
    }
}

/// Whether two counts of units differ by less than `10^-15`, or by no more than
/// one part in `2^53` of that above it.
pub open spec fn is_about(a: int, b: int) -> bool {
    0x20_0000_0000_0000 * (1_000_000_000_000_000 * distance(a, b)) < 0x20_0000_0000_0001
        * precision::one()
}

/// Whether two counts of units differ by less than `10^-15`, and by at least one
/// part in `2^53` of that below it.
pub open spec fn is_just_about(a: int, b: int) -> bool {
    0x20_0000_0000_0000 * (1_000_000_000_000_000 * distance(a, b)) <= 0x1f_ffff_ffff_ffff
        * precision::one()
}

/// The constant is `10^-15`, but for less than one part in `2^53`.
pub proof fn lemma_tolerance()
    ensures
        ({
            let c = Binary64 { bits: book::NOOP_TOLERANCE_BITS };
            let size = c.size();
            &&& monotone::is_amount(c)
            &&& 0x20_0000_0000_0000 * (1_000_000_000_000_000 * size) < 0x20_0000_0000_0001
                * precision::one()
            &&& 0x20_0000_0000_0000 * (1_000_000_000_000_000 * (2 * size - pow2(c.scale()))) > 2
                * (0x1f_ffff_ffff_ffff * precision::one())
        }),
{
    let c = Binary64 { bits: book::NOOP_TOLERANCE_BITS };
    let p = pow2(972);
    assert(c.magnitude() == 0x3cd2_03af_9ee7_5616);
    assert(c.scale() == 972);
    assert(c.significand() == 0x12_03af_9ee7_5616);
    lemma2_to64();
    lemma2_to64_rest();
    lemma_pow2_adds(51, 51);
    lemma_pow2_adds(102, 972);
    lemma_pow2_pos(972);
    assert(pow2(102) == 0x8_0000_0000_0000 * 0x8_0000_0000_0000);
    assert(precision::one() == (0x8_0000_0000_0000 * 0x8_0000_0000_0000) * p);
    assert(c.size() == 0x12_03af_9ee7_5616 * p);
}

/// An entry counts as a no-op where its quantity differs by less than `10^-15`
/// from the one held, and as a change where it differs by more, but for one
/// part in `2^53`; what is not finite is always a change.
pub proof fn lemma_noop(s: Seq<(Binary64, Binary64)>, price: Binary64, qty: Binary64)
    requires
        levels::ascending(s),
    ensures
        ({
            let held = match levels::level_at(s, price.order_key()) {
                Some(level) => level.1,
                None => Binary64 { bits: 0 },
            };
            &&& !qty.finite() || !held.finite() ==> !book::is_noop(s, price, qty)
            &&& book::is_noop(s, price, qty) ==> is_about(held.units(), qty.units())
            &&& qty.finite() && held.finite() && is_just_about(held.units(), qty.units())
                ==> book::is_noop(s, price, qty)
        }),
{
    let held = match levels::level_at(s, price.order_key()) {
        Some(level) => level.1,
        None => Binary64 { bits: 0 },
    };
    assert(held == book::held_quantity(s, price));
    if qty.finite() && held.finite() {
        lemma_distance_compared(held, qty);
    }
}

/// A rounded distance is below the tolerance where the exact one is.
proof fn lemma_distance_compared(x: Binary64, y: Binary64)
    requires
        x.finite(),
        y.finite(),
    ensures
        ({
            let c = Binary64 { bits: book::NOOP_TOLERANCE_BITS };
            let d = Binary64::absolute(Binary64::difference(x, y));
            &&& Binary64::less(d, c) ==> is_about(x.units(), y.units())
            &&& is_just_about(x.units(), y.units()) ==> Binary64::less(d, c)
        }),
{
    let c = Binary64 { bits: book::NOOP_TOLERANCE_BITS };
    let d = Binary64::absolute(Binary64::difference(x, y));
    let n = distance(x.units(), y.units()) as nat;
    let z = Binary64::opposite(y);
    lemma_tolerance();
    binary64::lemma_parts(x);
    binary64::lemma_parts(y);
    binary64::lemma_parts(z);
    assert(z.magnitude() == y.magnitude() && z.negative() == !y.negative());
    assert(z.units() == -y.units());
    assert(x.units() + z.units() == x.units() - y.units());
    lemma_distance_rounds(x, y, n);
    monotone::lemma_number_is_exact(c);
    assert(n / 1 == n);
    if Binary64::less(d, c) {
        if n >= c.size() {
            precision::lemma_nearest_ordered(c.size(), 1, n, 1);
        }
        assert(n < c.size());
    }
    if is_just_about(x.units(), y.units()) {
        assert(2 * n < 2 * c.size() - pow2(c.scale()));
        if d.magnitude() >= c.magnitude() {
            lemma_pow2_pos(c.scale());
            precision::lemma_nearest_ordered(n, 1, c.size(), 1);
            precision::lemma_nearest_error(n, 1);
            let v = Binary64::assemble(false, rounding::nearest_magnitude(n, 1));
            lemma_mul_basics(v.size() as int);
            lemma_mul_basics(pow2(rounding::spacing(n)) as int);
            precision::lemma_spacing_ordered(n, c.size());
            rounding::lemma_pow2_monotone(rounding::spacing(n), c.scale());
            assert(v.magnitude() == rounding::nearest_magnitude(n, 1));
            precision::lemma_size_ordered(c, v);
        }
    }
}

proof fn lemma_distance_rounds(x: Binary64, y: Binary64, n: nat)
    requires
        x.finite(),
        y.finite(),
        n == distance(x.units(), y.units()),
        Binary64::opposite(y).units() == -y.units(),
    ensures
        Binary64::absolute(Binary64::difference(x, y)).magnitude() == rounding::nearest_magnitude(
            n,
            1,
        ),
        !Binary64::absolute(Binary64::difference(x, y)).negative(),
{
    if n == 0 {
        binary64::lemma_parts(Binary64 { bits: 0 });
        monotone::lemma_number_is_exact(Binary64 { bits: 0 });
    }
}

/// Whether a price has a quantity, up to `10^-15`: no level counts as zero, and a
/// quantity that is not finite is had exactly.
pub open spec fn has_about(
    s: Seq<(Binary64, Binary64)>,
    key: int,
    qty: Binary64,
) -> bool {
    match levels::level_at(s, key) {
        Some(level) => level.1 == qty || (level.1.finite() && qty.finite() && is_about(
            level.1.units(),
            qty.units(),
        )),
        None => qty.finite() && is_about(0, qty.units()),
    }
}

/// One more entry is taken over and reported where its quantity differs from
/// the one held by more than `10^-15`, and neither where it differs by less.
pub proof fn lemma_entry_is_tracked(
    s: Seq<(Binary64, Binary64)>,
    entries: Seq<[String; 2]>,
    side: DepthSide,
    e: [String; 2],
    price: Binary64,
    qty: Binary64,
)
    requires
        levels::ascending(s),
        decimal::parsed(e@[0]@) == Some(price),
        decimal::parsed(e@[1]@) == Some(qty),
    ensures
        ({
            let before = book::tracked_side(s, entries);
            let after = book::tracked_side(s, entries.push(e));
            let deltas = book::tracked_deltas(s, entries, side);
            let all = book::tracked_deltas(s, entries.push(e), side);
            let key = price.order_key();
            &&& has_about(after, key, qty)
            &&& !has_about(before, key, qty) ==> all == deltas.push(
                DepthLevelDelta { side, price, qty },
            ) && if qty.magnitude() == 0 {
                levels::level_at(after, key) is None
            } else {
                levels::level_at(after, key) matches Some(level) && level.1 == qty
            }
            &&& (match levels::level_at(before, key) {
                Some(level) => level.1.finite() && is_just_about(level.1.units(), qty.units()),
                None => is_just_about(0, qty.units()),
            }) && qty.finite() ==> all == deltas && after == before
        }),
{
    let before = book::tracked_side(s, entries);
    let key = price.order_key();
    assert(entries.push(e).drop_last() =~= entries);
    assert(entries.push(e).last() == e);
    replay::lemma_sides_stay_ascending(s, entries);
    replay::lemma_with_change(before, price, qty, key);
    lemma_noop(before, price, qty);
    binary64::lemma_parts(Binary64 { bits: 0 });
    binary64::lemma_parts(qty);
    lemma_is_about_itself(qty.units());
    lemma_zero_units(qty);
}

proof fn lemma_zero_units(x: Binary64)
    ensures
        x.magnitude() == 0 ==> x.units() == 0,
        (Binary64 { bits: 0 }).units() == 0,
{
    let zero = Binary64 { bits: 0 };
    assert(zero.significand() == 0);
    lemma_mul_basics(pow2(zero.scale()) as int);
    if x.magnitude() == 0 {
        assert(x.significand() == 0);
        lemma_mul_basics(pow2(x.scale()) as int);
    }
}

proof fn lemma_is_about_itself(n: int)
    ensures
        is_about(n, n),
        is_just_about(n, n),
{
    lemma_pow2_pos(binary64::FRACTION_PLACES as nat);
}

/// After an update with the no-ops left out, a price has the quantity of the
/// last entry about it, up to `10^-15`.
pub proof fn lemma_tracked_sets(
    s: Seq<(Binary64, Binary64)>,
    entries: Seq<[String; 2]>,
    key: int,
    i: int,
)
    requires
        levels::ascending(s),
        0 <= i < entries.len(),
        names(entries[i], key),
        forall|j: int| i < j < entries.len() ==> !names(#[trigger] entries[j], key),
    ensures
        levels::ascending(book::tracked_side(s, entries)),
        has_about(book::tracked_side(s, entries), key, quantity(entries[i])),
    decreases entries.len(),
{
    let front = entries.drop_last();
    let last = entries.last();
    replay::lemma_sides_stay_ascending(s, front);
    replay::lemma_sides_stay_ascending(s, entries);
    assert(front.push(last) =~= entries);
    if i < entries.len() - 1 {
        assert(!names(entries[entries.len() - 1], key));
        assert forall|j: int| i < j < front.len() implies !names(#[trigger] front[j], key) by {
            assert(front[j] == entries[j]);
        }
        lemma_tracked_sets(s, front, key, i);
        if let Some(e) = book::entry(last) {
            replay::lemma_with_change(book::tracked_side(s, front), e.0, e.1, key);
        }
    } else {
        let price = decimal::parsed(last@[0]@)->0;
        lemma_entry_is_tracked(s, front, DepthSide::Bid, last, price, quantity(last));
    }
}

/// Whether a change is about a price of a side.
pub open spec fn concerns(d: DepthLevelDelta, side: DepthSide, key: int) -> bool {
    d.side == side && d.price.order_key() == key
}

/// Where an update leaves a price with another quantity than it had, by more
/// than `10^-15`, the changes that it reports tell: the last of them about the
/// price gives it that quantity, up to `10^-15`.
pub proof fn lemma_change_is_reported(
    s: Seq<(Binary64, Binary64)>,
    entries: Seq<[String; 2]>,
    side: DepthSide,
    key: int,
    i: int,
) -> (at: int)
    requires
        levels::ascending(s),
        0 <= i < entries.len(),
        names(entries[i], key),
        forall|j: int| i < j < entries.len() ==> !names(#[trigger] entries[j], key),
        !has_about(s, key, quantity(entries[i])),
    ensures
        ({
            let deltas = book::tracked_deltas(s, entries, side);
            let qty = quantity(entries[i]);
            &&& 0 <= at < deltas.len()
            &&& concerns(deltas[at], side, key)
            &&& forall|j: int|
                at < j < deltas.len() ==> !concerns(#[trigger] deltas[j], side, key)
            &&& deltas[at].qty == qty || (deltas[at].qty.finite() && qty.finite() && is_about(
                deltas[at].qty.units(),
                qty.units(),
            ))
        }),
{
    let deltas = book::tracked_deltas(s, entries, side);
    let t = book::tracked_side(s, entries);
    let qty = quantity(entries[i]);
    lemma_tracked_sets(s, entries, key, i);
    lemma_tracked_replays(s, entries, side, key);
    let at = lemma_last_change(levels::level_at(s, key), deltas, side, key);
    assert(0 <= at);
    lemma_zero_units(deltas[at].qty);
    at
}

/// The level of a price after an update is that before it with the reported
/// changes replayed.
proof fn lemma_tracked_replays(
    s: Seq<(Binary64, Binary64)>,
    entries: Seq<[String; 2]>,
    side: DepthSide,
    key: int,
)
    requires
        levels::ascending(s),
    ensures
        levels::level_at(book::tracked_side(s, entries), key) == replay::level_after(
            levels::level_at(s, key),
            book::tracked_deltas(s, entries, side),
            side,
            key,
        ),
    decreases entries.len(),
{
    if entries.len() > 0 {
        let front = entries.drop_last();
        lemma_tracked_replays(s, front, side, key);
        replay::lemma_sides_stay_ascending(s, front);
        let before = book::tracked_deltas(s, front, side);
        let all = book::tracked_deltas(s, entries, side);
        if let Some(e) = book::entry(entries.last()) {
            replay::lemma_with_change(book::tracked_side(s, front), e.0, e.1, key);
            if all != before {
                assert(all.drop_last() =~= before);
                assert(all.last() == (DepthLevelDelta { side, price: e.0, qty: e.1 }));
            }
        }
    }
}

/// The last of some changes about a price decides its level; without one, the
/// level stays.
proof fn lemma_last_change(
    level: Option<(Binary64, Binary64)>,
    deltas: Seq<DepthLevelDelta>,
    side: DepthSide,
    key: int,
) -> (at: int)
    ensures
        -1 <= at < deltas.len(),
        forall|j: int| at < j < deltas.len() ==> !concerns(#[trigger] deltas[j], side, key),
        at == -1 ==> replay::level_after(level, deltas, side, key) == level,
        at >= 0 ==> concerns(deltas[at], side, key),
        at >= 0 && deltas[at].qty.magnitude() == 0 ==> replay::level_after(
            level,
            deltas,
            side,
            key,
        ) is None,
        at >= 0 && deltas[at].qty.magnitude() != 0 ==> (replay::level_after(
            level,
            deltas,
            side,
            key,
        ) matches Some(l) && l.1 == deltas[at].qty),
    decreases deltas.len(),
{
    if deltas.len() == 0 {
        -1
    } else if concerns(deltas.last(), side, key) {
        deltas.len() - 1
    } else {
        let front = deltas.drop_last();
        let at = lemma_last_change(level, front, side, key);
        assert forall|j: int| at < j < deltas.len() implies !concerns(
            #[trigger] deltas[j],
            side,
            key,
        ) by {
            if j < front.len() {
                assert(front[j] == deltas[j]);
            }
        }
        at
    }
}

/// Every reported change is an entry that could be read, and they come in the
/// order of the entries.
pub proof fn lemma_reported_changes_are_entries(
    s: Seq<(Binary64, Binary64)>,
    entries: Seq<[String; 2]>,
    side: DepthSide,
) -> (from: Seq<int>)
    ensures
        ({
            let deltas = book::tracked_deltas(s, entries, side);
            &&& from.len() == deltas.len()
            &&& forall|j: int|
                0 <= j < deltas.len() ==> 0 <= #[trigger] from[j] < entries.len()
                    && deltas[j].side == side && decimal::parsed(entries[from[j]]@[0]@) == Some(
                    deltas[j].price,
                ) && decimal::parsed(entries[from[j]]@[1]@) == Some(deltas[j].qty)
            &&& forall|j: int, k: int|
                0 <= j < k < from.len() ==> #[trigger] from[j] < #[trigger] from[k]
        }),
    decreases entries.len(),
{
    if entries.len() == 0 {
        Seq::empty()
    } else {
        let front = entries.drop_last();
        let rest = lemma_reported_changes_are_entries(s, front, side);
        let before = book::tracked_deltas(s, front, side);
        let all = book::tracked_deltas(s, entries, side);
        assert forall|j: int| 0 <= j < before.len() implies entries[#[trigger] rest[j]]
            == front[rest[j]] by {}
        if all == before {
            rest
        } else {
            rest.push(entries.len() - 1)
        }
    }
}

/// What a book holds after an update, and what is reported, both sides at once.
pub proof fn lemma_update_of_a_book(
    b: BookSides,
    bids: Seq<[String; 2]>,
    asks: Seq<[String; 2]>,
)
    requires
        replay::is_sound(b),
    ensures
        ({
            let deltas = book::tracked_deltas(b.bids, bids, DepthSide::Bid)
                + book::tracked_deltas(b.asks, asks, DepthSide::Ask);
            &&& book::replayed(b, deltas).bids == book::tracked_side(b.bids, bids)
            &&& book::replayed(b, deltas).asks == book::tracked_side(b.asks, asks)
            &&& forall|j: int|
                0 <= j < deltas.len() ==> ((#[trigger] deltas[j]).side == DepthSide::Bid <==> j
                    < book::tracked_deltas(b.bids, bids, DepthSide::Bid).len())
        }),
{
    replay::lemma_reported_deltas_replay(b, bids, asks);
    let x = book::tracked_deltas(b.bids, bids, DepthSide::Bid);
    let y = book::tracked_deltas(b.asks, asks, DepthSide::Ask);
    let p = lemma_reported_changes_are_entries(b.bids, bids, DepthSide::Bid);
    let q = lemma_reported_changes_are_entries(b.asks, asks, DepthSide::Ask);
    assert forall|j: int| 0 <= j < (x + y).len() implies ((#[trigger] (x + y)[j]).side
        == DepthSide::Bid <==> j < x.len()) by {
        if j < x.len() {
            assert(0 <= p[j]);
        } else {
            assert(0 <= q[j - x.len()]);
        }
    }
}

/// One change gives its price its quantity, none where that is zero, and leaves
/// every other price and the other side as they are.
pub proof fn lemma_one_change(b: BookSides, d: DepthLevelDelta, key: int)
    requires
        replay::is_sound(b),
    ensures
        ({
            let after = book::with_delta(b, d);
            let (own, was) = if d.side == DepthSide::Bid {
                (after.bids, b.bids)
            } else {
                (after.asks, b.asks)
            };
            &&& replay::is_sound(after)
            &&& d.side == DepthSide::Bid ==> after.asks == b.asks
            &&& d.side == DepthSide::Ask ==> after.bids == b.bids
            &&& key != d.price.order_key() ==> levels::level_at(own, key) == levels::level_at(
                was,
                key,
            )
            &&& d.qty.magnitude() == 0 ==> levels::level_at(own, d.price.order_key()) is None
            &&& d.qty.magnitude() != 0 ==> (levels::level_at(own, d.price.order_key()) matches Some(
                level,
            ) && level.0.order_key() == d.price.order_key() && level.1 == d.qty)
        }),
{
    let own = d.price.order_key();
    if d.side == DepthSide::Bid {
        replay::lemma_with_change(b.bids, d.price, d.qty, key);
        replay::lemma_with_change(b.bids, d.price, d.qty, own);
        levels::lemma_slot(book::with_change(b.bids, d.price, d.qty), own);
    } else {
        replay::lemma_with_change(b.asks, d.price, d.qty, key);
        replay::lemma_with_change(b.asks, d.price, d.qty, own);
        levels::lemma_slot(book::with_change(b.asks, d.price, d.qty), own);
    }
}

} // verus!
