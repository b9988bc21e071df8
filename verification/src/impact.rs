//! What a market order would pay.

use crate::binary64::Binary64;
use crate::book;
use crate::book::{OrderBook, HUNDRED_BITS};
use crate::monotone;
use crate::replay;
use vstd::prelude::*;

verus! {

/// The outcome of walking a market order through the book.
#[derive(Clone, Debug, PartialEq)]
pub struct MarketImpact {
    pub avg_fill_price: Binary64,
    pub worst_fill_price: Binary64,
    pub slippage_bps: Binary64,
    pub slippage_pct: Binary64,
    pub levels_consumed: usize,
    pub total_qty_filled: Binary64,
    pub total_notional: Binary64,
    pub fully_filled: bool,
}

impl Default for MarketImpact {
    fn default() -> (impact: MarketImpact)
        ensures
            impact == no_impact(),
    {
        let zero = Binary64::from_bits(0);
        MarketImpact {
            avg_fill_price: zero,
            worst_fill_price: zero,
            slippage_bps: zero,
            slippage_pct: zero,
            levels_consumed: 0,
            total_qty_filled: zero,
            total_notional: zero,
            fully_filled: false,
        }
    }
}

/// The outcome of an order for nothing.
pub open spec fn no_impact() -> MarketImpact {
    MarketImpact {
        avg_fill_price: book::nothing(),
        worst_fill_price: book::nothing(),
        slippage_bps: book::nothing(),
        slippage_pct: book::nothing(),
        levels_consumed: 0,
        total_qty_filled: book::nothing(),
        total_notional: book::nothing(),
        fully_filled: false,
    }
}

/// How far an order has been filled.
pub struct Fill {
    pub qty: Binary64,
    pub notional: Binary64,
    pub worst: Binary64,
    pub levels: nat,
    pub complete: bool,
}

/// An order of which nothing has been filled.
pub open spec fn unfilled() -> Fill {
    Fill {
        qty: book::nothing(),
        notional: book::nothing(),
        worst: book::nothing(),
        levels: 0,
        complete: false,
    }
}

/// Whether a level can be bought from or sold to at all.
pub open spec fn is_tradable(level: (Binary64, Binary64)) -> bool {
    &&& !Binary64::at_most(level.0, book::nothing())
    &&& !Binary64::at_most(level.1, book::nothing())
    &&& !Binary64::at_most(Binary64::product(level.0, level.1), book::nothing())
}

/// An order for `wanted` after one more level: the whole level where that
/// does not reach what is wanted, and what is missing where it does.
pub open spec fn after_level(f: Fill, level: (Binary64, Binary64), wanted: Binary64) -> Fill {
    let worth = Binary64::product(level.0, level.1);
    if !is_tradable(level) {
        f
    } else if Binary64::at_most(wanted, Binary64::sum(f.notional, worth)) {
        let missing = Binary64::difference(wanted, f.notional);
        Fill {
            qty: Binary64::sum(f.qty, Binary64::quotient(missing, level.0)),
            notional: Binary64::sum(f.notional, missing),
            worst: level.0,
            levels: f.levels + 1,
            complete: true,
        }
    } else {
        Fill {
            qty: Binary64::sum(f.qty, level.1),
            notional: Binary64::sum(f.notional, worth),
            worst: level.0,
            levels: f.levels + 1,
            complete: false,
        }
    }
}

/// An order after the first `n` levels of a side; it stops once it is filled.
pub open spec fn filled_by(
    side: Seq<(Binary64, Binary64)>,
    n: nat,
    wanted: Binary64,
) -> Fill
    decreases n,
{
    if n == 0 {
        unfilled()
    } else {
        let f = filled_by(side, (n - 1) as nat, wanted);
        if f.complete {
            f
        } else {
            after_level(f, side[n - 1], wanted)
        }
    }
}

/// What a filled order amounts to against a reference price.
pub open spec fn impact_of(f: Fill, mid: Binary64) -> MarketImpact {
    let zero = book::nothing();
    let hundred = Binary64 { bits: HUNDRED_BITS };
    let avg = if Binary64::less(zero, f.qty) {
        Binary64::quotient(f.notional, f.qty)
    } else {
        zero
    };
    let pct = if Binary64::less(zero, avg) && Binary64::less(zero, mid) {
        Binary64::product(
            Binary64::quotient(Binary64::absolute(Binary64::difference(avg, mid)), mid),
            hundred,
        )
    } else {
        zero
    };
    MarketImpact {
        avg_fill_price: avg,
        worst_fill_price: f.worst,
        slippage_bps: Binary64::product(pct, hundred),
        slippage_pct: pct,
        levels_consumed: f.levels as usize,
        total_qty_filled: f.qty,
        total_notional: f.notional,
        fully_filled: f.complete,
    }
}

/// The levels that an order meets, the best price first.
pub open spec fn opposite_side(b: book::BookSides, is_buy: bool) -> Seq<(Binary64, Binary64)> {
    if is_buy {
        b.asks
    } else {
        b.bids.reverse()
    }
}

/// The estimated outcome of an order.
pub open spec fn estimated_impact(
    b: book::BookSides,
    wanted: Binary64,
    is_buy: bool,
    mid: Binary64,
) -> MarketImpact {
    let side = opposite_side(b, is_buy);
    if Binary64::at_most(wanted, book::nothing()) {
        no_impact()
    } else {
        impact_of(filled_by(side, side.len(), wanted), mid)
    }
}

proof fn lemma_levels_counted(side: Seq<(Binary64, Binary64)>, n: nat, wanted: Binary64)
    ensures
        filled_by(side, n, wanted).levels <= n,
    decreases n,
{
    if n > 0 {
        lemma_levels_counted(side, (n - 1) as nat, wanted);
    }
}

/// An order that is filled stays as it is whatever levels follow.
pub proof fn lemma_filled_stays(
    side: Seq<(Binary64, Binary64)>,
    n: nat,
    m: nat,
    wanted: Binary64,
)
    requires
        n <= m,
        filled_by(side, n, wanted).complete,
    ensures
        filled_by(side, m, wanted) == filled_by(side, n, wanted),
    decreases m,
{
    if n < m {
        lemma_filled_stays(side, n, (m - 1) as nat, wanted);
    }
}

/// Levels beyond the one that fills an order change nothing about it.
pub proof fn lemma_deeper_levels_do_not_matter(
    side: Seq<(Binary64, Binary64)>,
    deeper: Seq<(Binary64, Binary64)>,
    wanted: Binary64,
)
    requires
        filled_by(side, side.len(), wanted).complete,
    ensures
        filled_by(side + deeper, (side + deeper).len(), wanted) == filled_by(
            side,
            side.len(),
            wanted,
        ),
{
    lemma_same_front(side, side + deeper, side.len(), wanted);
    lemma_filled_stays(side + deeper, side.len(), (side + deeper).len(), wanted);
}

proof fn lemma_same_front(
    s: Seq<(Binary64, Binary64)>,
    t: Seq<(Binary64, Binary64)>,
    n: nat,
    wanted: Binary64,
)
    requires
        forall|i: int| 0 <= i < n ==> s[i] == t[i],
    ensures
        filled_by(s, n, wanted) == filled_by(t, n, wanted),
    decreases n,
{
    if n > 0 {
        lemma_same_front(s, t, (n - 1) as nat, wanted);
    }
}

/// How a smaller order and a larger one stand after the same levels: alike as
/// long as the smaller one is not filled, and then no fewer levels behind.
pub(crate) proof fn lemma_orders_compared(
    side: Seq<(Binary64, Binary64)>,
    n: nat,
    small: Binary64,
    large: Binary64,
)
    requires
        Binary64::at_most(small, large),
    ensures
        ({
            let a = filled_by(side, n, small);
            let b = filled_by(side, n, large);
            &&& !a.complete ==> a == b
            &&& a.levels <= b.levels
        }),
    decreases n,
{
    if n > 0 {
        lemma_orders_compared(side, (n - 1) as nat, small, large);
    }
}

/// Whether a price and a quantity are finite and above zero.
pub open spec fn is_plain_level(level: (Binary64, Binary64)) -> bool {
    &&& monotone::is_amount(level.0) && !level.0.zero()
    &&& monotone::is_amount(level.1) && !level.1.zero()
}

/// Whether all prices and quantities are finite and above zero.
pub open spec fn has_plain_levels(side: Seq<(Binary64, Binary64)>) -> bool {
    forall|i: int|
        0 <= i < side.len() ==> is_plain_level(#[trigger] side[i])
}

/// As long as an order is not filled, less than what is wanted has been paid.
pub(crate) proof fn lemma_unfilled_order(side: Seq<(Binary64, Binary64)>, n: nat, wanted: Binary64)
    requires
        n <= side.len(),
        has_plain_levels(side),
        monotone::is_amount(wanted),
        !wanted.zero(),
    ensures
        ({
            let f = filled_by(side, n, wanted);
            &&& monotone::is_size(f.notional)
            &&& monotone::is_size(f.qty)
            &&& !f.complete ==> monotone::is_amount(f.notional) && f.notional.magnitude()
                < wanted.magnitude()
        }),
    decreases n,
{
    if n > 0 {
        let front = (n - 1) as nat;
        let f = filled_by(side, front, wanted);
        let level = side[n - 1];
        let worth = Binary64::product(level.0, level.1);
        lemma_unfilled_order(side, front, wanted);
        if !f.complete && is_tradable(level) {
            assert(monotone::is_size(worth));
            monotone::lemma_sum_of_sizes(f.notional, worth, worth);
            monotone::lemma_sum_of_sizes(f.qty, level.1, level.1);
            monotone::lemma_difference_of_amounts(wanted, f.notional);
            let missing = Binary64::difference(wanted, f.notional);
            monotone::lemma_sum_of_sizes(f.notional, missing, missing);
            monotone::lemma_quotient_ordered(missing, missing, level.0);
            let part = Binary64::quotient(missing, level.0);
            monotone::lemma_sum_of_sizes(f.qty, part, part);
        }
    }
}

/// Whether an order that is not filled has paid less than what is wanted.
pub open spec fn is_under_way(f: Fill, wanted: Binary64) -> bool {
    &&& !f.complete
    &&& monotone::is_amount(f.notional)
    &&& monotone::is_size(f.qty)
    &&& monotone::is_amount(wanted)
    &&& f.notional.magnitude() < wanted.magnitude()
}

/// One more level makes an order pay no less.
proof fn lemma_level_adds(f: Fill, level: (Binary64, Binary64), wanted: Binary64)
    requires
        is_under_way(f, wanted),
        is_plain_level(level),
    ensures
        ({
            let g = after_level(f, level, wanted);
            &&& g.notional.magnitude() >= f.notional.magnitude()
            &&& g.complete ==> g.levels == f.levels + 1
        }),
{
    let worth = Binary64::product(level.0, level.1);
    let rest = Binary64::difference(wanted, f.notional);
    monotone::lemma_difference_of_amounts(wanted, f.notional);
    monotone::lemma_sum_is_no_less(f.notional, rest);
    if is_tradable(level) && worth.finite() {
        monotone::lemma_sum_is_no_less(f.notional, worth);
    }
}

/// At a level that fills both, the larger order pays and takes no less.
proof fn lemma_both_filled(
    f: Fill,
    level: (Binary64, Binary64),
    small: Binary64,
    large: Binary64,
)
    requires
        is_under_way(f, small),
        is_under_way(f, large),
        is_plain_level(level),
        small.magnitude() <= large.magnitude(),
    ensures
        ({
            let part = Binary64::difference(small, f.notional);
            let rest = Binary64::difference(large, f.notional);
            &&& Binary64::sum(f.notional, part).magnitude() <= Binary64::sum(
                f.notional,
                rest,
            ).magnitude()
            &&& Binary64::sum(f.qty, Binary64::quotient(part, level.0)).magnitude()
                <= Binary64::sum(f.qty, Binary64::quotient(rest, level.0)).magnitude()
        }),
{
    let part = Binary64::difference(small, f.notional);
    let rest = Binary64::difference(large, f.notional);
    monotone::lemma_difference_of_amounts(small, f.notional);
    monotone::lemma_difference_of_amounts(large, f.notional);
    monotone::lemma_difference_ordered(small, large, f.notional);
    monotone::lemma_sum_ordered(f.notional, part, rest);
    monotone::lemma_quotient_ordered(part, rest, level.0);
    monotone::lemma_sum_of_sizes(
        f.qty,
        Binary64::quotient(part, level.0),
        Binary64::quotient(rest, level.0),
    );
}

/// An order that a level fills pays no more than the whole level would add.
proof fn lemma_filled_within_level(f: Fill, worth: Binary64, wanted: Binary64)
    requires
        is_under_way(f, wanted),
        monotone::is_amount(worth),
        Binary64::sum(f.notional, worth).finite(),
        wanted.magnitude() <= Binary64::sum(f.notional, worth).magnitude(),
    ensures
        Binary64::sum(f.notional, Binary64::difference(wanted, f.notional)).magnitude()
            <= Binary64::sum(f.notional, worth).magnitude(),
{
    let total = Binary64::sum(f.notional, worth);
    monotone::lemma_sum_of_amounts(f.notional, worth);
    monotone::lemma_difference_of_amounts(wanted, f.notional);
    monotone::lemma_difference_of_amounts(total, f.notional);
    monotone::lemma_difference_ordered(wanted, total, f.notional);
    monotone::lemma_sum_ordered(
        f.notional,
        Binary64::difference(wanted, f.notional),
        Binary64::difference(total, f.notional),
    );
    monotone::lemma_sum_taken_apart(f.notional, worth);
}

/// How two orders that stand alike stand after one more level.
proof fn lemma_step_compared(
    f: Fill,
    level: (Binary64, Binary64),
    small: Binary64,
    large: Binary64,
)
    requires
        is_under_way(f, small),
        is_under_way(f, large),
        is_plain_level(level),
        small.magnitude() <= large.magnitude(),
    ensures
        ({
            let a = after_level(f, level, small);
            let b = after_level(f, level, large);
            &&& a.notional.magnitude() <= b.notional.magnitude()
            &&& a.complete && b.complete ==> a.qty.magnitude() <= b.qty.magnitude()
        }),
{
    let worth = Binary64::product(level.0, level.1);
    let total = Binary64::sum(f.notional, worth);
    if is_tradable(level) {
        assert(monotone::is_size(worth));
        monotone::lemma_sum_of_sizes(f.notional, worth, worth);
        lemma_both_filled(f, level, small, large);
        if Binary64::at_most(small, total) && !Binary64::at_most(large, total) {
            assert(total.finite() && worth.finite());
            lemma_filled_within_level(f, worth, small);
        }
    }
}

/// How much a smaller order and a larger one have paid after the same levels.
proof fn lemma_payments_compared(
    side: Seq<(Binary64, Binary64)>,
    n: nat,
    small: Binary64,
    large: Binary64,
)
    requires
        n <= side.len(),
        has_plain_levels(side),
        monotone::is_amount(small) && !small.zero(),
        monotone::is_amount(large),
        small.magnitude() <= large.magnitude(),
    ensures
        ({
            let a = filled_by(side, n, small);
            let b = filled_by(side, n, large);
            &&& a.notional.magnitude() <= b.notional.magnitude()
            &&& a.complete && b.complete && a.levels == b.levels ==> a.qty.magnitude()
                <= b.qty.magnitude()
        }),
    decreases n,
{
    if n > 0 {
        let front = (n - 1) as nat;
        let a = filled_by(side, front, small);
        let b = filled_by(side, front, large);
        let level = side[n - 1];
        lemma_payments_compared(side, front, small, large);
        lemma_orders_compared(side, front, small, large);
        lemma_unfilled_order(side, front, small);
        lemma_unfilled_order(side, front, large);
        if !a.complete {
            lemma_step_compared(a, level, small, large);
        } else if !b.complete {
            lemma_level_adds(b, level, large);
        }
    }
}

/// A larger order on the same book takes from no fewer levels, pays no less in
/// all, and where it is filled, so is the smaller one; where both end in the
/// same level, it buys or sells no less.
pub proof fn lemma_larger_order(
    b: book::BookSides,
    is_buy: bool,
    mid: Binary64,
    small: Binary64,
    large: Binary64,
)
    requires
        monotone::is_amount(small) && !small.zero(),
        monotone::is_amount(large),
        small.magnitude() <= large.magnitude(),
        has_plain_levels(opposite_side(b, is_buy)),
        opposite_side(b, is_buy).len() <= usize::MAX,
    ensures
        ({
            let x = estimated_impact(b, small, is_buy, mid);
            let y = estimated_impact(b, large, is_buy, mid);
            &&& x.levels_consumed <= y.levels_consumed
            &&& y.fully_filled ==> x.fully_filled
            &&& !x.fully_filled ==> x == y
            &&& Binary64::at_most(x.total_notional, y.total_notional)
            &&& y.fully_filled && x.levels_consumed == y.levels_consumed ==> Binary64::at_most(
                x.total_qty_filled,
                y.total_qty_filled,
            )
        }),
{
    let side = opposite_side(b, is_buy);
    lemma_orders_compared(side, side.len(), small, large);
    lemma_payments_compared(side, side.len(), small, large);
    lemma_unfilled_order(side, side.len(), small);
    lemma_unfilled_order(side, side.len(), large);
    lemma_levels_counted(side, side.len(), small);
    lemma_levels_counted(side, side.len(), large);
}

/// Whether an order takes from a level.
pub open spec fn is_consumed(
    side: Seq<(Binary64, Binary64)>,
    i: int,
    wanted: Binary64,
) -> bool {
    is_tradable(side[i]) && !filled_by(side, i as nat, wanted).complete
}

/// The worst price is that of the last level that an order takes from.
proof fn lemma_worst_is_last(side: Seq<(Binary64, Binary64)>, n: nat, i: int, wanted: Binary64) -> (
    last: int)
    requires
        0 <= i < n,
        is_consumed(side, i, wanted),
    ensures
        i <= last < n,
        is_consumed(side, last, wanted),
        filled_by(side, n, wanted).worst == side[last].0,
    decreases n,
{
    let front = (n - 1) as nat;
    if is_consumed(side, front as int, wanted) {
        front as int
    } else if i == front {
        i
    } else {
        lemma_worst_is_last(side, front, i, wanted)
    }
}

/// No price that an order pays is worse than the one it names as the worst:
/// a buyer pays no more, and a seller is paid no less.
pub proof fn lemma_worst_price(b: book::BookSides, is_buy: bool, wanted: Binary64, i: int)
    requires
        replay::is_sound(b),
        0 <= i < opposite_side(b, is_buy).len(),
        is_consumed(opposite_side(b, is_buy), i, wanted),
    ensures
        ({
            let side = opposite_side(b, is_buy);
            let worst = filled_by(side, side.len(), wanted).worst;
            if is_buy {
                side[i].0.order_key() <= worst.order_key()
            } else {
                side[i].0.order_key() >= worst.order_key()
            }
        }),
{
    let side = opposite_side(b, is_buy);
    let last = lemma_worst_is_last(side, side.len(), i, wanted);
    if i < last {
        if is_buy {
            assert(b.asks[i].0.order_key() < b.asks[last].0.order_key());
        } else {
            let n = b.bids.len();
            assert(side[i] == b.bids[n - 1 - i]);
            assert(side[last] == b.bids[n - 1 - last]);
            assert(b.bids[n - 1 - last].0.order_key() < b.bids[n - 1 - i].0.order_key());
        }
    }
}

impl OrderBook {
    /// Walks a market order for `notional_usd` through the opposite side and
    /// estimates what it fills and how far from `mid_price` it pays.
    pub fn estimate_market_impact(
        &self,
        notional_usd: Binary64,
        is_buy: bool,
        mid_price: Binary64,
    ) -> (impact: MarketImpact)
        ensures
            impact == estimated_impact(self.sides(), notional_usd, is_buy, mid_price),
            impact.levels_consumed <= opposite_side(self.sides(), is_buy).len(),
    {
        let zero = Binary64::from_bits(0);
        if notional_usd.is_at_most(zero) {
            return MarketImpact::default();
        }
        let ghost side = opposite_side(self.sides(), is_buy);
        let n = if is_buy {
            self.asks.len()
        } else {
            self.bids.len()
        };
        let mut qty = zero;
        let mut notional = zero;
        let mut worst = zero;
        let mut levels: usize = 0;
        let mut complete = false;
        let mut i: usize = 0;
        while i < n && !complete
            invariant
                i <= n == side.len(),
                side == opposite_side(self.sides(), is_buy),
                zero == book::nothing(),
                levels <= i,
                (Fill { qty, notional, worst, levels: levels as nat, complete }) == filled_by(
                    side,
                    i as nat,
                    notional_usd,
                ),
            decreases n - i,
        {
            let (price, size) = if is_buy {
                self.asks.at(i)
            } else {
                self.bids.at(n - 1 - i)
            };
            assert((price, size) == side[i as int]);
            if !price.is_at_most(zero) && !size.is_at_most(zero) {
                let worth = price.times(size);
                if !worth.is_at_most(zero) {
                    levels = levels + 1;
                    worst = price;
                    if notional_usd.is_at_most(notional.plus(worth)) {
                        let missing = notional_usd.minus(notional);
                        qty = qty.plus(missing.over(price));
                        notional = notional.plus(missing);
                        complete = true;
                    } else {
                        qty = qty.plus(size);
                        notional = notional.plus(worth);
                    }
                }
            }
            i = i + 1;
        }
        proof {
            lemma_levels_counted(side, side.len(), notional_usd);
            if complete {
                lemma_filled_stays(side, i as nat, side.len(), notional_usd);
            }
        }
        let hundred = Binary64::from_bits(HUNDRED_BITS);
        let avg = if zero.is_less(qty) {
            notional.over(qty)
        } else {
            zero
        };
        let pct = if zero.is_less(avg) && zero.is_less(mid_price) {
            avg.minus(mid_price).abs().over(mid_price).times(hundred)
        } else {
            zero
        };
        MarketImpact {
            avg_fill_price: avg,
            worst_fill_price: worst,
            slippage_bps: pct.times(hundred),
            slippage_pct: pct,
            levels_consumed: levels,
            total_qty_filled: qty,
            total_notional: notional,
            fully_filled: complete,
        }
    }
}

} // verus!
