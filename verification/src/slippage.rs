//! Laws of orders of different sizes: up to rounding, a larger one takes no less
//! and gets no better price on average.

use crate::binary64;
use crate::binary64::Binary64;
use crate::book;
use crate::impact;
use crate::impact::Fill;
use crate::monotone;
use crate::monotone::is_amount;
use crate::nearness;
use crate::nearness::{is_about_at_most, is_near, is_ordinary};
use crate::precision;
use crate::ratios;
use crate::replay;
use crate::rounding::{EXPONENT_STEP, PRECISION_LIMIT};
use vstd::prelude::*;

verus! {

/// The number of levels, together with the ratio of their prices, up to which
/// orders are compared.
pub const COMPARISON_LIMIT: u64 = 0x4000_0000_0000;

/// The whole of which [`is_no_more`] counts the parts.
pub const ROUNDING_UNIT: u64 = 0x2_0000_0000_0000;

/// What an order takes from a level, in units of its worth: what is missing, or
/// the whole level.
#[verifier::opaque]
pub(crate) open spec fn taken(f: Fill, level: (Binary64, Binary64), wanted: Binary64) -> nat {
    let worth = Binary64::product(level.0, level.1);
    if Binary64::at_most(wanted, Binary64::sum(f.notional, worth)) {
        Binary64::difference(wanted, f.notional).size()
    } else {
        worth.size()
    }
}

/// Whether an order went from one state to the other by taking `worth` at a
/// price, up to rounding.
#[verifier::opaque]
pub(crate) open spec fn is_step(f: Fill, price: nat, worth: nat, g: Fill) -> bool {
    &&& is_near(g.notional.size() as int, (f.notional.size() + worth) as int, 1)
    &&& is_near(
        (g.qty.size() * price) as int,
        (f.qty.size() * price + worth * precision::one()) as int,
        5,
    )
}

/// Whether an order pays on average no less than the ratio `a` to `b`, up to
/// rounding.
#[verifier::opaque]
spec fn pays_no_less(f: Fill, a: nat, b: nat, parts: int) -> bool {
    is_about_at_most((a * f.qty.size()) as int, (b * f.notional.size()) as int, parts)
}

/// Whether an order pays on average no more than the ratio `b` to `a`, up to
/// rounding.
#[verifier::opaque]
spec fn pays_no_more(f: Fill, a: nat, b: nat, parts: int) -> bool {
    is_about_at_most((a * f.notional.size()) as int, (b * f.qty.size()) as int, parts)
}

/// Whether a price is no less than the ratio `a` to `b`, up to rounding.
#[verifier::opaque]
spec fn costs_no_less(price: nat, a: nat, b: nat, parts: int) -> bool {
    is_about_at_most((a * precision::one()) as int, (b * price) as int, parts)
}

/// Whether a price is no more than the ratio `b` to `a`, up to rounding.
#[verifier::opaque]
spec fn costs_no_more(price: nat, a: nat, b: nat, parts: int) -> bool {
    is_about_at_most((a * price) as int, (b * precision::one()) as int, parts)
}

/// Taking a whole level is a step.
pub(crate) proof fn lemma_whole_level(f: Fill, level: (Binary64, Binary64))
    requires
        is_amount(f.notional),
        is_amount(f.qty),
        is_amount(level.0),
        is_amount(level.1),
        is_ordinary(Binary64::product(level.0, level.1)),
        Binary64::sum(f.notional, Binary64::product(level.0, level.1)).finite(),
        Binary64::sum(f.qty, level.1).finite(),
    ensures
        ({
            let worth = Binary64::product(level.0, level.1);
            is_step(
                f,
                level.0.size(),
                worth.size(),
                Fill {
                    notional: Binary64::sum(f.notional, worth),
                    qty: Binary64::sum(f.qty, level.1),
                    ..f
                },
            )
        }),
{
    reveal(is_step);
    let worth = Binary64::product(level.0, level.1);
    let p = level.0.size() as int;
    let s = level.1.size() as int;
    let q = f.qty.size() as int;
    let q2 = Binary64::sum(f.qty, level.1).size() as int;
    let w = (worth.size() * precision::one()) as int;
    nearness::lemma_ordinary_size(worth);
    nearness::lemma_sum_is_near(f.notional, worth);
    nearness::lemma_sum_is_near(f.qty, level.1);
    nearness::lemma_product_is_near(level.0, level.1);
    ratios::lemma_near_scaled(q2, q + s, p);
    assert((q + s) * p == q * p + p * s) by (nonlinear_arith);
    assert(q * p >= 0 && w >= 0 && p * s >= 0) by (nonlinear_arith)
        requires
            q >= 0,
            p >= 0,
            s >= 0,
            w == worth.size() * precision::one(),
    ;
    assert(is_near(q * p + p * s, q * p + w, 3));
    nearness::lemma_near_twice(q2 * p, q * p + p * s, q * p + w);
}

/// Taking what is missing is a step.
pub(crate) proof fn lemma_part_of_level(f: Fill, price: Binary64, missing: Binary64)
    requires
        is_amount(f.notional),
        is_amount(f.qty),
        is_amount(price),
        !price.zero(),
        is_amount(missing),
        Binary64::sum(f.notional, missing).finite(),
        monotone::is_size(Binary64::quotient(missing, price)),
        is_ordinary(Binary64::sum(f.qty, Binary64::quotient(missing, price))),
    ensures
        is_step(
            f,
            price.size(),
            missing.size(),
            Fill {
                notional: Binary64::sum(f.notional, missing),
                qty: Binary64::sum(f.qty, Binary64::quotient(missing, price)),
                ..f
            },
        ),
{
    reveal(is_step);
    let part = Binary64::quotient(missing, price);
    let p = price.size() as int;
    let q = f.qty.size() as int;
    let t = part.size() as int;
    let sum = Binary64::sum(f.qty, part);
    let q2 = sum.size() as int;
    let m = (missing.size() * precision::one()) as int;
    assert(part.finite());
    nearness::lemma_sum_is_near(f.notional, missing);
    nearness::lemma_sum_is_near(f.qty, part);
    nearness::lemma_ordinary_size(sum);
    nearness::lemma_quotient_error(missing, price);
    ratios::lemma_near_scaled(q2, q + t, p);
    assert(q + t >= EXPONENT_STEP);
    assert((q + t) * p == q * p + t * p) by (nonlinear_arith);
    assert((q + t) * p >= EXPONENT_STEP * p) by (nonlinear_arith)
        requires
            q + t >= EXPONENT_STEP,
            p >= 0,
    ;
    assert(q * p >= 0 && m >= 0 && t * p >= 0) by (nonlinear_arith)
        requires
            q >= 0,
            p >= 0,
            t >= 0,
            m == missing.size() * precision::one(),
    ;
    assert(is_near(q * p + t * p, q * p + m, 3));
    nearness::lemma_near_twice(q2 * p, q * p + t * p, q * p + m);
}

/// A level that an order meets makes it go a step.
pub(crate) proof fn lemma_level_is_a_step(f: Fill, level: (Binary64, Binary64), wanted: Binary64)
    requires
        impact::is_under_way(f, wanted),
        is_amount(f.qty),
        impact::is_plain_level(level),
        is_ordinary(Binary64::product(level.0, level.1)),
        ({
            let g = impact::after_level(f, level, wanted);
            &&& g.notional.finite()
            &&& g.qty.finite()
            &&& g.complete ==> is_ordinary(g.qty)
        }),
    ensures
        is_step(
            f,
            level.0.size(),
            taken(f, level, wanted),
            impact::after_level(f, level, wanted),
        ),
        impact::is_tradable(level),
{
    reveal(is_step);
    reveal(taken);
    let worth = Binary64::product(level.0, level.1);
    assert(impact::is_tradable(level));
    if Binary64::at_most(wanted, Binary64::sum(f.notional, worth)) {
        let missing = Binary64::difference(wanted, f.notional);
        monotone::lemma_difference_of_amounts(wanted, f.notional);
        monotone::lemma_quotient_ordered(missing, missing, level.0);
        lemma_part_of_level(f, level.0, missing);
    } else {
        lemma_whole_level(f, level);
    }
}

/// Where neither the average so far nor the price of a level is below a ratio,
/// the average after the level is not either, up to rounding.
proof fn lemma_step_from_below(f: Fill, price: nat, worth: nat, g: Fill, a: nat, b: nat, parts: int)
    requires
        is_step(f, price, worth, g),
        price > 0,
        parts >= 0,
        2 * parts + 15 <= PRECISION_LIMIT,
        pays_no_less(f, a, b, parts),
        costs_no_less(price, a, b, parts),
    ensures
        pays_no_less(g, a, b, parts + 15),
{
    reveal(is_step);
    reveal(pays_no_less);
    reveal(costs_no_less);
    let one = precision::one();
    let n = f.notional.size();
    let n2 = g.notional.size();
    ratios::lemma_about_scaled((a * one) as int, (b * price) as int, worth as int, parts);
    assert((a * one) * worth == a * (worth * one)) by (nonlinear_arith);
    assert((b * price) * worth == b * (worth * price)) by (nonlinear_arith);
    ratios::lemma_near_scaled(n2 as int, (n + worth) as int, price as int);
    assert((n + worth) * price == n * price + worth * price) by (nonlinear_arith);
    assert(worth * price >= 0 && n * price >= 0) by (nonlinear_arith)
        requires
            worth >= 0,
            price >= 0,
            n >= 0,
    ;
    ratios::lemma_ratio_kept(
        a as int,
        b as int,
        f.qty.size() as int,
        n as int,
        (worth * one) as int,
        (worth * price) as int,
        price as int,
        g.qty.size() as int,
        n2 as int,
        parts,
    );
}

/// Where neither the average so far nor the price of a level is above a ratio,
/// the average after the level is not either, up to rounding.
proof fn lemma_step_from_above(f: Fill, price: nat, worth: nat, g: Fill, a: nat, b: nat, parts: int)
    requires
        is_step(f, price, worth, g),
        price > 0,
        parts >= 0,
        2 * parts + 15 <= PRECISION_LIMIT,
        pays_no_more(f, a, b, parts),
        costs_no_more(price, a, b, parts),
    ensures
        pays_no_more(g, a, b, parts + 15),
{
    reveal(is_step);
    reveal(pays_no_more);
    reveal(costs_no_more);
    let one = precision::one();
    let n = f.notional.size();
    let n2 = g.notional.size();
    ratios::lemma_about_scaled((a * price) as int, (b * one) as int, worth as int, parts);
    assert((a * price) * worth == a * (worth * price)) by (nonlinear_arith);
    assert((b * one) * worth == b * (worth * one)) by (nonlinear_arith);
    ratios::lemma_near_scaled(n2 as int, (n + worth) as int, price as int);
    assert((n + worth) * price == n * price + worth * price) by (nonlinear_arith);
    assert(worth * price >= 0 && n * price >= 0 && worth * one >= 0) by (nonlinear_arith)
        requires
            worth >= 0,
            price >= 0,
            n >= 0,
            one >= 0,
    ;
    ratios::lemma_ratio_kept(
        a as int,
        b as int,
        n as int,
        f.qty.size() as int,
        (worth * price) as int,
        (worth * one) as int,
        price as int,
        n2 as int,
        g.qty.size() as int,
        parts,
    );
}

/// Whether the worth of every level is an ordinary number.
pub open spec fn has_ordinary_worths(side: Seq<(Binary64, Binary64)>) -> bool {
    forall|i: int|
        0 <= i < side.len() ==> is_ordinary(
            Binary64::product((#[trigger] side[i]).0, side[i].1),
        )
}

/// [`has_ordinary_worths`], looked at one level at a time.
#[verifier::opaque]
pub(crate) open spec fn has_worths(side: Seq<(Binary64, Binary64)>) -> bool {
    has_ordinary_worths(side)
}

pub(crate) proof fn lemma_worth_at(side: Seq<(Binary64, Binary64)>, i: int)
    requires
        has_worths(side),
        0 <= i < side.len(),
    ensures
        is_ordinary(Binary64::product(side[i].0, side[i].1)),
{
    reveal(has_worths);
}

/// The state of an order after the first `n` levels, looked at one level at a
/// time.
#[verifier::opaque]
pub(crate) open spec fn state_at(side: Seq<(Binary64, Binary64)>, n: nat, wanted: Binary64) -> Fill {
    impact::filled_by(side, n, wanted)
}

pub(crate) proof fn lemma_next_state(side: Seq<(Binary64, Binary64)>, n: nat, wanted: Binary64)
    ensures
        state_at(side, 0, wanted) == impact::unfilled(),
        state_at(side, n + 1, wanted) == if state_at(side, n, wanted).complete {
            state_at(side, n, wanted)
        } else {
            impact::after_level(state_at(side, n, wanted), side[n as int], wanted)
        },
{
    reveal(state_at);
}

/// What an order has taken only grows.
pub(crate) proof fn lemma_quantity_grows(side: Seq<(Binary64, Binary64)>, i: nat, n: nat, wanted: Binary64)
    requires
        i <= n <= side.len(),
        impact::has_plain_levels(side),
        is_amount(wanted),
        !wanted.zero(),
    ensures
        state_at(side, i, wanted).qty.magnitude() <= state_at(
            side,
            n,
            wanted,
        ).qty.magnitude(),
        monotone::is_size(state_at(side, i, wanted).qty),
    decreases n,
{
    reveal(state_at);
    impact::lemma_unfilled_order(side, n, wanted);
    if i < n {
        let front = (n - 1) as nat;
        let f = state_at(side, front, wanted);
        let level = side[n - 1];
        lemma_quantity_grows(side, i, front, wanted);
        impact::lemma_unfilled_order(side, front, wanted);
        if !f.complete && impact::is_tradable(level) {
            let missing = Binary64::difference(wanted, f.notional);
            monotone::lemma_difference_of_amounts(wanted, f.notional);
            monotone::lemma_quotient_ordered(missing, missing, level.0);
            lemma_size_grows(f.qty, Binary64::quotient(missing, level.0));
            lemma_size_grows(f.qty, level.1);
        }
    }
}

proof fn lemma_size_grows(x: Binary64, y: Binary64)
    requires
        monotone::is_size(x),
        monotone::is_size(y),
    ensures
        Binary64::sum(x, y).magnitude() >= x.magnitude(),
{
    if x.finite() && y.finite() {
        monotone::lemma_sum_is_no_less(x, y);
    }
}

/// Whether the amounts that an order ends with are finite, and its quantity is
/// ordinary where it is filled.
pub(crate) open spec fn ends_well(f: Fill) -> bool {
    &&& f.notional.finite()
    &&& f.qty.finite()
    &&& f.complete ==> is_ordinary(f.qty)
}

/// An order that has not been filled is under way with finite amounts.
pub(crate) proof fn lemma_under_way(side: Seq<(Binary64, Binary64)>, i: nat, n: nat, wanted: Binary64)
    requires
        i <= n <= side.len(),
        impact::has_plain_levels(side),
        is_amount(wanted),
        !wanted.zero(),
        ends_well(state_at(side, n, wanted)),
        !state_at(side, i, wanted).complete,
    ensures
        impact::is_under_way(state_at(side, i, wanted), wanted),
        is_amount(state_at(side, i, wanted).qty),
        ends_well(state_at(side, i, wanted)),
{
    reveal(state_at);
    lemma_quantity_grows(side, i, n, wanted);
    impact::lemma_unfilled_order(side, i, wanted);
}

/// More parts allow more.
proof fn lemma_pays_no_less_widened(f: Fill, a: nat, b: nat, parts: int, more: int)
    requires
        pays_no_less(f, a, b, parts),
        parts <= more,
    ensures
        pays_no_less(f, a, b, more),
{
    reveal(pays_no_less);
    let x = f.notional.size();
    assert(b * x >= 0) by (nonlinear_arith)
        requires
            b >= 0,
            x >= 0,
    ;
    ratios::lemma_about_widened(
        (a * f.qty.size()) as int,
        (b * f.notional.size()) as int,
        parts,
        more,
    );
}

proof fn lemma_costs_no_less_widened(price: nat, a: nat, b: nat, parts: int, more: int)
    requires
        costs_no_less(price, a, b, parts),
        parts <= more,
    ensures
        costs_no_less(price, a, b, more),
{
    reveal(costs_no_less);
    let x = price;
    assert(b * x >= 0) by (nonlinear_arith)
        requires
            b >= 0,
            x >= 0,
    ;
    ratios::lemma_about_widened((a * precision::one()) as int, (b * price) as int, parts, more);
}

/// An order that pays no less than a ratio does so after a level that costs no
/// less.
proof fn lemma_level_from_below(
    f: Fill,
    level: (Binary64, Binary64),
    wanted: Binary64,
    a: nat,
    b: nat,
    parts: int,
    so_far: int,
)
    requires
        impact::is_under_way(f, wanted),
        is_amount(f.qty),
        impact::is_plain_level(level),
        is_ordinary(Binary64::product(level.0, level.1)),
        ends_well(impact::after_level(f, level, wanted)),
        0 <= parts <= so_far,
        2 * so_far + 15 <= PRECISION_LIMIT,
        pays_no_less(f, a, b, so_far),
        costs_no_less(level.0.size(), a, b, parts),
    ensures
        pays_no_less(impact::after_level(f, level, wanted), a, b, so_far + 15),
{
    lemma_level_is_a_step(f, level, wanted);
    binary64::lemma_parts(level.0);
    lemma_costs_no_less_widened(level.0.size(), a, b, parts, so_far);
    lemma_step_from_below(
        f,
        level.0.size(),
        taken(f, level, wanted),
        impact::after_level(f, level, wanted),
        a,
        b,
        so_far,
    );
}

/// From where an order pays no less than a ratio, it goes on to do so as long
/// as the prices are no less.
proof fn lemma_walk_from_below(
    side: Seq<(Binary64, Binary64)>,
    k: nat,
    n: nat,
    wanted: Binary64,
    a: nat,
    b: nat,
    parts: int,
)
    requires
        k <= n <= side.len(),
        impact::has_plain_levels(side),
        has_worths(side),
        is_amount(wanted),
        !wanted.zero(),
        ends_well(state_at(side, n, wanted)),
        parts >= 0,
        2 * (parts + 15 * (n - k)) <= PRECISION_LIMIT,
        pays_no_less(state_at(side, k, wanted), a, b, parts),
        forall|i: int|
            k <= i < n ==> costs_no_less((#[trigger] side[i]).0.size(), a, b, parts),
    ensures
        pays_no_less(state_at(side, n, wanted), a, b, parts + 15 * (n - k)),
    decreases n - k,
{
    if k < n {
        let front = (n - 1) as nat;
        lemma_next_state(side, front, wanted);
        let f = state_at(side, front, wanted);
        let so_far = parts + 15 * (front - k);
        if f.complete {
            lemma_walk_from_below(side, k, front, wanted, a, b, parts);
            lemma_pays_no_less_widened(f, a, b, so_far, so_far + 15);
        } else {
            lemma_under_way(side, front, n, wanted);
            lemma_walk_from_below(side, k, front, wanted, a, b, parts);
            assert(impact::is_plain_level(side[n - 1]));
            assert(costs_no_less(side[n - 1].0.size(), a, b, parts));
            lemma_worth_at(side, n - 1);
            lemma_level_from_below(f, side[n - 1], wanted, a, b, parts, so_far);
        }
    }
}

/// More parts allow more.
proof fn lemma_pays_no_more_widened(f: Fill, a: nat, b: nat, parts: int, more: int)
    requires
        pays_no_more(f, a, b, parts),
        parts <= more,
    ensures
        pays_no_more(f, a, b, more),
{
    reveal(pays_no_more);
    let x = f.qty.size();
    assert(b * x >= 0) by (nonlinear_arith)
        requires
            b >= 0,
            x >= 0,
    ;
    ratios::lemma_about_widened(
        (a * f.notional.size()) as int,
        (b * f.qty.size()) as int,
        parts,
        more,
    );
}

proof fn lemma_costs_no_more_widened(price: nat, a: nat, b: nat, parts: int, more: int)
    requires
        costs_no_more(price, a, b, parts),
        parts <= more,
    ensures
        costs_no_more(price, a, b, more),
{
    reveal(costs_no_more);
    let x = precision::one();
    assert(b * x >= 0) by (nonlinear_arith)
        requires
            b >= 0,
            x >= 0,
    ;
    ratios::lemma_about_widened((a * price) as int, (b * precision::one()) as int, parts, more);
}

/// An order that pays no more than a ratio does so after a level that costs no
/// more.
proof fn lemma_level_from_above(
    f: Fill,
    level: (Binary64, Binary64),
    wanted: Binary64,
    a: nat,
    b: nat,
    parts: int,
    so_far: int,
)
    requires
        impact::is_under_way(f, wanted),
        is_amount(f.qty),
        impact::is_plain_level(level),
        is_ordinary(Binary64::product(level.0, level.1)),
        ends_well(impact::after_level(f, level, wanted)),
        0 <= parts <= so_far,
        2 * so_far + 15 <= PRECISION_LIMIT,
        pays_no_more(f, a, b, so_far),
        costs_no_more(level.0.size(), a, b, parts),
    ensures
        pays_no_more(impact::after_level(f, level, wanted), a, b, so_far + 15),
{
    lemma_level_is_a_step(f, level, wanted);
    binary64::lemma_parts(level.0);
    lemma_costs_no_more_widened(level.0.size(), a, b, parts, so_far);
    lemma_step_from_above(
        f,
        level.0.size(),
        taken(f, level, wanted),
        impact::after_level(f, level, wanted),
        a,
        b,
        so_far,
    );
}

/// From where an order pays no more than a ratio, it goes on to do so as long
/// as the prices are no more.
proof fn lemma_walk_from_above(
    side: Seq<(Binary64, Binary64)>,
    k: nat,
    n: nat,
    wanted: Binary64,
    a: nat,
    b: nat,
    parts: int,
)
    requires
        k <= n <= side.len(),
        impact::has_plain_levels(side),
        has_worths(side),
        is_amount(wanted),
        !wanted.zero(),
        ends_well(state_at(side, n, wanted)),
        parts >= 0,
        2 * (parts + 15 * (n - k)) <= PRECISION_LIMIT,
        pays_no_more(state_at(side, k, wanted), a, b, parts),
        forall|i: int|
            k <= i < n ==> costs_no_more((#[trigger] side[i]).0.size(), a, b, parts),
    ensures
        pays_no_more(state_at(side, n, wanted), a, b, parts + 15 * (n - k)),
    decreases n - k,
{
    if k < n {
        let front = (n - 1) as nat;
        lemma_next_state(side, front, wanted);
        let f = state_at(side, front, wanted);
        let so_far = parts + 15 * (front - k);
        if f.complete {
            lemma_walk_from_above(side, k, front, wanted, a, b, parts);
            lemma_pays_no_more_widened(f, a, b, so_far, so_far + 15);
        } else {
            lemma_under_way(side, front, n, wanted);
            lemma_walk_from_above(side, k, front, wanted, a, b, parts);
            assert(impact::is_plain_level(side[n - 1]));
            assert(costs_no_more(side[n - 1].0.size(), a, b, parts));
            lemma_worth_at(side, n - 1);
            lemma_level_from_above(f, side[n - 1], wanted, a, b, parts, so_far);
        }
    }
}

/// What an order that a level fills takes there, and what a larger one takes.
proof fn lemma_taken_compared(
    f: Fill,
    level: (Binary64, Binary64),
    small: Binary64,
    large: Binary64,
)
    requires
        impact::is_under_way(f, small),
        impact::is_under_way(f, large),
        is_ordinary(Binary64::product(level.0, level.1)),
        small.magnitude() <= large.magnitude(),
        Binary64::at_most(
            small,
            Binary64::sum(f.notional, Binary64::product(level.0, level.1)),
        ),
    ensures
        taken(f, level, small) <= taken(f, level, large) || is_about_at_most(
            (f.notional.size() + taken(f, level, small)) as int,
            (f.notional.size() + taken(f, level, large)) as int,
            3,
        ),
{
    reveal(taken);
    let worth = Binary64::product(level.0, level.1);
    let total = Binary64::sum(f.notional, worth);
    nearness::lemma_ordinary_size(worth);
    monotone::lemma_sum_of_amounts(f.notional, worth);
    nearness::lemma_difference_is_near(small, f.notional);
    nearness::lemma_difference_is_near(large, f.notional);
    if Binary64::at_most(large, total) {
        monotone::lemma_difference_ordered(small, large, f.notional);
        precision::lemma_size_ordered(
            Binary64::difference(small, f.notional),
            Binary64::difference(large, f.notional),
        );
    } else {
        nearness::lemma_sum_is_near(f.notional, worth);
        precision::lemma_size_ordered(small, total);
    }
}

/// The level that fills an order.
pub(crate) proof fn lemma_filling_level(side: Seq<(Binary64, Binary64)>, n: nat, wanted: Binary64) -> (k: nat)
    requires
        state_at(side, n, wanted).complete,
    ensures
        k < n,
        !state_at(side, k, wanted).complete,
        state_at(side, k + 1, wanted).complete,
    decreases n,
{
    reveal(state_at);
    let front = (n - 1) as nat;
    if state_at(side, front, wanted).complete {
        lemma_filling_level(side, front, wanted)
    } else {
        front
    }
}

/// Two orders on the same side: the smaller one is filled by the level `k`, and
/// both end with finite amounts.
spec fn is_pair(
    side: Seq<(Binary64, Binary64)>,
    k: nat,
    small: Binary64,
    large: Binary64,
    ratio: nat,
) -> bool {
    let n = side.len();
    &&& k < n
    &&& impact::has_plain_levels(side)
    &&& has_worths(side)
    &&& is_amount(small) && !small.zero()
    &&& is_amount(large)
    &&& small.magnitude() <= large.magnitude()
    &&& !state_at(side, k, small).complete
    &&& state_at(side, k + 1, small).complete
    &&& ends_well(state_at(side, n, small))
    &&& ends_well(state_at(side, n, large))
    &&& ratio >= 1
    &&& n + ratio <= COMPARISON_LIMIT
    &&& forall|i: int|
        0 <= i < k ==> (#[trigger] side[i]).0.size() <= ratio * side[k as int].0.size()
}

/// The states of the two orders around the level that fills the smaller one.
proof fn lemma_pair_states(
    side: Seq<(Binary64, Binary64)>,
    k: nat,
    small: Binary64,
    large: Binary64,
    ratio: nat,
)
    requires
        is_pair(side, k, small, large, ratio),
    ensures
        ({
            let f = state_at(side, k, small);
            let a = state_at(side, side.len(), small);
            let b = state_at(side, k + 1, large);
            &&& impact::is_under_way(f, small)
            &&& impact::is_under_way(f, large)
            &&& is_amount(f.qty)
            &&& ends_well(f)
            &&& a.complete
            &&& a == impact::after_level(f, side[k as int], small)
            &&& b == impact::after_level(f, side[k as int], large)
            &&& ends_well(a)
            &&& ends_well(b)
        }),
{
    reveal(state_at);
    let n = side.len();
    impact::lemma_orders_compared(side, k, small, large);
    impact::lemma_filled_stays(side, k + 1, n, small);
    lemma_under_way(side, k, n, small);
    lemma_under_way(side, k, n, large);
    if state_at(side, k + 1, large).complete {
        impact::lemma_filled_stays(side, k + 1, n, large);
    } else {
        lemma_under_way(side, k + 1, n, large);
    }
}

/// How two orders in the same state go on at a level that fills the smaller one.
proof fn lemma_pair_steps(f: Fill, level: (Binary64, Binary64), small: Binary64, large: Binary64)
    requires
        impact::is_under_way(f, small),
        impact::is_under_way(f, large),
        is_amount(f.qty),
        impact::is_plain_level(level),
        is_ordinary(Binary64::product(level.0, level.1)),
        small.magnitude() <= large.magnitude(),
        impact::after_level(f, level, small).complete,
        ends_well(impact::after_level(f, level, small)),
        ends_well(impact::after_level(f, level, large)),
    ensures
        ({
            let m = taken(f, level, small);
            let w = taken(f, level, large);
            &&& is_step(f, level.0.size(), m, impact::after_level(f, level, small))
            &&& is_step(f, level.0.size(), w, impact::after_level(f, level, large))
            &&& m <= w || is_about_at_most(
                (f.notional.size() + m) as int,
                (f.notional.size() + w) as int,
                3,
            )
            &&& level.0.size() > 0
        }),
{
    lemma_level_is_a_step(f, level, small);
    lemma_level_is_a_step(f, level, large);
    lemma_taken_compared(f, level, small, large);
    binary64::lemma_parts(level.0);
}

/// How the two orders stand after the level that fills the smaller one.
proof fn lemma_pair_after_level(
    side: Seq<(Binary64, Binary64)>,
    k: nat,
    small: Binary64,
    large: Binary64,
    ratio: nat,
)
    requires
        is_pair(side, k, small, large, ratio),
    ensures
        ({
            let f = state_at(side, k, small);
            let level = side[k as int];
            let m = taken(f, level, small);
            let w = taken(f, level, large);
            let a = state_at(side, side.len(), small);
            let b = state_at(side, k + 1, large);
            let p = level.0.size();
            let one = precision::one();
            &&& is_step(f, p, m, a)
            &&& is_step(f, p, w, b)
            &&& p > 0
            &&& m <= w || is_about_at_most(
                (f.notional.size() + m) as int,
                (f.notional.size() + w) as int,
                3,
            )
            &&& f.notional.size() * one <= 2 * (ratio * (f.qty.size() * p))
            &&& ends_well(f)
            &&& ends_well(b)
        }),
{
    reveal(pays_no_more);
    let f = state_at(side, k, small);
    let level = side[k as int];
    let p = level.0.size();
    let one = precision::one();
    assert(impact::is_plain_level(side[k as int]));
    lemma_worth_at(side, k as int);
    lemma_pair_states(side, k, small, large, ratio);
    lemma_pair_steps(f, level, small, large);
    lemma_paid_before_buying(side, k, small, ratio * p);
    let cap = ratio * p;
    let q = f.qty.size();
    let paid = f.notional.size();
    assert(cap * q == ratio * (q * p) && one * paid == paid * one && cap * q >= 0) by (
        nonlinear_arith)
        requires
            cap == ratio * p,
            ratio >= 0,
            p >= 0,
            q >= 0,
    ;
    ratios::lemma_about_twice((one * paid) as int, (cap * q) as int, (15 * k) as int);
}

/// Nothing is paid for nothing.
proof fn lemma_nothing_paid(a: nat, b: nat)
    ensures
        impact::unfilled().qty.size() == 0,
        impact::unfilled().notional.size() == 0,
        pays_no_more(impact::unfilled(), a, b, 0),
        pays_no_less(impact::unfilled(), a, b, 0),
{
    reveal(pays_no_less);
    reveal(pays_no_more);
    binary64::lemma_parts(book::nothing());
    assert(a * 0 == 0 && b * 0 == 0);
}

/// The larger order takes no less, up to rounding.
proof fn lemma_pair_quantity(
    side: Seq<(Binary64, Binary64)>,
    k: nat,
    small: Binary64,
    large: Binary64,
    ratio: nat,
)
    requires
        is_pair(side, k, small, large, ratio),
    ensures
        is_about_at_most(
            state_at(side, side.len(), small).qty.size() as int,
            state_at(side, side.len(), large).qty.size() as int,
            6 * ratio as int + 15,
        ),
{
    reveal(is_step);
    let n = side.len();
    let f = state_at(side, k, small);
    let level = side[k as int];
    let m = taken(f, level, small);
    let w = taken(f, level, large);
    let a = state_at(side, n, small);
    let b = state_at(side, k + 1, large);
    let c = state_at(side, n, large);
    let p = level.0.size();
    let one = precision::one();
    let q = f.qty.size() * p;
    lemma_pair_after_level(side, k, small, large, ratio);
    assert(q >= 0 && q + w * one >= 0) by (nonlinear_arith)
        requires
            q == f.qty.size() * p,
            f.qty.size() >= 0,
            p >= 0,
            w >= 0,
            one >= 0,
    ;
    ratios::lemma_hardly_more_is_taken(
        f.notional.size() as int,
        q as int,
        m as int,
        w as int,
        one as int,
        ratio as int,
    );
    nearness::lemma_rounded_apart(
        (q + m * one) as int,
        (q + w * one) as int,
        (a.qty.size() * p) as int,
        (b.qty.size() * p) as int,
        6 * ratio as int,
        5,
    );
    ratios::lemma_about_unscaled(
        a.qty.size() as int,
        b.qty.size() as int,
        p as int,
        6 * ratio as int + 15,
        (a.qty.size() * p) as int,
        (b.qty.size() * p) as int,
    );
    lemma_quantity_grows(side, k + 1, n, large);
    precision::lemma_size_ordered(b.qty, c.qty);
    let parts: int = 6 * ratio as int + 15;
    let x = b.qty.size();
    let y = c.qty.size();
    assert((PRECISION_LIMIT + parts) * x <= (PRECISION_LIMIT + parts) * y) by (nonlinear_arith)
        requires
            x <= y,
            parts >= 0,
    ;
}

/// Where no more than the price was paid before, the order that takes more of a
/// level pays no less on average.
proof fn lemma_buyers_at_a_level(
    f: Fill,
    a: Fill,
    b: Fill,
    p: nat,
    m: nat,
    w: nat,
    parts: int,
)
    requires
        is_step(f, p, m, a),
        is_step(f, p, w, b),
        p > 0,
        parts >= 0,
        2 * parts + 48 <= PRECISION_LIMIT,
        pays_no_more(f, precision::one(), p, parts),
        m <= w || is_about_at_most(
            (f.notional.size() + m) as int,
            (f.notional.size() + w) as int,
            3,
        ),
    ensures
        pays_no_less(b, a.notional.size(), a.qty.size(), parts + 24),
{
    reveal(is_step);
    reveal(pays_no_less);
    reveal(pays_no_more);
    let one = precision::one();
    let q = f.qty.size() * p;
    let paid = f.notional.size();
    assert(one * paid == paid * one && p * f.qty.size() == q && q >= 0) by (nonlinear_arith)
        requires
            q == f.qty.size() * p,
            f.qty.size() >= 0,
            p >= 0,
    ;
    ratios::lemma_about_widened((paid * one) as int, q as int, parts, parts + 3);
    ratios::lemma_more_at_a_higher_price(
        paid as int,
        q as int,
        m as int,
        w as int,
        one as int,
        parts + 3,
    );
    assert(m * one >= 0 && w * one >= 0 && a.qty.size() * p >= 0 && b.qty.size() * p >= 0) by (
        nonlinear_arith)
        requires
            m >= 0,
            w >= 0,
            one >= 0,
            p >= 0,
            a.qty.size() >= 0,
            b.qty.size() >= 0,
    ;
    ratios::lemma_cross_rounded(
        (paid + m) as int,
        (q + w * one) as int,
        (paid + w) as int,
        (q + m * one) as int,
        a.notional.size() as int,
        (b.qty.size() * p) as int,
        b.notional.size() as int,
        (a.qty.size() * p) as int,
        parts + 3,
    );
    let an = a.notional.size();
    let aq = a.qty.size();
    let bn = b.notional.size();
    let bq = b.qty.size();
    assert(an * (bq * p) == (an * bq) * p && bn * (aq * p) == (aq * bn) * p) by (nonlinear_arith);
    ratios::lemma_about_unscaled(
        (an * bq) as int,
        (aq * bn) as int,
        p as int,
        parts + 24,
        (an * (bq * p)) as int,
        (bn * (aq * p)) as int,
    );
}

proof fn lemma_later_price_is_no_lower(a: Fill, p: nat, x: nat, parts: int, more: int)
    requires
        pays_no_more(a, precision::one(), p, parts),
        p <= x,
        0 <= parts <= more,
    ensures
        costs_no_less(x, a.notional.size(), a.qty.size(), more),
{
    reveal(costs_no_less);
    reveal(pays_no_more);
    let an = a.notional.size();
    let aq = a.qty.size();
    let one = precision::one();
    let d = PRECISION_LIMIT as int;
    assert(one * an == an * one && p * aq <= aq * x && aq * x >= 0) by (nonlinear_arith)
        requires
            p <= x,
            aq >= 0,
            p >= 0,
    ;
    assert((d + parts) * (p * aq) <= (d + parts) * (aq * x)) by (nonlinear_arith)
        requires
            p * aq <= aq * x,
            d + parts >= 0,
    ;
    ratios::lemma_about_widened((an * one) as int, (aq * x) as int, parts, more);
}

proof fn lemma_costs_no_more_than(x: nat, p: nat)
    requires
        x <= p,
    ensures
        costs_no_more(x, precision::one(), p, 0),
{
    reveal(costs_no_more);
    let one = precision::one();
    assert(one * x <= p * one) by (nonlinear_arith)
        requires
            x <= p,
            one >= 0,
    ;
}

proof fn lemma_costs_no_less_than(x: nat, p: nat)
    requires
        x >= p,
    ensures
        costs_no_less(x, p, precision::one(), 0),
{
    reveal(costs_no_less);
    let one = precision::one();
    assert(p * one <= one * x) by (nonlinear_arith)
        requires
            p <= x,
            one >= 0,
    ;
}

/// Where prices rise, no more than a price was paid before it on average.
proof fn lemma_paid_before_buying(side: Seq<(Binary64, Binary64)>, k: nat, wanted: Binary64, p: nat)
    requires
        k <= side.len(),
        2 * (15 * k) <= PRECISION_LIMIT,
        impact::has_plain_levels(side),
        has_worths(side),
        is_amount(wanted),
        !wanted.zero(),
        ends_well(state_at(side, k, wanted)),
        forall|i: int| 0 <= i < k ==> (#[trigger] side[i]).0.size() <= p,
    ensures
        pays_no_more(state_at(side, k, wanted), precision::one(), p, 15 * k as int),
{
    lemma_next_state(side, 0, wanted);
    let one = precision::one();
    assert forall|i: int| 0 <= i < k implies costs_no_more(
        (#[trigger] side[i]).0.size(),
        one,
        p,
        0,
    ) by {
        lemma_costs_no_more_than(side[i].0.size(), p);
    }
    lemma_nothing_paid(one, p);
    lemma_walk_from_above(side, 0, k, wanted, one, p, 0);
}

/// Where prices fall, no less than a price was paid before it on average.
proof fn lemma_paid_before_selling(
    side: Seq<(Binary64, Binary64)>,
    k: nat,
    wanted: Binary64,
    p: nat,
)
    requires
        k <= side.len(),
        2 * (15 * k) <= PRECISION_LIMIT,
        impact::has_plain_levels(side),
        has_worths(side),
        is_amount(wanted),
        !wanted.zero(),
        ends_well(state_at(side, k, wanted)),
        forall|i: int| 0 <= i < k ==> (#[trigger] side[i]).0.size() >= p,
    ensures
        pays_no_less(state_at(side, k, wanted), p, precision::one(), 15 * k as int),
{
    lemma_next_state(side, 0, wanted);
    let one = precision::one();
    assert forall|i: int| 0 <= i < k implies costs_no_less(
        (#[trigger] side[i]).0.size(),
        p,
        one,
        0,
    ) by {
        lemma_costs_no_less_than(side[i].0.size(), p);
    }
    lemma_nothing_paid(p, one);
    lemma_walk_from_below(side, 0, k, wanted, p, one, 0);
}

/// A price is no more and no less than itself.
proof fn lemma_costs_itself(p: nat, parts: int)
    requires
        parts >= 0,
    ensures
        costs_no_more(p, precision::one(), p, parts),
        costs_no_less(p, p, precision::one(), parts),
{
    reveal(costs_no_less);
    reveal(costs_no_more);
    let one = precision::one();
    assert(p * one >= 0 && one * p == p * one) by (nonlinear_arith)
        requires
            p >= 0,
            one >= 0,
    ;
    ratios::lemma_about_widened((one * p) as int, (p * one) as int, 0, parts);
}

/// Where prices rise, the larger order pays no less on average, up to rounding.
proof fn lemma_pair_of_buyers(
    side: Seq<(Binary64, Binary64)>,
    k: nat,
    small: Binary64,
    large: Binary64,
    ratio: nat,
)
    requires
        is_pair(side, k, small, large, ratio),
        forall|i: int| 0 <= i < k ==> (#[trigger] side[i]).0.size() <= side[k as int].0.size(),
        forall|i: int|
            k <= i < side.len() ==> side[k as int].0.size() <= (#[trigger] side[i]).0.size(),
    ensures
        ({
            let a = state_at(side, side.len(), small);
            let c = state_at(side, side.len(), large);
            pays_no_less(c, a.notional.size(), a.qty.size(), 15 * side.len() as int + 9)
        }),
{
    let n = side.len();
    let f = state_at(side, k, small);
    let level = side[k as int];
    let m = taken(f, level, small);
    let w = taken(f, level, large);
    let a = state_at(side, n, small);
    let b = state_at(side, k + 1, large);
    let p = level.0.size();
    let one = precision::one();
    let parts: int = 15 * k as int;
    lemma_pair_after_level(side, k, small, large, ratio);
    lemma_paid_before_buying(side, k, small, p);
    lemma_costs_itself(p, parts);
    lemma_step_from_above(f, p, m, a, one, p, parts);
    lemma_buyers_at_a_level(f, a, b, p, m, w, parts);
    let an = a.notional.size();
    let aq = a.qty.size();
    assert forall|i: int| k + 1 <= i < n implies costs_no_less(
        (#[trigger] side[i]).0.size(),
        an,
        aq,
        parts + 24,
    ) by {
        lemma_later_price_is_no_lower(a, p, side[i].0.size(), parts + 15, parts + 24);
    }
    lemma_walk_from_below(side, k + 1, n, large, an, aq, parts + 24);
}

/// Where no less than the price was paid before, the order that takes more of a
/// level is paid no more on average.
proof fn lemma_sellers_at_a_level(
    f: Fill,
    a: Fill,
    b: Fill,
    p: nat,
    m: nat,
    w: nat,
    ratio: nat,
    parts: int,
)
    requires
        is_step(f, p, m, a),
        is_step(f, p, w, b),
        p > 0,
        parts >= 0,
        ratio >= 1,
        2 * (parts + 6 * ratio) + 42 <= PRECISION_LIMIT,
        pays_no_less(f, p, precision::one(), parts),
        f.notional.size() * precision::one() <= 2 * (ratio * (f.qty.size() * p)),
        m <= w || is_about_at_most(
            (f.notional.size() + m) as int,
            (f.notional.size() + w) as int,
            3,
        ),
    ensures
        pays_no_more(b, a.qty.size(), a.notional.size(), parts + 6 * ratio + 21),
{
    reveal(is_step);
    reveal(pays_no_less);
    reveal(pays_no_more);
    let one = precision::one();
    let q = f.qty.size() * p;
    let paid = f.notional.size();
    let more: int = parts + 6 * ratio;
    assert(one * paid == paid * one && p * f.qty.size() == q && q >= 0 && paid * one >= 0) by (
        nonlinear_arith)
        requires
            q == f.qty.size() * p,
            f.qty.size() >= 0,
            p >= 0,
            paid >= 0,
            one >= 0,
    ;
    ratios::lemma_about_widened(q as int, (paid * one) as int, parts, more);
    ratios::lemma_more_at_a_lower_price(
        paid as int,
        q as int,
        m as int,
        w as int,
        one as int,
        ratio as int,
        more,
    );
    assert(m * one >= 0 && w * one >= 0 && a.qty.size() * p >= 0 && b.qty.size() * p >= 0) by (
        nonlinear_arith)
        requires
            m >= 0,
            w >= 0,
            one >= 0,
            p >= 0,
            a.qty.size() >= 0,
            b.qty.size() >= 0,
    ;
    ratios::lemma_cross_rounded(
        (paid + w) as int,
        (q + m * one) as int,
        (paid + m) as int,
        (q + w * one) as int,
        b.notional.size() as int,
        (a.qty.size() * p) as int,
        a.notional.size() as int,
        (b.qty.size() * p) as int,
        more,
    );
    let an = a.notional.size();
    let aq = a.qty.size();
    let bn = b.notional.size();
    let bq = b.qty.size();
    assert(an * (bq * p) == (an * bq) * p && bn * (aq * p) == (aq * bn) * p) by (nonlinear_arith);
    ratios::lemma_about_unscaled(
        (aq * bn) as int,
        (an * bq) as int,
        p as int,
        more + 21,
        (bn * (aq * p)) as int,
        (an * (bq * p)) as int,
    );
}

proof fn lemma_later_price_is_no_higher(a: Fill, p: nat, x: nat, parts: int, more: int)
    requires
        pays_no_less(a, p, precision::one(), parts),
        x <= p,
        0 <= parts <= more,
    ensures
        costs_no_more(x, a.qty.size(), a.notional.size(), more),
{
    reveal(costs_no_more);
    reveal(pays_no_less);
    let an = a.notional.size();
    let aq = a.qty.size();
    let one = precision::one();
    assert(one * an == an * one && aq * x <= p * aq && an * one >= 0) by (nonlinear_arith)
        requires
            x <= p,
            aq >= 0,
            an >= 0,
            one >= 0,
    ;
    ratios::lemma_about_widened((aq * x) as int, (an * one) as int, parts, more);
}

/// Where prices fall, the larger order is paid no more on average, up to
/// rounding.
proof fn lemma_pair_of_sellers(
    side: Seq<(Binary64, Binary64)>,
    k: nat,
    small: Binary64,
    large: Binary64,
    ratio: nat,
)
    requires
        is_pair(side, k, small, large, ratio),
        forall|i: int| 0 <= i < k ==> (#[trigger] side[i]).0.size() >= side[k as int].0.size(),
        forall|i: int|
            k <= i < side.len() ==> side[k as int].0.size() >= (#[trigger] side[i]).0.size(),
    ensures
        ({
            let a = state_at(side, side.len(), small);
            let c = state_at(side, side.len(), large);
            pays_no_more(
                c,
                a.qty.size(),
                a.notional.size(),
                15 * side.len() as int + 6 * ratio + 6,
            )
        }),
{
    let n = side.len();
    let f = state_at(side, k, small);
    let level = side[k as int];
    let m = taken(f, level, small);
    let w = taken(f, level, large);
    let a = state_at(side, n, small);
    let b = state_at(side, k + 1, large);
    let p = level.0.size();
    let one = precision::one();
    let parts: int = 15 * k as int;
    let more: int = parts + 6 * ratio + 21;
    lemma_pair_after_level(side, k, small, large, ratio);
    lemma_paid_before_selling(side, k, small, p);
    lemma_costs_itself(p, parts);
    lemma_step_from_below(f, p, m, a, p, one, parts);
    lemma_sellers_at_a_level(f, a, b, p, m, w, ratio, parts);
    let an = a.notional.size();
    let aq = a.qty.size();
    assert forall|i: int| k + 1 <= i < n implies costs_no_more(
        (#[trigger] side[i]).0.size(),
        aq,
        an,
        more,
    ) by {
        lemma_later_price_is_no_higher(a, p, side[i].0.size(), parts + 15, more);
    }
    lemma_walk_from_above(side, k + 1, n, large, aq, an, more);
}

/// Quotients of what is in order are in order, up to rounding.
proof fn lemma_quotients_compared(n: Binary64, q: Binary64, n2: Binary64, q2: Binary64, parts: int)
    requires
        is_amount(n),
        is_amount(n2),
        is_ordinary(q),
        is_ordinary(q2),
        is_ordinary(Binary64::quotient(n, q)),
        is_ordinary(Binary64::quotient(n2, q2)),
        parts >= 0,
        2 * parts + 6 <= PRECISION_LIMIT,
        is_about_at_most((n.size() * q2.size()) as int, (n2.size() * q.size()) as int, parts),
    ensures
        is_about_at_most(
            Binary64::quotient(n, q).size() as int,
            Binary64::quotient(n2, q2).size() as int,
            parts + 6,
        ),
{
    let d = PRECISION_LIMIT as int;
    let one = precision::one() as int;
    let a = n.size() as int;
    let b = n2.size() as int;
    let x = q.size() as int;
    let y = q2.size() as int;
    let v = Binary64::quotient(n, q).size() as int;
    let w = Binary64::quotient(n2, q2).size() as int;
    nearness::lemma_ordinary_size(q);
    nearness::lemma_ordinary_size(q2);
    nearness::lemma_quotient_is_near(n, q);
    nearness::lemma_quotient_is_near(n2, q2);
    ratios::lemma_about_scaled(a * y, b * x, one, parts);
    let left = (a * one) * y;
    let right = (b * one) * x;
    assert((a * y) * one == left && (b * x) * one == right) by (nonlinear_arith)
        requires
            left == (a * one) * y,
            right == (b * one) * x,
    ;
    assert(d * ((v * x) * y) <= (d + 2) * left) by (nonlinear_arith)
        requires
            d * (v * x) <= (d + 2) * (a * one),
            left == (a * one) * y,
            y >= 0,
    {
        assert((d * (v * x)) * y <= ((d + 2) * (a * one)) * y);
    }
    assert(d * ((w * y) * x) >= (d - 2) * right) by (nonlinear_arith)
        requires
            d * (w * y) >= (d - 2) * (b * one),
            right == (b * one) * x,
            x >= 0,
    {
        assert((d * (w * y)) * x >= ((d - 2) * (b * one)) * x);
    }
    assert(right >= 0 && x * y > 0) by (nonlinear_arith)
        requires
            right == (b * one) * x,
            b >= 0,
            one >= 0,
            x > 0,
            y > 0,
    ;
    nearness::lemma_rounded_apart(left, right, (v * x) * y, (w * y) * x, parts, 2);
    assert((v * x) * y == v * (x * y) && (w * y) * x == w * (x * y)) by (nonlinear_arith);
    ratios::lemma_about_unscaled(v, w, x * y, parts + 6, (v * x) * y, (w * y) * x);
}

/// Whether a number is no more than another, but for so many of `2^49` parts of
/// it.
pub open spec fn is_no_more(x: Binary64, y: Binary64, parts: nat) -> bool {
    x.size() * ROUNDING_UNIT <= y.size() * (ROUNDING_UNIT + parts)
}

proof fn lemma_no_more(x: Binary64, y: Binary64, parts: int, slack: nat)
    requires
        is_about_at_most(x.size() as int, y.size() as int, parts),
        parts <= 16 * slack,
    ensures
        is_no_more(x, y, slack),
{
    ratios::lemma_about_widened(x.size() as int, y.size() as int, parts, 16 * slack as int);
    let d = PRECISION_LIMIT as int;
    let a = x.size() as int;
    let b = y.size() as int;
    assert((d + 16 * slack) * b == 16 * (b * (ROUNDING_UNIT + slack))) by (nonlinear_arith)
        requires
            d == 16 * ROUNDING_UNIT,
    ;
}

/// Whether no price is more than `ratio` times one that comes after it.
pub open spec fn falls_by_at_most(side: Seq<(Binary64, Binary64)>, ratio: nat) -> bool {
    forall|i: int, j: int|
        0 <= i <= j < side.len() ==> (#[trigger] side[i]).0.size() <= ratio * (
        #[trigger] side[j]).0.size()
}

/// Whether the totals of an order and its average price are ordinary numbers.
pub open spec fn has_ordinary_totals(outcome: impact::MarketImpact) -> bool {
    &&& is_ordinary(outcome.total_qty_filled)
    &&& is_ordinary(outcome.total_notional)
    &&& is_ordinary(outcome.avg_fill_price)
}

/// The prices that an order meets, in units: those of asks rise, those of bids
/// fall.
proof fn lemma_prices_in_order(b: book::BookSides, is_buy: bool, i: int, j: int)
    requires
        replay::is_sound(b),
        impact::has_plain_levels(impact::opposite_side(b, is_buy)),
        0 <= i <= j < impact::opposite_side(b, is_buy).len(),
    ensures
        is_buy ==> impact::opposite_side(b, is_buy)[i].0.size() <= impact::opposite_side(
            b,
            is_buy,
        )[j].0.size(),
        !is_buy ==> impact::opposite_side(b, is_buy)[i].0.size() >= impact::opposite_side(
            b,
            is_buy,
        )[j].0.size(),
{
    let side = impact::opposite_side(b, is_buy);
    assert(impact::is_plain_level(side[i]) && impact::is_plain_level(side[j]));
    if i < j {
        if is_buy {
            assert(b.asks[i].0.order_key() < b.asks[j].0.order_key());
            precision::lemma_size_ordered(side[i].0, side[j].0);
        } else {
            let n = b.bids.len();
            assert(side[i] == b.bids[n - 1 - i]);
            assert(side[j] == b.bids[n - 1 - j]);
            assert(b.bids[n - 1 - j].0.order_key() < b.bids[n - 1 - i].0.order_key());
            precision::lemma_size_ordered(side[j].0, side[i].0);
        }
    }
}

/// Whether the prices of a side are in order, from the best to the worst.
spec fn is_in_order(side: Seq<(Binary64, Binary64)>, rising: bool) -> bool {
    forall|i: int, j: int|
        0 <= i <= j < side.len() ==> if rising {
            (#[trigger] side[i]).0.size() <= (#[trigger] side[j]).0.size()
        } else {
            side[i].0.size() >= side[j].0.size()
        }
}

/// Two orders on the same side, of which the smaller one is filled.
proof fn lemma_orders_on_a_side(
    side: Seq<(Binary64, Binary64)>,
    k: nat,
    small: Binary64,
    large: Binary64,
    ratio: nat,
    rising: bool,
)
    requires
        is_pair(side, k, small, large, ratio),
        is_in_order(side, rising),
    ensures
        ({
            let a = state_at(side, side.len(), small);
            let c = state_at(side, side.len(), large);
            let x = a.notional.size() * c.qty.size();
            let y = c.notional.size() * a.qty.size();
            &&& is_about_at_most(
                a.qty.size() as int,
                c.qty.size() as int,
                6 * ratio as int + 15,
            )
            &&& rising ==> is_about_at_most(x as int, y as int, 15 * side.len() as int + 9)
            &&& !rising ==> is_about_at_most(
                y as int,
                x as int,
                15 * side.len() as int + 6 * ratio + 6,
            )
        }),
{
    reveal(pays_no_less);
    reveal(pays_no_more);
    let a = state_at(side, side.len(), small);
    let c = state_at(side, side.len(), large);
    let an = a.notional.size();
    let aq = a.qty.size();
    let cn = c.notional.size();
    let cq = c.qty.size();
    lemma_pair_quantity(side, k, small, large, ratio);
    assert(aq * cn == cn * aq) by (nonlinear_arith);
    if rising {
        lemma_pair_of_buyers(side, k, small, large, ratio);
    } else {
        lemma_pair_of_sellers(side, k, small, large, ratio);
    }
}

/// The average price of an order.
pub(crate) proof fn lemma_average(f: Fill, mid: Binary64)
    requires
        is_ordinary(f.qty),
    ensures
        impact::impact_of(f, mid).avg_fill_price == Binary64::quotient(f.notional, f.qty),
{
}

/// What is said of the totals of two orders holds of their average prices.
proof fn lemma_averages_compared(a: Fill, c: Fill, slack: nat, parts: int, rising: bool)
    requires
        is_amount(a.notional),
        is_amount(c.notional),
        is_ordinary(a.qty),
        is_ordinary(c.qty),
        is_ordinary(Binary64::quotient(a.notional, a.qty)),
        is_ordinary(Binary64::quotient(c.notional, c.qty)),
        parts >= 0,
        2 * parts + 6 <= PRECISION_LIMIT,
        parts + 6 <= 16 * slack,
        rising ==> is_about_at_most(
            (a.notional.size() * c.qty.size()) as int,
            (c.notional.size() * a.qty.size()) as int,
            parts,
        ),
        !rising ==> is_about_at_most(
            (c.notional.size() * a.qty.size()) as int,
            (a.notional.size() * c.qty.size()) as int,
            parts,
        ),
    ensures
        ({
            let x = Binary64::quotient(a.notional, a.qty);
            let y = Binary64::quotient(c.notional, c.qty);
            &&& rising ==> is_no_more(x, y, slack)
            &&& !rising ==> is_no_more(y, x, slack)
        }),
{
    let x = Binary64::quotient(a.notional, a.qty);
    let y = Binary64::quotient(c.notional, c.qty);
    if rising {
        lemma_quotients_compared(a.notional, a.qty, c.notional, c.qty, parts);
        lemma_no_more(x, y, parts + 6, slack);
    } else {
        lemma_quotients_compared(c.notional, c.qty, a.notional, a.qty, parts);
        lemma_no_more(y, x, parts + 6, slack);
    }
}

/// Up to rounding, a larger order on the same book takes no less, and its
/// average price is no better: not lower when it buys, not higher when it
/// sells.  Where no bid is more than `ratio` times a worse one, no more than one
/// part in `2^49` is lost for each level, and `ratio + 1` parts in all besides.
pub proof fn lemma_larger_order_gets_no_better_price(
    b: book::BookSides,
    is_buy: bool,
    mid: Binary64,
    small: Binary64,
    large: Binary64,
    ratio: nat,
)
    requires
        replay::is_sound(b),
        is_amount(small) && !small.zero(),
        is_amount(large),
        small.magnitude() <= large.magnitude(),
        impact::has_plain_levels(impact::opposite_side(b, is_buy)),
        has_ordinary_worths(impact::opposite_side(b, is_buy)),
        has_ordinary_totals(impact::estimated_impact(b, small, is_buy, mid)),
        has_ordinary_totals(impact::estimated_impact(b, large, is_buy, mid)),
        ratio >= 1,
        is_buy || falls_by_at_most(impact::opposite_side(b, is_buy), ratio),
        impact::opposite_side(b, is_buy).len() + ratio <= COMPARISON_LIMIT,
    ensures
        ({
            let x = impact::estimated_impact(b, small, is_buy, mid);
            let y = impact::estimated_impact(b, large, is_buy, mid);
            let slack = impact::opposite_side(b, is_buy).len() + ratio + 1;
            &&& is_no_more(x.total_qty_filled, y.total_qty_filled, slack)
            &&& is_buy ==> is_no_more(x.avg_fill_price, y.avg_fill_price, slack)
            &&& !is_buy ==> is_no_more(y.avg_fill_price, x.avg_fill_price, slack)
        }),
{
    let side = impact::opposite_side(b, is_buy);
    let n = side.len();
    let a = impact::filled_by(side, n, small);
    let c = impact::filled_by(side, n, large);
    let slack = n + ratio + 1;
    lemma_more_than_nothing(small);
    lemma_more_than_nothing(large);
    lemma_totals(a, mid);
    lemma_totals(c, mid);
    lemma_average(a, mid);
    lemma_average(c, mid);
    impact::lemma_orders_compared(side, n, small, large);
    if !a.complete {
        lemma_about_itself(a.qty, slack);
        lemma_about_itself(impact::impact_of(a, mid).avg_fill_price, slack);
    } else {
        assert(state_at(side, n, small).complete) by {
            reveal(state_at);
        }
        let k = lemma_filling_level(side, n, small);
        assert(is_in_order(side, is_buy)) by {
            assert forall|i: int, j: int| 0 <= i <= j < side.len() implies if is_buy {
                (#[trigger] side[i]).0.size() <= (#[trigger] side[j]).0.size()
            } else {
                side[i].0.size() >= side[j].0.size()
            } by {
                lemma_prices_in_order(b, is_buy, i, j);
            }
        }
        assert forall|i: int| 0 <= i < k implies (#[trigger] side[i]).0.size() <= ratio
            * side[k as int].0.size() by {
            let p = side[k as int].0.size();
            let x = side[i].0.size();
            assert(is_buy ==> x <= p);
            assert(p <= ratio * p) by (nonlinear_arith)
                requires
                    ratio >= 1,
                    p >= 0,
            ;
        }
        reveal(has_worths);
        reveal(state_at);
        assert(is_pair(side, k, small, large, ratio));
        lemma_orders_on_a_side(side, k, small, large, ratio, is_buy);
        lemma_no_more(a.qty, c.qty, 6 * ratio as int + 15, slack);
        let parts: int = if is_buy {
            15 * n as int + 9
        } else {
            15 * n as int + 6 * ratio + 6
        };
        lemma_averages_compared(a, c, slack, parts, is_buy);
    }
}

/// An amount other than zero is more than nothing.
pub(crate) proof fn lemma_more_than_nothing(wanted: Binary64)
    requires
        is_amount(wanted),
        !wanted.zero(),
    ensures
        !Binary64::at_most(wanted, book::nothing()),
{
}

/// The totals of an order.
pub(crate) proof fn lemma_totals(f: Fill, mid: Binary64)
    ensures
        impact::impact_of(f, mid).total_qty_filled == f.qty,
        impact::impact_of(f, mid).total_notional == f.notional,
{
}

proof fn lemma_about_itself(x: Binary64, slack: nat)
    ensures
        is_no_more(x, x, slack),
{
    let v = x.size();
    assert(v * ROUNDING_UNIT <= v * (ROUNDING_UNIT + slack)) by (nonlinear_arith)
        requires
            v >= 0,
            slack >= 0,
    ;
}

} // verus!
