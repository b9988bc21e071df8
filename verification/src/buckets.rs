//! Levels gathered into price buckets of one width.

use crate::binary64::Binary64;
use crate::decimal;
use crate::levels::PriceLevels;
use crate::precision;
use crate::rounding::PRECISION_LIMIT;
use vstd::prelude::*;

verus! {

/// The number of buckets that are shown of a side.
pub const DEPTH_LEVELS: usize = 10;

/// The most decimal places that the start of a bucket is shown with.
pub const MAX_PLACES: usize = 8;

/// The bucket of a price: how many whole widths lie below it.
pub open spec fn bucket_of(price: Binary64, width: Binary64) -> int {
    Binary64::floor_signed(Binary64::quotient(price, width))
}

/// The price at which a bucket starts: its number times the width.  The bucket
/// of number zero starts at zero, also where the width is no finite number.
pub open spec fn bucket_start(bucket: int, width: Binary64) -> Binary64 {
    if bucket == 0 {
        Binary64 { bits: 0 }
    } else {
        Binary64::product(Binary64::of_signed(bucket), width)
    }
}

/// A quantity added to what a bucket holds.
pub open spec fn with_quantity(
    totals: Map<int, Binary64>,
    bucket: int,
    qty: Binary64,
) -> Map<int, Binary64> {
    totals.insert(
        bucket,
        Binary64::sum(
            if totals.contains_key(bucket) {
                totals[bucket]
            } else {
                Binary64 { bits: 0 }
            },
            qty,
        ),
    )
}

/// The quantity of each bucket, summed up in the order of the levels.
pub open spec fn bucket_totals(levels: Seq<(Binary64, Binary64)>, width: Binary64) -> Map<
    int,
    Binary64,
>
    decreases levels.len(),
{
    if levels.len() == 0 {
        Map::empty()
    } else {
        with_quantity(
            bucket_totals(levels.drop_last(), width),
            bucket_of(levels.last().0, width),
            levels.last().1,
        )
    }
}

/// Whether a list holds the buckets of a map in ascending order.
pub open spec fn lists(list: Seq<(i64, Binary64)>, totals: Map<int, Binary64>) -> bool {
    &&& forall|i: int, j: int|
        0 <= i < j < list.len() ==> (#[trigger] list[i]).0 < (#[trigger] list[j]).0
    &&& forall|i: int|
        0 <= i < list.len() ==> totals.contains_key((#[trigger] list[i]).0 as int)
            && totals[list[i].0 as int] == list[i].1
    &&& forall|k: int| #[trigger]
        totals.contains_key(k) ==> exists|i: int| 0 <= i < list.len() && (#[trigger] list[i]).0 == k
}

/// Only one list holds the buckets of a map in order.
pub proof fn lemma_listing_is_unique(
    x: Seq<(i64, Binary64)>,
    y: Seq<(i64, Binary64)>,
    totals: Map<int, Binary64>,
)
    requires
        lists(x, totals),
        lists(y, totals),
    ensures
        x == y,
    decreases x.len(),
{
    if x.len() > 0 {
        let k = x.last().0;
        assert(x[x.len() - 1].0 == k);
        assert(totals.contains_key(k as int));
        let j = choose|j: int| 0 <= j < y.len() && (#[trigger] y[j]).0 == k as int;
        if j < y.len() - 1 {
            let top = y.last().0;
            assert(y[j].0 < y[y.len() - 1].0);
            assert(totals.contains_key(top as int));
            let i = choose|i: int| 0 <= i < x.len() && (#[trigger] x[i]).0 == top as int;
            assert(x[i].0 <= x[x.len() - 1].0);
        }
        assert(x.last() == y.last());
        let rest = totals.remove(k as int);
        lemma_listing_without_last(x, totals);
        lemma_listing_without_last(y, totals);
        lemma_listing_is_unique(x.drop_last(), y.drop_last(), rest);
        assert(x =~= x.drop_last().push(x.last()));
        assert(y =~= y.drop_last().push(y.last()));
    } else if y.len() > 0 {
        assert(totals.contains_key(y[0].0 as int));
    } else {
        assert(x =~= y);
    }
}

proof fn lemma_listing_without_last(x: Seq<(i64, Binary64)>, totals: Map<int, Binary64>)
    requires
        x.len() > 0,
        lists(x, totals),
    ensures
        lists(x.drop_last(), totals.remove(x.last().0 as int)),
{
    let front = x.drop_last();
    let rest = totals.remove(x.last().0 as int);
    assert forall|i: int| 0 <= i < front.len() implies rest.contains_key(
        (#[trigger] front[i]).0 as int,
    ) && rest[front[i].0 as int] == front[i].1 by {
        assert(x[i].0 < x[x.len() - 1].0);
    }
    assert forall|k: int| #[trigger] rest.contains_key(k) implies exists|i: int|
        0 <= i < front.len() && (#[trigger] front[i]).0 == k by {
        assert(totals.contains_key(k));
        let i = choose|i: int| 0 <= i < x.len() && (#[trigger] x[i]).0 == k;
        assert(front[i].0 == k);
    }
}

fn add_quantity(list: &mut Vec<(i64, Binary64)>, bucket: i64, qty: Binary64, Ghost(totals): Ghost<
    Map<int, Binary64>,
>)
    requires
        lists(old(list)@, totals),
    ensures
        lists(final(list)@, with_quantity(totals, bucket as int, qty)),
{
    let ghost before = list@;
    let mut i: usize = list.len();
    while i > 0 && list[i - 1].0 >= bucket
        invariant
            i <= list@.len(),
            list@ == before,
            lists(before, totals),
            forall|j: int| i <= j < list@.len() ==> (#[trigger] list@[j]).0 >= bucket,
        decreases i,
    {
        i = i - 1;
    }
    let ghost after = with_quantity(totals, bucket as int, qty);
    if i < list.len() && list[i].0 == bucket {
        assert(totals.contains_key(before[i as int].0 as int));
        let held = list[i].1;
        list.set(i, (bucket, held.plus(qty)));
        proof {
            lemma_replaced(before, list@, i as int, totals, after);
        }
    } else {
        proof {
            if totals.contains_key(bucket as int) {
                let j = choose|j: int|
                    0 <= j < before.len() && (#[trigger] before[j]).0 == bucket as int;
                if j > i {
                    assert(before[i as int].0 < before[j].0);
                }
                if j < i - 1 {
                    assert(before[j].0 < before[i - 1].0);
                }
            }
        }
        list.insert(i, (bucket, Binary64::from_bits(0).plus(qty)));
        proof {
            lemma_inserted(before, list@, i as int, totals, after);
        }
    }
}

proof fn lemma_replaced(
    before: Seq<(i64, Binary64)>,
    list: Seq<(i64, Binary64)>,
    at: int,
    totals: Map<int, Binary64>,
    after: Map<int, Binary64>,
)
    requires
        lists(before, totals),
        0 <= at < before.len(),
        list.len() == before.len(),
        list[at].0 == before[at].0,
        forall|i: int| 0 <= i < before.len() && i != at ==> #[trigger] list[i] == before[i],
        after == totals.insert(before[at].0 as int, list[at].1),
    ensures
        lists(list, after),
{
    assert forall|i: int| 0 <= i < list.len() implies #[trigger] list[i].0 == before[i].0 by {}
    assert forall|i: int, j: int| 0 <= i < j < list.len() implies (#[trigger] list[i]).0 < (
    #[trigger] list[j]).0 by {
        assert(before[i].0 < before[j].0);
    }
    assert forall|i: int| 0 <= i < list.len() implies after.contains_key(
        (#[trigger] list[i]).0 as int,
    ) && after[list[i].0 as int] == list[i].1 by {
        assert(before[i].0 == list[i].0);
        assert(totals.contains_key(before[i].0 as int));
        if i < at {
            assert(before[i].0 < before[at].0);
        } else if i > at {
            assert(before[at].0 < before[i].0);
        }
    }
    assert forall|k: int| #[trigger] after.contains_key(k) implies exists|i: int|
        0 <= i < list.len() && (#[trigger] list[i]).0 == k by {
        if totals.contains_key(k) {
            let i = choose|i: int| 0 <= i < before.len() && (#[trigger] before[i]).0 == k;
            assert(list[i].0 == k);
        } else {
            assert(list[at].0 == k);
        }
    }
}

proof fn lemma_inserted(
    before: Seq<(i64, Binary64)>,
    list: Seq<(i64, Binary64)>,
    at: int,
    totals: Map<int, Binary64>,
    after: Map<int, Binary64>,
)
    requires
        lists(before, totals),
        0 <= at <= before.len(),
        list == before.insert(at, list[at]),
        !totals.contains_key(list[at].0 as int),
        at > 0 ==> before[at - 1].0 < list[at].0,
        at < before.len() ==> before[at].0 > list[at].0,
        after == totals.insert(list[at].0 as int, list[at].1),
    ensures
        lists(list, after),
{
    let new = list[at].0;
    assert forall|i: int| 0 <= i < at implies (#[trigger] before[i]).0 < new by {
        if i < at - 1 {
            assert(before[i].0 < before[at - 1].0);
        }
    }
    assert forall|i: int| at <= i < before.len() implies (#[trigger] before[i]).0 > new by {
        if i > at {
            assert(before[at].0 < before[i].0);
        }
    }
    assert forall|i: int| 0 <= i < list.len() implies #[trigger] list[i] == if i < at {
        before[i]
    } else if i == at {
        list[at]
    } else {
        before[i - 1]
    } by {}
    assert forall|i: int, j: int| 0 <= i < j < list.len() implies (#[trigger] list[i]).0 < (
    #[trigger] list[j]).0 by {
        if j < at {
            assert(before[i].0 < before[j].0);
        } else if j == at {
            assert(before[i].0 < new);
        } else if i < at {
            assert(before[i].0 < before[j - 1].0);
        } else if i == at {
            assert(before[j - 1].0 > new);
        } else {
            assert(before[i - 1].0 < before[j - 1].0);
        }
    }
    assert forall|i: int| 0 <= i < list.len() implies after.contains_key(
        (#[trigger] list[i]).0 as int,
    ) && after[list[i].0 as int] == list[i].1 by {
        if i < at {
            assert(totals.contains_key(before[i].0 as int));
        } else if i > at {
            assert(totals.contains_key(before[i - 1].0 as int));
        }
    }
    assert forall|k: int| #[trigger] after.contains_key(k) implies exists|i: int|
        0 <= i < list.len() && (#[trigger] list[i]).0 == k by {
        if totals.contains_key(k) {
            let i = choose|i: int| 0 <= i < before.len() && (#[trigger] before[i]).0 == k;
            if i < at {
                assert(list[i].0 == k);
            } else {
                assert(list[i + 1].0 == k);
            }
        } else {
            assert(list[at].0 == k);
        }
    }
}

/// The buckets of a side, in ascending order, and their quantities.
pub fn gather(side: &PriceLevels, width: Binary64) -> (list: Vec<(i64, Binary64)>)
    ensures
        lists(list@, bucket_totals(side@, width)),
{
    let mut list: Vec<(i64, Binary64)> = Vec::new();
    let n = side.len();
    let mut i: usize = 0;
    assert(side@.take(0) =~= Seq::empty());
    while i < n
        invariant
            i <= n == side@.len(),
            lists(list@, bucket_totals(side@.take(i as int), width)),
        decreases n - i,
    {
        let (price, qty) = side.at(i);
        proof {
            let longer = side@.take(i + 1);
            assert(longer.drop_last() =~= side@.take(i as int));
            assert(longer.last() == side@[i as int]);
        }
        add_quantity(
            &mut list,
            price.over(width).floor_to_i64(),
            qty,
            Ghost(bucket_totals(side@.take(i as int), width)),
        );
        i = i + 1;
    }
    assert(side@.take(i as int) =~= side@);
    list
}

/// The price at which a bucket starts.
pub fn start_of(bucket: i64, width: Binary64) -> (price: Binary64)
    ensures
        price == bucket_start(bucket as int, width),
{
    if bucket == 0 {
        Binary64::from_bits(0)
    } else {
        Binary64::from_i64(bucket).times(width)
    }
}

/// The decimal places, from `places` on, that a width needs.
pub open spec fn places_from(width: Binary64, places: nat) -> nat
    decreases MAX_PLACES - places,
{
    let scaled = Binary64::product(width, Binary64::of_integer(decimal::ten_to(places)));
    if places < MAX_PLACES && scaled.finite() && scaled.fractional() {
        places_from(width, places + 1)
    } else {
        places
    }
}

/// Whether a width, times a power of ten, is a finite number that is no integer.
pub open spec fn is_broken(width: Binary64, places: nat) -> bool {
    let scaled = Binary64::product(width, Binary64::of_integer(decimal::ten_to(places)));
    scaled.finite() && scaled.size() % precision::one() != 0
}

/// The places that a width needs are the fewest that make it an integer.
proof fn lemma_places(width: Binary64, from: nat)
    requires
        from <= MAX_PLACES,
    ensures
        from <= places_from(width, from) <= 8,
        places_from(width, from) < 8 ==> !is_broken(width, places_from(width, from)),
        forall|n: nat| from <= n < places_from(width, from) ==> #[trigger] is_broken(width, n),
    decreases MAX_PLACES - from,
{
    if from < MAX_PLACES && is_broken(width, from) {
        lemma_places(width, from + 1);
    }
}

/// The decimal places that the starts of buckets are shown with: as many as
/// make the width an integer, none where it is one.
pub fn places_of(width: Binary64) -> (places: usize)
    ensures
        places == places_from(width, 0),
        places <= MAX_PLACES,
        places <= 8,
        places < 8 ==> !is_broken(width, places as nat),
        forall|n: nat| n < places ==> #[trigger] is_broken(width, n),
{
    proof {
        lemma_places(width, 0);
    }
    let mut places: usize = 0;
    let mut scale: u64 = 1;
    while places < MAX_PLACES && width.times(Binary64::from_u64(scale)).is_fractional()
        invariant
            places <= MAX_PLACES,
            scale == decimal::ten_to(places as nat),
            scale <= 100_000_000,
            places < MAX_PLACES ==> scale <= 10_000_000,
            places_from(width, places as nat) == places_from(width, 0),
        decreases MAX_PLACES - places,
    {
        proof {
            lemma_tens(places as nat);
            lemma_tens((places + 1) as nat);
        }
        scale = scale * 10;
        places = places + 1;
    }
    places
}

proof fn lemma_tens(places: nat)
    requires
        places <= MAX_PLACES,
    ensures
        decimal::ten_to(places) <= 100_000_000,
        places < MAX_PLACES ==> decimal::ten_to(places) <= 10_000_000,
{
    reveal_with_fuel(decimal::ten_to, 9);
}

/// The number of buckets that are shown.
pub open spec fn shown_count(list: Seq<(i64, Binary64)>) -> nat {
    if list.len() < DEPTH_LEVELS {
        list.len()
    } else {
        DEPTH_LEVELS as nat
    }
}

/// What is shown of a bucket: where it starts, and its quantity.
pub open spec fn row(bucket: (i64, Binary64), width: Binary64) -> (Binary64, Binary64) {
    (bucket_start(bucket.0 as int, width), bucket.1)
}

/// The buckets of highest price, highest first.
pub open spec fn top_down(list: Seq<(i64, Binary64)>, width: Binary64) -> Seq<
    (Binary64, Binary64),
> {
    Seq::new(shown_count(list), |i: int| row(list[list.len() - 1 - i], width))
}

/// The buckets of lowest price, lowest first.
pub open spec fn bottom_up(list: Seq<(i64, Binary64)>, width: Binary64) -> Seq<
    (Binary64, Binary64),
> {
    Seq::new(shown_count(list), |i: int| row(list[i], width))
}

/// The bids that are shown: the buckets of highest price, highest first.
pub fn shown_bids(side: &PriceLevels, width: Binary64) -> (shown: Vec<(Binary64, Binary64)>)
    ensures
        exists|list: Seq<(i64, Binary64)>|
            lists(list, bucket_totals(side@, width)) && shown@ == #[trigger] top_down(list, width),
{
    let list = gather(side, width);
    let n = list.len();
    let mut shown: Vec<(Binary64, Binary64)> = Vec::new();
    while shown.len() < DEPTH_LEVELS && shown.len() < n
        invariant
            n == list@.len(),
            shown@.len() <= shown_count(list@),
            forall|i: int|
                0 <= i < shown@.len() ==> #[trigger] shown@[i] == row(list@[n - 1 - i], width),
        decreases n - shown@.len(),
    {
        let (bucket, qty) = list[n - 1 - shown.len()];
        shown.push((start_of(bucket, width), qty));
    }
    assert(shown@ =~= top_down(list@, width));
    shown
}

/// The asks that are shown: the buckets of lowest price, lowest first.
pub fn shown_asks(side: &PriceLevels, width: Binary64) -> (shown: Vec<(Binary64, Binary64)>)
    ensures
        exists|list: Seq<(i64, Binary64)>|
            lists(list, bucket_totals(side@, width)) && shown@ == #[trigger] bottom_up(list, width),
{
    let list = gather(side, width);
    let n = list.len();
    let mut shown: Vec<(Binary64, Binary64)> = Vec::new();
    while shown.len() < DEPTH_LEVELS && shown.len() < n
        invariant
            n == list@.len(),
            shown@.len() <= shown_count(list@),
            forall|i: int|
                0 <= i < shown@.len() ==> #[trigger] shown@[i] == row(list@[i], width),
        decreases n - shown@.len(),
    {
        let (bucket, qty) = list[shown.len()];
        shown.push((start_of(bucket, width), qty));
    }
    assert(shown@ =~= bottom_up(list@, width));
    shown
}

/// With a width that is an integer, buckets start at its multiples.
pub proof fn lemma_integral_width(bucket: int, width: nat)
    requires
        0 < width < PRECISION_LIMIT,
        -(PRECISION_LIMIT as int) < bucket < PRECISION_LIMIT,
        -(PRECISION_LIMIT as int) < bucket * width < PRECISION_LIMIT,
    ensures
        bucket_start(bucket, Binary64::of_integer(width)) == Binary64::of_signed(bucket * width),
{
    let size: nat = if bucket < 0 {
        (-bucket) as nat
    } else {
        bucket as nat
    };
    assert(bucket == 0 ==> bucket * width == 0) by (nonlinear_arith);
    assert(bucket < 0 ==> bucket * width < 0 && -(bucket * width) == size * width)
        by (nonlinear_arith)
        requires
            width > 0,
            bucket < 0 ==> size == -bucket,
    ;
    precision::lemma_integer_encoded_zero();
    if bucket != 0 {
        precision::lemma_small_integer(size);
        precision::lemma_small_integer(width);
        precision::lemma_integer_product(size, width);
    }
}

/// The bucket of every level is counted, so that levels in different buckets
/// make different rows.
pub proof fn lemma_every_level_has_its_bucket(
    levels: Seq<(Binary64, Binary64)>,
    width: Binary64,
    i: int,
)
    requires
        0 <= i < levels.len(),
    ensures
        bucket_totals(levels, width).contains_key(bucket_of(levels[i].0, width)),
    decreases levels.len(),
{
    if i < levels.len() - 1 {
        lemma_every_level_has_its_bucket(levels.drop_last(), width, i);
    }
}

} // verus!
