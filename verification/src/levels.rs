//! One side of an order book: quantities by price, in ascending price order.

use crate::binary64::Binary64;
use vstd::prelude::*;

verus! {

/// Whether prices strictly ascend, so that none occurs twice.
pub open spec fn ascending(s: Seq<(Binary64, Binary64)>) -> bool {
    forall|i: int, j: int|
        0 <= i < j < s.len() ==> (#[trigger] s[i]).0.order_key() < (#[trigger] s[j]).0.order_key()
}

/// The number of levels at the front whose price is below `key`.
pub open spec fn slot(s: Seq<(Binary64, Binary64)>, key: int) -> int
    decreases s.len(),
{
    if s.len() == 0 {
        0
    } else if s.last().0.order_key() < key {
        s.len() as int
    } else {
        slot(s.drop_last(), key)
    }
}

/// Whether there is a level at `price`.
pub open spec fn holds(s: Seq<(Binary64, Binary64)>, price: Binary64) -> bool {
    level_at(s, price.order_key()) is Some
}

/// The level whose price has the given key, where there is one.
pub open spec fn level_at(s: Seq<(Binary64, Binary64)>, key: int) -> Option<
    (Binary64, Binary64),
> {
    let i = slot(s, key);
    if i < s.len() && s[i].0.order_key() == key {
        Some(s[i])
    } else {
        None
    }
}

/// The quantity at `price`, where there is one.
pub open spec fn quantity_at(s: Seq<(Binary64, Binary64)>, price: Binary64) -> Option<Binary64> {
    match level_at(s, price.order_key()) {
        Some(level) => Some(level.1),
        None => None,
    }
}

/// The levels after the quantity at `price` was set.  A level that exists
/// keeps the price it was made with.
pub open spec fn with_level(
    s: Seq<(Binary64, Binary64)>,
    price: Binary64,
    qty: Binary64,
) -> Seq<(Binary64, Binary64)> {
    let i = slot(s, price.order_key());
    if holds(s, price) {
        s.update(i, (s[i].0, qty))
    } else {
        s.insert(i, (price, qty))
    }
}

/// The levels after the one at `price`, if there was one, was taken out.
pub open spec fn without_level(s: Seq<(Binary64, Binary64)>, price: Binary64) -> Seq<
    (Binary64, Binary64),
> {
    if holds(s, price) {
        s.remove(slot(s, price.order_key()))
    } else {
        s
    }
}

/// Where the levels ascend, the slot splits them into those below the key and
/// the rest.
pub proof fn lemma_slot(s: Seq<(Binary64, Binary64)>, key: int)
    requires
        ascending(s),
    ensures
        0 <= slot(s, key) <= s.len(),
        forall|i: int| 0 <= i < slot(s, key) ==> (#[trigger] s[i]).0.order_key() < key,
        forall|i: int| slot(s, key) <= i < s.len() ==> (#[trigger] s[i]).0.order_key() >= key,
    decreases s.len(),
{
    if s.len() > 0 {
        if s.last().0.order_key() >= key {
            let front = s.drop_last();
            lemma_slot(front, key);
            assert forall|i: int| 0 <= i < slot(s, key) implies (#[trigger] s[i]).0.order_key()
                < key by {
                assert(front[i] == s[i]);
            }
            assert forall|i: int| slot(s, key) <= i < s.len() implies (
            #[trigger] s[i]).0.order_key() >= key by {
                if i < s.len() - 1 {
                    assert(front[i] == s[i]);
                }
            }
        } else {
            assert forall|i: int| 0 <= i < s.len() implies (#[trigger] s[i]).0.order_key() < key by {
                if i < s.len() - 1 {
                    assert(s[i].0.order_key() < s[s.len() - 1].0.order_key());
                }
            }
        }
    }
}

/// A position that splits the levels as [`slot`] does is the slot.
pub proof fn lemma_slot_unique(s: Seq<(Binary64, Binary64)>, key: int, at: int)
    requires
        ascending(s),
        0 <= at <= s.len(),
        forall|i: int| 0 <= i < at ==> (#[trigger] s[i]).0.order_key() < key,
        forall|i: int| at <= i < s.len() ==> (#[trigger] s[i]).0.order_key() >= key,
    ensures
        slot(s, key) == at,
{
    lemma_slot(s, key);
    let own = slot(s, key);
    if own < at {
        assert(s[own].0.order_key() >= key);
    } else if at < own {
        assert(s[at].0.order_key() >= key);
    }
}

/// A level is found by the key of its price.
pub proof fn lemma_level_found(s: Seq<(Binary64, Binary64)>, at: int)
    requires
        ascending(s),
        0 <= at < s.len(),
    ensures
        slot(s, s[at].0.order_key()) == at,
        level_at(s, s[at].0.order_key()) == Some(s[at]),
{
    let key = s[at].0.order_key();
    assert forall|i: int| 0 <= i < at implies (#[trigger] s[i]).0.order_key() < key by {
        assert(s[i].0.order_key() < s[at].0.order_key());
    }
    assert forall|i: int| at <= i < s.len() implies (#[trigger] s[i]).0.order_key() >= key by {
        if at < i {
            assert(s[at].0.order_key() < s[i].0.order_key());
        }
    }
    lemma_slot_unique(s, key, at);
}

/// Ascending levels that agree at every key are the same.
pub proof fn lemma_levels_determined(
    s: Seq<(Binary64, Binary64)>,
    t: Seq<(Binary64, Binary64)>,
)
    requires
        ascending(s),
        ascending(t),
        forall|key: int| #[trigger] level_at(s, key) == level_at(t, key),
    ensures
        s == t,
    decreases s.len(),
{
    if s.len() == 0 || t.len() == 0 {
        if s.len() > 0 {
            lemma_level_found(s, 0);
            assert(level_at(t, s[0].0.order_key()) is None);
        }
        if t.len() > 0 {
            lemma_level_found(t, 0);
            assert(level_at(s, t[0].0.order_key()) is None);
        }
        assert(s =~= t);
    } else {
        let a = s.last().0.order_key();
        let b = t.last().0.order_key();
        lemma_level_found(s, s.len() - 1);
        lemma_level_found(t, t.len() - 1);
        assert(level_at(s, a) == level_at(t, a));
        assert(level_at(s, b) == level_at(t, b));
        lemma_slot(t, a);
        lemma_slot(s, b);
        assert(a == b);
        let x = s.drop_last();
        let y = t.drop_last();
        assert forall|key: int| #[trigger] level_at(x, key) == level_at(y, key) by {
            lemma_without_last(s, key);
            lemma_without_last(t, key);
            assert(level_at(s, key) == level_at(t, key));
        }
        lemma_levels_determined(x, y);
        assert(s =~= x.push(s.last()));
        assert(t =~= y.push(t.last()));
    }
}

proof fn lemma_without_last(s: Seq<(Binary64, Binary64)>, key: int)
    requires
        ascending(s),
        s.len() > 0,
    ensures
        ascending(s.drop_last()),
        level_at(s.drop_last(), key) == if key == s.last().0.order_key() {
            None
        } else {
            level_at(s, key)
        },
{
    let x = s.drop_last();
    assert(ascending(x));
    lemma_slot(x, key);
    lemma_slot(s, key);
    if level_at(x, key) is Some {
        let i = slot(x, key);
        lemma_level_found(s, i);
        assert(s[i].0.order_key() < s[s.len() - 1].0.order_key());
    } else if level_at(s, key) is Some {
        let i = slot(s, key);
        if i < s.len() - 1 {
            lemma_level_found(x, i);
        }
    }
}

/// Setting a quantity keeps the order.
proof fn lemma_with_level_order(s: Seq<(Binary64, Binary64)>, price: Binary64, qty: Binary64)
    requires
        ascending(s),
    ensures
        ascending(with_level(s, price, qty)),
{
    let key = price.order_key();
    let at = slot(s, key);
    lemma_slot(s, key);
    let t = with_level(s, price, qty);
    if holds(s, price) {
        assert forall|i: int, j: int| 0 <= i < j < t.len() implies (
        #[trigger] t[i]).0.order_key() < (#[trigger] t[j]).0.order_key() by {
            assert(s[i].0.order_key() < s[j].0.order_key());
        }
    } else {
        assert forall|i: int, j: int| 0 <= i < j < t.len() implies (
        #[trigger] t[i]).0.order_key() < (#[trigger] t[j]).0.order_key() by {
            let x = if i < at {
                i
            } else {
                i - 1
            };
            let y = if j < at {
                j
            } else {
                j - 1
            };
            if i == at {
                assert(t[i] == (price, qty) && t[j] == s[y]);
                if y > at {
                    assert(s[at].0.order_key() < s[y].0.order_key());
                }
            } else if j == at {
                assert(t[j] == (price, qty) && t[i] == s[x]);
            } else {
                assert(t[i] == s[x] && t[j] == s[y]);
            }
        }
    }
}

/// Setting a quantity keeps the order, gives the quantity back at its price,
/// and leaves every other price as it was.
pub proof fn lemma_with_level(
    s: Seq<(Binary64, Binary64)>,
    price: Binary64,
    qty: Binary64,
    key: int,
)
    requires
        ascending(s),
    ensures
        ascending(with_level(s, price, qty)),
        level_at(with_level(s, price, qty), key) == if key == price.order_key() {
            match level_at(s, key) {
                Some(level) => Some((level.0, qty)),
                None => Some((price, qty)),
            }
        } else {
            level_at(s, key)
        },
{
    lemma_with_level_order(s, price, qty);
    let at = slot(s, price.order_key());
    lemma_slot(s, price.order_key());
    let t = with_level(s, price, qty);
    let grown = !holds(s, price);
    assert(t[at].0.order_key() == price.order_key() && t[at].1 == qty);
    lemma_level_found(t, at);
    if key != price.order_key() {
        lemma_slot(s, key);
        if level_at(s, key) is Some {
            let o = slot(s, key);
            let moved = if grown && o >= at {
                o + 1
            } else {
                o
            };
            assert(t[moved] == s[o]);
            lemma_level_found(t, moved);
        } else if level_at(t, key) is Some {
            let u = slot(t, key);
            lemma_slot(t, key);
            let origin = if grown && u > at {
                u - 1
            } else {
                u
            };
            assert(t[u] == s[origin]);
            lemma_level_found(s, origin);
        }
    }
}

/// Taking a level out keeps the order and leaves nothing at its price.
proof fn lemma_without_level_order(s: Seq<(Binary64, Binary64)>, price: Binary64)
    requires
        ascending(s),
    ensures
        ascending(without_level(s, price)),
        !holds(without_level(s, price), price),
{
    let key = price.order_key();
    let at = slot(s, key);
    lemma_slot(s, key);
    let t = without_level(s, price);
    if holds(s, price) {
        assert forall|i: int, j: int| 0 <= i < j < t.len() implies (
        #[trigger] t[i]).0.order_key() < (#[trigger] t[j]).0.order_key() by {
            let x = if i < at {
                i
            } else {
                i + 1
            };
            let y = if j < at {
                j
            } else {
                j + 1
            };
            assert(t[i] == s[x] && t[j] == s[y]);
        }
        assert forall|i: int| at <= i < t.len() implies (#[trigger] t[i]).0.order_key() > key by {
            assert(t[i] == s[i + 1]);
            assert(s[at].0.order_key() < s[i + 1].0.order_key());
        }
        assert forall|i: int| 0 <= i < at implies (#[trigger] t[i]).0.order_key() < key by {
            assert(t[i] == s[i]);
        }
        lemma_slot_unique(t, key, at);
    }
}

/// Taking a level out keeps the order, leaves nothing at its price, and leaves
/// every other price as it was.
pub proof fn lemma_without_level(s: Seq<(Binary64, Binary64)>, price: Binary64, key: int)
    requires
        ascending(s),
    ensures
        ascending(without_level(s, price)),
        level_at(without_level(s, price), key) == if key == price.order_key() {
            None
        } else {
            level_at(s, key)
        },
{
    lemma_without_level_order(s, price);
    let at = slot(s, price.order_key());
    lemma_slot(s, price.order_key());
    let t = without_level(s, price);
    if holds(s, price) && key != price.order_key() {
        lemma_slot(s, key);
        if level_at(s, key) is Some {
            let o = slot(s, key);
            let moved = if o > at {
                o - 1
            } else {
                o
            };
            assert(t[moved] == s[o]);
            lemma_level_found(t, moved);
        } else if level_at(t, key) is Some {
            let u = slot(t, key);
            lemma_slot(t, key);
            let origin = if u < at {
                u
            } else {
                u + 1
            };
            assert(t[u] == s[origin]);
            lemma_level_found(s, origin);
        }
    }
}

/// One side of an order book.
#[derive(Debug)]
pub struct PriceLevels {
    levels: Vec<(Binary64, Binary64)>,
}

impl View for PriceLevels {
    type V = Seq<(Binary64, Binary64)>;

    closed spec fn view(&self) -> Seq<(Binary64, Binary64)> {
        self.levels@
    }
}

impl Clone for PriceLevels {
    fn clone(&self) -> (copy: PriceLevels)
        ensures
            copy@ == self@,
    {
        PriceLevels { levels: self.to_vec() }
    }
}

impl PriceLevels {
    #[verifier::type_invariant]
    spec fn well_formed(self) -> bool {
        ascending(self.levels@)
    }

    /// A side without levels.
    pub fn new() -> (side: PriceLevels)
        ensures
            side@ == Seq::<(Binary64, Binary64)>::empty(),
    {
        PriceLevels { levels: Vec::new() }
    }

    /// The number of levels.
    pub fn len(&self) -> (n: usize)
        ensures
            n == self@.len(),
            ascending(self@),
    {
        proof {
            use_type_invariant(self);
        }
        self.levels.len()
    }

    pub fn is_empty(&self) -> (b: bool)
        ensures
            b == (self@.len() == 0),
    {
        self.levels.len() == 0
    }

    /// The level at a position, counted from the lowest price.
    pub fn at(&self, i: usize) -> (level: (Binary64, Binary64))
        requires
            i < self@.len(),
        ensures
            level == self@[i as int],
    {
        self.levels[i]
    }

    /// The levels from the lowest price up.
    pub fn to_vec(&self) -> (levels: Vec<(Binary64, Binary64)>)
        ensures
            levels@ == self@,
            ascending(levels@),
    {
        proof {
            use_type_invariant(self);
        }
        let mut levels: Vec<(Binary64, Binary64)> = Vec::new();
        let mut i: usize = 0;
        while i < self.levels.len()
            invariant
                i <= self.levels@.len(),
                levels@ == self.levels@.take(i as int),
            decreases self.levels@.len() - i,
        {
            levels.push(self.levels[i]);
            i = i + 1;
            assert(levels@ =~= self.levels@.take(i as int));
        }
        assert(levels@ =~= self.levels@);
        levels
    }

    fn locate(levels: &Vec<(Binary64, Binary64)>, key: i64) -> (i: usize)
        requires
            ascending(levels@),
        ensures
            i == slot(levels@, key as int),
            i <= levels@.len(),
    {
        let mut low: usize = 0;
        let mut high: usize = levels.len();
        while low < high
            invariant
                low <= high <= levels@.len(),
                ascending(levels@),
                forall|i: int| 0 <= i < low ==> (#[trigger] levels@[i]).0.order_key() < key,
                forall|i: int|
                    high <= i < levels@.len() ==> (#[trigger] levels@[i]).0.order_key() >= key,
            decreases high - low,
        {
            let mid: usize = low + (high - low) / 2;
            if levels[mid].0.key() < key {
                assert forall|i: int| 0 <= i < mid + 1 implies (
                #[trigger] levels@[i]).0.order_key() < key by {
                    if i < mid {
                        assert(levels@[i].0.order_key() < levels@[mid as int].0.order_key());
                    }
                }
                low = mid + 1;
            } else {
                assert forall|i: int| mid <= i < levels@.len() implies (
                #[trigger] levels@[i]).0.order_key() >= key by {
                    if mid < i {
                        assert(levels@[mid as int].0.order_key() < levels@[i].0.order_key());
                    }
                }
                high = mid;
            }
        }
        proof {
            lemma_slot_unique(levels@, key as int, low as int);
        }
        low
    }

    /// The quantity at a price.
    pub fn get(&self, price: Binary64) -> (qty: Option<Binary64>)
        ensures
            qty == quantity_at(self@, price),
    {
        proof {
            use_type_invariant(self);
        }
        let key = price.key();
        let i = PriceLevels::locate(&self.levels, key);
        if i < self.levels.len() && self.levels[i].0.key() == key {
            Some(self.levels[i].1)
        } else {
            None
        }
    }

    /// Sets the quantity at a price.
    pub fn insert(&mut self, price: Binary64, qty: Binary64)
        ensures
            final(self)@ == with_level(old(self)@, price, qty),
            ascending(final(self)@),
    {
        proof {
            use_type_invariant(&*self);
            lemma_with_level(self.levels@, price, qty, price.order_key());
        }
        let mut levels: Vec<(Binary64, Binary64)> = Vec::new();
        std::mem::swap(&mut self.levels, &mut levels);
        let key = price.key();
        let i = PriceLevels::locate(&levels, key);
        if i < levels.len() && levels[i].0.key() == key {
            let kept = levels[i].0;
            levels.set(i, (kept, qty));
        } else {
            levels.insert(i, (price, qty));
        }
        self.levels = levels;
    }

    /// Takes out the level at a price, if there is one.
    pub fn remove(&mut self, price: Binary64)
        ensures
            final(self)@ == without_level(old(self)@, price),
            ascending(final(self)@),
    {
        proof {
            use_type_invariant(&*self);
            lemma_without_level(self.levels@, price, price.order_key());
        }
        let mut levels: Vec<(Binary64, Binary64)> = Vec::new();
        std::mem::swap(&mut self.levels, &mut levels);
        let key = price.key();
        let i = PriceLevels::locate(&levels, key);
        if i < levels.len() && levels[i].0.key() == key {
            levels.remove(i);
        }
        self.levels = levels;
    }

    /// Takes out every level.
    pub fn clear(&mut self)
        ensures
            final(self)@ == Seq::<(Binary64, Binary64)>::empty(),
    {
        self.levels = Vec::new();
    }

    /// The level with the lowest price.
    pub fn first(&self) -> (level: Option<(Binary64, Binary64)>)
        ensures
            level == if self@.len() > 0 {
                Some(self@[0])
            } else {
                None
            },
            ascending(self@),
    {
        if self.len() > 0 {
            Some(self.levels[0])
        } else {
            None
        }
    }

    /// The level with the highest price.
    pub fn last(&self) -> (level: Option<(Binary64, Binary64)>)
        ensures
            level == if self@.len() > 0 {
                Some(self@[self@.len() - 1])
            } else {
                None
            },
            ascending(self@),
    {
        if self.len() > 0 {
            Some(self.levels[self.levels.len() - 1])
        } else {
            None
        }
    }

    /// Keeps the levels from position `from` up to position `to`.
    pub fn keep(&mut self, from: usize, to: usize)
        requires
            from <= to <= old(self)@.len(),
        ensures
            final(self)@ == old(self)@.subrange(from as int, to as int),
    {
        proof {
            use_type_invariant(&*self);
        }
        let ghost before = self.levels@;
        let mut kept: Vec<(Binary64, Binary64)> = Vec::new();
        let mut i: usize = from;
        while i < to
            invariant
                from <= i <= to <= before.len(),
                self.levels@ == before,
                kept@ == before.subrange(from as int, i as int),
            decreases to - i,
        {
            kept.push(self.levels[i]);
            i = i + 1;
            assert(kept@ =~= before.subrange(from as int, i as int));
        }
        assert(ascending(kept@)) by {
            assert forall|x: int, y: int| 0 <= x < y < kept@.len() implies (
            #[trigger] kept@[x]).0.order_key() < (#[trigger] kept@[y]).0.order_key() by {
                assert(kept@[x] == before[from + x] && kept@[y] == before[from + y]);
            }
        }
        self.levels = kept;
    }
}

/// The level of a price is the one of the list that has it.
pub proof fn lemma_level_at(s: Seq<(Binary64, Binary64)>, key: int)
    requires
        ascending(s),
    ensures
        forall|i: int|
            0 <= i < s.len() && (#[trigger] s[i]).0.order_key() == key ==> level_at(s, key) == Some(
                s[i],
            ),
        level_at(s, key) matches Some(level) ==> level.0.order_key() == key && s.contains(level),
        (forall|i: int| 0 <= i < s.len() ==> (#[trigger] s[i]).0.order_key() != key) ==> level_at(
            s,
            key,
        ) is None,
{
    lemma_slot(s, key);
    assert forall|i: int| 0 <= i < s.len() && (#[trigger] s[i]).0.order_key() == key implies level_at(
        s,
        key,
    ) == Some(s[i]) by {
        lemma_level_found(s, i);
    }
    if level_at(s, key) is Some {
        assert(s[slot(s, key)].0.order_key() == key);
    }
}

} // verus!
