//! Natural numbers of any size, as far as reading a decimal needs them.

use crate::rounding;
use vstd::arithmetic::mul::*;
use vstd::arithmetic::power2::*;
use vstd::prelude::*;

verus! {

/// The weight of the digit at position `i`.
pub open spec fn weight(i: nat) -> nat {
    pow2(32 * i)
}

/// The digit at position `i`; zero above the highest one held.
pub open spec fn limb(limbs: Seq<u32>, i: int) -> nat {
    if 0 <= i < limbs.len() {
        limbs[i] as nat
    } else {
        0
    }
}

/// The value of the digits below position `i`.
pub open spec fn low_value(limbs: Seq<u32>, i: nat) -> nat
    decreases i,
{
    if i == 0 {
        0
    } else {
        low_value(limbs, (i - 1) as nat) + limb(limbs, i - 1) * weight((i - 1) as nat)
    }
}

proof fn lemma_weight(i: nat)
    ensures
        weight(i) > 0,
        weight(i + 1) == 0x1_0000_0000 * weight(i),
        weight(0) == 1,
{
    lemma2_to64();
    lemma_pow2_pos(32 * i);
    lemma_pow2_adds(32, 32 * i);
    assert(32 * (i + 1) == 32 + 32 * i);
}

/// What the digits below a position hold is less than its weight.
proof fn lemma_low_value_bound(limbs: Seq<u32>, i: nat)
    ensures
        low_value(limbs, i) < weight(i),
    decreases i,
{
    lemma_weight(i);
    if i > 0 {
        let below = (i - 1) as nat;
        lemma_low_value_bound(limbs, below);
        lemma_weight(below);
        let w = weight(below);
        let top = limb(limbs, i - 1);
        assert(low_value(limbs, below) + top * w < 0x1_0000_0000 * w) by (nonlinear_arith)
            requires
                low_value(limbs, below) < w,
                top <= 0xffff_ffff,
        ;
    }
}

/// Only the digits below the position count.
proof fn lemma_low_value_same(x: Seq<u32>, y: Seq<u32>, i: nat)
    requires
        forall|j: int| 0 <= j < i ==> limb(x, j) == limb(y, j),
    ensures
        low_value(x, i) == low_value(y, i),
    decreases i,
{
    if i > 0 {
        assert(limb(x, i - 1) == limb(y, i - 1));
        lemma_low_value_same(x, y, (i - 1) as nat);
    }
}

/// Positions above the highest digit add nothing.
proof fn lemma_low_value_above(limbs: Seq<u32>, i: nat)
    requires
        i >= limbs.len(),
    ensures
        low_value(limbs, i) == low_value(limbs, limbs.len()),
    decreases i,
{
    if i > limbs.len() {
        lemma_low_value_above(limbs, (i - 1) as nat);
        assert(limb(limbs, i - 1) * weight((i - 1) as nat) == 0) by {
            lemma_mul_basics(weight((i - 1) as nat) as int);
        }
    }
}

/// Numbers that agree above a position differ by what they hold up to it.
proof fn lemma_low_value_split(x: Seq<u32>, y: Seq<u32>, i: nat, n: nat)
    requires
        i <= n,
        forall|j: int| i <= j < n ==> limb(x, j) == limb(y, j),
    ensures
        low_value(x, n) - low_value(y, n) == low_value(x, i) - low_value(y, i),
    decreases n,
{
    if i < n {
        assert(limb(x, n - 1) == limb(y, n - 1));
        lemma_low_value_split(x, y, i, (n - 1) as nat);
    }
}

/// A natural number, by its digits to the base `2^32`, the lowest first.
pub struct BigNat {
    pub limbs: Vec<u32>,
}

impl View for BigNat {
    type V = nat;

    open spec fn view(&self) -> nat {
        low_value(self.limbs@, self.limbs@.len())
    }
}

impl BigNat {
    /// The number `n`.
    pub fn small(n: u32) -> (x: BigNat)
        ensures
            x@ == n,
    {
        let mut limbs: Vec<u32> = Vec::new();
        limbs.push(n);
        proof {
            lemma_weight(0);
            reveal_with_fuel(low_value, 2);
            assert(limb(limbs@, 0) * weight(0) == n);
        }
        BigNat { limbs }
    }

    fn limb_at(&self, i: usize) -> (n: u32)
        ensures
            n == limb(self.limbs@, i as int),
    {
        if i < self.limbs.len() {
            self.limbs[i]
        } else {
            0
        }
    }

    /// Replaces the number by its product with `factor` plus `addend`.
    pub fn multiply_add(&mut self, factor: u32, addend: u32)
        ensures
            final(self)@ == old(self)@ * factor + addend,
    {
        let ghost before = self.limbs@;
        let mut carry: u32 = addend;
        let mut i: usize = 0;
        let n = self.limbs.len();
        proof {
            lemma_weight(0);
            lemma_mul_basics(factor as int);
            lemma_mul_basics(carry as int);
        }
        while i < n
            invariant
                i <= n,
                n == before.len(),
                self.limbs@.len() == n,
                forall|j: int| i <= j < n ==> self.limbs@[j] == before[j],
                low_value(self.limbs@, i as nat) + carry * weight(i as nat) == low_value(
                    before,
                    i as nat,
                ) * factor + addend,
            decreases n - i,
        {
            let ghost prev = self.limbs@;
            let d = self.limbs[i];
            assert(d * factor <= 0xffff_ffff * 0xffff_ffff) by (nonlinear_arith)
                requires
                    0 <= d <= 0xffff_ffff,
                    0 <= factor <= 0xffff_ffff,
            ;
            let t: u64 = d as u64 * factor as u64 + carry as u64;
            let low: u32 = (t % 0x1_0000_0000) as u32;
            let high: u32 = (t / 0x1_0000_0000) as u32;
            self.limbs.set(i, low);
            proof {
                lemma_weight(i as nat);
                lemma_low_value_same(self.limbs@, prev, i as nat);
                let w = weight(i as nat);
                let a = low_value(prev, i as nat);
                let b = low_value(before, i as nat);
                assert(limb(self.limbs@, i as int) == low);
                assert(limb(before, i as int) == d);
                assert(a + low * w + high * (0x1_0000_0000 * w) == (b + d * w) * factor + addend)
                    by (nonlinear_arith)
                    requires
                        a + carry * w == b * factor + addend,
                        d * factor + carry == low + 0x1_0000_0000 * high,
                ;
            }
            carry = high;
            i = i + 1;
        }
        if carry > 0 {
            let ghost prev = self.limbs@;
            self.limbs.push(carry);
            proof {
                lemma_low_value_same(self.limbs@, prev, n as nat);
            }
        } else {
            proof {
                lemma_mul_basics(weight(n as nat) as int);
            }
        }
    }

    /// Whether the number is at least `other`.
    pub fn is_at_least(&self, other: &BigNat) -> (b: bool)
        ensures
            b == (self@ >= other@),
    {
        let n = if self.limbs.len() > other.limbs.len() {
            self.limbs.len()
        } else {
            other.limbs.len()
        };
        let mut i: usize = n;
        proof {
            lemma_low_value_above(self.limbs@, n as nat);
            lemma_low_value_above(other.limbs@, n as nat);
        }
        while i > 0
            invariant
                i <= n,
                self@ == low_value(self.limbs@, n as nat),
                other@ == low_value(other.limbs@, n as nat),
                forall|j: int| i <= j < n ==> limb(self.limbs@, j) == limb(other.limbs@, j),
            decreases i,
        {
            let x = self.limb_at(i - 1);
            let y = other.limb_at(i - 1);
            if x != y {
                proof {
                    let below = (i - 1) as nat;
                    lemma_low_value_split(self.limbs@, other.limbs@, i as nat, n as nat);
                    lemma_low_value_bound(self.limbs@, below);
                    lemma_low_value_bound(other.limbs@, below);
                    let w = weight(below);
                    assert(x > y ==> x * w >= y * w + w) by (nonlinear_arith)
                        requires
                            w > 0,
                    ;
                    assert(x < y ==> y * w >= x * w + w) by (nonlinear_arith)
                        requires
                            w > 0,
                    ;
                }
                return x > y;
            }
            i = i - 1;
        }
        proof {
            lemma_low_value_split(self.limbs@, other.limbs@, 0, n as nat);
        }
        true
    }

    /// Whether the number is zero.
    pub fn is_zero(&self) -> (b: bool)
        ensures
            b == (self@ == 0),
    {
        let mut i: usize = 0;
        let n = self.limbs.len();
        while i < n
            invariant
                i <= n,
                n == self.limbs@.len(),
                low_value(self.limbs@, i as nat) == 0,
            decreases n - i,
        {
            if self.limbs[i] != 0 {
                proof {
                    lemma_weight(i as nat);
                    let d = self.limbs@[i as int];
                    let w = weight(i as nat);
                    assert(d * w > 0) by (nonlinear_arith)
                        requires
                            d > 0,
                            w > 0,
                    ;
                    lemma_low_value_grows(self.limbs@, (i + 1) as nat, n as nat);
                }
                return false;
            }
            proof {
                lemma_mul_basics(weight(i as nat) as int);
            }
            i = i + 1;
        }
        true
    }

    /// Takes `other` away.
    pub fn subtract(&mut self, other: &BigNat)
        requires
            old(self)@ >= other@,
        ensures
            final(self)@ == old(self)@ - other@,
    {
        let ghost before = self.limbs@;
        let n = self.limbs.len();
        let mut borrow: u32 = 0;
        let mut i: usize = 0;
        proof {
            lemma_weight(0);
        }
        while i < n
            invariant
                i <= n,
                n == before.len(),
                self.limbs@.len() == n,
                borrow <= 1,
                forall|j: int| i <= j < n ==> self.limbs@[j] == before[j],
                low_value(self.limbs@, i as nat) + low_value(other.limbs@, i as nat) == low_value(
                    before,
                    i as nat,
                ) + borrow * weight(i as nat),
            decreases n - i,
        {
            let ghost prev = self.limbs@;
            let x = self.limbs[i];
            let y = other.limb_at(i);
            let take: u64 = y as u64 + borrow as u64;
            let (low, next): (u32, u32) = if x as u64 >= take {
                ((x as u64 - take) as u32, 0)
            } else {
                ((0x1_0000_0000 + x as u64 - take) as u32, 1)
            };
            self.limbs.set(i, low);
            proof {
                lemma_weight(i as nat);
                lemma_low_value_same(self.limbs@, prev, i as nat);
                let w = weight(i as nat);
                let a = low_value(prev, i as nat);
                let b = low_value(other.limbs@, i as nat);
                let c = low_value(before, i as nat);
                assert(limb(self.limbs@, i as int) == low);
                assert(limb(before, i as int) == x);
                assert((a + low * w) + (b + y * w) == (c + x * w) + next * (0x1_0000_0000 * w))
                    by (nonlinear_arith)
                    requires
                        a + b == c + borrow * w,
                        low + y + borrow == x + 0x1_0000_0000 * next,
                ;
            }
            borrow = next;
            i = i + 1;
        }
        proof {
            lemma_low_value_bound(self.limbs@, n as nat);
            lemma_low_value_grows(other.limbs@, n as nat, (n + other.limbs@.len()) as nat);
            lemma_low_value_above(other.limbs@, (n + other.limbs@.len()) as nat);
            let w = weight(n as nat);
            assert(borrow * w == if borrow == 0 {
                0
            } else {
                w as int
            }) by (nonlinear_arith)
                requires
                    borrow == 0 || borrow == 1,
            ;
            // Nothing of `other` lies above the digits of the number itself.
            if low_value(other.limbs@, n as nat) != other@ {
                lemma_low_value_jump(other.limbs@, n as nat, (n + other.limbs@.len()) as nat);
                lemma_low_value_bound(before, n as nat);
            }
        }
    }
}

/// Higher positions only add.
proof fn lemma_low_value_grows(limbs: Seq<u32>, i: nat, n: nat)
    requires
        i <= n,
    ensures
        low_value(limbs, i) <= low_value(limbs, n),
    decreases n,
{
    if i < n {
        lemma_low_value_grows(limbs, i, (n - 1) as nat);
        lemma_mul_nonnegative(limb(limbs, n - 1) as int, weight((n - 1) as nat) as int);
    }
}

/// What higher positions add is at least the weight of the lowest of them.
proof fn lemma_low_value_jump(limbs: Seq<u32>, i: nat, n: nat)
    requires
        i <= n,
        low_value(limbs, i) != low_value(limbs, n),
    ensures
        low_value(limbs, n) >= weight(i),
    decreases n,
{
    if i < n {
        let below = (n - 1) as nat;
        let d = limb(limbs, n - 1);
        lemma_weight(below);
        rounding::lemma_pow2_monotone(32 * i, 32 * below);
        if d == 0 {
            lemma_mul_basics(weight(below) as int);
            lemma_low_value_jump(limbs, i, below);
        } else {
            assert(d * weight(below) >= weight(below)) by (nonlinear_arith)
                requires
                    d >= 1,
            ;
        }
    }
}

} // verus!
