//! Correct rounding to the binary64 format.
//!
//! A finite binary64 number is an integer multiple of `2^-1074`, so every
//! quantity here is counted in that unit: the fraction `n / d` stands for the
//! real number `n / d * 2^-1074`.  A magnitude is the low 63 bits of the
//! encoding; read as an integer it grows with the number it encodes.

use vstd::arithmetic::div_mod::*;
use vstd::arithmetic::mul::*;
use vstd::arithmetic::power2::*;
use vstd::prelude::*;

verus! {

/// `2^52`, the weight of one step of the exponent field in a magnitude.
pub const EXPONENT_STEP: u64 = 0x10_0000_0000_0000;

/// `2^53`, the first integer whose neighbours are two apart.
pub const PRECISION_LIMIT: u64 = 0x20_0000_0000_0000;

/// The magnitude of the infinities.
pub const INFINITY_MAGNITUDE: u64 = 0x7ff0_0000_0000_0000;

/// The integer nearest to `n / d`, the even one of two that are equally near.
pub open spec fn half_even(n: nat, d: nat) -> nat {
    let below = n / d;
    let rest = n % d;
    if 2 * rest < d || (2 * rest == d && below % 2 == 0) {
        below
    } else {
        below + 1
    }
}

/// The number of binary digits of `n`; zero has none.
pub open spec fn bit_length(n: nat) -> nat
    decreases n,
{
    if n == 0 {
        0
    } else {
        1 + bit_length(n / 2)
    }
}

/// The power of two that separates neighbouring binary64 numbers around `q`.
pub open spec fn spacing(q: nat) -> nat {
    if q < PRECISION_LIMIT {
        0
    } else {
        (bit_length(q) - 53) as nat
    }
}

/// The magnitude of the binary64 number nearest to `n / d`, ties to even;
/// what lies beyond the largest finite number is infinite.
pub open spec fn nearest_magnitude(n: nat, d: nat) -> nat {
    let k = spacing(n / d);
    let magnitude = k * EXPONENT_STEP as nat + half_even(n, d * pow2(k));
    if magnitude < INFINITY_MAGNITUDE {
        magnitude
    } else {
        INFINITY_MAGNITUDE as nat
    }
}

/// Says that `m` is the integer part of `n * 2^a / (d * 2^b)`, and that the
/// fraction it drops is zero exactly when `inexact` is false.
pub open spec fn is_quotient(m: nat, inexact: bool, n: nat, a: nat, d: nat, b: nat) -> bool {
    &&& m * (d * pow2(b)) <= n * pow2(a) < (m + 1) * (d * pow2(b))
    &&& inexact <==> m * (d * pow2(b)) != n * pow2(a)
}

/// Rounding looks at the fraction only: a common factor changes nothing.
pub proof fn lemma_half_even_common_factor(n: nat, d: nat, c: nat)
    requires
        d > 0,
        c > 0,
    ensures
        half_even(n * c, d * c) == half_even(n, d),
{
    let q = n / d;
    let r = n % d;
    lemma_fundamental_div_mod(n as int, d as int);
    assert(n == q * d + r) by {
        lemma_mul_is_commutative(q as int, d as int);
    }
    assert(n * c == q * (d * c) + r * c) by (nonlinear_arith)
        requires
            n == q * d + r,
    ;
    assert(0 <= r * c < d * c) by (nonlinear_arith)
        requires
            0 <= r < d,
            c > 0,
    ;
    lemma_fundamental_div_mod_converse((n * c) as int, (d * c) as int, q as int, (r * c) as int);
    assert(2 * r < d <==> 2 * (r * c) < d * c) by (nonlinear_arith)
        requires
            c > 0,
    ;
    assert(2 * r == d <==> 2 * (r * c) == d * c) by (nonlinear_arith)
        requires
            c > 0,
    ;
}

/// A positive `n` lies between the powers of two that its length names.
pub proof fn lemma_bit_length_bounds(n: nat)
    requires
        n > 0,
    ensures
        bit_length(n) >= 1,
        pow2((bit_length(n) - 1) as nat) <= n < pow2(bit_length(n)),
    decreases n,
{
    lemma2_to64();
    reveal_with_fuel(bit_length, 2);
    if n >= 2 {
        lemma_bit_length_bounds(n / 2);
        let half = bit_length(n / 2);
        lemma_pow2_unfold(half);
        lemma_pow2_unfold((half + 1) as nat);
    }
}

/// The length of a number between `2^(len - 1)` and `2^len` is `len`.
pub proof fn lemma_bit_length_unique(n: nat, len: nat)
    requires
        len >= 1,
        pow2((len - 1) as nat) <= n < pow2(len),
    ensures
        bit_length(n) == len,
{
    lemma_pow2_pos((len - 1) as nat);
    lemma_bit_length_bounds(n);
    let own = bit_length(n);
    if own < len {
        if own < len - 1 {
            lemma_pow2_strictly_increases(own, (len - 1) as nat);
        }
    } else if own > len {
        if own - 1 > len {
            lemma_pow2_strictly_increases(len, (own - 1) as nat);
        }
    }
}

/// Powers of two grow with the exponent.
pub proof fn lemma_pow2_monotone(e1: nat, e2: nat)
    requires
        e1 <= e2,
    ensures
        pow2(e1) <= pow2(e2),
{
    if e1 < e2 {
        lemma_pow2_strictly_increases(e1, e2);
    }
}

/// The spacing around `n / d` follows from the length of a quotient of it.
proof fn lemma_spacing_of_quotient(m: nat, inexact: bool, n: nat, a: nat, d: nat, b: nat)
    requires
        is_quotient(m, inexact, n, a, d, b),
        d > 0,
        m > 0,
    ensures
        spacing(n / d) == if bit_length(m) + b <= 53 + a {
            0
        } else {
            (bit_length(m) + b - 53 - a) as nat
        },
{
    let len = bit_length(m);
    lemma_bit_length_bounds(m);
    lemma2_to64();
    lemma2_to64_rest();
    lemma_pow2_pos(a);
    lemma_pow2_pos(b);
    let unit = d * pow2(b);
    lemma_pow2_adds(len, b);
    // n * 2^a < d * 2^(len + b)
    assert(n * pow2(a) < d * pow2(len + b)) by (nonlinear_arith)
        requires
            n * pow2(a) < (m + 1) * (d * pow2(b)),
            m + 1 <= pow2(len),
            pow2(len + b) == pow2(len) * pow2(b),
    ;
    if len + b <= 53 + a {
        lemma_pow2_monotone(len + b, 53 + a);
        lemma_pow2_adds(53, a);
        assert(n < d * pow2(53)) by (nonlinear_arith)
            requires
                n * pow2(a) < d * pow2(len + b),
                pow2(len + b) <= pow2(53) * pow2(a),
                pow2(a) > 0,
        ;
        assert(n / d < pow2(53)) by (nonlinear_arith)
            requires
                n < d * pow2(53),
                d > 0,
        ;
    } else {
        let top = (len + b - a) as nat;
        lemma_pow2_adds(top, a);
        assert(n < d * pow2(top)) by (nonlinear_arith)
            requires
                n * pow2(a) < d * pow2(len + b),
                pow2(len + b) == pow2(top) * pow2(a),
                pow2(a) > 0,
        ;
        assert(n / d < pow2(top)) by (nonlinear_arith)
            requires
                n < d * pow2(top),
                d > 0,
        ;
        let low = (top - 1) as nat;
        lemma_pow2_adds((len - 1) as nat, b);
        lemma_pow2_adds(low, a);
        assert((len - 1) as nat + b == low + a);
        assert(d * pow2(low) <= n) by (nonlinear_arith)
            requires
                m * (d * pow2(b)) <= n * pow2(a),
                pow2((len - 1) as nat) <= m,
                pow2((len - 1) as nat) * pow2(b) == pow2(low) * pow2(a),
                pow2(a) > 0,
                pow2(b) > 0,
                d > 0,
        ;
        assert(pow2(low) <= n / d) by (nonlinear_arith)
            requires
                d * pow2(low) <= n,
                d > 0,
        ;
        lemma_bit_length_unique(n / d, top);
        lemma_pow2_monotone(53, low);
    }
}

/// Rounding `n / (d * 2^k)` needs only an integer quotient with at least one
/// digit to spare, and whether anything was dropped below it.
proof fn lemma_half_even_of_quotient(
    m: nat,
    inexact: bool,
    n: nat,
    a: nat,
    d: nat,
    b: nat,
    k: nat,
    s: nat,
)
    requires
        is_quotient(m, inexact, n, a, d, b),
        d > 0,
        s >= 1,
        k + a == b + s,
    ensures
        half_even(n, d * pow2(k)) == {
            let below = m / pow2(s);
            let rest = m % pow2(s);
            if 2 * rest < pow2(s) || (2 * rest == pow2(s) && !inexact && below % 2 == 0) {
                below
            } else {
                below + 1
            }
        },
{
    lemma_pow2_pos(a);
    lemma_pow2_pos(b);
    lemma_pow2_pos(k);
    lemma_pow2_pos(s);
    let p = pow2(s);
    let unit = d * pow2(b);
    let big = n * pow2(a);
    assert(unit > 0) by (nonlinear_arith)
        requires
            d > 0,
            pow2(b) > 0,
            unit == d * pow2(b),
    ;
    assert(d * pow2(k) > 0) by (nonlinear_arith)
        requires
            d > 0,
            pow2(k) > 0,
    ;
    lemma_half_even_common_factor(n, d * pow2(k), pow2(a));
    lemma_pow2_adds(k, a);
    lemma_pow2_adds(b, s);
    assert(d * pow2(k) * pow2(a) == unit * p) by (nonlinear_arith)
        requires
            pow2(k) * pow2(a) == pow2(b) * p,
            unit == d * pow2(b),
    ;
    // Split the scaled numerator into m units and a rest.
    let r = (big - m * unit) as nat;
    assert(big == m * unit + r && r < unit) by (nonlinear_arith)
        requires
            m * unit <= big < (m + 1) * unit,
            r == big - m * unit,
    ;
    let below = m / p;
    let rest = m % p;
    lemma_fundamental_div_mod(m as int, p as int);
    assert(big == below * (unit * p) + (rest * unit + r)) by (nonlinear_arith)
        requires
            big == m * unit + r,
            m == p * below + rest,
    ;
    assert(rest * unit + r < unit * p) by (nonlinear_arith)
        requires
            rest <= p - 1,
            r < unit,
            p > 0,
    ;
    assert(0 <= rest * unit + r) by (nonlinear_arith)
        requires
            0 <= rest,
            0 <= unit,
            0 <= r,
    ;
    lemma_fundamental_div_mod_converse(
        big as int,
        (unit * p) as int,
        below as int,
        (rest * unit + r) as int,
    );
    // The step is even, so half of it is a whole number of units.
    let h = pow2((s - 1) as nat);
    lemma_pow2_unfold(s);
    if rest < h {
        assert(2 * (rest * unit + r) < unit * p) by (nonlinear_arith)
            requires
                rest + 1 <= h,
                p == 2 * h,
                r < unit,
        ;
    } else if rest == h {
        assert(2 * (rest * unit + r) == unit * p + 2 * r) by (nonlinear_arith)
            requires
                rest == h,
                p == 2 * h,
        ;
    } else {
        assert(2 * (rest * unit + r) > unit * p) by (nonlinear_arith)
            requires
                rest >= h + 1,
                p == 2 * h,
                unit > 0,
                r >= 0,
        ;
    }
}

/// A quotient that drops nothing and needs no digit removed is the result.
proof fn lemma_half_even_of_exact(m: nat, n: nat, a: nat, d: nat, b: nat, k: nat, t: nat)
    requires
        is_quotient(m, false, n, a, d, b),
        d > 0,
        b == k + a + t,
    ensures
        half_even(n, d * pow2(k)) == m * pow2(t),
{
    lemma_pow2_pos(a);
    lemma_pow2_pos(k);
    lemma_pow2_adds(k + a, t);
    lemma_pow2_adds(k, a);
    let step = d * pow2(k);
    assert(step > 0) by (nonlinear_arith)
        requires
            d > 0,
            pow2(k) > 0,
            step == d * pow2(k),
    ;
    assert(n == (m * pow2(t)) * step) by (nonlinear_arith)
        requires
            n * pow2(a) == m * (d * pow2(b)),
            pow2(b) == pow2(k) * pow2(a) * pow2(t),
            step == d * pow2(k),
            pow2(a) > 0,
    ;
    lemma_fundamental_div_mod_converse(n as int, step as int, (m * pow2(t)) as int, 0);
}

/// The number of binary digits of `n`.
pub(crate) fn count_bits(n: u128) -> (len: u32)
    ensures
        len == bit_length(n as nat),
        len <= 128,
        n > 0 ==> len >= 1 && pow2((len - 1) as nat) <= n < pow2(len as nat),
{
    let mut rest: u128 = n;
    let mut len: u32 = 0;
    proof {
        lemma2_to64();
        assert(pow2(128) == 0x1_0000_0000_0000_0000_0000_0000_0000_0000) by {
            lemma_pow2_adds(64, 64);
        }
    }
    while rest > 0
        invariant
            len + bit_length(rest as nat) == bit_length(n as nat),
            len <= 128,
            rest * pow2(len as nat) <= n,
            pow2(128) == 0x1_0000_0000_0000_0000_0000_0000_0000_0000,
        decreases rest,
    {
        proof {
            let p = pow2(len as nat);
            lemma_pow2_unfold((len + 1) as nat);
            lemma_pow2_pos(len as nat);
            assert(p <= n) by (nonlinear_arith)
                requires
                    rest * p <= n,
                    rest >= 1,
                    p > 0,
            ;
            if len >= 128 {
                lemma_pow2_monotone(128, len as nat);
            }
            assert((rest / 2) * (2 * p) <= n) by (nonlinear_arith)
                requires
                    rest * p <= n,
                    p > 0,
            ;
        }
        rest = rest / 2;
        len = len + 1;
    }
    proof {
        if n > 0 {
            lemma_bit_length_bounds(n as nat);
        }
    }
    len
}

/// Two to the power of `e`.
pub(crate) fn power_of_two(e: u32) -> (p: u128)
    requires
        e < 128,
    ensures
        p == pow2(e as nat),
{
    let mut p: u128 = 1;
    let mut i: u32 = 0;
    proof {
        lemma2_to64();
    }
    while i < e
        invariant
            i <= e < 128,
            p == pow2(i as nat),
        decreases e - i,
    {
        proof {
            lemma_pow2_unfold((i + 1) as nat);
            lemma2_to64();
            lemma2_to64_rest();
            lemma_pow2_monotone(i as nat, 126);
            lemma_pow2_adds(63, 63);
        }
        p = p * 2;
        i = i + 1;
    }
    p
}

/// Rounds the fraction `n / d`, of which the quotient `m` of
/// `n * 2^a / (d * 2^b)` is known, to the nearest magnitude.
pub(crate) fn round_quotient(
    m: u128,
    inexact: bool,
    a: u128,
    b: u128,
    Ghost(n): Ghost<nat>,
    Ghost(d): Ghost<nat>,
) -> (magnitude: u64)
    requires
        d > 0,
        is_quotient(m as nat, inexact, n, a as nat, d, b as nat),
        m < 0x8000_0000_0000_0000_0000_0000_0000_0000,
        inexact ==> m >= 0x40_0000_0000_0000,
        a <= 0x10_0000_0000_0000_0000_0000_0000,
        b <= 0x10_0000_0000_0000_0000_0000_0000,
    ensures
        magnitude == nearest_magnitude(n, d),
        magnitude <= INFINITY_MAGNITUDE,
{
    proof {
        lemma_pow2_pos(a as nat);
        lemma2_to64();
        lemma2_to64_rest();
    }
    if m == 0 {
        proof {
            assert(n == 0) by (nonlinear_arith)
                requires
                    n * pow2(a as nat) == 0,
                    pow2(a as nat) > 0,
            ;
            assert(0nat / d == 0) by (nonlinear_arith)
                requires
                    d > 0,
            ;
            lemma_fundamental_div_mod_converse(0, (d * pow2(0)) as int, 0, 0);
        }
        return 0;
    }
    let len: u128 = count_bits(m) as u128;
    proof {
        lemma_spacing_of_quotient(m as nat, inexact, n, a as nat, d, b as nat);
        if inexact && len <= 54 {
            lemma_pow2_monotone(len as nat, 54);
        }
        if len > 127 {
            lemma_pow2_monotone(127, (len - 1) as nat);
            lemma_pow2_adds(63, 64);
        }
    }
    let k: u128 = if len + b <= 53 + a {
        0
    } else {
        len + b - 53 - a
    };
    if k >= 2047 {
        return INFINITY_MAGNITUDE;
    }
    let significand: u64 = if k + a > b {
        let s: u128 = k + a - b;
        proof {
            lemma_half_even_of_quotient(
                m as nat,
                inexact,
                n,
                a as nat,
                d,
                b as nat,
                k as nat,
                s as nat,
            );
        }
        if s >= 128 {
            proof {
                lemma_pow2_monotone(128, s as nat);
                lemma_pow2_adds(64, 64);
                lemma_fundamental_div_mod_converse(m as int, pow2(s as nat) as int, 0, m as int);
            }
            0
        } else {
            let p = power_of_two(s as u32);
            proof {
                lemma_pow2_pos(s as nat);
            }
            let below: u128 = m / p;
            let rest: u128 = m % p;
            let gap: u128 = p - rest;
            proof {
                // The digits that stay are at most 53.
                lemma_pow2_monotone(len as nat, (53 + s) as nat);
                lemma_pow2_adds(53, s as nat);
                assert(below < pow2(53)) by (nonlinear_arith)
                    requires
                        m < pow2(53) * p,
                        below == m / p,
                        p > 0,
                ;
            }
            if rest < gap || (rest == gap && !inexact && below % 2 == 0) {
                below as u64
            } else {
                below as u64 + 1
            }
        }
    } else {
        let t: u128 = b - k - a;
        proof {
            lemma_half_even_of_exact(
                m as nat,
                n,
                a as nat,
                d,
                b as nat,
                k as nat,
                t as nat,
            );
            lemma_pow2_adds(len as nat, t as nat);
            lemma_pow2_monotone((len + t) as nat, 53);
            lemma_pow2_pos(t as nat);
            assert(m * pow2(t as nat) < pow2(53)) by (nonlinear_arith)
                requires
                    m < pow2(len as nat),
                    pow2(len as nat) * pow2(t as nat) <= pow2(53),
                    pow2(t as nat) > 0,
            ;
        }
        let p = power_of_two(t as u32);
        (m * p) as u64
    };
    let magnitude: u64 = k as u64 * EXPONENT_STEP + significand;
    if magnitude < INFINITY_MAGNITUDE {
        magnitude
    } else {
        INFINITY_MAGNITUDE
    }
}

} // verus!
