//! Reading decimal numerals.
//!
//! The accepted text is an optional sign followed by `inf`, `infinity` or
//! `nan`, or by decimal digits with at most one point and an optional power of
//! ten; letters may be of either case.  The result is the binary64 number
//! nearest to what the text denotes.

use crate::bignat::BigNat;
use crate::binary64::{Binary64, FRACTION_PLACES};
use crate::rounding;
use crate::rounding::INFINITY_MAGNITUDE;
use vstd::arithmetic::div_mod::*;
use vstd::arithmetic::mul::*;
use vstd::arithmetic::power2::*;
use vstd::prelude::*;

verus! {

/// `10^e`.
pub open spec fn ten_to(e: nat) -> nat
    decreases e,
{
    if e == 0 {
        1
    } else {
        10 * ten_to((e - 1) as nat)
    }
}

pub open spec fn is_digit(c: char) -> bool {
    '0' <= c <= '9'
}

pub open spec fn digit_value(c: char) -> nat {
    (c as u32 - '0' as u32) as nat
}

/// The number that a run of digits denotes.
pub open spec fn digits_value(s: Seq<char>) -> nat
    decreases s.len(),
{
    if s.len() == 0 {
        0
    } else {
        10 * digits_value(s.drop_last()) + digit_value(s.last())
    }
}

/// The end of the run of digits that starts at `i`.
pub open spec fn digits_end(s: Seq<char>, i: int) -> int
    decreases s.len() - i,
{
    if 0 <= i < s.len() && is_digit(s[i]) {
        digits_end(s, i + 1)
    } else {
        i
    }
}

/// Whether the text starts with a sign.
pub open spec fn signed(s: Seq<char>) -> bool {
    s.len() > 0 && (s[0] == '+' || s[0] == '-')
}

/// The text after its sign, if it has one.
pub open spec fn unsigned_part(s: Seq<char>) -> Seq<char> {
    if signed(s) {
        s.skip(1)
    } else {
        s
    }
}

pub open spec fn minus_signed(s: Seq<char>) -> bool {
    s.len() > 0 && s[0] == '-'
}

/// Whether two characters are the same but for the case of a letter `a` to `z`.
pub open spec fn same_letter(c: char, lower: char) -> bool {
    c == lower || c as u32 + 32 == lower as u32
}

/// Whether the text is the given lower-case word, in either case.
pub open spec fn spells(s: Seq<char>, word: Seq<char>) -> bool {
    &&& s.len() == word.len()
    &&& forall|i: int| 0 <= i < s.len() ==> same_letter(#[trigger] s[i], word[i])
}

/// The power of ten at the end of a numeral: none, or `e`, an optional sign
/// and at least one digit.
pub open spec fn exponent_part(s: Seq<char>) -> Option<int> {
    if s.len() == 0 {
        Some(0)
    } else if !same_letter(s[0], 'e') {
        None
    } else {
        let rest = s.skip(1);
        let digits = unsigned_part(rest);
        if digits.len() == 0 || digits_end(digits, 0) != digits.len() {
            None
        } else if minus_signed(rest) {
            Some(-(digits_value(digits) as int))
        } else {
            Some(digits_value(digits) as int)
        }
    }
}

/// The digits before the point.
pub open spec fn integer_digits(s: Seq<char>) -> Seq<char> {
    s.subrange(0, digits_end(s, 0))
}

pub open spec fn has_point(s: Seq<char>) -> bool {
    digits_end(s, 0) < s.len() && s[digits_end(s, 0)] == '.'
}

/// Where the digits and the point end.
pub open spec fn mantissa_end(s: Seq<char>) -> int {
    if has_point(s) {
        digits_end(s, digits_end(s, 0) + 1)
    } else {
        digits_end(s, 0)
    }
}

/// The digits after the point.
pub open spec fn fraction_digits(s: Seq<char>) -> Seq<char> {
    if has_point(s) {
        s.subrange(digits_end(s, 0) + 1, mantissa_end(s))
    } else {
        Seq::empty()
    }
}

/// A numeral without sign, as an integer and the power of ten that scales it.
pub open spec fn numeral(s: Seq<char>) -> Option<(nat, int)> {
    let digits = integer_digits(s) + fraction_digits(s);
    if digits.len() == 0 {
        None
    } else {
        match exponent_part(s.skip(mantissa_end(s))) {
            Some(e) => Some((digits_value(digits), e - fraction_digits(s).len())),
            None => None,
        }
    }
}

/// The magnitude nearest to `digits * 10^exponent`.
pub open spec fn decimal_magnitude(digits: nat, exponent: int) -> nat {
    if exponent >= 0 {
        rounding::nearest_magnitude(
            digits * ten_to(exponent as nat) * pow2(FRACTION_PLACES as nat),
            1,
        )
    } else {
        rounding::nearest_magnitude(
            digits * pow2(FRACTION_PLACES as nat),
            ten_to((-exponent) as nat),
        )
    }
}

/// The magnitude that a text without sign denotes, if it denotes any.
pub open spec fn unsigned_magnitude(s: Seq<char>) -> Option<nat> {
    if spells(s, seq!['i', 'n', 'f']) || spells(s, seq!['i', 'n', 'f', 'i', 'n', 'i', 't', 'y']) {
        Some(INFINITY_MAGNITUDE as nat)
    } else if spells(s, seq!['n', 'a', 'n']) {
        Some(Binary64::undefined().magnitude())
    } else {
        match numeral(s) {
            Some(n) => Some(decimal_magnitude(n.0, n.1)),
            None => None,
        }
    }
}

/// The number that a text denotes, if it denotes one.
pub open spec fn parsed(s: Seq<char>) -> Option<Binary64> {
    match unsigned_magnitude(unsigned_part(s)) {
        Some(m) => Some(Binary64::assemble(minus_signed(s), m)),
        None => None,
    }
}

proof fn lemma_ten_to_bounds(e: nat)
    ensures
        pow2(3 * e) <= ten_to(e) <= pow2(4 * e),
        ten_to(e) > 0,
    decreases e,
{
    lemma2_to64();
    if e > 0 {
        let p = (e - 1) as nat;
        lemma_ten_to_bounds(p);
        lemma_pow2_adds(3, 3 * p);
        lemma_pow2_adds(4, 4 * p);
        assert(3 * e == 3 + 3 * p);
        assert(4 * e == 4 + 4 * p);
    }
}

proof fn lemma_ten_to_adds(a: nat, b: nat)
    ensures
        ten_to(a + b) == ten_to(a) * ten_to(b),
    decreases a,
{
    if a > 0 {
        let p = (a - 1) as nat;
        lemma_ten_to_adds(p, b);
        lemma_mul_is_associative(10, ten_to(p) as int, ten_to(b) as int);
        assert((a + b - 1) as nat == p + b);
    } else {
        lemma_mul_basics(ten_to(b) as int);
    }
}

proof fn lemma_digits_end(s: Seq<char>, i: int)
    requires
        0 <= i <= s.len(),
    ensures
        i <= digits_end(s, i) <= s.len(),
        forall|j: int| i <= j < digits_end(s, i) ==> is_digit(#[trigger] s[j]),
    decreases s.len() - i,
{
    if i < s.len() && is_digit(s[i]) {
        lemma_digits_end(s, i + 1);
    }
}

proof fn lemma_digits_value_bound(s: Seq<char>)
    requires
        forall|j: int| 0 <= j < s.len() ==> is_digit(#[trigger] s[j]),
    ensures
        digits_value(s) < ten_to(s.len()),
    decreases s.len(),
{
    if s.len() > 0 {
        lemma_digits_value_bound(s.drop_last());
        assert(is_digit(s[s.len() - 1]));
    }
}

/// A positive number from `10^401` on is beyond the format.
proof fn lemma_overflow(digits: nat, exponent: int)
    requires
        digits >= 1,
        exponent > 400,
    ensures
        decimal_magnitude(digits, exponent) == INFINITY_MAGNITUDE,
{
    let e = exponent as nat;
    let one = pow2(FRACTION_PLACES as nat);
    let n = digits * ten_to(e) * one;
    lemma_ten_to_bounds(e);
    rounding::lemma_pow2_monotone(1203, 3 * e);
    lemma_pow2_adds(1203, FRACTION_PLACES as nat);
    lemma_pow2_pos(FRACTION_PLACES as nat);
    lemma_pow2_pos(2277);
    assert(n >= pow2(1203) * one) by (nonlinear_arith)
        requires
            digits >= 1,
            ten_to(e) >= pow2(1203),
            one > 0,
            n == digits * ten_to(e) * one,
    ;
    assert(n / 1 == n);
    rounding::lemma_bit_length_bounds(n);
    let len = rounding::bit_length(n);
    if len <= 2277 {
        rounding::lemma_pow2_monotone(len, 2277);
    }
    lemma2_to64_rest();
    rounding::lemma_pow2_monotone(53, 2277);
}

/// A number of at most `places` digits, scaled down by more than
/// `10^(places + 400)`, is nearest to zero.
proof fn lemma_underflow(digits: nat, places: nat, exponent: int)
    requires
        digits < ten_to(places),
        places + exponent < -400,
    ensures
        decimal_magnitude(digits, exponent) == 0,
{
    let e = (-exponent) as nat;
    let rest = (e - places) as nat;
    let one = pow2(FRACTION_PLACES as nat);
    let n = digits * one;
    let d = ten_to(e);
    lemma_ten_to_bounds(e);
    lemma_ten_to_bounds(places);
    lemma_ten_to_bounds(rest);
    lemma_ten_to_adds(places, rest);
    lemma2_to64();
    rounding::lemma_pow2_monotone(1075, 3 * rest);
    lemma_pow2_adds(1, FRACTION_PLACES as nat);
    lemma_pow2_pos(FRACTION_PLACES as nat);
    assert(2 * n < d) by (nonlinear_arith)
        requires
            n == digits * one,
            digits < ten_to(places),
            ten_to(rest) >= 2 * one,
            one > 0,
            d == ten_to(places) * ten_to(rest),
    ;
    lemma_fundamental_div_mod_converse(n as int, d as int, 0, n as int);
    assert(d * pow2(0) == d);
}

/// Powers of two are ordered as their exponents are.
proof fn lemma_pow2_order(e1: nat, e2: nat)
    requires
        pow2(e1) < pow2(e2),
    ensures
        e1 < e2,
{
    if e1 >= e2 {
        rounding::lemma_pow2_monotone(e2, e1);
    }
}

/// The magnitude nearest to the ratio of two numbers below `2^x`.
fn round_ratio(top: BigNat, bottom: BigNat, Ghost(x): Ghost<nat>) -> (magnitude: u64)
    requires
        bottom@ > 0,
        top@ < pow2(x),
        bottom@ < pow2(x),
        x <= 0x1000_0000_0000_0000_0000,
    ensures
        magnitude == rounding::nearest_magnitude(
            top@ * pow2(FRACTION_PLACES as nat),
            bottom@,
        ),
        magnitude <= INFINITY_MAGNITUDE,
{
    let ghost n = top@;
    let ghost d = bottom@;
    let ghost one = pow2(FRACTION_PLACES as nat);
    proof {
        lemma2_to64();
        lemma2_to64_rest();
        lemma_pow2_pos(FRACTION_PLACES as nat);
    }
    if top.is_zero() {
        proof {
            lemma_mul_basics(one as int);
            assert(rounding::is_quotient(0, false, n * one, 0, d, 0)) by (nonlinear_arith)
                requires
                    n == 0,
                    d > 0,
                    pow2(0) == 1,
            ;
        }
        return rounding::round_quotient(0, false, 0, 0, Ghost(n * one), Ghost(d));
    }
    let mut rest = top;
    let mut unit = bottom;
    let mut b: u128 = 0;
    while rest.is_at_least(&unit)
        invariant
            d > 0,
            rest@ == n,
            unit@ == d * pow2(b as nat),
            unit@ > 0,
            n < pow2(x),
            x <= 0x1000_0000_0000_0000_0000,
            b <= x + 1,
            b > 0 ==> d * pow2((b - 1) as nat) <= n,
        ensures
            rest@ == n,
            unit@ == d * pow2(b as nat),
            unit@ > n,
            b <= x + 1,
        decreases 2 * n + 1 - unit@,
    {
        proof {
            let p = pow2(b as nat);
            assert(p <= d * p) by (nonlinear_arith)
                requires
                    d >= 1,
            ;
            lemma_pow2_order(b as nat, x);
            lemma_pow2_unfold((b + 1) as nat);
            assert(d * (2 * p) == 2 * (d * p)) by (nonlinear_arith);
        }
        unit.multiply_add(2, 0);
        b = b + 1;
    }
    let mut a: u128 = 0;
    let mut q: u128 = 0;
    let ghost u = unit@;
    proof {
        assert(n * pow2(0) == 0 * u + n);
    }
    while q < 0x8000_0000_0000_0000
        invariant
            n > 0,
            d > 0,
            d < pow2(x),
            unit@ == u,
            u == d * pow2(b as nat),
            b <= x + 1,
            x <= 0x1000_0000_0000_0000_0000,
            rest@ < u,
            n * pow2(a as nat) == q * u + rest@,
            q < 0x1_0000_0000_0000_0000,
            a <= 64 + x + b,
            pow2(63) == 0x8000_0000_0000_0000,
        decreases 64 + x + b - a,
    {
        proof {
            let p = pow2(a as nat);
            lemma_pow2_adds(x, b as nat);
            lemma_pow2_adds(63, x + b as nat);
            lemma_pow2_pos(b as nat);
            assert(u < pow2(x + b as nat)) by (nonlinear_arith)
                requires
                    u == d * pow2(b as nat),
                    d < pow2(x),
                    pow2(b as nat) > 0,
                    pow2(x + b as nat) == pow2(x) * pow2(b as nat),
            ;
            assert(p < pow2(63 + (x + b as nat))) by (nonlinear_arith)
                requires
                    n >= 1,
                    n * p == q * u + rest@,
                    rest@ < u,
                    q + 1 <= pow2(63),
                    u < pow2(x + b as nat),
                    pow2(63 + (x + b as nat)) == pow2(63) * pow2(x + b as nat),
            ;
            lemma_pow2_order(a as nat, 63 + (x + b as nat));
            lemma_pow2_unfold((a + 1) as nat);
            assert(n * (2 * p) == (2 * q) * u + 2 * rest@) by (nonlinear_arith)
                requires
                    n * p == q * u + rest@,
            ;
            assert((2 * q) * u + 2 * rest@ == (2 * q + 1) * u + (2 * rest@ - u))
                by (nonlinear_arith);
        }
        rest.multiply_add(2, 0);
        q = q * 2;
        a = a + 1;
        if rest.is_at_least(&unit) {
            rest.subtract(&unit);
            q = q + 1;
        }
    }
    let inexact = !rest.is_zero();
    proof {
        let w = pow2(b as nat + FRACTION_PLACES as nat);
        lemma_pow2_adds(b as nat, FRACTION_PLACES as nat);
        let g = n * one;
        assert(g * pow2(a as nat) == q * (d * w) + rest@ * one) by (nonlinear_arith)
            requires
                g == n * one,
                n * pow2(a as nat) == q * u + rest@,
                u == d * pow2(b as nat),
                w == pow2(b as nat) * one,
        ;
        assert(d * w == u * one) by (nonlinear_arith)
            requires
                u == d * pow2(b as nat),
                w == pow2(b as nat) * one,
        ;
        assert(rest@ * one < u * one) by (nonlinear_arith)
            requires
                rest@ < u,
                one > 0,
        ;
        assert(rest@ == 0 <==> rest@ * one == 0) by (nonlinear_arith)
            requires
                one > 0,
        ;
        assert((q + 1) * (d * w) == q * (d * w) + d * w) by (nonlinear_arith);
        assert(rounding::is_quotient(
            q as nat,
            inexact,
            g,
            a as nat,
            d,
            (b + FRACTION_PLACES) as nat,
        ));
    }
    rounding::round_quotient(
        q,
        inexact,
        a,
        b + FRACTION_PLACES as u128,
        Ghost(n * one),
        Ghost(d),
    )
}

/// The characters of a text.
pub fn characters(s: &str) -> (cs: Vec<char>)
    ensures
        cs@ == s@,
{
    let mut cs: Vec<char> = Vec::new();
    for c in it: s.chars()
        invariant
            it.seq() == s@,
            cs@ == s@.take(it.index() as int),
    {
        cs.push(c);
        assert(cs@ == s@.take(it.index() as int + 1));
    }
    assert(cs@ == s@);
    cs
}

fn end_of_digits(cs: &Vec<char>, from: usize) -> (end: usize)
    requires
        from <= cs@.len(),
    ensures
        end == digits_end(cs@, from as int),
        from <= end <= cs@.len(),
{
    let mut i: usize = from;
    while i < cs.len() && '0' <= cs[i] && cs[i] <= '9'
        invariant
            from <= i <= cs@.len(),
            digits_end(cs@, i as int) == digits_end(cs@, from as int),
        ensures
            i == digits_end(cs@, from as int),
            from <= i <= cs@.len(),
        decreases cs@.len() - i,
    {
        i = i + 1;
    }
    i
}

/// Appends the digits of a range to a number.
fn append_digits(n: &mut BigNat, cs: &Vec<char>, from: usize, to: usize, Ghost(head): Ghost<Seq<char>>)
    requires
        from <= to <= cs@.len(),
        forall|j: int| from <= j < to ==> is_digit(#[trigger] cs@[j]),
        old(n)@ == digits_value(head),
    ensures
        final(n)@ == digits_value(head + cs@.subrange(from as int, to as int)),
{
    let mut i: usize = from;
    proof {
        assert(head + cs@.subrange(from as int, from as int) =~= head);
    }
    while i < to
        invariant
            from <= i <= to <= cs@.len(),
            forall|j: int| from <= j < to ==> is_digit(#[trigger] cs@[j]),
            n@ == digits_value(head + cs@.subrange(from as int, i as int)),
        decreases to - i,
    {
        let d: u32 = cs[i] as u32 - '0' as u32;
        proof {
            let next = head + cs@.subrange(from as int, i + 1);
            assert(next.drop_last() =~= head + cs@.subrange(from as int, i as int));
            assert(next.last() == cs@[i as int]);
        }
        n.multiply_add(10, d);
        i = i + 1;
    }
}

/// The bound from which on a power of ten needs no exact reading.
const EXPONENT_CAP: u128 = 0x1_0000_0000_0000_0000_0000;

/// The number that a range of digits denotes, cut at [`EXPONENT_CAP`].
fn capped_value(cs: &Vec<char>, from: usize, to: usize) -> (n: u128)
    requires
        from <= to <= cs@.len(),
        forall|j: int| from <= j < to ==> is_digit(#[trigger] cs@[j]),
    ensures
        n == if digits_value(cs@.subrange(from as int, to as int)) < EXPONENT_CAP {
            digits_value(cs@.subrange(from as int, to as int))
        } else {
            EXPONENT_CAP as nat
        },
{
    let mut i: usize = from;
    let mut n: u128 = 0;
    while i < to
        invariant
            from <= i <= to <= cs@.len(),
            forall|j: int| from <= j < to ==> is_digit(#[trigger] cs@[j]),
            n == if digits_value(cs@.subrange(from as int, i as int)) < EXPONENT_CAP {
                digits_value(cs@.subrange(from as int, i as int))
            } else {
                EXPONENT_CAP as nat
            },
        decreases to - i,
    {
        let d: u32 = cs[i] as u32 - '0' as u32;
        proof {
            let next = cs@.subrange(from as int, i + 1);
            assert(next.drop_last() =~= cs@.subrange(from as int, i as int));
            assert(next.last() == cs@[i as int]);
        }
        n = n * 10 + d as u128;
        if n > EXPONENT_CAP {
            n = EXPONENT_CAP;
        }
        i = i + 1;
    }
    n
}

/// Whether the characters from `from` on are the given lower-case word, in
/// either case.
fn spells_word(cs: &Vec<char>, from: usize, word: &Vec<char>) -> (b: bool)
    requires
        from <= cs@.len(),
        forall|i: int| 0 <= i < word@.len() ==> 97 <= #[trigger] word@[i] as u32 <= 122,
    ensures
        b == spells(cs@.skip(from as int), word@),
{
    if cs.len() - from != word.len() {
        return false;
    }
    let ghost text = cs@.skip(from as int);
    let mut i: usize = 0;
    while i < word.len()
        invariant
            from <= cs@.len(),
            text == cs@.skip(from as int),
            text.len() == word@.len(),
            from + word@.len() == cs.len(),
            i <= word@.len(),
            forall|j: int| 0 <= j < word@.len() ==> 97 <= #[trigger] word@[j] as u32 <= 122,
            forall|j: int| 0 <= j < i ==> same_letter(#[trigger] text[j], word@[j]),
        decreases word@.len() - i,
    {
        let c = cs[from + i];
        assert(text[i as int] == c);
        if c != word[i] && (c as u32 >= 91 || c as u32 + 32 != word[i] as u32) {
            return false;
        }
        i = i + 1;
    }
    true
}

/// The magnitude nearest to `digits * 10^exponent`, where the digits were
/// `places` in number.
fn scale_decimal(digits: BigNat, places: u128, exponent: i128) -> (magnitude: u64)
    requires
        digits@ < ten_to(places as nat),
        places <= 0x2_0000_0000_0000_0000,
        -0x10_0000_0000_0000_0000_0000 <= exponent <= 0x10_0000_0000_0000_0000_0000,
    ensures
        magnitude == decimal_magnitude(digits@, exponent as int),
        magnitude <= INFINITY_MAGNITUDE,
{
    let ghost n = digits@;
    let ghost one = pow2(FRACTION_PLACES as nat);
    if digits.is_zero() {
        proof {
            lemma_zero_decimal(exponent as int);
        }
        return 0;
    }
    if exponent > 400 {
        proof {
            lemma_overflow(n, exponent as int);
        }
        return INFINITY_MAGNITUDE;
    }
    if (places as i128) + exponent < -400 {
        proof {
            lemma_underflow(n, places as nat, exponent as int);
        }
        return 0;
    }
    let mut top = digits;
    let mut bottom = BigNat::small(1);
    let ghost x = 4 * (places as nat + 401);
    let ghost e = if exponent >= 0 {
        exponent as nat
    } else {
        (-exponent) as nat
    };
    let steps: u128 = if exponent >= 0 {
        exponent as u128
    } else {
        (-exponent) as u128
    };
    let mut i: u128 = 0;
    proof {
        assert(ten_to(0) == 1);
        lemma_mul_basics(n as int);
    }
    while i < steps
        invariant
            i <= steps,
            top@ == if exponent >= 0 {
                n * ten_to(i as nat)
            } else {
                n
            },
            bottom@ == if exponent >= 0 {
                1
            } else {
                ten_to(i as nat)
            },
        decreases steps - i,
    {
        proof {
            let t = ten_to(i as nat);
            assert(n * (10 * t) == (n * t) * 10) by (nonlinear_arith);
        }
        if exponent >= 0 {
            top.multiply_add(10, 0);
        } else {
            bottom.multiply_add(10, 0);
        }
        i = i + 1;
    }
    proof {
        lemma_ten_to_bounds(e);
        lemma_ten_to_bounds(places as nat);
        lemma2_to64();
        let q = places as nat;
        lemma_ten_to_adds(q, e);
        lemma_ten_to_bounds(q + e);
        rounding::lemma_pow2_monotone(4 * e, (x - 1) as nat);
        rounding::lemma_pow2_monotone(4 * q, (x - 1) as nat);
        lemma_pow2_unfold(x);
        lemma_pow2_pos((x - 1) as nat);
        if exponent >= 0 {
            rounding::lemma_pow2_monotone(4 * (q + e), (x - 1) as nat);
            assert(n * ten_to(e) < ten_to(q) * ten_to(e)) by (nonlinear_arith)
                requires
                    n < ten_to(q),
                    ten_to(e) > 0,
            ;
        }
    }
    round_ratio(top, bottom, Ghost(x))
}

proof fn lemma_digits_end_skip(s: Seq<char>, from: int, i: int)
    requires
        0 <= from <= i <= s.len(),
    ensures
        digits_end(s.skip(from), i - from) == digits_end(s, i) - from,
    decreases s.len() - i,
{
    if i < s.len() && is_digit(s[i]) {
        assert(s.skip(from)[i - from] == s[i]);
        lemma_digits_end_skip(s, from, i + 1);
    } else if i < s.len() {
        assert(s.skip(from)[i - from] == s[i]);
    }
}

/// The characters from `from` on.
fn tail_of(cs: &Vec<char>, from: usize) -> (rest: Vec<char>)
    requires
        from <= cs@.len(),
    ensures
        rest@ == cs@.skip(from as int),
{
    let mut rest: Vec<char> = Vec::new();
    let mut i: usize = from;
    while i < cs.len()
        invariant
            from <= i <= cs@.len(),
            rest@ == cs@.subrange(from as int, i as int),
        decreases cs@.len() - i,
    {
        rest.push(cs[i]);
        i = i + 1;
        assert(rest@ =~= cs@.subrange(from as int, i as int));
    }
    assert(rest@ =~= cs@.skip(from as int));
    rest
}

/// Reads the power of ten from `from` on.  The sign is exact; the size is cut
/// at [`EXPONENT_CAP`].
fn read_exponent(cs: &Vec<char>, from: usize) -> (e: Option<i128>)
    requires
        from <= cs@.len(),
    ensures
        match exponent_part(cs@.skip(from as int)) {
            None => e is None,
            Some(x) => e is Some && e->0 == if x > EXPONENT_CAP {
                EXPONENT_CAP as int
            } else if x < -EXPONENT_CAP {
                -(EXPONENT_CAP as int)
            } else {
                x
            },
        },
{
    let ghost text = cs@.skip(from as int);
    let n = cs.len();
    if from == n {
        return Some(0);
    }
    assert(text[0] == cs@[from as int]);
    if cs[from] != 'e' && cs[from] as u32 != 'E' as u32 {
        return None;
    }
    let ghost rest = text.skip(1);
    assert(rest =~= cs@.skip(from + 1));
    let mut i: usize = from + 1;
    let mut minus = false;
    if i < n && (cs[i] == '+' || cs[i] == '-') {
        assert(rest[0] == cs@[i as int]);
        minus = cs[i] == '-';
        i = i + 1;
    } else if i < n {
        assert(rest[0] == cs@[i as int]);
    }
    let ghost digits = unsigned_part(rest);
    assert(digits =~= cs@.skip(i as int));
    proof {
        lemma_digits_end_skip(cs@, i as int, i as int);
        lemma_digits_end(cs@, i as int);
    }
    if i == n || end_of_digits(cs, i) != n {
        return None;
    }
    assert(digits =~= cs@.subrange(i as int, n as int));
    let size = capped_value(cs, i, n);
    if minus {
        Some(-(size as i128))
    } else {
        Some(size as i128)
    }
}

/// Reads a text without sign.
fn read_unsigned(cs: &Vec<char>) -> (magnitude: Option<u64>)
    ensures
        match unsigned_magnitude(cs@) {
            None => magnitude is None,
            Some(m) => magnitude is Some && magnitude->0 == m,
        },
        magnitude is Some ==> magnitude->0 < 0x8000_0000_0000_0000,
{
    assert(cs@.skip(0) =~= cs@);
    let short: Vec<char> = vec!['i', 'n', 'f'];
    let long: Vec<char> = vec!['i', 'n', 'f', 'i', 'n', 'i', 't', 'y'];
    let none: Vec<char> = vec!['n', 'a', 'n'];
    assert(short@ =~= seq!['i', 'n', 'f']);
    assert(long@ =~= seq!['i', 'n', 'f', 'i', 'n', 'i', 't', 'y']);
    assert(none@ =~= seq!['n', 'a', 'n']);
    if spells_word(cs, 0, &short) || spells_word(cs, 0, &long) {
        return Some(INFINITY_MAGNITUDE);
    }
    if spells_word(cs, 0, &none) {
        return Some(crate::binary64::NAN_BITS);
    }
    let i = end_of_digits(cs, 0);
    let mut digits = BigNat::small(0);
    proof {
        lemma_digits_end(cs@, 0);
        assert(digits_value(Seq::empty()) == 0);
    }
    append_digits(&mut digits, cs, 0, i, Ghost(Seq::empty()));
    assert(Seq::empty() + cs@.subrange(0, i as int) =~= integer_digits(cs@));
    let mut places: u128 = i as u128;
    let mut fraction: i128 = 0;
    let mut j: usize = i;
    if i < cs.len() && cs[i] == '.' {
        j = end_of_digits(cs, i + 1);
        proof {
            lemma_digits_end(cs@, i + 1);
        }
        append_digits(&mut digits, cs, i + 1, j, Ghost(integer_digits(cs@)));
        places = places + (j - i - 1) as u128;
        fraction = (j - i - 1) as i128;
    } else {
        assert(integer_digits(cs@) + fraction_digits(cs@) =~= integer_digits(cs@));
    }
    let ghost all = integer_digits(cs@) + fraction_digits(cs@);
    assert(all.len() == places);
    if places == 0 {
        return None;
    }
    assert(forall|k: int| 0 <= k < all.len() ==> is_digit(#[trigger] all[k]));
    match read_exponent(cs, j) {
        None => None,
        Some(e) => {
            let exponent: i128 = e - fraction;
            let ghost exact = exponent_part(cs@.skip(j as int))->0 - fraction;
            proof {
                lemma_digits_value_bound(all);
                if exact != exponent {
                    // Both lie where the result no longer depends on the exponent.
                    if digits@ == 0 {
                        lemma_zero_decimal(exact);
                        lemma_zero_decimal(exponent as int);
                    } else if exact > exponent {
                        lemma_overflow(digits@, exact);
                        lemma_overflow(digits@, exponent as int);
                    } else {
                        lemma_underflow(digits@, places as nat, exact);
                        lemma_underflow(digits@, places as nat, exponent as int);
                    }
                }
            }
            Some(scale_decimal(digits, places, exponent))
        },
    }
}

/// Zero stays zero whatever power of ten scales it.
proof fn lemma_zero_decimal(exponent: int)
    ensures
        decimal_magnitude(0, exponent) == 0,
{
    let one = pow2(FRACTION_PLACES as nat);
    lemma2_to64();
    lemma_mul_basics(one as int);
    if exponent >= 0 {
        lemma_mul_basics(ten_to(exponent as nat) as int);
        lemma_fundamental_div_mod_converse(0, 1, 0, 0);
    } else {
        let d = ten_to((-exponent) as nat);
        lemma_ten_to_bounds((-exponent) as nat);
        lemma_fundamental_div_mod_converse(0, d as int, 0, 0);
        assert(d * pow2(0) == d);
    }
}

/// Reads the number that a text denotes.
pub fn parse(s: &str) -> (x: Option<Binary64>)
    ensures
        x == parsed(s@),
{
    let cs = characters(s);
    let signed = cs.len() > 0 && (cs[0] == '+' || cs[0] == '-');
    let minus = cs.len() > 0 && cs[0] == '-';
    let body = if signed {
        tail_of(&cs, 1)
    } else {
        cs
    };
    assert(body@ == unsigned_part(s@));
    match read_unsigned(&body) {
        None => None,
        Some(m) => if minus {
            Some(Binary64::from_bits(crate::binary64::SIGN_WEIGHT + m))
        } else {
            Some(Binary64::from_bits(m))
        },
    }
}

/// A numeral of digits, with a point and more digits or without, is read as the
/// number nearest to what it denotes.
pub proof fn lemma_numeral_is_read(whole: Seq<char>, fraction: Seq<char>)
    requires
        whole.len() > 0,
        forall|i: int| 0 <= i < whole.len() ==> '0' <= #[trigger] whole[i] <= '9',
        forall|i: int| 0 <= i < fraction.len() ==> '0' <= #[trigger] fraction[i] <= '9',
    ensures
        parsed(whole) == Some(
            Binary64::assemble(
                false,
                rounding::nearest_magnitude(
                    digits_value(whole) * pow2(FRACTION_PLACES as nat),
                    1,
                ),
            ),
        ),
        parsed(whole.push('.') + fraction) == Some(
            Binary64::assemble(
                false,
                rounding::nearest_magnitude(
                    digits_value(whole + fraction) * pow2(FRACTION_PLACES as nat),
                    ten_to(fraction.len()),
                ),
            ),
        ),
{
    lemma_plain_numeral(whole);
    lemma_pointed_numeral(whole, fraction);
}

proof fn lemma_digits_end_at(s: Seq<char>, i: int, at: int)
    requires
        0 <= i <= at <= s.len(),
        forall|j: int| i <= j < at ==> is_digit(#[trigger] s[j]),
        at < s.len() ==> !is_digit(s[at]),
    ensures
        digits_end(s, i) == at,
    decreases at - i,
{
    if i < at {
        assert(is_digit(s[i]));
        lemma_digits_end_at(s, i + 1, at);
    }
}

proof fn lemma_no_word(s: Seq<char>)
    requires
        s.len() > 0,
        '0' <= s[0] <= '9',
    ensures
        !spells(s, seq!['i', 'n', 'f']),
        !spells(s, seq!['i', 'n', 'f', 'i', 'n', 'i', 't', 'y']),
        !spells(s, seq!['n', 'a', 'n']),
        unsigned_part(s) == s,
        !minus_signed(s),
{
    assert(!same_letter(s[0], 'i'));
    assert(!same_letter(s[0], 'n'));
}

proof fn lemma_plain_numeral(s: Seq<char>)
    requires
        s.len() > 0,
        forall|i: int| 0 <= i < s.len() ==> '0' <= #[trigger] s[i] <= '9',
    ensures
        parsed(s) == Some(
            Binary64::assemble(
                false,
                rounding::nearest_magnitude(digits_value(s) * pow2(FRACTION_PLACES as nat), 1),
            ),
        ),
{
    lemma_no_word(s);
    lemma_digits_end_at(s, 0, s.len() as int);
    assert(integer_digits(s) + fraction_digits(s) =~= s);
    assert(s.skip(mantissa_end(s)) =~= Seq::empty());
    assert(ten_to(0) == 1);
    lemma_mul_basics(digits_value(s) as int);
}

proof fn lemma_pointed_numeral(whole: Seq<char>, fraction: Seq<char>)
    requires
        whole.len() > 0,
        forall|i: int| 0 <= i < whole.len() ==> '0' <= #[trigger] whole[i] <= '9',
        forall|i: int| 0 <= i < fraction.len() ==> '0' <= #[trigger] fraction[i] <= '9',
    ensures
        parsed(whole.push('.') + fraction) == Some(
            Binary64::assemble(
                false,
                rounding::nearest_magnitude(
                    digits_value(whole + fraction) * pow2(FRACTION_PLACES as nat),
                    ten_to(fraction.len()),
                ),
            ),
        ),
{
    let s = whole.push('.') + fraction;
    let n = whole.len() as int;
    assert(s[0] == whole[0]);
    lemma_no_word(s);
    assert forall|j: int| 0 <= j < n implies is_digit(#[trigger] s[j]) by {
        assert(s[j] == whole[j]);
    }
    assert(s[n] == '.');
    lemma_digits_end_at(s, 0, n);
    assert forall|j: int| n + 1 <= j < s.len() implies is_digit(#[trigger] s[j]) by {
        assert(s[j] == fraction[j - n - 1]);
    }
    lemma_digits_end_at(s, n + 1, s.len() as int);
    assert(integer_digits(s) =~= whole);
    assert(fraction_digits(s) =~= fraction);
    assert(s.skip(mantissa_end(s)) =~= Seq::empty());
    if fraction.len() == 0 {
        assert(whole + fraction =~= whole);
        assert(ten_to(0) == 1);
        lemma_mul_basics(digits_value(whole) as int);
    }
}

/// A sign before a numeral gives the number with that sign.
pub proof fn lemma_sign_is_read(s: Seq<char>)
    requires
        s.len() > 0,
        '0' <= s[0] <= '9',
    ensures
        parsed(seq!['+'] + s) == parsed(s),
        parsed(s) matches Some(x) ==> parsed(seq!['-'] + s) == Some(
            Binary64::assemble(true, x.magnitude()),
        ),
        parsed(s) is None ==> parsed(seq!['-'] + s) is None,
{
    lemma_no_word(s);
    let p = seq!['+'] + s;
    let m = seq!['-'] + s;
    assert(p.skip(1) =~= s);
    assert(m.skip(1) =~= s);
    if let Some(n) = numeral(s) {
        assert(decimal_magnitude(n.0, n.1) <= INFINITY_MAGNITUDE);
    }
}

/// A power of ten behind a numeral scales it.
pub proof fn lemma_power_is_read(whole: Seq<char>, e: char, power: Seq<char>)
    requires
        whole.len() > 0,
        power.len() > 0,
        e == 'e' || e == 'E',
        forall|i: int| 0 <= i < whole.len() ==> '0' <= #[trigger] whole[i] <= '9',
        forall|i: int| 0 <= i < power.len() ==> '0' <= #[trigger] power[i] <= '9',
    ensures
        parsed(whole.push(e) + power) == Some(
            Binary64::assemble(
                false,
                rounding::nearest_magnitude(
                    digits_value(whole) * ten_to(digits_value(power)) * pow2(
                        FRACTION_PLACES as nat,
                    ),
                    1,
                ),
            ),
        ),
        digits_value(power) > 0 ==> parsed(whole.push(e) + (seq!['-'] + power)) == Some(
            Binary64::assemble(
                false,
                rounding::nearest_magnitude(
                    digits_value(whole) * pow2(FRACTION_PLACES as nat),
                    ten_to(digits_value(power)),
                ),
            ),
        ),
{
    let minus = seq!['-'] + power;
    lemma_power_part(whole, e, power);
    lemma_power_part(whole, e, minus);
    lemma_digits_end_at(power, 0, power.len() as int);
    assert(unsigned_part(power) == power);
    assert(minus.skip(1) =~= power);
    assert(!minus_signed(power));
}

/// The parts of a numeral with a power of ten.
proof fn lemma_power_part(whole: Seq<char>, e: char, rest: Seq<char>)
    requires
        whole.len() > 0,
        e == 'e' || e == 'E',
        forall|i: int| 0 <= i < whole.len() ==> '0' <= #[trigger] whole[i] <= '9',
    ensures
        ({
            let s = whole.push(e) + rest;
            let tail = seq![e] + rest;
            &&& tail.skip(1) == rest
            &&& parsed(s) == match exponent_part(tail) {
                Some(x) => Some(
                    Binary64::assemble(false, decimal_magnitude(digits_value(whole), x)),
                ),
                None => None,
            }
        }),
{
    let s = whole.push(e) + rest;
    let tail = seq![e] + rest;
    let n = whole.len() as int;
    assert(tail.skip(1) =~= rest);
    assert(s[0] == whole[0]);
    lemma_no_word(s);
    assert forall|j: int| 0 <= j < n implies is_digit(#[trigger] s[j]) by {
        assert(s[j] == whole[j]);
    }
    assert(s[n] == e);
    lemma_digits_end_at(s, 0, n);
    assert(integer_digits(s) =~= whole);
    assert(integer_digits(s) + fraction_digits(s) =~= whole);
    assert(s.skip(mantissa_end(s)) =~= tail);
}

/// Whether a character can stand in a numeral or in one of the words.
pub open spec fn is_readable(c: char) -> bool {
    '0' <= c <= '9' || c == '+' || c == '-' || c == '.' || 'a' <= c <= 'z' || 'A' <= c <= 'Z'
}

/// A text with a character that stands in no numeral is not read, nor is an
/// empty one.
pub proof fn lemma_unreadable(s: Seq<char>)
    ensures
        parsed(s) is Some ==> s.len() > 0 && forall|i: int|
            0 <= i < s.len() ==> is_readable(#[trigger] s[i]),
{
    if parsed(s) is Some {
        let u = unsigned_part(s);
        let k = s.len() - u.len();
        assert forall|i: int| 0 <= i < u.len() implies is_readable(#[trigger] u[i]) by {
            lemma_readable_part(u, i);
        }
        assert(u.len() > 0) by {
            assert(seq!['i', 'n', 'f'].len() == 3);
            if u.len() == 0 {
                lemma_digits_end(u, 0);
                assert(integer_digits(u) + fraction_digits(u) =~= Seq::empty());
            }
        }
        assert forall|i: int| 0 <= i < s.len() implies is_readable(#[trigger] s[i]) by {
            if i >= k {
                assert(s[i] == u[i - k]);
            }
        }
    }
}

proof fn lemma_letter(c: char, lower: char)
    requires
        same_letter(c, lower),
        'a' <= lower <= 'z',
    ensures
        is_readable(c),
{
}

proof fn lemma_readable_part(u: Seq<char>, i: int)
    requires
        unsigned_magnitude(u) is Some,
        0 <= i < u.len(),
    ensures
        is_readable(u[i]),
{
    let inf = seq!['i', 'n', 'f'];
    let infinity = seq!['i', 'n', 'f', 'i', 'n', 'i', 't', 'y'];
    let nan = seq!['n', 'a', 'n'];
    if spells(u, inf) {
        assert(same_letter(u[i], inf[i]));
        assert('a' <= inf[i] <= 'z');
        lemma_letter(u[i], inf[i]);
    } else if spells(u, infinity) {
        assert(same_letter(u[i], infinity[i]));
        assert('a' <= infinity[i] <= 'z');
        lemma_letter(u[i], infinity[i]);
    } else if spells(u, nan) {
        assert(same_letter(u[i], nan[i]));
        assert('a' <= nan[i] <= 'z');
        lemma_letter(u[i], nan[i]);
    } else {
        let a = digits_end(u, 0);
        lemma_digits_end(u, 0);
        let b = mantissa_end(u);
        if has_point(u) {
            lemma_digits_end(u, a + 1);
        }
        if i < a {
            assert(is_digit(u[i]));
        } else if i < b {
            if i > a {
                assert(is_digit(u[i]));
            }
        } else {
            let tail = u.skip(b);
            assert(tail[i - b] == u[i]);
            assert(tail[0] == u[b]);
            lemma_letter(tail[0], 'e');
            if i > b {
                let rest = tail.skip(1);
                let digits = unsigned_part(rest);
                let k = rest.len() - digits.len();
                assert(rest[i - b - 1] == u[i]);
                lemma_digits_end(digits, 0);
                if i - b - 1 >= k {
                    assert(digits[i - b - 1 - k] == u[i]);
                    assert(is_digit(digits[i - b - 1 - k]));
                }
            }
        }
    }
}

} // verus!
