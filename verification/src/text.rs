//! Numbers and columns as text.

use crate::binary64::{Binary64, FRACTION_PLACES};
use crate::decimal;
use crate::rounding;
use vstd::arithmetic::div_mod::*;
use vstd::arithmetic::power2::*;
use vstd::prelude::*;

verus! {

/// The decimal digits of an integer.
pub open spec fn digits(n: nat) -> Seq<char>
    decreases n,
{
    if n < 10 {
        seq!["0123456789"@[n as int]]
    } else {
        digits(n / 10).push("0123456789"@[(n % 10) as int])
    }
}

/// A character `n` times.
pub open spec fn repeated(c: char, n: nat) -> Seq<char> {
    Seq::new(n, |i: int| c)
}

/// A text with spaces before it that fill up `width` characters.
pub open spec fn right_aligned(s: Seq<char>, width: nat) -> Seq<char> {
    if s.len() < width {
        repeated(' ', (width - s.len()) as nat) + s
    } else {
        s
    }
}

/// The number of tenths nearest to a finite number without a sign, the even
/// one of two that are equally near.
pub open spec fn tenths(x: Binary64) -> nat {
    rounding::half_even(x.size() * 10, pow2(FRACTION_PLACES as nat))
}

/// A finite number without a sign, with one digit behind the point.
pub open spec fn one_place(x: Binary64) -> Seq<char> {
    digits(tenths(x) / 10) + "."@ + digits(tenths(x) % 10)
}

/// Whether a number has no sign and is less than `2^70`.
pub open spec fn is_printable(x: Binary64) -> bool {
    x.finite() && !x.negative() && x.size() < pow2(70) * pow2(FRACTION_PLACES as nat)
}

/// Appends the digits of an integer.
pub(crate) fn append_integer(text: &mut String, n: u128)
    ensures
        final(text)@ == old(text)@ + digits(n as nat),
    decreases n,
{
    let ghost before = text@;
    if n >= 10 {
        append_integer(text, n / 10);
    }
    let d = (n % 10) as usize;
    proof {
        reveal_strlit("0123456789");
    }
    text.append("0123456789".substring_char(d, d + 1));
    assert(text@ =~= before + digits(n as nat));
}

/// Appends spaces.
pub(crate) fn append_spaces(text: &mut String, n: usize)
    ensures
        final(text)@ == old(text)@ + repeated(' ', n as nat),
{
    let ghost before = text@;
    let mut i: usize = 0;
    assert(text@ =~= before + repeated(' ', 0));
    while i < n
        invariant
            i <= n,
            text@ == before + repeated(' ', i as nat),
        decreases n - i,
    {
        proof {
            reveal_strlit(" ");
        }
        text.append(" ");
        i = i + 1;
        assert(text@ =~= before + repeated(' ', i as nat));
    }
}

/// Counts the tenths nearest to a number.
fn count_tenths(x: Binary64) -> (n: u128)
    requires
        is_printable(x),
    ensures
        n == tenths(x),
{
    let (s, k) = x.parts();
    let ghost one = pow2(FRACTION_PLACES as nat);
    let m: u128 = s as u128 * 10;
    proof {
        lemma_pow2_pos(FRACTION_PLACES as nat);
        lemma_pow2_pos(k as nat);
        assert(x.size() * 10 == m * pow2(k as nat)) by (nonlinear_arith)
            requires
                x.size() == s * pow2(k as nat),
                m == s * 10,
        ;
    }
    if k >= FRACTION_PLACES {
        let e = k - FRACTION_PLACES;
        proof {
            lemma_pow2_adds(e as nat, FRACTION_PLACES as nat);
            let p = pow2(e as nat);
            assert(m * pow2(k as nat) == (m * p) * one) by (nonlinear_arith)
                requires
                    pow2(k as nat) == p * one,
            ;
            lemma_fundamental_div_mod_converse(
                (x.size() * 10) as int,
                one as int,
                (m * p) as int,
                0,
            );
            if e >= 70 {
                rounding::lemma_pow2_monotone(70, e as nat);
                assert(x.size() >= pow2(70) * one) by (nonlinear_arith)
                    requires
                        x.size() == s * pow2(k as nat),
                        s >= 1,
                        pow2(k as nat) == p * one,
                        p >= pow2(70),
                        one > 0,
                {
                    assert(p * one >= pow2(70) * one);
                    assert(s * (p * one) >= p * one);
                }
            }
            rounding::lemma_pow2_monotone(e as nat, 70);
            lemma_pow2_adds(64, 6);
            lemma2_to64();
            assert(m * p <= 0x140_0000_0000_0000 * 0x40_0000_0000_0000_0000) by (nonlinear_arith)
                requires
                    0 <= m <= 0x140_0000_0000_0000,
                    0 <= p <= 0x40_0000_0000_0000_0000,
            ;
        }
        m * rounding::power_of_two(e)
    } else {
        let shift = FRACTION_PLACES - k;
        let ghost p = pow2(shift as nat);
        proof {
            lemma_pow2_adds(shift as nat, k as nat);
            lemma_pow2_pos(shift as nat);
            rounding::lemma_half_even_common_factor(m as nat, p, pow2(k as nat));
        }
        if shift >= 64 {
            proof {
                rounding::lemma_pow2_monotone(64, shift as nat);
                lemma2_to64();
                lemma_fundamental_div_mod_converse(m as int, p as int, 0, m as int);
            }
            0
        } else {
            let q = rounding::power_of_two(shift);
            let below = m / q;
            let rest = m % q;
            proof {
                rounding::lemma_pow2_monotone(shift as nat, 64);
                lemma2_to64();
                assert(below <= m) by (nonlinear_arith)
                    requires
                        below == m / q,
                        q >= 1,
                ;
            }
            if 2 * rest < q || (2 * rest == q && below % 2 == 0) {
                below
            } else {
                below + 1
            }
        }
    }
}

/// Appends a number with one digit behind the point, aligned to the right.
pub(crate) fn append_one_place(text: &mut String, x: Binary64, width: usize)
    requires
        is_printable(x),
    ensures
        final(text)@ == old(text)@ + right_aligned(one_place(x), width as nat),
{
    let ghost before = text@;
    let n = count_tenths(x);
    let mut number = String::new();
    append_integer(&mut number, n / 10);
    number.append(".");
    append_integer(&mut number, n % 10);
    assert(number@ =~= one_place(x));
    let len = number.as_str().unicode_len();
    if len < width {
        append_spaces(text, width - len);
    }
    text.append(number.as_str());
    assert(text@ =~= before + right_aligned(one_place(x), width as nat));
}

/// The digits of an integer denote it, and start with a zero only where it is
/// zero.
pub proof fn lemma_digits(n: nat)
    ensures
        digits(n).len() > 0,
        forall|i: int| 0 <= i < digits(n).len() ==> '0' <= #[trigger] digits(n)[i] <= '9',
        decimal::digits_value(digits(n)) == n,
        n < 10 ==> digits(n).len() == 1,
        n > 0 ==> digits(n)[0] != '0',
    decreases n,
{
    reveal_strlit("0123456789");
    let d = n % 10;
    let c = "0123456789"@[d as int];
    assert('0' <= c <= '9' && decimal::digit_value(c) == d && (d > 0 ==> c != '0')) by {
        assert(d == 0 || d == 1 || d == 2 || d == 3 || d == 4 || d == 5 || d == 6 || d == 7 || d
            == 8 || d == 9);
    }
    reveal_with_fuel(decimal::digits_value, 2);
    if n >= 10 {
        lemma_digits(n / 10);
        let front = digits(n / 10);
        assert(digits(n).drop_last() =~= front);
        assert(digits(n).last() == c);
        assert forall|i: int| 0 <= i < digits(n).len() implies '0' <= #[trigger] digits(n)[i]
            <= '9' by {
            if i < front.len() {
                assert(digits(n)[i] == front[i]);
            }
        }
        assert(digits(n)[0] == front[0]);
    } else {
        assert(digits(n) =~= seq![c]);
        assert(digits(n).drop_last() =~= Seq::empty());
        assert(digits(n).last() == c);
    }
}

/// A number with one digit behind the point is the nearest one: twice its
/// distance from the number is at most a tenth.
pub proof fn lemma_one_place(x: Binary64)
    ensures
        ({
            let one = pow2(FRACTION_PLACES as nat);
            let n = tenths(x);
            &&& 2 * (10 * x.size()) - one <= 2 * (n * one) <= 2 * (10 * x.size()) + one
            &&& one_place(x) == digits(n / 10) + "."@ + digits(n % 10)
            &&& decimal::digits_value(digits(n / 10)) * 10 + decimal::digits_value(digits(n % 10))
                == n
            &&& digits(n % 10).len() == 1
        }),
{
    let one = pow2(FRACTION_PLACES as nat);
    lemma_pow2_pos(FRACTION_PLACES as nat);
    crate::precision::lemma_half_even_error(x.size() * 10, one);
    lemma_digits(tenths(x) / 10);
    lemma_digits(tenths(x) % 10);
}

/// Alignment puts spaces before a text until it has the width, and never cuts
/// it.
pub proof fn lemma_right_aligned(s: Seq<char>, width: nat)
    ensures
        ({
            let t = right_aligned(s, width);
            &&& s.len() >= width ==> t == s
            &&& s.len() < width ==> t.len() == width
            &&& t.len() >= s.len()
            &&& t.skip(t.len() - s.len()) == s
            &&& forall|i: int| 0 <= i < t.len() - s.len() ==> #[trigger] t[i] == ' '
        }),
{
    let t = right_aligned(s, width);
    assert(t.skip(t.len() - s.len()) =~= s);
}

} // verus!
