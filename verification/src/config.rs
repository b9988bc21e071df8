//! What the user asks for, and the addresses that follow from it.

use crate::binary64::Binary64;
use crate::book;
use crate::decimal;
use crate::precision;
use vstd::arithmetic::power2::*;
use vstd::prelude::*;

verus! {

/// The encoding of one.
pub const ONE_BITS: u64 = 0x3ff0_0000_0000_0000;

/// The constant is one.
pub proof fn lemma_one()
    ensures
        Binary64::of_integer(1).bits == ONE_BITS,
{
    lemma2_to64();
    lemma2_to64_rest();
    precision::lemma_integer_encoding(1, 1);
}

/// The characters with the Unicode property `White_Space`.
pub open spec fn is_white(c: char) -> bool {
    let n = c as u32;
    ||| 0x09 <= n <= 0x0d
    ||| n == 0x20
    ||| n == 0x85
    ||| n == 0xa0
    ||| n == 0x1680
    ||| 0x2000 <= n <= 0x200a
    ||| n == 0x2028
    ||| n == 0x2029
    ||| n == 0x202f
    ||| n == 0x205f
    ||| n == 0x3000
}

/// A text without the white space at its front.
pub open spec fn without_front(s: Seq<char>) -> Seq<char>
    decreases s.len(),
{
    if s.len() > 0 && is_white(s[0]) {
        without_front(s.drop_first())
    } else {
        s
    }
}

/// A text without the white space at its end.
pub open spec fn without_end(s: Seq<char>) -> Seq<char>
    decreases s.len(),
{
    if s.len() > 0 && is_white(s.last()) {
        without_end(s.drop_last())
    } else {
        s
    }
}

/// A text without white space around it.
pub open spec fn trimmed(s: Seq<char>) -> Seq<char> {
    without_end(without_front(s))
}

/// A text in lower case, as [`str::to_lowercase`] gives it.
pub uninterp spec fn lower_cased(s: Seq<char>) -> Seq<char>;

/// A text in upper case, as [`str::to_uppercase`] gives it.
pub uninterp spec fn upper_cased(s: Seq<char>) -> Seq<char>;

/// An ASCII letter in lower case; any other character as it is.
pub open spec fn lower_letter(c: char) -> char {
    if 'A' <= c <= 'Z' {
        (c as u32 + 32) as char
    } else {
        c
    }
}

/// An ASCII letter in upper case; any other character as it is.
pub open spec fn upper_letter(c: char) -> char {
    if 'a' <= c <= 'z' {
        (c as u32 - 32) as char
    } else {
        c
    }
}

/// Whether a text is made of ASCII characters.
pub open spec fn is_plain(s: Seq<char>) -> bool {
    forall|i: int| 0 <= i < s.len() ==> (#[trigger] s[i] as u32) < 0x80
}

/// Calls [`str::to_lowercase`]: the result is a function of the text, and of a
/// text in ASCII it is the text with its capital letters made small.
#[verifier::external_body]
fn to_lower(s: &str) -> (r: String)
    ensures
        r@ == lower_cased(s@),
        is_plain(s@) ==> r@ == s@.map_values(|c: char| lower_letter(c)),
{
    s.to_lowercase()
}

/// Calls [`str::to_uppercase`]: the result is a function of the text, and of a
/// text in ASCII it is the text with its small letters made capital.
#[verifier::external_body]
fn to_upper(s: &str) -> (r: String)
    ensures
        r@ == upper_cased(s@),
        is_plain(s@) ==> r@ == s@.map_values(|c: char| upper_letter(c)),
{
    s.to_uppercase()
}

/// Whether a character is white space.
pub fn is_white_space(c: char) -> (b: bool)
    ensures
        b == is_white(c),
{
    let n = c as u32;
    (0x09 <= n && n <= 0x0d) || n == 0x20 || n == 0x85 || n == 0xa0 || n == 0x1680 || (0x2000 <= n
        && n <= 0x200a) || n == 0x2028 || n == 0x2029 || n == 0x202f || n == 0x205f || n == 0x3000
}

/// A text without white space around it.
pub fn trim(s: &str) -> (r: &str)
    ensures
        r@ == trimmed(s@),
{
    let cs = decimal::characters(s);
    let n = cs.len();
    let mut from: usize = 0;
    assert(cs@.skip(0) =~= cs@);
    while from < n && is_white_space(cs[from])
        invariant
            from <= n == cs@.len(),
            without_front(cs@.skip(from as int)) == without_front(cs@),
        decreases n - from,
    {
        assert(cs@.skip(from as int).drop_first() =~= cs@.skip(from + 1));
        from = from + 1;
    }
    let ghost rest = cs@.skip(from as int);
    assert(rest == without_front(cs@));
    let mut to: usize = n;
    assert(rest =~= cs@.subrange(from as int, to as int));
    while to > from && is_white_space(cs[to - 1])
        invariant
            from <= to <= n == cs@.len(),
            without_end(cs@.subrange(from as int, to as int)) == without_end(rest),
        decreases to,
    {
        assert(cs@.subrange(from as int, to as int).drop_last() =~= cs@.subrange(
            from as int,
            to - 1,
        ));
        assert(cs@.subrange(from as int, to as int).last() == cs@[to - 1]);
        to = to - 1;
    }
    s.substring_char(from, to)
}

/// The symbol for an input in lower case: `btcusdt` where there is none.
pub open spec fn symbol_for(lowered: Seq<char>) -> Seq<char> {
    if lowered.len() == 0 {
        "btcusdt"@
    } else {
        lowered
    }
}

/// The symbol for an input in lower case: `btcusdt` where there is none.
pub fn symbol_or_default(lowered: String) -> (symbol: String)
    ensures
        symbol@ == symbol_for(lowered@),
{
    if lowered.as_str().is_empty() {
        "btcusdt".to_owned()
    } else {
        lowered
    }
}

/// The symbol that a line of input names.
pub fn symbol_from_input(line: &str) -> (symbol: String)
    ensures
        symbol@ == symbol_for(lower_cased(trimmed(line@))),
        is_plain(line@) ==> symbol@ == symbol_for(
            trimmed(line@).map_values(|c: char| lower_letter(c)),
        ),
{
    let word = trim(line);
    proof {
        if is_plain(line@) {
            lemma_trimmed_is_plain(line@);
        }
    }
    symbol_or_default(to_lower(word))
}

/// A part of a text in ASCII is in ASCII.
proof fn lemma_trimmed_is_plain(s: Seq<char>)
    requires
        is_plain(s),
    ensures
        is_plain(trimmed(s)),
{
    lemma_front_is_plain(s);
    lemma_end_is_plain(without_front(s));
}

proof fn lemma_front_is_plain(s: Seq<char>)
    requires
        is_plain(s),
    ensures
        is_plain(without_front(s)),
    decreases s.len(),
{
    if s.len() > 0 && is_white(s[0]) {
        assert forall|i: int| 0 <= i < s.drop_first().len() implies (
        #[trigger] s.drop_first()[i] as u32) < 0x80 by {
            assert(s.drop_first()[i] == s[i + 1]);
        }
        lemma_front_is_plain(s.drop_first());
    }
}

proof fn lemma_end_is_plain(s: Seq<char>)
    requires
        is_plain(s),
    ensures
        is_plain(without_end(s)),
    decreases s.len(),
{
    if s.len() > 0 && is_white(s.last()) {
        lemma_end_is_plain(s.drop_last());
    }
}

/// The width for what could be read of an input: one where nothing could, or
/// where it is not above zero.
pub open spec fn width_for(read: Option<Binary64>) -> Binary64 {
    match read {
        Some(x) if !Binary64::at_most(x, book::nothing()) => x,
        _ => Binary64 { bits: ONE_BITS },
    }
}

/// The width for what could be read of an input: one where nothing could, or
/// where it is not above zero.
pub fn width_or_default(read: Option<Binary64>) -> (width: Binary64)
    ensures
        width == width_for(read),
{
    match read {
        Some(x) => if x.is_at_most(Binary64::from_bits(0)) {
            Binary64::from_bits(ONE_BITS)
        } else {
            x
        },
        None => Binary64::from_bits(ONE_BITS),
    }
}

/// The width of a price bin that a line of input names.
pub fn bin_width_from_input(line: &str) -> (width: Binary64)
    ensures
        width == width_for(decimal::parsed(trimmed(line@))),
{
    width_or_default(decimal::parse(trim(line)))
}

/// A symbol in upper case.
pub fn upper_symbol(symbol: &str) -> (upper: String)
    ensures
        upper@ == upper_cased(symbol@),
        is_plain(symbol@) ==> upper@ == symbol@.map_values(|c: char| upper_letter(c)),
{
    to_upper(symbol)
}

/// The address of the stream of updates of a symbol.
pub fn stream_url(symbol: &str) -> (url: String)
    ensures
        url@ == "wss://fstream.binance.com/stream?streams="@ + symbol@ + "@depth@100ms"@,
{
    let mut url = String::from_str("wss://fstream.binance.com/stream?streams=");
    url.append(symbol);
    url.append("@depth@100ms");
    url
}

/// The address of the snapshot of a symbol in upper case.
pub fn snapshot_url_of(upper: &str) -> (url: String)
    ensures
        url@ == "https://fapi.binance.com/fapi/v1/depth?symbol="@ + upper@ + "&limit=1000"@,
{
    let mut url = String::from_str("https://fapi.binance.com/fapi/v1/depth?symbol=");
    url.append(upper);
    url.append("&limit=1000");
    url
}

/// The address of the snapshot of a symbol.
pub fn snapshot_url(symbol: &str) -> (url: String)
    ensures
        url@ == "https://fapi.binance.com/fapi/v1/depth?symbol="@ + upper_cased(symbol@)
            + "&limit=1000"@,
        is_plain(symbol@) ==> url@ == "https://fapi.binance.com/fapi/v1/depth?symbol="@
            + symbol@.map_values(|c: char| upper_letter(c)) + "&limit=1000"@,
{
    snapshot_url_of(to_upper(symbol).as_str())
}

/// Trimming takes away white space at both ends, all of it, and nothing else.
pub proof fn lemma_trimmed(s: Seq<char>) -> (cut: (int, int))
    ensures
        0 <= cut.0 <= cut.1 <= s.len(),
        trimmed(s) == s.subrange(cut.0, cut.1),
        forall|i: int| 0 <= i < cut.0 ==> is_white(#[trigger] s[i]),
        forall|i: int| cut.1 <= i < s.len() ==> is_white(#[trigger] s[i]),
        trimmed(s).len() > 0 ==> !is_white(trimmed(s)[0]) && !is_white(trimmed(s).last()),
{
    let a = lemma_front_cut(s);
    let t = s.skip(a);
    let b = lemma_end_cut(t);
    assert(t.take(b) =~= s.subrange(a, a + b));
    assert forall|i: int| a + b <= i < s.len() implies is_white(#[trigger] s[i]) by {
        assert(t[i - a] == s[i]);
    }
    if trimmed(s).len() > 0 {
        assert(trimmed(s)[0] == t[0]);
    }
    (a, a + b)
}

proof fn lemma_front_cut(s: Seq<char>) -> (at: int)
    ensures
        0 <= at <= s.len(),
        without_front(s) == s.skip(at),
        forall|i: int| 0 <= i < at ==> is_white(#[trigger] s[i]),
        at < s.len() ==> !is_white(s[at]),
    decreases s.len(),
{
    if s.len() > 0 && is_white(s[0]) {
        let rest = s.drop_first();
        let at = lemma_front_cut(rest);
        assert(rest.skip(at) =~= s.skip(at + 1));
        assert forall|i: int| 0 <= i < at + 1 implies is_white(#[trigger] s[i]) by {
            if i > 0 {
                assert(rest[i - 1] == s[i]);
            }
        }
        at + 1
    } else {
        assert(s.skip(0) =~= s);
        0
    }
}

proof fn lemma_end_cut(s: Seq<char>) -> (at: int)
    ensures
        0 <= at <= s.len(),
        without_end(s) == s.take(at),
        forall|i: int| at <= i < s.len() ==> is_white(#[trigger] s[i]),
        at > 0 ==> !is_white(s[at - 1]),
    decreases s.len(),
{
    if s.len() > 0 && is_white(s.last()) {
        let rest = s.drop_last();
        let at = lemma_end_cut(rest);
        assert(rest.take(at) =~= s.take(at));
        assert forall|i: int| at <= i < s.len() implies is_white(#[trigger] s[i]) by {
            if i < rest.len() {
                assert(rest[i] == s[i]);
            }
        }
        at
    } else {
        assert(s.take(s.len() as int) =~= s);
        s.len() as int
    }
}

/// Space, tab and the ends of lines are white space; of the other ASCII
/// characters none is.
pub proof fn lemma_white(c: char)
    ensures
        c == ' ' || c == '\t' || c == '\n' || c == '\r' ==> is_white(c),
        (c as u32) < 0x80 && is_white(c) ==> c == ' ' || '\t' <= c <= '\r',
{
}

/// A symbol of ASCII letters and digits is read as it is, in lower case, with
/// white space around it or without.
pub proof fn lemma_symbol(before: Seq<char>, word: Seq<char>, after: Seq<char>)
    requires
        forall|i: int| 0 <= i < before.len() ==> is_white(#[trigger] before[i]),
        forall|i: int| 0 <= i < after.len() ==> is_white(#[trigger] after[i]),
        word.len() > 0,
        !is_white(word[0]),
        !is_white(word.last()),
    ensures
        trimmed(before + word + after) == word,
        symbol_for(word) == word,
        trimmed(before) == Seq::<char>::empty(),
        symbol_for(Seq::empty()) == "btcusdt"@,
{
    let s = before + word + after;
    let cut = lemma_trimmed(s);
    let a = before.len() as int;
    let b = a + word.len();
    assert(s[a] == word[0]);
    assert(s[b - 1] == word.last());
    assert(cut.0 <= a) by {
        if cut.0 > a {
            assert(is_white(s[a]));
        }
    }
    assert(cut.1 >= b) by {
        if cut.1 < b {
            assert(is_white(s[b - 1]));
        }
    }
    assert(trimmed(s)[0] == s[cut.0]);
    if cut.0 < a {
        assert(s[cut.0] == before[cut.0]);
    }
    assert(trimmed(s).last() == s[cut.1 - 1]);
    if cut.1 > b {
        assert(s[cut.1 - 1] == after[cut.1 - 1 - b]);
    }
    assert(trimmed(s) =~= word);
    let none = lemma_trimmed(before);
    if trimmed(before).len() > 0 {
        assert(trimmed(before)[0] == before[none.0]);
    }
    assert(trimmed(before) =~= Seq::empty());
}

/// A width above zero is taken as it is read; zero, a negative one or none at
/// all gives one.
pub proof fn lemma_width(x: Binary64)
    ensures
        x.finite() && x.units() > 0 ==> width_for(Some(x)) == x,
        !x.nan() && (x.negative() || x.magnitude() == 0) ==> width_for(Some(x)) == Binary64::of_integer(
            1,
        ),
        width_for(None) == Binary64::of_integer(1),
{
    lemma_one();
    crate::binary64::lemma_parts(x);
    if x.finite() && x.units() > 0 {
        assert(!x.negative());
        if x.magnitude() == 0 {
            assert(x.significand() == 0);
            vstd::arithmetic::mul::lemma_mul_basics(pow2(x.scale()) as int);
        }
    }
}

} // verus!
