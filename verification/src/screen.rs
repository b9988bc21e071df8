//! What the terminal view shows, worked out from the book.

use crate::binary64;
use crate::binary64::{Binary64, FRACTION_PLACES, SIGN_WEIGHT};
use crate::book;
use crate::book::{BookSides, OrderBook, HUNDRED_BITS};
use crate::decimal;
use crate::precision;
use crate::rounding;
use crate::text;
use vstd::arithmetic::div_mod::*;
use vstd::arithmetic::mul::*;
use vstd::arithmetic::power2::*;
use vstd::prelude::*;

verus! {

/// The encoding of two.
pub const TWO_BITS: u64 = 0x4000_0000_0000_0000;

/// The constant is two.
pub proof fn lemma_two()
    ensures
        Binary64::of_integer(2).bits == TWO_BITS,
{
    lemma2_to64();
    lemma2_to64_rest();
    precision::lemma_integer_encoding(2, 2);
}

/// The character that starts an escape code.
pub const ESCAPE: char = '\x1b';

/// The narrowest columns that can be read.
pub const MIN_PRICE_COLUMN: usize = 8;
pub const MIN_QTY_COLUMN: usize = 8;
pub const MIN_BAR_WIDTH: usize = 5;

/// The room between the two sides.
pub const GAP_WIDTH: usize = 4;

/// The width that the narrowest columns take.
pub const MIN_TOTAL_WIDTH: usize = (MIN_PRICE_COLUMN + MIN_QTY_COLUMN + MIN_BAR_WIDTH) * 2
    + GAP_WIDTH + 4;

/// The width from which on a terminal is wide.
pub const WIDE_TERMINAL: usize = 100;

/// The longest bars of a terminal that is not wide, over the shortest, and of
/// one that is.
pub const MEDIUM_BAR_EXTRA: usize = 15;
pub const MAX_BAR_WIDTH: usize = 40;

/// The columns of a wide terminal.
pub const WIDE_PRICE_COLUMN: usize = 12;
pub const WIDE_QTY_COLUMN: usize = 10;

/// The widths from which on the parts of the view are shown in full.
pub const FULL_HEADER_WIDTH: usize = 67;
pub const FULL_QUOTE_WIDTH: usize = 70;
pub const FULL_TOTALS_WIDTH: usize = 75;
pub const FULL_PROFILE_WIDTH: usize = 50;
pub const FULL_FOOTER_WIDTH: usize = 60;

/// The number of bytes after which a title is cut.
pub const TITLE_BYTES: usize = 64;

/// The room that a symbol is given in a title.
pub const SYMBOL_ROOM: usize = 28;

/// The character that ends a message to the terminal.
pub const BELL: char = '\x07';

/// Where in a text with escape codes a terminal stands.
#[derive(Clone, Copy, Debug, PartialEq, Eq, Structural)]
pub enum AnsiState {
    /// Between codes.
    Text,
    /// Behind the escape character.
    Escape,
    /// In a control code, behind the bracket.
    Control,
    /// In a message to the terminal, such as its title.
    Message,
}

/// Whether a character ends a control code.
pub open spec fn is_final(c: char) -> bool {
    '@' <= c <= '~'
}

/// Whether a character behind the escape character starts a message.
pub open spec fn starts_message(c: char) -> bool {
    c == ']' || c == 'P' || c == 'X' || c == '^' || c == '_'
}

/// Where a terminal stands after one more character.  A control code is the
/// escape character, a bracket, and all up to the first final character; a
/// message ends with the bell or the next escape character; any other code is
/// the escape character, characters from the space to the slash, and one more.
pub open spec fn after_char(state: AnsiState, c: char) -> AnsiState {
    if c == ESCAPE {
        AnsiState::Escape
    } else {
        match state {
            AnsiState::Text => AnsiState::Text,
            AnsiState::Escape => if c == '[' {
                AnsiState::Control
            } else if starts_message(c) {
                AnsiState::Message
            } else if ' ' <= c <= '/' {
                AnsiState::Escape
            } else {
                AnsiState::Text
            },
            AnsiState::Control => if is_final(c) {
                AnsiState::Text
            } else {
                AnsiState::Control
            },
            AnsiState::Message => if c == BELL {
                AnsiState::Text
            } else {
                AnsiState::Message
            },
        }
    }
}

/// Whether a terminal shows a character.
pub open spec fn is_shown(state: AnsiState, c: char) -> bool {
    state == AnsiState::Text && c != ESCAPE
}

/// The number of characters that a terminal shows of a text.
pub open spec fn visible_len(s: Seq<char>, state: AnsiState) -> nat
    decreases s.len(),
{
    if s.len() == 0 {
        0
    } else {
        let rest = visible_len(s.drop_first(), after_char(state, s[0]));
        if is_shown(state, s[0]) {
            1 + rest
        } else {
            rest
        }
    }
}

/// Where a terminal stands after a text.
pub open spec fn after_text(s: Seq<char>, state: AnsiState) -> AnsiState
    decreases s.len(),
{
    if s.len() == 0 {
        state
    } else {
        after_text(s.drop_first(), after_char(state, s[0]))
    }
}

/// The visible length of a joined text is that of its parts.
pub proof fn lemma_visible_len_joined(a: Seq<char>, b: Seq<char>, state: AnsiState)
    ensures
        visible_len(a + b, state) == visible_len(a, state) + visible_len(b, after_text(a, state)),
        after_text(a + b, state) == after_text(b, after_text(a, state)),
    decreases a.len(),
{
    if a.len() == 0 {
        assert(a + b =~= b);
    } else {
        assert((a + b).drop_first() =~= a.drop_first() + b);
        lemma_visible_len_joined(a.drop_first(), b, after_char(state, a[0]));
    }
}

/// A text without escape codes is shown in full.
pub proof fn lemma_plain_text_is_visible(s: Seq<char>)
    requires
        !s.contains(ESCAPE),
    ensures
        visible_len(s, AnsiState::Text) == s.len(),
        after_text(s, AnsiState::Text) == AnsiState::Text,
    decreases s.len(),
{
    if s.len() > 0 {
        assert(s.contains(s[0]));
        let rest = s.drop_first();
        assert forall|c: char| rest.contains(c) implies s.contains(c) by {
            let i = choose|i: int| 0 <= i < rest.len() && rest[i] == c;
            assert(s[i + 1] == c);
        }
        lemma_plain_text_is_visible(rest);
    }
}

/// Whether a text is one control code, such as a colour or the erasing of a
/// line.
pub open spec fn is_code(s: Seq<char>) -> bool {
    &&& s.len() >= 3
    &&& s[0] == ESCAPE
    &&& s[1] == '['
    &&& is_final(s.last())
    &&& forall|i: int| 1 < i < s.len() - 1 ==> !is_final(#[trigger] s[i]) && s[i] != ESCAPE
}

proof fn lemma_code_tail(s: Seq<char>)
    requires
        s.len() >= 1,
        is_final(s.last()),
        forall|i: int| 0 <= i < s.len() - 1 ==> !is_final(#[trigger] s[i]) && s[i] != ESCAPE,
    ensures
        visible_len(s, AnsiState::Control) == 0,
        after_text(s, AnsiState::Control) == AnsiState::Text,
    decreases s.len(),
{
    let rest = s.drop_first();
    if rest.len() == 0 {
        assert(is_final(s[0]));
        assert(visible_len(rest, AnsiState::Text) == 0);
        assert(after_text(rest, AnsiState::Text) == AnsiState::Text);
    } else {
        assert(!is_final(s[0]));
        assert forall|i: int| 0 <= i < rest.len() - 1 implies !is_final(#[trigger] rest[i])
            && rest[i] != ESCAPE by {
            assert(rest[i] == s[i + 1]);
        }
        lemma_code_tail(rest);
    }
}

/// A control code takes no room, and text goes on behind it.
pub proof fn lemma_code_is_invisible(s: Seq<char>)
    requires
        is_code(s),
    ensures
        visible_len(s, AnsiState::Text) == 0,
        after_text(s, AnsiState::Text) == AnsiState::Text,
{
    let rest = s.drop_first();
    let tail = rest.drop_first();
    assert(rest[0] == s[1]);
    assert forall|i: int| 0 <= i < tail.len() - 1 implies !is_final(#[trigger] tail[i]) && tail[i]
        != ESCAPE by {
        assert(tail[i] == s[i + 2]);
    }
    assert(visible_len(rest, AnsiState::Escape) == visible_len(tail, AnsiState::Control));
    assert(after_text(rest, AnsiState::Escape) == after_text(tail, AnsiState::Control));
    lemma_code_tail(tail);
}

/// A control code anywhere in a text leaves its visible length as it is.
pub proof fn lemma_code_is_ignored(a: Seq<char>, code: Seq<char>, b: Seq<char>)
    requires
        is_code(code),
        after_text(a, AnsiState::Text) == AnsiState::Text,
    ensures
        visible_len(a + code + b, AnsiState::Text) == visible_len(a + b, AnsiState::Text),
{
    lemma_code_is_invisible(code);
    lemma_visible_len_joined(a, code, AnsiState::Text);
    lemma_visible_len_joined(a + code, b, AnsiState::Text);
    lemma_visible_len_joined(a, b, AnsiState::Text);
}

/// Colours take no room: a text between two control codes is as long as it is
/// by itself.
pub proof fn lemma_colours_take_no_room(before: Seq<char>, s: Seq<char>, after: Seq<char>)
    requires
        is_code(before),
        is_code(after),
        !s.contains(ESCAPE),
    ensures
        visible_len(before + s + after, AnsiState::Text) == s.len(),
{
    lemma_code_is_invisible(before);
    lemma_code_is_invisible(after);
    lemma_plain_text_is_visible(s);
    lemma_visible_len_joined(before, s, AnsiState::Text);
    lemma_visible_len_joined(before + s, after, AnsiState::Text);
}

fn next_state(state: AnsiState, c: char) -> (next: AnsiState)
    ensures
        next == after_char(state, c),
{
    if c == ESCAPE {
        return AnsiState::Escape;
    }
    match state {
        AnsiState::Text => AnsiState::Text,
        AnsiState::Escape => if c == '[' {
            AnsiState::Control
        } else if c == ']' || c == 'P' || c == 'X' || c == '^' || c == '_' {
            AnsiState::Message
        } else if ' ' <= c && c <= '/' {
            AnsiState::Escape
        } else {
            AnsiState::Text
        },
        AnsiState::Control => if '@' <= c && c <= '~' {
            AnsiState::Text
        } else {
            AnsiState::Control
        },
        AnsiState::Message => if c == BELL {
            AnsiState::Text
        } else {
            AnsiState::Message
        },
    }
}

/// The visible length of a text: ANSI escape codes are left out.
pub fn strip_ansi_len(s: &str) -> (len: usize)
    ensures
        len == visible_len(s@, AnsiState::Text),
{
    let cs = decimal::characters(s);
    let mut len: usize = 0;
    let mut state = AnsiState::Text;
    let mut i: usize = 0;
    assert(cs@.skip(0) =~= cs@);
    while i < cs.len()
        invariant
            i <= cs@.len(),
            len <= i,
            len + visible_len(cs@.skip(i as int), state) == visible_len(cs@, AnsiState::Text),
        decreases cs@.len() - i,
    {
        let c = cs[i];
        proof {
            let rest = cs@.skip(i as int);
            assert(rest[0] == c);
            assert(rest.drop_first() =~= cs@.skip(i + 1));
        }
        if state == AnsiState::Text && c != ESCAPE {
            len = len + 1;
        }
        state = next_state(state, c);
        i = i + 1;
    }
    assert(cs@.skip(i as int).len() == 0);
    len
}

/// The widths of the columns of a row.
#[derive(Clone, Copy, Debug, PartialEq, Eq, Structural)]
pub struct RowLayout {
    pub price_col: usize,
    pub qty_col: usize,
    pub bar_max_width: usize,
}

/// The smaller of two sizes.
pub open spec fn smaller(a: int, b: int) -> int {
    if a <= b {
        a
    } else {
        b
    }
}

/// The widths of the columns for a terminal.
pub open spec fn layout_for(term_width: int) -> RowLayout {
    if term_width < MIN_TOTAL_WIDTH {
        RowLayout {
            price_col: MIN_PRICE_COLUMN,
            qty_col: MIN_QTY_COLUMN,
            bar_max_width: MIN_BAR_WIDTH,
        }
    } else if term_width < WIDE_TERMINAL {
        RowLayout {
            price_col: (MIN_PRICE_COLUMN + 2) as usize,
            qty_col: (MIN_QTY_COLUMN + 1) as usize,
            bar_max_width: (MIN_BAR_WIDTH + smaller(
                (term_width - MIN_TOTAL_WIDTH) / 2,
                MEDIUM_BAR_EXTRA as int,
            )) as usize,
        }
    } else {
        RowLayout {
            price_col: WIDE_PRICE_COLUMN,
            qty_col: WIDE_QTY_COLUMN,
            bar_max_width: smaller(
                (term_width - (WIDE_PRICE_COLUMN + WIDE_QTY_COLUMN) * 2 - GAP_WIDTH - 10) / 2,
                MAX_BAR_WIDTH as int,
            ) as usize,
        }
    }
}

/// The width of a row.
pub open spec fn row_width(l: RowLayout) -> int {
    l.bar_max_width * 2 + l.qty_col * 2 + l.price_col * 2 + GAP_WIDTH + 4
}

impl RowLayout {
    /// The widths of the columns for a terminal.
    pub fn for_terminal(term_width: usize) -> (layout: RowLayout)
        ensures
            layout == layout_for(term_width as int),
            term_width < 50 ==> layout.price_col == 8 && layout.qty_col == 8
                && layout.bar_max_width == 5,
            50 <= term_width < 100 ==> layout.price_col == 10 && layout.qty_col == 9,
            50 <= term_width < 80 ==> term_width - 50 - 1 <= 2 * (layout.bar_max_width - 5)
                <= term_width - 50,
            80 <= term_width < 100 ==> layout.bar_max_width == 20,
            100 <= term_width ==> layout.price_col == 12 && layout.qty_col == 10,
            100 <= term_width < 138 ==> term_width - 58 - 1 <= 2 * layout.bar_max_width
                <= term_width - 58,
            138 <= term_width ==> layout.bar_max_width == 40,
    {
        if term_width < MIN_TOTAL_WIDTH {
            RowLayout {
                price_col: MIN_PRICE_COLUMN,
                qty_col: MIN_QTY_COLUMN,
                bar_max_width: MIN_BAR_WIDTH,
            }
        } else if term_width < WIDE_TERMINAL {
            let extra = (term_width - MIN_TOTAL_WIDTH) / 2;
            RowLayout {
                price_col: MIN_PRICE_COLUMN + 2,
                qty_col: MIN_QTY_COLUMN + 1,
                bar_max_width: MIN_BAR_WIDTH + if extra < MEDIUM_BAR_EXTRA {
                    extra
                } else {
                    MEDIUM_BAR_EXTRA
                },
            }
        } else {
            let fixed = (WIDE_PRICE_COLUMN + WIDE_QTY_COLUMN) * 2 + GAP_WIDTH + 10;
            let room = (term_width - fixed) / 2;
            RowLayout {
                price_col: WIDE_PRICE_COLUMN,
                qty_col: WIDE_QTY_COLUMN,
                bar_max_width: if room < MAX_BAR_WIDTH {
                    room
                } else {
                    MAX_BAR_WIDTH
                },
            }
        }
    }

}

/// Bars are never shorter than can be read nor longer than the longest, and
/// the rows of a wide terminal fit it.
pub proof fn lemma_layout(term_width: int)
    requires
        0 <= term_width,
    ensures
        MIN_BAR_WIDTH <= layout_for(term_width).bar_max_width <= MAX_BAR_WIDTH,
        row_width(layout_for(term_width)) <= 2 * MAX_BAR_WIDTH + 52,
        term_width >= WIDE_TERMINAL ==> row_width(layout_for(term_width)) <= term_width,
{
}

/// Which parts of the view are shown in full.
#[derive(Clone, Copy, Debug, PartialEq, Eq, Structural)]
pub struct ViewDetail {
    pub header: bool,
    pub quote: bool,
    pub totals: bool,
    pub profile: bool,
    pub footer: bool,
}

impl ViewDetail {
    /// What a terminal has the room to show in full.
    pub fn for_terminal(term_width: usize) -> (detail: ViewDetail)
        ensures
            detail == (ViewDetail {
                header: term_width >= FULL_HEADER_WIDTH,
                quote: term_width >= FULL_QUOTE_WIDTH,
                totals: term_width >= FULL_TOTALS_WIDTH,
                profile: term_width >= FULL_PROFILE_WIDTH,
                footer: term_width >= FULL_FOOTER_WIDTH,
            }),
            detail.header == (term_width >= 67),
            detail.quote == (term_width >= 70),
            detail.totals == (term_width >= 75),
            detail.profile == (term_width >= 50),
            detail.footer == (term_width >= 60),
    {
        ViewDetail {
            header: term_width >= FULL_HEADER_WIDTH,
            quote: term_width >= FULL_QUOTE_WIDTH,
            totals: term_width >= FULL_TOTALS_WIDTH,
            profile: term_width >= FULL_PROFILE_WIDTH,
            footer: term_width >= FULL_FOOTER_WIDTH,
        }
    }
}

/// The room to the left of something that is centred.
pub open spec fn centre(room: int, width: int) -> int {
    if width < room {
        (room - width) / 2
    } else {
        0
    }
}

/// The number of spaces that centre something of the given width.
pub fn centring_pad(room: usize, width: usize) -> (pad: usize)
    ensures
        pad == centre(room as int, width as int),
        width >= room ==> pad == 0,
        width < room ==> room - width - 1 <= 2 * pad <= room - width,
{
    if width < room {
        (room - width) / 2
    } else {
        0
    }
}

/// The number of spaces that centre the rows of a terminal.
pub fn row_pad(term_width: usize) -> (pad: usize)
    ensures
        pad == centre(term_width as int, row_width(layout_for(term_width as int))),
        term_width < 54 ==> pad == 0,
        term_width >= 138 ==> term_width - 132 - 1 <= 2 * pad <= term_width - 132,
        ({
            let l = layout_for(term_width as int);
            let width = 2 * l.bar_max_width + 2 * l.qty_col + 2 * l.price_col + 8;
            if width < term_width {
                term_width - width - 1 <= 2 * pad <= term_width - width
            } else {
                pad == 0
            }
        }),
{
    let l = RowLayout::for_terminal(term_width);
    proof {
        lemma_layout(term_width as int);
    }
    centring_pad(
        term_width,
        l.bar_max_width * 2 + l.qty_col * 2 + l.price_col * 2 + GAP_WIDTH + 4,
    )
}

/// Sums of quantities from the first one on.
pub open spec fn running_sum(list: Seq<(Binary64, Binary64)>, start: Binary64, n: nat) -> Binary64
    decreases n,
{
    if n == 0 {
        start
    } else {
        Binary64::sum(running_sum(list, start, (n - 1) as nat), list[n - 1].1)
    }
}

/// The sum of the quantities up to each bucket.
pub fn cumulative(list: &Vec<(Binary64, Binary64)>) -> (sums: Vec<Binary64>)
    ensures
        sums@.len() == list@.len(),
        forall|i: int|
            0 <= i < sums@.len() ==> #[trigger] sums@[i] == running_sum(
                list@,
                book::nothing(),
                (i + 1) as nat,
            ),
{
    let mut sums: Vec<Binary64> = Vec::new();
    let mut sum = Binary64::from_bits(0);
    let mut i: usize = 0;
    while i < list.len()
        invariant
            i <= list@.len(),
            sums@.len() == i,
            sum == running_sum(list@, book::nothing(), i as nat),
            forall|j: int|
                0 <= j < i ==> #[trigger] sums@[j] == running_sum(
                    list@,
                    book::nothing(),
                    (j + 1) as nat,
                ),
        decreases list@.len() - i,
    {
        sum = sum.plus(list[i].1);
        sums.push(sum);
        i = i + 1;
    }
    sums
}

/// The last of some sums; zero where there is none.
pub open spec fn last_or_nothing(sums: Seq<Binary64>) -> Binary64 {
    if sums.len() > 0 {
        sums.last()
    } else {
        book::nothing()
    }
}

fn last_sum(sums: &Vec<Binary64>) -> (x: Binary64)
    ensures
        x == last_or_nothing(sums@),
{
    let n = sums.len();
    if n > 0 {
        sums[n - 1]
    } else {
        Binary64::from_bits(0)
    }
}

/// The larger of the full sums of both sides.
pub fn deepest(bids: &Vec<Binary64>, asks: &Vec<Binary64>) -> (x: Binary64)
    ensures
        x == Binary64::larger(last_or_nothing(bids@), last_or_nothing(asks@)),
        bids@.len() == 0 && asks@.len() == 0 ==> x.bits == 0,
        bids@.len() > 0 && asks@.len() > 0 ==> (x == bids@.last() || x == asks@.last()),
        bids@.len() > 0 && bids@.last().finite() && x.finite() ==> bids@.last().rank() <= x.rank(),
        asks@.len() > 0 && asks@.last().finite() && x.finite() ==> asks@.last().rank() <= x.rank(),
        bids@.len() > 0 && asks@.len() == 0 && bids@.last().rank() >= 0 && bids@.last().finite()
            ==> x.magnitude() == bids@.last().magnitude(),
        asks@.len() > 0 && bids@.len() == 0 && asks@.last().rank() >= 0 && asks@.last().finite()
            ==> x.magnitude() == asks@.last().magnitude(),
{
    last_sum(bids).max(last_sum(asks))
}

/// The total of the quantities; that of none is the negative zero.
pub fn total(list: &Vec<(Binary64, Binary64)>) -> (x: Binary64)
    ensures
        x == running_sum(list@, Binary64 { bits: SIGN_WEIGHT }, list@.len()),
{
    let mut sum = Binary64::from_bits(SIGN_WEIGHT);
    let mut i: usize = 0;
    while i < list.len()
        invariant
            i <= list@.len(),
            sum == running_sum(list@, Binary64 { bits: SIGN_WEIGHT }, i as nat),
        decreases list@.len() - i,
    {
        sum = sum.plus(list[i].1);
        i = i + 1;
    }
    sum
}

/// The share of a bar's full width that a quantity takes.
pub open spec fn bar_share(qty: Binary64, deepest: Binary64, full: nat) -> nat {
    if Binary64::less(book::nothing(), deepest) {
        let share = Binary64::as_unsigned(
            Binary64::product(Binary64::quotient(qty, deepest), Binary64::of_integer(full)),
        );
        if share <= usize::MAX {
            share
        } else {
            usize::MAX as nat
        }
    } else {
        0
    }
}

fn share_of(qty: Binary64, deepest: Binary64, full: usize) -> (n: usize)
    ensures
        n == bar_share(qty, deepest, full as nat),
{
    if Binary64::from_bits(0).is_less(deepest) {
        let share = qty.over(deepest).times(Binary64::from_u64(full as u64)).to_u64();
        if share <= usize::MAX as u64 {
            share as usize
        } else {
            usize::MAX
        }
    } else {
        0
    }
}

/// The parts of a depth bar: room, the buckets before, the bucket itself.
#[derive(Clone, Copy, Debug, PartialEq, Eq, Structural)]
pub struct DepthBar {
    pub empty: usize,
    pub darker: usize,
    pub lighter: usize,
}

/// The bar of a bucket.
pub open spec fn bar_of(qty: Binary64, sum: Binary64, deepest: Binary64, full: usize) -> DepthBar {
    let whole = bar_share(sum, deepest, full as nat);
    let own = bar_share(qty, deepest, full as nat);
    DepthBar {
        empty: if whole <= full {
            (full - whole) as usize
        } else {
            0
        },
        darker: if own <= whole {
            (whole - own) as usize
        } else {
            0
        },
        lighter: if own <= full {
            own as usize
        } else {
            full
        },
    }
}

impl DepthBar {
    /// The bar of a bucket that holds `qty`, where the buckets up to it hold
    /// `sum`.
    pub fn new(qty: Binary64, sum: Binary64, deepest: Binary64, full: usize) -> (bar: DepthBar)
        ensures
            bar == bar_of(qty, sum, deepest, full),
    {
        let whole = share_of(sum, deepest, full);
        let own = share_of(qty, deepest, full);
        DepthBar {
            empty: if whole <= full {
                full - whole
            } else {
                0
            },
            darker: if own <= whole {
                whole - own
            } else {
                0
            },
            lighter: if own <= full {
                own
            } else {
                full
            },
        }
    }
}

/// A quantity that is not above the deepest one takes at most the full width.
pub proof fn lemma_share_fits(qty: Binary64, deepest: Binary64, full: nat)
    requires
        qty.finite() && !qty.negative(),
        deepest.finite() && !deepest.negative(),
        qty.magnitude() <= deepest.magnitude(),
        full < rounding::PRECISION_LIMIT,
    ensures
        bar_share(qty, deepest, full) <= full,
{
    let f = precision::one();
    lemma_pow2_pos(FRACTION_PLACES as nat);
    if Binary64::less(book::nothing(), deepest) {
        let ratio = lemma_ratio(qty, deepest);
        let share = lemma_scaled(ratio, full);
        lemma_div_is_ordered(share.size() as int, (full * f) as int, f as int);
        lemma_fundamental_div_mod_converse((full * f) as int, f as int, full as int, 0);
    }
}

/// The share is that of the uncut number, where it fits.
pub(crate) proof fn lemma_share_is_small(qty: Binary64, deepest: Binary64, full: nat)
    requires
        qty.finite() && !qty.negative(),
        deepest.finite() && !deepest.negative() && !deepest.zero(),
        qty.magnitude() <= deepest.magnitude(),
        full < rounding::PRECISION_LIMIT,
    ensures
        Binary64::product(Binary64::quotient(qty, deepest), Binary64::of_integer(full)).whole()
            <= full,
{
    let f = precision::one();
    lemma_pow2_pos(FRACTION_PLACES as nat);
    let ratio = lemma_ratio(qty, deepest);
    let share = lemma_scaled(ratio, full);
    lemma_div_is_ordered(share.size() as int, (full * f) as int, f as int);
    lemma_fundamental_div_mod_converse((full * f) as int, f as int, full as int, 0);
}

/// Of two quantities, the larger one takes no smaller share.
pub proof fn lemma_shares_ordered(a: Binary64, b: Binary64, deepest: Binary64, full: nat)
    requires
        a.finite() && !a.negative(),
        b.finite() && !b.negative(),
        deepest.finite() && !deepest.negative(),
        a.magnitude() <= b.magnitude() <= deepest.magnitude(),
        full < rounding::PRECISION_LIMIT,
    ensures
        bar_share(a, deepest, full) <= bar_share(b, deepest, full),
{
    let f = precision::one();
    lemma_pow2_pos(FRACTION_PLACES as nat);
    if Binary64::less(book::nothing(), deepest) {
        binary64::lemma_parts(deepest);
        precision::lemma_size_ordered(a, b);
        let x = lemma_ratio(a, deepest);
        let y = lemma_ratio(b, deepest);
        let d = deepest.size();
        assert((a.size() * f) * d <= (b.size() * f) * d) by (nonlinear_arith)
            requires
                a.size() <= b.size(),
                f > 0,
                d >= 0,
        {
            assert(a.size() * f <= b.size() * f);
        }
        precision::lemma_nearest_ordered(a.size() * f, d, b.size() * f, d);
        assert(x.magnitude() <= y.magnitude());
        precision::lemma_size_ordered(x, y);
        precision::lemma_small_integer(full);
        let w = Binary64::of_integer(full).size();
        assert((x.size() * w) * f <= (y.size() * w) * f) by (nonlinear_arith)
            requires
                x.size() <= y.size(),
                f > 0,
                w >= 0,
        {
            assert(x.size() * w <= y.size() * w);
        }
        precision::lemma_nearest_ordered(x.size() * w, f, y.size() * w, f);
        let p = lemma_scaled(x, full);
        let q = lemma_scaled(y, full);
        assert(p.magnitude() <= q.magnitude());
        precision::lemma_size_ordered(p, q);
        lemma_div_is_ordered(p.size() as int, q.size() as int, f as int);
    }
}

/// A quantity in relation to one that is not smaller.
proof fn lemma_ratio(qty: Binary64, deepest: Binary64) -> (ratio: Binary64)
    requires
        qty.finite() && !qty.negative(),
        deepest.finite() && !deepest.negative() && !deepest.zero(),
        qty.magnitude() <= deepest.magnitude(),
    ensures
        ratio == Binary64::quotient(qty, deepest),
        ratio.magnitude() == rounding::nearest_magnitude(
            qty.size() * precision::one(),
            deepest.size(),
        ),
        ratio.finite() && !ratio.negative(),
        ratio.size() <= precision::one(),
{
    let f = precision::one();
    let s = qty.size();
    let d = deepest.size();
    lemma_pow2_pos(FRACTION_PLACES as nat);
    binary64::lemma_parts(qty);
    binary64::lemma_parts(deepest);
    precision::lemma_size_ordered(qty, deepest);
    precision::lemma_small_integer(1);
    let ratio = Binary64::quotient(qty, deepest);
    let unit = Binary64::of_integer(1);
    lemma_mul_basics(f as int);
    assert((s * f) * 1 <= (1 * f) * d) by (nonlinear_arith)
        requires
            s <= d,
            f > 0,
    ;
    precision::lemma_nearest_ordered(s * f, d, 1 * f, 1);
    assert(ratio.magnitude() <= unit.magnitude());
    precision::lemma_size_ordered(ratio, unit);
    ratio
}

/// A width times a ratio that is at most one.
proof fn lemma_scaled(ratio: Binary64, full: nat) -> (share: Binary64)
    requires
        ratio.finite() && !ratio.negative(),
        ratio.size() <= precision::one(),
        full < rounding::PRECISION_LIMIT,
    ensures
        share == Binary64::product(ratio, Binary64::of_integer(full)),
        share.magnitude() == rounding::nearest_magnitude(
            ratio.size() * Binary64::of_integer(full).size(),
            precision::one(),
        ),
        share.finite() && !share.negative(),
        share.size() <= full * precision::one(),
{
    let f = precision::one();
    lemma_pow2_pos(FRACTION_PLACES as nat);
    precision::lemma_small_integer(full);
    let wide = Binary64::of_integer(full);
    let q = ratio.size();
    assert((q * (full * f)) * 1 <= (full * f) * f) by (nonlinear_arith)
        requires
            q <= f,
            full >= 0,
            f > 0,
    {
        assert(full * f >= 0);
        assert(q * (full * f) <= f * (full * f));
    }
    precision::lemma_nearest_ordered(q * (full * f), f, full * f, 1);
    let share = Binary64::product(ratio, wide);
    assert(share.magnitude() <= wide.magnitude());
    precision::lemma_size_ordered(share, wide);
    share
}

/// Where a bucket holds no more than the buckets up to it, and those no more
/// than the deepest side, the parts of its bar make up the full width.
pub proof fn lemma_bar_is_full(
    qty: Binary64,
    sum: Binary64,
    deepest: Binary64,
    full: usize,
)
    requires
        qty.finite() && !qty.negative(),
        sum.finite() && !sum.negative(),
        deepest.finite() && !deepest.negative(),
        qty.magnitude() <= sum.magnitude() <= deepest.magnitude(),
        full < rounding::PRECISION_LIMIT,
    ensures
        ({
            let bar = bar_of(qty, sum, deepest, full);
            &&& bar.empty + bar.darker + bar.lighter == full
            &&& bar.lighter == bar_share(qty, deepest, full as nat)
            &&& bar.darker + bar.lighter == bar_share(sum, deepest, full as nat)
        }),
{
    lemma_share_fits(qty, deepest, full as nat);
    lemma_share_fits(sum, deepest, full as nat);
    lemma_shares_ordered(qty, sum, deepest, full as nat);
}

/// The imbalance of two totals, in percent.
pub open spec fn imbalance_of(bids: Binary64, asks: Binary64) -> Binary64 {
    let both = Binary64::sum(bids, asks);
    if Binary64::less(book::nothing(), both) {
        Binary64::product(
            Binary64::quotient(Binary64::difference(bids, asks), both),
            Binary64 { bits: HUNDRED_BITS },
        )
    } else {
        book::nothing()
    }
}

/// The imbalance of two totals, in percent: above zero where bids prevail.
pub fn imbalance(bids: Binary64, asks: Binary64) -> (x: Binary64)
    ensures
        x == imbalance_of(bids, asks),
{
    let both = bids.plus(asks);
    if Binary64::from_bits(0).is_less(both) {
        bids.minus(asks).over(both).times(Binary64::from_bits(HUNDRED_BITS))
    } else {
        Binary64::from_bits(0)
    }
}

/// Which side prevails.
#[derive(Clone, Copy, Debug, PartialEq, Eq, Structural)]
pub enum Lean {
    Bids,
    Asks,
    Neither,
}

/// Which side an imbalance is in favour of.
pub fn lean_of(imbalance: Binary64) -> (lean: Lean)
    ensures
        lean == if Binary64::less(book::nothing(), imbalance) {
            Lean::Bids
        } else if Binary64::less(imbalance, book::nothing()) {
            Lean::Asks
        } else {
            Lean::Neither
        },
        imbalance.finite() ==> (lean == Lean::Bids <==> imbalance.units() > 0),
        imbalance.finite() ==> (lean == Lean::Asks <==> imbalance.units() < 0),
{
    proof {
        binary64::lemma_parts(imbalance);
    }
    if Binary64::from_bits(0).is_less(imbalance) {
        Lean::Bids
    } else if imbalance.is_less(Binary64::from_bits(0)) {
        Lean::Asks
    } else {
        Lean::Neither
    }
}

/// The prices at the top of the book.
#[derive(Clone, Copy, Debug)]
pub struct Quote {
    pub mid_price: Binary64,
    pub spread: Binary64,
    pub spread_pct: Binary64,
}

/// The price of the best level of a side; zero where there is none.
pub open spec fn top_price(level: Option<(Binary64, Binary64)>) -> Binary64 {
    match level {
        Some(l) => l.0,
        None => book::nothing(),
    }
}

/// The middle, the distance and the relative distance of two prices.
pub open spec fn quote_of(b: BookSides) -> Quote {
    let bid = if b.bids.len() > 0 {
        Some(b.bids.last())
    } else {
        None
    };
    let ask = if b.asks.len() > 0 {
        Some(b.asks[0])
    } else {
        None
    };
    let mid = Binary64::quotient(
        Binary64::sum(top_price(bid), top_price(ask)),
        Binary64 { bits: TWO_BITS },
    );
    let spread = if bid is Some && ask is Some {
        Binary64::difference(top_price(ask), top_price(bid))
    } else {
        book::nothing()
    };
    Quote {
        mid_price: mid,
        spread,
        spread_pct: if Binary64::less(book::nothing(), mid) {
            Binary64::product(
                Binary64::quotient(spread, mid),
                Binary64 { bits: HUNDRED_BITS },
            )
        } else {
            book::nothing()
        },
    }
}

impl Quote {
    /// The prices at the top of a book.
    pub fn new(book: &OrderBook) -> (quote: Quote)
        ensures
            quote == quote_of(book.sides()),
    {
        let spread = match book.spread() {
            Some(width) => width,
            None => Binary64::from_bits(0),
        };
        let bid = match book.best_bid() {
            Some((price, _)) => price,
            None => Binary64::from_bits(0),
        };
        let ask = match book.best_ask() {
            Some((price, _)) => price,
            None => Binary64::from_bits(0),
        };
        let mid_price = bid.plus(ask).over(Binary64::from_bits(TWO_BITS));
        let spread_pct = if Binary64::from_bits(0).is_less(mid_price) {
            spread.over(mid_price).times(Binary64::from_bits(HUNDRED_BITS))
        } else {
            Binary64::from_bits(0)
        };
        Quote { mid_price, spread, spread_pct }
    }
}

/// A text without an ending, where it ends so.
pub open spec fn without_ending(s: Seq<char>, ending: Seq<char>) -> Option<Seq<char>> {
    let cut = s.len() - ending.len();
    if cut >= 0 && s.skip(cut) == ending {
        Some(s.take(cut))
    } else {
        None
    }
}

/// The base asset of a symbol in upper case: what stands before the quote
/// asset.
pub open spec fn base_of(symbol: Seq<char>) -> Seq<char> {
    match without_ending(symbol, "USDT"@) {
        Some(base) => base,
        None => match without_ending(symbol, "USDC"@) {
            Some(base) => base,
            None => match without_ending(symbol, "BUSD"@) {
                Some(base) => base,
                None => symbol,
            },
        },
    }
}

fn strip_ending(s: &str, ending: &str) -> (base: Option<String>)
    ensures
        match base {
            Some(b) => without_ending(s@, ending@) == Some(b@),
            None => without_ending(s@, ending@) is None,
        },
{
    let cs = decimal::characters(s);
    let es = decimal::characters(ending);
    if cs.len() < es.len() {
        return None;
    }
    let n = cs.len();
    let cut = n - es.len();
    let mut i: usize = 0;
    while i < es.len()
        invariant
            i <= es@.len(),
            n == cs@.len(),
            cs@ == s@,
            es@ == ending@,
            cut + es@.len() == cs@.len(),
            forall|j: int| 0 <= j < i ==> cs@[cut + j] == #[trigger] es@[j],
        decreases es@.len() - i,
    {
        if cs[cut + i] != es[i] {
            assert(s@.skip(cut as int)[i as int] == cs@[cut + i]);
            return None;
        }
        i = i + 1;
    }
    assert(s@.skip(cut as int) =~= ending@);
    assert(s@.take(cut as int) =~= s@.subrange(0, cut as int));
    Some(s.substring_char(0, cut).to_owned())
}

/// The base asset of a symbol in upper case, such as `BTC` of `BTCUSDT`.
pub fn base_asset(symbol: &str) -> (base: String)
    ensures
        base@ == base_of(symbol@),
{
    if let Some(base) = strip_ending(symbol, "USDT") {
        return base;
    }
    if let Some(base) = strip_ending(symbol, "USDC") {
        return base;
    }
    if let Some(base) = strip_ending(symbol, "BUSD") {
        return base;
    }
    symbol.to_owned()
}

/// The number of bytes that a character takes.
pub open spec fn char_bytes(c: char) -> nat {
    if (c as u32) < 0x80 {
        1
    } else if (c as u32) < 0x800 {
        2
    } else if (c as u32) < 0x1_0000 {
        3
    } else {
        4
    }
}

/// The number of bytes that a text takes.
pub open spec fn text_bytes(s: Seq<char>) -> nat
    decreases s.len(),
{
    if s.len() == 0 {
        0
    } else {
        text_bytes(s.drop_last()) + char_bytes(s.last())
    }
}

/// As many characters from the front of a text as fit a number of bytes.
pub open spec fn cut_to_bytes(s: Seq<char>, max: nat) -> Seq<char>
    decreases s.len(),
{
    if text_bytes(s) <= max {
        s
    } else {
        cut_to_bytes(s.drop_last(), max)
    }
}

/// The title of a symbol in upper case, before it is cut.
pub open spec fn full_title(symbol: Seq<char>) -> Seq<char> {
    "║         "@ + symbol + " PERPETUAL FUTURES ORDER BOOK"@ + text::repeated(
        ' ',
        (SYMBOL_ROOM - smaller(text_bytes(symbol) as int, SYMBOL_ROOM as int)) as nat,
    )
}

/// The title of a symbol in upper case.
pub open spec fn title_of(symbol: Seq<char>) -> Seq<char> {
    cut_to_bytes(full_title(symbol), TITLE_BYTES as nat) + "║"@
}

fn bytes_of(c: char) -> (n: usize)
    ensures
        n == char_bytes(c),
{
    let code = c as u32;
    if code < 0x80 {
        1
    } else if code < 0x800 {
        2
    } else if code < 0x1_0000 {
        3
    } else {
        4
    }
}

/// Every character takes at least one byte.
proof fn lemma_text_bytes(s: Seq<char>, n: nat)
    requires
        n <= s.len(),
    ensures
        text_bytes(s.take(n as int)) + (s.len() - n) <= text_bytes(s),
    decreases s.len(),
{
    if n == s.len() {
        assert(s.take(n as int) =~= s);
    } else {
        lemma_text_bytes(s.drop_last(), n);
        assert(s.drop_last().take(n as int) =~= s.take(n as int));
    }
}

/// A text that is too long is cut where its front still fits.
proof fn lemma_cut(s: Seq<char>, n: nat, max: nat)
    requires
        n <= s.len(),
        text_bytes(s.take(n as int)) <= max,
        n < s.len() ==> text_bytes(s.take((n + 1) as int)) > max,
    ensures
        cut_to_bytes(s, max) == s.take(n as int),
    decreases s.len(),
{
    if n == s.len() {
        assert(s.take(n as int) =~= s);
    } else {
        lemma_text_bytes(s, n + 1);
        let front = s.drop_last();
        assert(front.take(n as int) =~= s.take(n as int));
        if n < front.len() {
            assert(front.take((n + 1) as int) =~= s.take((n + 1) as int));
        }
        lemma_cut(front, n, max);
    }
}

/// How many characters from the front fit a number of bytes, and the bytes that
/// they take.
fn fitting(cs: &Vec<char>, max: usize) -> (r: (usize, usize))
    requires
        max < 1000,
    ensures
        r.0 <= cs@.len(),
        r.1 == text_bytes(cs@.take(r.0 as int)) <= max,
        r.0 < cs@.len() ==> text_bytes(cs@) > max,
        cut_to_bytes(cs@, max as nat) == cs@.take(r.0 as int),
{
    let mut used: usize = 0;
    let mut n: usize = 0;
    assert(cs@.take(0) =~= Seq::empty());
    while n < cs.len() && used + bytes_of(cs[n]) <= max
        invariant
            n <= cs@.len(),
            max < 1000,
            used == text_bytes(cs@.take(n as int)),
            used <= max,
        decreases cs@.len() - n,
    {
        proof {
            let longer = cs@.take(n + 1);
            assert(longer.drop_last() =~= cs@.take(n as int));
            assert(longer.last() == cs@[n as int]);
        }
        used = used + bytes_of(cs[n]);
        n = n + 1;
    }
    proof {
        if n < cs@.len() {
            let longer = cs@.take(n + 1);
            assert(longer.drop_last() =~= cs@.take(n as int));
            assert(longer.last() == cs@[n as int]);
            lemma_text_bytes(cs@, (n + 1) as nat);
        }
        lemma_cut(cs@, n as nat, max as nat);
    }
    (n, used)
}

/// The title of a symbol in upper case, framed, cut between characters.
pub fn header_title(symbol: &str) -> (title: String)
    ensures
        title@ == title_of(symbol@),
{
    let cs = decimal::characters(symbol);
    let (within, bytes) = fitting(&cs, SYMBOL_ROOM);
    let spare: usize = if within < cs.len() {
        0
    } else {
        SYMBOL_ROOM - bytes
    };
    assert(cs@.take(cs@.len() as int) =~= cs@);
    let mut all = String::from_str("║         ");
    all.append(symbol);
    all.append(" PERPETUAL FUTURES ORDER BOOK");
    text::append_spaces(&mut all, spare);
    assert(all@ =~= full_title(symbol@));
    let letters = decimal::characters(all.as_str());
    let (n, _) = fitting(&letters, TITLE_BYTES);
    let mut title = all.as_str().substring_char(0, n).to_owned();
    assert(all@.subrange(0, n as int) =~= all@.take(n as int));
    title.append("║");
    title
}

/// What stands before the quote asset is the base asset; a symbol with another
/// quote asset is taken as a whole.
pub proof fn lemma_base(base: Seq<char>, symbol: Seq<char>)
    ensures
        base_of(base + "USDT"@) == base,
        base_of(base + "USDC"@) == base,
        base_of(base + "BUSD"@) == base,
        symbol.len() < 4 ==> base_of(symbol) == symbol,
        symbol.len() >= 4 && symbol.skip(symbol.len() - 4) != "USDT"@ && symbol.skip(
            symbol.len() - 4,
        ) != "USDC"@ && symbol.skip(symbol.len() - 4) != "BUSD"@ ==> base_of(symbol) == symbol,
{
    reveal_strlit("USDT");
    reveal_strlit("USDC");
    reveal_strlit("BUSD");
    let n = base.len() as int;
    let s = base + "USDT"@;
    assert(s.skip(n) =~= "USDT"@);
    assert(s.take(n) =~= base);
    let s = base + "USDC"@;
    assert(s.skip(n) =~= "USDC"@);
    assert(s.take(n) =~= base);
    assert("USDC"@[3] != "USDT"@[3]);
    let s = base + "BUSD"@;
    assert(s.skip(n) =~= "BUSD"@);
    assert(s.take(n) =~= base);
    assert("BUSD"@[0] != "USDT"@[0] && "BUSD"@[0] != "USDC"@[0]);
}

/// A title is the longest front of the full one that fits 64 bytes, and the
/// frame behind it.
pub proof fn lemma_title(symbol: Seq<char>) -> (n: int)
    ensures
        ({
            let full = "║         "@ + symbol + " PERPETUAL FUTURES ORDER BOOK"@ + text::repeated(
                ' ',
                if text_bytes(symbol) < 28 {
                    (28 - text_bytes(symbol)) as nat
                } else {
                    0
                },
            );
            &&& 0 <= n <= full.len()
            &&& title_of(symbol) == full.take(n) + "║"@
            &&& text_bytes(full.take(n)) <= 64
            &&& n < full.len() ==> text_bytes(full.take(n + 1)) > 64
        }),
{
    let full = full_title(symbol);
    lemma_longest_front(full, 64)
}

proof fn lemma_longest_front(s: Seq<char>, max: nat) -> (n: int)
    ensures
        0 <= n <= s.len(),
        cut_to_bytes(s, max) == s.take(n),
        text_bytes(s.take(n)) <= max,
        n < s.len() ==> text_bytes(s.take(n + 1)) > max,
    decreases s.len(),
{
    if text_bytes(s) <= max {
        assert(s.take(s.len() as int) =~= s);
        s.len() as int
    } else {
        let front = s.drop_last();
        let n = lemma_longest_front(front, max);
        assert(front.take(n) =~= s.take(n));
        if n < front.len() {
            assert(front.take(n + 1) =~= s.take(n + 1));
        } else {
            assert(s.take(n + 1) =~= s);
        }
        n
    }
}

/// A control code takes no room: the escape character, a bracket, characters
/// that do not end it, and one from `@` to `~`.
pub proof fn lemma_control_code(body: Seq<char>, last: char)
    requires
        forall|i: int|
            0 <= i < body.len() ==> !('@' <= #[trigger] body[i] <= '~') && body[i] != '\x1b',
        '@' <= last <= '~',
    ensures
        visible_len(seq!['\x1b', '['] + body + seq![last], AnsiState::Text) == 0,
        after_text(seq!['\x1b', '['] + body + seq![last], AnsiState::Text) == AnsiState::Text,
{
    let s = seq!['\x1b', '['] + body + seq![last];
    assert forall|i: int| 1 < i < s.len() - 1 implies !is_final(#[trigger] s[i]) && s[i]
        != ESCAPE by {
        assert(s[i] == body[i - 2]);
    }
    assert(s.last() == last);
    lemma_code_is_invisible(s);
}

/// A short code takes no room: the escape character, characters from the space
/// to the slash, and one more that starts neither a control code nor a message.
pub proof fn lemma_short_code(middle: Seq<char>, last: char)
    requires
        forall|i: int| 0 <= i < middle.len() ==> ' ' <= #[trigger] middle[i] <= '/',
        !(' ' <= last <= '/'),
        last != '[' && last != ']' && last != 'P' && last != 'X' && last != '^' && last != '_',
        last != '\x1b',
    ensures
        visible_len(seq!['\x1b'] + middle + seq![last], AnsiState::Text) == 0,
        after_text(seq!['\x1b'] + middle + seq![last], AnsiState::Text) == AnsiState::Text,
{
    let start = seq!['\x1b'];
    let end = seq![last];
    reveal_with_fuel(visible_len, 2);
    reveal_with_fuel(after_text, 2);
    assert(start.drop_first() =~= Seq::empty());
    assert(end.drop_first() =~= Seq::empty());
    lemma_short_middle(middle);
    lemma_visible_len_joined(start, middle, AnsiState::Text);
    lemma_visible_len_joined(start + middle, end, AnsiState::Text);
}

proof fn lemma_short_middle(middle: Seq<char>)
    requires
        forall|i: int| 0 <= i < middle.len() ==> ' ' <= #[trigger] middle[i] <= '/',
    ensures
        visible_len(middle, AnsiState::Escape) == 0,
        after_text(middle, AnsiState::Escape) == AnsiState::Escape,
    decreases middle.len(),
{
    if middle.len() > 0 {
        let rest = middle.drop_first();
        assert(' ' <= middle[0] <= '/');
        assert forall|i: int| 0 <= i < rest.len() implies ' ' <= #[trigger] rest[i] <= '/' by {
            assert(rest[i] == middle[i + 1]);
        }
        lemma_short_middle(rest);
    }
}

/// A message to the terminal takes no room: the escape character, one that
/// starts a message, any text, and the bell.
pub proof fn lemma_message(starter: char, body: Seq<char>)
    requires
        starter == ']' || starter == 'P' || starter == 'X' || starter == '^' || starter == '_',
        forall|i: int|
            0 <= i < body.len() ==> #[trigger] body[i] != '\x07' && body[i] != '\x1b',
    ensures
        visible_len(seq!['\x1b', starter] + body + seq!['\x07'], AnsiState::Text) == 0,
        after_text(seq!['\x1b', starter] + body + seq!['\x07'], AnsiState::Text)
            == AnsiState::Text,
{
    let start = seq!['\x1b', starter];
    let end = seq!['\x07'];
    reveal_with_fuel(visible_len, 3);
    reveal_with_fuel(after_text, 3);
    lemma_message_body(body);
    assert(start.drop_first() =~= seq![starter]);
    assert(start.drop_first().drop_first() =~= Seq::empty());
    assert(visible_len(start, AnsiState::Text) == 0);
    assert(after_text(start, AnsiState::Text) == AnsiState::Message);
    assert(end.drop_first() =~= Seq::empty());
    lemma_visible_len_joined(start, body, AnsiState::Text);
    lemma_visible_len_joined(start + body, end, AnsiState::Text);
}

proof fn lemma_message_body(body: Seq<char>)
    requires
        forall|i: int|
            0 <= i < body.len() ==> #[trigger] body[i] != '\x07' && body[i] != '\x1b',
    ensures
        visible_len(body, AnsiState::Message) == 0,
        after_text(body, AnsiState::Message) == AnsiState::Message,
    decreases body.len(),
{
    if body.len() > 0 {
        let rest = body.drop_first();
        assert forall|i: int| 0 <= i < rest.len() implies #[trigger] rest[i] != '\x07' && rest[i]
            != '\x1b' by {
            assert(rest[i] == body[i + 1]);
        }
        lemma_message_body(rest);
    }
}

} // verus!
