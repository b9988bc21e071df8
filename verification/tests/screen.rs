use cli_ob::binary64::Binary64;
use cli_ob::book::OrderBook;
use cli_ob::buckets;
use cli_ob::levels::PriceLevels;
use cli_ob::screen;
use cli_ob::screen::{DepthBar, Lean, Quote, RowLayout, ViewDetail};

fn num(x: f64) -> Binary64 {
    Binary64::from_bits(x.to_bits())
}

fn val(x: Binary64) -> f64 {
    f64::from_bits(x.to_bits())
}

fn side(list: &[(f64, f64)]) -> PriceLevels {
    let mut levels = PriceLevels::new();
    for (p, q) in list {
        levels.insert(num(*p), num(*q));
    }
    levels
}

fn pairs(list: &[(i64, Binary64)]) -> Vec<(i64, f64)> {
    list.iter().map(|(p, q)| (*p, val(*q))).collect()
}

fn rows(list: &[(Binary64, Binary64)]) -> Vec<(f64, f64)> {
    list.iter().map(|(p, q)| (val(*p), val(*q))).collect()
}

#[test]
fn escape_codes_take_no_room() {
    assert_eq!(screen::strip_ansi_len(""), 0);
    assert_eq!(screen::strip_ansi_len("plain"), 5);
    assert_eq!(screen::strip_ansi_len("\x1b[1;33mhello\x1b[0m"), 5);
    assert_eq!(screen::strip_ansi_len("a\x1b[0mb\x1b[31mc"), 3);
    assert_eq!(screen::strip_ansi_len("│ μs ║"), 6);
    assert_eq!(screen::strip_ansi_len("open\x1b[31"), 4);
    assert_eq!(screen::strip_ansi_len("\x1b\x1bmx"), 1);
    assert_eq!(screen::strip_ansi_len("mmm"), 3);
    assert_eq!(screen::strip_ansi_len("ab\x1b[Kcd"), 4);
    assert_eq!(screen::strip_ansi_len("\x1b[2J\x1b[1;1Hhome"), 4);
    assert_eq!(screen::strip_ansi_len("\x1b[?25lx\x1b[?25h"), 1);
    assert_eq!(screen::strip_ansi_len("a\x1bMb\x1b(Bc"), 3);
    assert_eq!(screen::strip_ansi_len("\x1b]0;title\x07ok"), 2);
    assert_eq!(screen::strip_ansi_len("\x1b]0;title\x1b\\ok"), 2);
}

#[test]
fn columns_follow_the_terminal() {
    let widths = |w: usize| {
        let l = RowLayout::for_terminal(w);
        (l.price_col, l.qty_col, l.bar_max_width)
    };
    assert_eq!(widths(0), (8, 8, 5));
    assert_eq!(widths(49), (8, 8, 5));
    assert_eq!(widths(50), (10, 9, 5));
    assert_eq!(widths(61), (10, 9, 10));
    assert_eq!(widths(99), (10, 9, 20));
    assert_eq!(widths(100), (12, 10, 21));
    assert_eq!(widths(120), (12, 10, 31));
    assert_eq!(widths(138), (12, 10, 40));
    assert_eq!(widths(500), (12, 10, 40));
    assert_eq!(screen::row_pad(120), 3);
    assert_eq!(screen::row_pad(200), 34);
    assert_eq!(screen::row_pad(60), 0);
    assert_eq!(screen::row_pad(90), 2);
}

#[test]
fn centring_halves_the_room() {
    assert_eq!(screen::centring_pad(80, 20), 30);
    assert_eq!(screen::centring_pad(80, 21), 29);
    assert_eq!(screen::centring_pad(80, 80), 0);
    assert_eq!(screen::centring_pad(80, 90), 0);
}

#[test]
fn levels_gather_into_buckets() {
    let bids = side(&[(99.9, 1.0), (99.1, 2.0), (95.0, 4.0), (101.0, 8.0), (-0.5, 16.0)]);
    let all = buckets::gather(&bids, num(1.0));
    assert_eq!(pairs(&all), vec![(-1, 16.0), (95, 4.0), (99, 3.0), (101, 8.0)]);
    assert_eq!(
        rows(&buckets::shown_bids(&bids, num(1.0))),
        vec![(101.0, 8.0), (99.0, 3.0), (95.0, 4.0), (-1.0, 16.0)]
    );
    assert_eq!(
        rows(&buckets::shown_asks(&bids, num(10.0))),
        vec![(-10.0, 16.0), (90.0, 7.0), (100.0, 8.0)]
    );
}

#[test]
fn ten_buckets_are_shown() {
    let mut levels = PriceLevels::new();
    for i in 0..25 {
        levels.insert(num(i as f64), num(1.0));
    }
    let bids = rows(&buckets::shown_bids(&levels, num(1.0)));
    let asks = rows(&buckets::shown_asks(&levels, num(1.0)));
    assert_eq!(bids.len(), 10);
    assert_eq!(bids[0].0, 24.0);
    assert_eq!(bids[9].0, 15.0);
    assert_eq!(asks.len(), 10);
    assert_eq!(asks[0].0, 0.0);
    assert_eq!(asks[9].0, 9.0);
}

#[test]
fn fractional_bins_are_told_apart() {
    let bids = side(&[(100.2, 1.0), (100.7, 2.0)]);
    assert_eq!(rows(&buckets::shown_bids(&bids, num(0.5))), vec![(100.5, 2.0), (100.0, 1.0)]);
    assert_eq!(pairs(&buckets::gather(&bids, num(0.5))), vec![(200, 1.0), (201, 2.0)]);
    let fine = side(&[(1.0005, 1.0), (1.0015, 2.0), (1.0018, 4.0)]);
    let keys: Vec<i64> = buckets::gather(&fine, num(0.001)).iter().map(|(k, _)| *k).collect();
    assert_eq!(keys, vec![1000, 1001]);
    let wide = side(&[(1.0, 1.0), (2.0, 2.0), (3.0, 4.0)]);
    assert_eq!(
        rows(&buckets::shown_asks(&wide, num(1.5))),
        vec![(0.0, 1.0), (1.5, 2.0), (3.0, 4.0)]
    );
}

#[test]
fn whole_widths_start_at_their_multiples() {
    for width in [1_i64, 2, 7, 10, 100] {
        for key in [-3_i64, -1, 0, 1, 5, 650_000] {
            assert_eq!(val(buckets::start_of(key, num(width as f64))), (key * width) as f64);
        }
    }
    assert_eq!(val(buckets::start_of(i64::MIN, num(1.0))), i64::MIN as f64);
}

#[test]
fn odd_widths_make_one_bucket() {
    let levels = side(&[(1.0, 1.0), (2.0, 2.0)]);
    assert_eq!(rows(&buckets::shown_bids(&levels, num(f64::NAN))), vec![(0.0, 3.0)]);
    assert_eq!(rows(&buckets::shown_bids(&levels, num(f64::INFINITY))), vec![(0.0, 3.0)]);
    let far = side(&[(1e300, 1.0)]);
    assert_eq!(rows(&buckets::shown_bids(&far, num(2.0))), vec![(i64::MAX as f64 * 2.0, 1.0)]);
}

#[test]
fn sums_run_from_the_first_bucket() {
    let list = vec![(num(5.0), num(0.1)), (num(4.0), num(0.2)), (num(3.0), num(0.3))];
    let sums = screen::cumulative(&list);
    let ours: Vec<f64> = sums.iter().map(|x| val(*x)).collect();
    assert_eq!(ours, vec![0.1, 0.1 + 0.2, 0.1 + 0.2 + 0.3]);
    let none: Vec<(Binary64, Binary64)> = vec![];
    assert!(screen::cumulative(&none).is_empty());
    assert_eq!(val(screen::deepest(&sums, &vec![])), 0.1 + 0.2 + 0.3);
    assert_eq!(val(screen::deepest(&vec![], &vec![num(9.0)])), 9.0);
    assert_eq!(val(screen::deepest(&vec![], &vec![])), 0.0);
}

#[test]
fn totals_add_up_as_iterators_do() {
    let list = vec![(num(5.0), num(0.1)), (num(4.0), num(0.2)), (num(3.0), num(0.3))];
    let theirs: f64 = list.iter().map(|(_, q)| val(*q)).sum();
    assert_eq!(screen::total(&list).to_bits(), theirs.to_bits());
    let none: Vec<(Binary64, Binary64)> = vec![];
    let theirs: f64 = none.iter().map(|(_, q)| val(*q)).sum();
    assert_eq!(screen::total(&none).to_bits(), theirs.to_bits());
}

#[test]
fn bars_fill_the_width() {
    let bar = DepthBar::new(num(2.0), num(5.0), num(10.0), 40);
    assert_eq!(bar, DepthBar { empty: 20, darker: 12, lighter: 8 });
    let bar = DepthBar::new(num(10.0), num(10.0), num(10.0), 33);
    assert_eq!(bar, DepthBar { empty: 0, darker: 0, lighter: 33 });
    let bar = DepthBar::new(num(1.0), num(1.0), num(0.0), 33);
    assert_eq!(bar, DepthBar { empty: 33, darker: 0, lighter: 0 });
    let bar = DepthBar::new(num(30.0), num(20.0), num(10.0), 7);
    assert_eq!(bar, DepthBar { empty: 0, darker: 0, lighter: 7 });
    let bar = DepthBar::new(num(1.0), num(3.0), num(3.0), 10);
    assert_eq!(bar.empty + bar.darker + bar.lighter, 10);
    assert_eq!(bar.lighter, ((1.0 / 3.0) * 10.0) as usize);
}

#[test]
fn imbalance_is_a_percentage() {
    assert_eq!(val(screen::imbalance(num(3.0), num(1.0))), 50.0);
    assert_eq!(val(screen::imbalance(num(1.0), num(3.0))), -50.0);
    assert_eq!(val(screen::imbalance(num(2.0), num(2.0))), 0.0);
    assert_eq!(val(screen::imbalance(num(-0.0), num(-0.0))), 0.0);
    assert_eq!(screen::lean_of(num(0.1)), Lean::Bids);
    assert_eq!(screen::lean_of(num(-0.1)), Lean::Asks);
    assert_eq!(screen::lean_of(num(0.0)), Lean::Neither);
    assert_eq!(screen::lean_of(num(f64::NAN)), Lean::Neither);
}

#[test]
fn quotes_read_the_top_of_the_book() {
    let mut book = OrderBook::new();
    let quote = Quote::new(&book);
    assert_eq!((val(quote.mid_price), val(quote.spread), val(quote.spread_pct)), (0.0, 0.0, 0.0));
    book.bids.insert(num(99.0), num(1.0));
    let quote = Quote::new(&book);
    assert_eq!((val(quote.mid_price), val(quote.spread), val(quote.spread_pct)), (49.5, 0.0, 0.0));
    book.asks.insert(num(101.0), num(1.0));
    let quote = Quote::new(&book);
    assert_eq!((val(quote.mid_price), val(quote.spread), val(quote.spread_pct)), (100.0, 2.0, 2.0));
}

#[test]
fn base_assets_lose_the_quote() {
    assert_eq!(screen::base_asset("BTCUSDT"), "BTC");
    assert_eq!(screen::base_asset("ETHUSDC"), "ETH");
    assert_eq!(screen::base_asset("BNBBUSD"), "BNB");
    assert_eq!(screen::base_asset("ETHBTC"), "ETHBTC");
    assert_eq!(screen::base_asset("USDT"), "");
    assert_eq!(screen::base_asset("SDT"), "SDT");
    assert_eq!(screen::base_asset("XUSDTUSDT"), "XUSDT");
}

#[test]
fn titles_are_cut_after_sixty_four_bytes() {
    let expected = |symbol: &str| {
        let title = format!(
            "║         {} PERPETUAL FUTURES ORDER BOOK{}",
            symbol,
            " ".repeat(63 - 35 - symbol.len().min(28))
        );
        format!("{}║", &title[..title.len().min(64)])
    };
    for symbol in ["", "BTCUSDT", "1000PEPEUSDT", "ABCDEFGHIJKLMNOPQRSTUVWXYZ0123456789", "ÄÖÜ"] {
        assert_eq!(screen::header_title(symbol), expected(symbol));
    }
    let long = "A".repeat(80);
    assert_eq!(screen::header_title(&long), expected(&long));
}

#[test]
fn narrow_terminals_show_less() {
    let d = ViewDetail::for_terminal(49);
    assert!(!d.header && !d.quote && !d.totals && !d.profile && !d.footer);
    let d = ViewDetail::for_terminal(67);
    assert!(d.header && !d.quote && !d.totals && d.profile && d.footer);
    let d = ViewDetail::for_terminal(75);
    assert!(d.header && d.quote && d.totals && d.profile && d.footer);
}

#[test]
fn a_full_row_fits_a_wide_terminal() {
    for w in 100..300 {
        let l = RowLayout::for_terminal(w);
        let row = l.bar_max_width * 2 + l.qty_col * 2 + l.price_col * 2 + 8;
        assert!(row <= w);
        assert_eq!(screen::row_pad(w), (w - row) / 2);
    }
}

#[test]
fn constants_are_the_numbers_they_name() {
    assert_eq!(cli_ob::book::NOOP_TOLERANCE_BITS, 1e-15_f64.to_bits());
    assert_eq!(cli_ob::book::HUNDRED_BITS, 100.0_f64.to_bits());
    assert_eq!(cli_ob::trades::THOUSAND_BITS, 1000.0_f64.to_bits());
    assert_eq!(cli_ob::state::TENTH_BITS, 0.1_f64.to_bits());
    assert_eq!(cli_ob::config::ONE_BITS, 1.0_f64.to_bits());
    assert_eq!(screen::TWO_BITS, 2.0_f64.to_bits());
}

#[test]
fn bins_are_shown_with_the_places_they_need() {
    let places = |w: f64| buckets::places_of(num(w));
    assert_eq!(places(1.0), 0);
    assert_eq!(places(100.0), 0);
    assert_eq!(places(0.5), 1);
    assert_eq!(places(0.1), 1);
    assert_eq!(places(0.25), 2);
    assert_eq!(places(0.001), 3);
    assert_eq!(places(1.0 / 3.0), 8);
    assert_eq!(places(f64::NAN), 0);
    assert_eq!(places(f64::INFINITY), 0);
}
