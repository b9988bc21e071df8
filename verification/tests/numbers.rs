use cli_ob::binary64::Binary64;
use cli_ob::bignat::BigNat;
use cli_ob::decimal;
use ordered_float::OrderedFloat;

fn num(x: f64) -> Binary64 {
    Binary64::from_bits(x.to_bits())
}

fn val(x: Binary64) -> f64 {
    f64::from_bits(x.to_bits())
}

fn same(ours: Binary64, theirs: f64) -> bool {
    if theirs.is_nan() {
        ours.is_nan()
    } else {
        ours.to_bits() == theirs.to_bits()
    }
}

struct Dice {
    state: u64,
}

impl Dice {
    fn next(&mut self) -> u64 {
        self.state ^= self.state << 13;
        self.state ^= self.state >> 7;
        self.state ^= self.state << 17;
        self.state
    }
}

fn corners() -> Vec<f64> {
    vec![
        0.0,
        -0.0,
        1.0,
        -1.0,
        0.1,
        0.2,
        0.3,
        1.5,
        100.0,
        101.0,
        1e-15,
        1e300,
        -1e300,
        5e-324,
        -5e-324,
        f64::MIN_POSITIVE,
        f64::MAX,
        f64::MIN,
        f64::INFINITY,
        f64::NEG_INFINITY,
        f64::NAN,
        9007199254740991.0,
        9007199254740993.0,
        18446744073709551615.0,
        9223372036854775807.0,
        -9223372036854775808.0,
        0.5,
        -0.5,
        -2.5,
    ]
}

fn check_pair(x: f64, y: f64) {
    let (a, b) = (num(x), num(y));
    assert!(same(a.plus(b), x + y), "{x:e} + {y:e}");
    assert!(same(a.minus(b), x - y), "{x:e} - {y:e}");
    assert!(same(a.times(b), x * y), "{x:e} * {y:e}");
    assert!(same(a.over(b), x / y), "{x:e} / {y:e}");
    assert_eq!(a.is_less(b), x < y);
    assert_eq!(a.is_at_most(b), x <= y);
    assert_eq!(a.is_same(b), x == y);
    assert_eq!(a == b, x == y);
    let larger = x.max(y);
    if x != y {
        assert!(same(a.max(b), larger), "max {x:e} {y:e}");
    } else {
        assert!(val(a.max(b)) == larger);
    }
    let theirs = OrderedFloat(x).cmp(&OrderedFloat(y));
    assert_eq!(a.key().cmp(&b.key()), theirs, "order {x:e} {y:e}");
}

fn check_one(x: f64) {
    let a = num(x);
    assert!(same(a.abs(), x.abs()));
    assert!(same(a.negate(), -x));
    assert_eq!(a.to_u64(), x as u64);
    assert_eq!(a.to_i64(), x as i64);
    assert_eq!(a.floor_to_i64(), x.floor() as i64);
    assert_eq!(a.is_nan(), x.is_nan());
    assert_eq!(a.is_infinite(), x.is_infinite());
    assert_eq!(a.is_zero(), x == 0.0);
    assert_eq!(a.is_negative(), x.is_sign_negative());
}

#[test]
fn corner_numbers_behave_as_doubles() {
    for x in corners() {
        check_one(x);
        for y in corners() {
            check_pair(x, y);
        }
    }
}

#[test]
fn random_encodings_behave_as_doubles() {
    let mut dice = Dice { state: 0x9e37_79b9_7f4a_7c15 };
    for _ in 0..4000 {
        let x = f64::from_bits(dice.next());
        let y = f64::from_bits(dice.next());
        check_one(x);
        check_pair(x, y);
    }
}

#[test]
fn random_prices_behave_as_doubles() {
    let mut dice = Dice { state: 88172645463325252 };
    for _ in 0..4000 {
        let x = (dice.next() % 10_000_000) as f64 / 100.0;
        let y = (dice.next() % 1_000_000) as f64 / 1000.0 - 300.0;
        check_one(x);
        check_one(y);
        check_pair(x, y);
        check_pair(x + y, y);
    }
}

#[test]
fn integers_convert_as_doubles() {
    let mut dice = Dice { state: 42 };
    for shift in 0..64 {
        let n = dice.next() >> shift;
        assert!(same(Binary64::from_u64(n), n as f64));
    }
    for n in [0, 1, -1, 7, -7, i64::MAX, i64::MIN, -(1 << 53) - 1, (1 << 60) + 3] {
        assert!(same(Binary64::from_i64(n), n as f64));
    }
    assert!(same(Binary64::from_u64(0), 0.0));
    assert!(same(Binary64::from_u64(u64::MAX), u64::MAX as f64));
    assert!(same(Binary64::from_u64((1 << 53) + 1), 9007199254740992.0));
}

fn check_parse(s: &str) {
    match (decimal::parse(s), s.parse::<f64>()) {
        (Some(a), Ok(x)) => assert!(same(a, x), "{s}: {} against {x}", val(a)),
        (None, Err(_)) => {}
        (a, x) => panic!("{s}: {} against {:?}", a.is_some(), x),
    }
}

#[test]
fn decimals_parse_as_doubles() {
    let texts = [
        "0", "-0", "+0", "1", "0.1", "0.30000000000000004", "100.5", "65000.10", "1e3", "1E3",
        "1e-3", "-1.5e+10", ".5", "5.", "", ".", "+", "-", "e5", "1e", "1e+", "inf", "-inf",
        "Infinity", "+infinity", "nan", "NaN", "-nan", "infin", "1_000", " 1", "1 ", "0x10", "1.2.3",
        "1e400", "1e-400", "4.9e-324", "2.4e-324", "2.5e-324", "1.7976931348623157e308",
        "1.7976931348623159e308", "9007199254740993", "9007199254740992.99999999999",
        "0.000000000000000000000000000000000000001", "123456789012345678901234567890", "1e22", "1e23",
        "8.5e-310", "2.2250738585072011e-308", "1\u{0661}", "0e999999999999999999999",
        "1e99999999999999999999", "1e-99999999999999999999",
    ];
    for s in texts {
        check_parse(s);
    }
}

#[test]
fn random_decimals_parse_as_doubles() {
    let mut dice = Dice { state: 7 };
    for _ in 0..300 {
        let whole = dice.next() % 1_000_000;
        let part = dice.next() % 1_000_000_000;
        check_parse(&format!("{whole}.{part:09}"));
        let exponent = (dice.next() % 640) as i64 - 330;
        check_parse(&format!("{whole}.{part}e{exponent}"));
        let x = f64::from_bits(dice.next());
        if x.is_finite() {
            check_parse(&format!("{x:e}"));
        }
    }
}

#[test]
fn large_integers_count() {
    let mut n = BigNat::small(1);
    for _ in 0..40 {
        n.multiply_add(1000, 7);
    }
    assert!(!n.is_zero());
    let mut m = BigNat::small(1);
    for _ in 0..40 {
        m.multiply_add(1000, 6);
    }
    assert!(n.is_at_least(&m));
    assert!(!m.is_at_least(&n));
    n.subtract(&m);
    assert!(n.is_at_least(&BigNat::small(1)));
    assert!(m.is_at_least(&n));
}

#[test]
fn sums_can_be_taken_apart() {
    let mut dice = Dice { state: 2024 };
    for _ in 0..3000 {
        let x = (dice.next() >> (dice.next() % 60)) as f64 / 8.0;
        let y = (dice.next() >> (dice.next() % 60)) as f64 / 8.0;
        let sum = num(x).plus(num(y));
        assert_eq!(num(x).plus(sum.minus(num(x))).to_bits(), sum.to_bits());
    }
}
