//! The binary64 number format over plain integers.
//!
//! Prices and quantities are IEEE 754 double-precision numbers.  A
//! [`Binary64`] holds the 64-bit encoding of one, and every operation on it is
//! stated over the number that the encoding stands for.

use crate::rounding;
use crate::rounding::{EXPONENT_STEP, INFINITY_MAGNITUDE};
use vstd::arithmetic::div_mod::*;
use vstd::arithmetic::mul::*;
use vstd::arithmetic::power2::*;
use vstd::prelude::*;

verus! {

/// The weight of the sign in an encoding.
pub const SIGN_WEIGHT: u64 = 0x8000_0000_0000_0000;

/// The encoding of the not-a-number that operations produce.
pub const NAN_BITS: u64 = 0x7ff8_0000_0000_0000;

/// The number of binary places below one at which the format ends.
pub const FRACTION_PLACES: u32 = 1074;

/// A double-precision number, by its encoding.
#[derive(Clone, Copy, Debug)]
pub struct Binary64 {
    pub bits: u64,
}

impl Binary64 {
    /// Whether the sign is set; zero and not-a-number carry a sign as well.
    pub open spec fn negative(self) -> bool {
        self.bits >= SIGN_WEIGHT
    }

    /// The encoding without its sign.
    pub open spec fn magnitude(self) -> nat {
        (self.bits % SIGN_WEIGHT) as nat
    }

    pub open spec fn nan(self) -> bool {
        self.magnitude() > INFINITY_MAGNITUDE
    }

    pub open spec fn finite(self) -> bool {
        self.magnitude() < INFINITY_MAGNITUDE
    }

    pub open spec fn infinite(self) -> bool {
        self.magnitude() == INFINITY_MAGNITUDE
    }

    pub open spec fn zero(self) -> bool {
        self.magnitude() == 0
    }

    /// The power of two, counted from the smallest, that scales a finite number.
    pub open spec fn scale(self) -> nat {
        if self.magnitude() < EXPONENT_STEP {
            0
        } else {
            (self.magnitude() / EXPONENT_STEP as nat - 1) as nat
        }
    }

    /// The integer that [`Binary64::scale`] scales.
    pub open spec fn significand(self) -> nat {
        if self.magnitude() < EXPONENT_STEP {
            self.magnitude()
        } else {
            self.magnitude() % EXPONENT_STEP as nat + EXPONENT_STEP as nat
        }
    }

    /// The absolute value of a finite number, in units of `2^-1074`.
    pub open spec fn size(self) -> nat {
        self.significand() * pow2(self.scale())
    }

    /// The value of a finite number, in units of `2^-1074`.
    pub open spec fn units(self) -> int {
        if self.negative() {
            -self.size()
        } else {
            self.size() as int
        }
    }

    /// An integer that orders the numbers other than not-a-number; the two
    /// zeros share it.
    pub open spec fn rank(self) -> int {
        if self.negative() {
            -self.magnitude()
        } else {
            self.magnitude() as int
        }
    }

    /// An integer that orders all numbers as map keys: not-a-number is above
    /// every other number and equal to itself, and the two zeros are equal.
    pub open spec fn order_key(self) -> int {
        if self.nan() {
            i64::MAX as int
        } else {
            self.rank()
        }
    }

    /// The number with the given sign and magnitude.
    pub open spec fn assemble(negative: bool, magnitude: nat) -> Binary64 {
        Binary64 {
            bits: if negative {
                (SIGN_WEIGHT + magnitude) as u64
            } else {
                magnitude as u64
            },
        }
    }

    /// The not-a-number that operations produce.
    pub open spec fn undefined() -> Binary64 {
        Binary64 { bits: NAN_BITS }
    }

    /// The number nearest to a non-zero count of units.
    pub open spec fn nearest(units: int) -> Binary64 {
        Binary64::assemble(
            units < 0,
            rounding::nearest_magnitude(
                if units < 0 {
                    (-units) as nat
                } else {
                    units as nat
                },
                1,
            ),
        )
    }

    /// `x < y`; false where either is not a number.
    pub open spec fn less(x: Binary64, y: Binary64) -> bool {
        !x.nan() && !y.nan() && x.rank() < y.rank()
    }

    /// `x <= y`; false where either is not a number.
    pub open spec fn at_most(x: Binary64, y: Binary64) -> bool {
        !x.nan() && !y.nan() && x.rank() <= y.rank()
    }

    /// `x == y` as numbers: the zeros are equal, not-a-number equals nothing.
    pub open spec fn same(x: Binary64, y: Binary64) -> bool {
        !x.nan() && !y.nan() && x.rank() == y.rank()
    }

    /// `-x`.
    pub open spec fn opposite(x: Binary64) -> Binary64 {
        Binary64::assemble(!x.negative(), x.magnitude())
    }

    /// `|x|`.
    pub open spec fn absolute(x: Binary64) -> Binary64 {
        Binary64::assemble(false, x.magnitude())
    }

    /// `x + y`, correctly rounded.
    pub open spec fn sum(x: Binary64, y: Binary64) -> Binary64 {
        if x.nan() || y.nan() {
            Binary64::undefined()
        } else if x.infinite() || y.infinite() {
            if x.infinite() && y.infinite() && x.negative() != y.negative() {
                Binary64::undefined()
            } else if x.infinite() {
                x
            } else {
                y
            }
        } else if x.units() + y.units() == 0 {
            Binary64::assemble(x.negative() && y.negative(), 0)
        } else {
            Binary64::nearest(x.units() + y.units())
        }
    }

    /// `x - y`, correctly rounded.
    pub open spec fn difference(x: Binary64, y: Binary64) -> Binary64 {
        Binary64::sum(x, Binary64::opposite(y))
    }

    /// `x * y`, correctly rounded.
    pub open spec fn product(x: Binary64, y: Binary64) -> Binary64 {
        let negative = x.negative() != y.negative();
        if x.nan() || y.nan() || (x.infinite() && y.zero()) || (x.zero() && y.infinite()) {
            Binary64::undefined()
        } else if x.infinite() || y.infinite() {
            Binary64::assemble(negative, INFINITY_MAGNITUDE as nat)
        } else {
            Binary64::assemble(
                negative,
                rounding::nearest_magnitude(x.size() * y.size(), pow2(FRACTION_PLACES as nat)),
            )
        }
    }

    /// `x / y`, correctly rounded.
    pub open spec fn quotient(x: Binary64, y: Binary64) -> Binary64 {
        let negative = x.negative() != y.negative();
        if x.nan() || y.nan() || (x.infinite() && y.infinite()) || (x.zero() && y.zero()) {
            Binary64::undefined()
        } else if x.infinite() || y.zero() {
            Binary64::assemble(negative, INFINITY_MAGNITUDE as nat)
        } else if y.infinite() {
            Binary64::assemble(negative, 0)
        } else {
            Binary64::assemble(
                negative,
                rounding::nearest_magnitude(x.size() * pow2(FRACTION_PLACES as nat), y.size()),
            )
        }
    }

    /// The larger of two numbers; where one is not a number, the other.
    pub open spec fn larger(x: Binary64, y: Binary64) -> Binary64 {
        if x.nan() || Binary64::less(x, y) {
            y
        } else {
            x
        }
    }

    /// The number nearest to an integer.
    pub open spec fn of_integer(n: nat) -> Binary64 {
        Binary64::assemble(
            false,
            rounding::nearest_magnitude(n * pow2(FRACTION_PLACES as nat), 1),
        )
    }

    /// The number nearest to a signed integer.
    pub open spec fn of_signed(n: int) -> Binary64 {
        if n < 0 {
            Binary64::opposite(Binary64::of_integer((-n) as nat))
        } else {
            Binary64::of_integer(n as nat)
        }
    }

    /// The integer part of the absolute value of a finite number.
    pub open spec fn whole(self) -> nat {
        self.size() / pow2(FRACTION_PLACES as nat)
    }

    /// Whether a finite number is no integer.
    pub open spec fn fractional(self) -> bool {
        self.size() % pow2(FRACTION_PLACES as nat) != 0
    }

    /// The integer between zero and `u64::MAX` that a conversion gives: the
    /// number cut toward zero, the nearest bound for what lies outside, and
    /// zero for not-a-number.
    pub open spec fn as_unsigned(x: Binary64) -> nat {
        if x.nan() || x.negative() {
            0
        } else if x.infinite() || x.whole() > u64::MAX {
            u64::MAX as nat
        } else {
            x.whole()
        }
    }

    /// The signed counterpart of [`Binary64::as_unsigned`].
    pub open spec fn as_signed(x: Binary64) -> int {
        if x.nan() {
            0
        } else if x.infinite() {
            if x.negative() {
                i64::MIN as int
            } else {
                i64::MAX as int
            }
        } else {
            Binary64::clamp_signed(
                if x.negative() {
                    -x.whole()
                } else {
                    x.whole() as int
                },
            )
        }
    }

    /// The greatest integer that is not above `x`, converted as
    /// [`Binary64::as_signed`] converts.
    pub open spec fn floor_signed(x: Binary64) -> int {
        if x.nan() || x.infinite() {
            Binary64::as_signed(x)
        } else {
            Binary64::clamp_signed(x.units() / (pow2(FRACTION_PLACES as nat) as int))
        }
    }

    pub open spec fn clamp_signed(n: int) -> int {
        if n < i64::MIN {
            i64::MIN as int
        } else if n > i64::MAX {
            i64::MAX as int
        } else {
            n
        }
    }
}

/// Facts about the parts of a finite number.
pub proof fn lemma_parts(x: Binary64)
    ensures
        x.finite() ==> x.significand() < 0x20_0000_0000_0000,
        x.finite() ==> x.scale() <= 2045,
        x.scale() > 0 ==> x.significand() >= EXPONENT_STEP,
        x.zero() <==> x.significand() == 0,
        x.zero() <==> x.size() == 0,
        x.zero() <==> x.units() == 0,
{
    lemma_pow2_pos(x.scale());
    assert(x.significand() > 0 ==> x.size() > 0) by (nonlinear_arith)
        requires
            x.size() == x.significand() * pow2(x.scale()),
            pow2(x.scale()) > 0,
    ;
    assert(x.significand() == 0 ==> x.size() == 0) by (nonlinear_arith)
        requires
            x.size() == x.significand() * pow2(x.scale()),
    ;
}

impl Binary64 {
    /// The number with the given encoding.
    pub fn from_bits(bits: u64) -> (x: Binary64)
        ensures
            x.bits == bits,
    {
        Binary64 { bits }
    }

    /// The encoding of the number.
    pub fn to_bits(self) -> (bits: u64)
        ensures
            bits == self.bits,
    {
        self.bits
    }

    pub fn is_negative(self) -> (b: bool)
        ensures
            b == self.negative(),
    {
        self.bits >= SIGN_WEIGHT
    }

    fn magnitude_bits(self) -> (m: u64)
        ensures
            m == self.magnitude(),
            m < SIGN_WEIGHT,
    {
        self.bits % SIGN_WEIGHT
    }

    pub fn is_nan(self) -> (b: bool)
        ensures
            b == self.nan(),
    {
        self.magnitude_bits() > INFINITY_MAGNITUDE
    }

    pub fn is_infinite(self) -> (b: bool)
        ensures
            b == self.infinite(),
    {
        self.magnitude_bits() == INFINITY_MAGNITUDE
    }

    pub fn is_zero(self) -> (b: bool)
        ensures
            b == self.zero(),
    {
        self.magnitude_bits() == 0
    }

    fn with_sign(negative: bool, magnitude: u64) -> (x: Binary64)
        requires
            magnitude < SIGN_WEIGHT,
        ensures
            x == Binary64::assemble(negative, magnitude as nat),
            x.negative() == negative,
            x.magnitude() == magnitude,
    {
        if negative {
            Binary64 { bits: SIGN_WEIGHT + magnitude }
        } else {
            Binary64 { bits: magnitude }
        }
    }

    pub(crate) fn parts(self) -> (p: (u64, u32))
        requires
            self.finite(),
        ensures
            p.0 == self.significand(),
            p.1 == self.scale(),
            p.0 < 0x20_0000_0000_0000,
            p.1 <= 2045,
            p.1 > 0 ==> p.0 >= EXPONENT_STEP,
    {
        let magnitude = self.magnitude_bits();
        if magnitude < EXPONENT_STEP {
            (magnitude, 0)
        } else {
            (
                magnitude % EXPONENT_STEP + EXPONENT_STEP,
                (magnitude / EXPONENT_STEP - 1) as u32,
            )
        }
    }

    fn signed_rank(self) -> (r: i64)
        ensures
            r == self.rank(),
    {
        let magnitude = self.magnitude_bits();
        if self.is_negative() {
            -(magnitude as i64)
        } else {
            magnitude as i64
        }
    }

    /// The integer that orders the number as a map key.
    pub fn key(self) -> (k: i64)
        ensures
            k == self.order_key(),
    {
        if self.is_nan() {
            i64::MAX
        } else {
            self.signed_rank()
        }
    }

    /// `self < other`.
    pub fn is_less(self, other: Binary64) -> (b: bool)
        ensures
            b == Binary64::less(self, other),
    {
        !self.is_nan() && !other.is_nan() && self.signed_rank() < other.signed_rank()
    }

    /// `self <= other`.
    pub fn is_at_most(self, other: Binary64) -> (b: bool)
        ensures
            b == Binary64::at_most(self, other),
    {
        !self.is_nan() && !other.is_nan() && self.signed_rank() <= other.signed_rank()
    }

    /// `self == other` as numbers.
    pub fn is_same(self, other: Binary64) -> (b: bool)
        ensures
            b == Binary64::same(self, other),
    {
        !self.is_nan() && !other.is_nan() && self.signed_rank() == other.signed_rank()
    }

    /// `-self`.
    pub fn negate(self) -> (x: Binary64)
        ensures
            x == Binary64::opposite(self),
    {
        Binary64::with_sign(!self.is_negative(), self.magnitude_bits())
    }

    /// `|self|`.
    pub fn abs(self) -> (x: Binary64)
        ensures
            x == Binary64::absolute(self),
    {
        Binary64::with_sign(false, self.magnitude_bits())
    }

    /// The larger of two numbers; where one is not a number, the other.
    pub fn max(self, other: Binary64) -> (x: Binary64)
        ensures
            x == Binary64::larger(self, other),
    {
        if self.is_nan() || self.is_less(other) {
            other
        } else {
            self
        }
    }

    /// `self * other`.
    pub fn times(self, other: Binary64) -> (x: Binary64)
        ensures
            x == Binary64::product(self, other),
    {
        let negative = self.is_negative() != other.is_negative();
        if self.is_nan() || other.is_nan() || (self.is_infinite() && other.is_zero()) || (
        self.is_zero() && other.is_infinite()) {
            return Binary64 { bits: NAN_BITS };
        }
        if self.is_infinite() || other.is_infinite() {
            return Binary64::with_sign(negative, INFINITY_MAGNITUDE);
        }
        let (s, j) = self.parts();
        let (t, k) = other.parts();
        let ghost n = self.size() * other.size();
        let ghost d = pow2(FRACTION_PLACES as nat);
        assert(s * t < 0x400_0000_0000_0000_0000_0000_0000) by (nonlinear_arith)
            requires
                0 <= s < 0x20_0000_0000_0000,
                0 <= t < 0x20_0000_0000_0000,
        ;
        let m: u128 = s as u128 * t as u128;
        proof {
            lemma_pow2_pos(FRACTION_PLACES as nat);
            lemma_pow2_pos((j + k) as nat);
            lemma_pow2_adds(j as nat, k as nat);
            assert(n * d == m * (d * pow2((j + k) as nat))) by (nonlinear_arith)
                requires
                    n == (s * pow2(j as nat)) * (t * pow2(k as nat)),
                    m == s * t,
                    pow2((j + k) as nat) == pow2(j as nat) * pow2(k as nat),
            ;
            assert((m + 1) * (d * pow2((j + k) as nat)) > m * (d * pow2((j + k) as nat)))
                by (nonlinear_arith)
                requires
                    d > 0,
                    pow2((j + k) as nat) > 0,
            ;
        }
        let magnitude = rounding::round_quotient(
            m,
            false,
            FRACTION_PLACES as u128,
            (j + k) as u128,
            Ghost(n),
            Ghost(d),
        );
        Binary64::with_sign(negative, magnitude)
    }

    /// `self / other`.
    pub fn over(self, other: Binary64) -> (x: Binary64)
        ensures
            x == Binary64::quotient(self, other),
    {
        let negative = self.is_negative() != other.is_negative();
        if self.is_nan() || other.is_nan() || (self.is_infinite() && other.is_infinite()) || (
        self.is_zero() && other.is_zero()) {
            return Binary64 { bits: NAN_BITS };
        }
        if self.is_infinite() || other.is_zero() {
            return Binary64::with_sign(negative, INFINITY_MAGNITUDE);
        }
        if other.is_infinite() {
            return Binary64::with_sign(negative, 0);
        }
        let (s, j) = self.parts();
        let (t, k) = other.parts();
        let ghost n = self.size() * pow2(FRACTION_PLACES as nat);
        let ghost d = other.size();
        proof {
            lemma_parts(self);
            lemma_parts(other);
        }
        if s == 0 {
            proof {
                lemma_pow2_pos(0);
                assert(n == 0) by (nonlinear_arith)
                    requires
                        self.size() == 0,
                        n == self.size() * pow2(FRACTION_PLACES as nat),
                ;
                lemma2_to64();
                assert(rounding::is_quotient(0, false, n, 0, d, 0)) by (nonlinear_arith)
                    requires
                        n == 0,
                        d > 0,
                        pow2(0) == 1,
                ;
            }
            let magnitude = rounding::round_quotient(0, false, 0, 0, Ghost(n), Ghost(d));
            return Binary64::with_sign(negative, magnitude);
        }
        let len = rounding::count_bits(s as u128);
        proof {
            lemma2_to64_rest();
            if len > 53 {
                rounding::lemma_pow2_monotone(53, (len - 1) as nat);
            }
        }
        let shift: u32 = 126 - len;
        let p = rounding::power_of_two(shift);
        proof {
            lemma2_to64();
            lemma_pow2_pos(shift as nat);
            lemma_pow2_adds(len as nat, shift as nat);
            lemma_pow2_adds((len - 1) as nat, shift as nat);
            lemma_pow2_adds(63, 63);
            lemma_pow2_adds(63, 62);
            assert(s * p < pow2(126)) by (nonlinear_arith)
                requires
                    s < pow2(len as nat),
                    p > 0,
                    pow2(126) == pow2(len as nat) * p,
            ;
            assert(s * p >= pow2(125)) by (nonlinear_arith)
                requires
                    s >= pow2((len - 1) as nat),
                    p > 0,
                    pow2(125) == pow2((len - 1) as nat) * p,
            ;
        }
        let top: u128 = s as u128 * p;
        let q: u128 = top / (t as u128);
        let r: u128 = top % (t as u128);
        proof {
            lemma_fundamental_div_mod(top as int, t as int);
            assert(q <= top) by (nonlinear_arith)
                requires
                    q == top / (t as u128),
                    t >= 1,
                    top >= 0,
            ;
            assert(q >= 0x40_0000_0000_0000) by (nonlinear_arith)
                requires
                    top == t * q + r,
                    r < t,
                    t < 0x20_0000_0000_0000,
                    top >= 0x2000_0000_0000_0000_0000_0000_0000_0000,
            ;
            let unit = d * pow2((j + FRACTION_PLACES) as nat);
            let scaled = n * pow2((shift + k) as nat);
            let w = pow2(k as nat) * pow2((j + FRACTION_PLACES) as nat);
            lemma_pow2_pos(k as nat);
            lemma_pow2_pos((j + FRACTION_PLACES) as nat);
            lemma_pow2_adds(shift as nat, k as nat);
            lemma_pow2_adds(j as nat, FRACTION_PLACES as nat);
            assert(unit == t * w) by (nonlinear_arith)
                requires
                    unit == (t * pow2(k as nat)) * pow2((j + FRACTION_PLACES) as nat),
                    w == pow2(k as nat) * pow2((j + FRACTION_PLACES) as nat),
            ;
            assert(scaled == top * w) by (nonlinear_arith)
                requires
                    scaled == ((s * pow2(j as nat)) * pow2(FRACTION_PLACES as nat)) * (p * pow2(
                        k as nat,
                    )),
                    top == s * p,
                    w == pow2(k as nat) * (pow2(j as nat) * pow2(FRACTION_PLACES as nat)),
            ;
            assert(w > 0) by (nonlinear_arith)
                requires
                    pow2(k as nat) > 0,
                    pow2((j + FRACTION_PLACES) as nat) > 0,
                    w == pow2(k as nat) * pow2((j + FRACTION_PLACES) as nat),
            ;
            assert(q * unit <= scaled < (q + 1) * unit) by (nonlinear_arith)
                requires
                    unit == t * w,
                    scaled == top * w,
                    top == t * q + r,
                    0 <= r < t,
                    w > 0,
            ;
            assert(r != 0 <==> q * unit != scaled) by (nonlinear_arith)
                requires
                    unit == t * w,
                    scaled == top * w,
                    top == t * q + r,
                    w > 0,
            ;
        }
        let magnitude = rounding::round_quotient(
            q,
            r != 0,
            (shift + k) as u128,
            (j + FRACTION_PLACES) as u128,
            Ghost(n),
            Ghost(d),
        );
        Binary64::with_sign(negative, magnitude)
    }

    /// `self + other`.
    pub fn plus(self, other: Binary64) -> (x: Binary64)
        ensures
            x == Binary64::sum(self, other),
    {
        if self.is_nan() || other.is_nan() {
            return Binary64 { bits: NAN_BITS };
        }
        if self.is_infinite() || other.is_infinite() {
            if self.is_infinite() && other.is_infinite() && self.is_negative()
                != other.is_negative() {
                return Binary64 { bits: NAN_BITS };
            }
            if self.is_infinite() {
                return self;
            }
            return other;
        }
        let (s, j) = self.parts();
        let (t, k) = other.parts();
        if j >= k {
            Binary64::add_aligned(self, other, s, j, t, k)
        } else {
            Binary64::add_aligned(other, self, t, k, s, j)
        }
    }

    /// Adds two finite numbers, the first of the larger scale.
    fn add_aligned(x: Binary64, y: Binary64, s: u64, j: u32, t: u64, k: u32) -> (z: Binary64)
        requires
            x.finite(),
            y.finite(),
            s == x.significand(),
            j == x.scale(),
            t == y.significand(),
            k == y.scale(),
            k <= j <= 2045,
            s < 0x20_0000_0000_0000,
            t < 0x20_0000_0000_0000,
            j > 0 ==> s >= EXPONENT_STEP,
        ensures
            z == Binary64::sum(x, y),
            z == Binary64::sum(y, x),
    {
        let ghost total = x.units() + y.units();
        proof {
            lemma2_to64();
            lemma2_to64_rest();
            lemma_parts(x);
            lemma_parts(y);
            lemma_pow2_pos(j as nat);
            lemma_pow2_pos(k as nat);
        }
        let lead = x.is_negative();
        let same = lead == y.is_negative();
        if j - k <= 64 {
            let gap: u32 = j - k;
            let p = rounding::power_of_two(gap);
            proof {
                rounding::lemma_pow2_monotone(gap as nat, 64);
                lemma_pow2_adds(gap as nat, k as nat);
                assert(s * p <= 0x20_0000_0000_0000 * 0x1_0000_0000_0000_0000) by (nonlinear_arith)
                    requires
                        s <= 0x20_0000_0000_0000,
                        0 <= p <= 0x1_0000_0000_0000_0000,
                ;
                assert(x.size() == (s * p) * pow2(k as nat)) by (nonlinear_arith)
                    requires
                        x.size() == s * pow2(j as nat),
                        pow2(j as nat) == p * pow2(k as nat),
                ;
            }
            let big: u128 = s as u128 * p;
            let small: u128 = t as u128;
            let m: u128 = if same {
                big + small
            } else if big >= small {
                big - small
            } else {
                small - big
            };
            let negative = if same || big >= small {
                lead
            } else {
                !lead
            };
            let ghost unit = pow2(k as nat);
            let ghost size = if total < 0 {
                (-total) as nat
            } else {
                total as nat
            };
            proof {
                let bu = big * unit;
                let su = small * unit;
                assert(big >= small ==> bu >= su) by (nonlinear_arith)
                    requires
                        bu == big * unit,
                        su == small * unit,
                        unit > 0,
                ;
                assert(big < small ==> bu < su) by (nonlinear_arith)
                    requires
                        bu == big * unit,
                        su == small * unit,
                        unit > 0,
                ;
                assert((big + small) * unit == bu + su) by (nonlinear_arith)
                    requires
                        bu == big * unit,
                        su == small * unit,
                ;
                assert((big - small) * unit == bu - su) by (nonlinear_arith)
                    requires
                        bu == big * unit,
                        su == small * unit,
                ;
                assert((small - big) * unit == su - bu) by (nonlinear_arith)
                    requires
                        bu == big * unit,
                        su == small * unit,
                ;
                assert(m * unit == size);
                assert(m == 0 <==> size == 0) by (nonlinear_arith)
                    requires
                        m * unit == size,
                        unit > 0,
                ;
                assert(m != 0 ==> (total < 0 <==> negative));
            }
            if m == 0 {
                return Binary64::with_sign(same && lead, 0);
            }
            proof {
                assert(rounding::is_quotient(m as nat, false, size, 0, 1, k as nat))
                    by (nonlinear_arith)
                    requires
                        m * unit == size,
                        unit > 0,
                        unit == pow2(k as nat),
                        pow2(0) == 1,
                ;
            }
            let magnitude = rounding::round_quotient(m, false, 0, k as u128, Ghost(size), Ghost(1));
            Binary64::with_sign(negative, magnitude)
        } else {
            let low: u32 = j - 3;
            let ghost unit = pow2(low as nat);
            let ghost tail = y.size();
            let ghost size = if total < 0 {
                (-total) as nat
            } else {
                total as nat
            };
            let head: u128 = s as u128 * 8;
            let inexact = t != 0;
            let m: u128 = if same || !inexact {
                head
            } else {
                head - 1
            };
            proof {
                lemma_pow2_adds(3, low as nat);
                lemma_pow2_pos(low as nat);
                lemma_pow2_adds(53, k as nat);
                rounding::lemma_pow2_monotone((53 + k) as nat, low as nat);
                assert(x.size() == head * unit) by (nonlinear_arith)
                    requires
                        x.size() == s * pow2(j as nat),
                        pow2(j as nat) == 8 * unit,
                        head == s * 8,
                ;
                assert(tail < unit) by (nonlinear_arith)
                    requires
                        tail == t * pow2(k as nat),
                        t < pow2(53),
                        pow2(k as nat) > 0,
                        pow2(53) * pow2(k as nat) <= unit,
                ;
                assert(head * unit > tail) by (nonlinear_arith)
                    requires
                        head >= 1,
                        tail < unit,
                ;
                assert(size == if same {
                    head * unit + tail
                } else {
                    head * unit - tail
                });
                assert(total < 0 <==> lead);
                assert(rounding::is_quotient(m as nat, inexact, size, 0, 1, low as nat))
                    by (nonlinear_arith)
                    requires
                        unit == pow2(low as nat),
                        pow2(0) == 1,
                        0 <= tail < unit,
                        inexact <==> tail != 0,
                        m == if same || !inexact {
                            head as int
                        } else {
                            head - 1
                        },
                        size == if same {
                            head * unit + tail
                        } else {
                            head * unit - tail
                        },
                ;
            }
            let magnitude = rounding::round_quotient(
                m,
                inexact,
                0,
                low as u128,
                Ghost(size),
                Ghost(1),
            );
            Binary64::with_sign(lead, magnitude)
        }
    }

    /// `self - other`.
    pub fn minus(self, other: Binary64) -> (x: Binary64)
        ensures
            x == Binary64::difference(self, other),
    {
        self.plus(other.negate())
    }

    /// The integer part of the absolute value of a finite number, at most
    /// `2^64`, and whether anything follows the point.
    fn split(self) -> (p: (u128, bool))
        requires
            self.finite(),
        ensures
            p.0 == if self.whole() > 0x1_0000_0000_0000_0000 {
                0x1_0000_0000_0000_0000
            } else {
                self.whole()
            },
            p.1 == self.fractional(),
    {
        let (s, k) = self.parts();
        let ghost one = pow2(FRACTION_PLACES as nat);
        proof {
            lemma2_to64();
            lemma2_to64_rest();
            lemma_pow2_pos(FRACTION_PLACES as nat);
            lemma_pow2_pos(k as nat);
        }
        if k >= FRACTION_PLACES {
            let shift: u32 = k - FRACTION_PLACES;
            let ghost p = pow2(shift as nat);
            proof {
                lemma_pow2_adds(shift as nat, FRACTION_PLACES as nat);
                lemma_pow2_pos(shift as nat);
                assert(self.size() == (s * p) * one + 0) by (nonlinear_arith)
                    requires
                        self.size() == s * pow2(k as nat),
                        pow2(k as nat) == p * one,
                ;
                lemma_fundamental_div_mod_converse(
                    self.size() as int,
                    one as int,
                    (s * p) as int,
                    0,
                );
            }
            if shift >= 12 {
                proof {
                    rounding::lemma_pow2_monotone(12, shift as nat);
                    assert(s * p >= 0x1_0000_0000_0000_0000) by (nonlinear_arith)
                        requires
                            s >= 0x10_0000_0000_0000,
                            p >= 0x1000,
                    ;
                }
                (0x1_0000_0000_0000_0000, false)
            } else {
                proof {
                    rounding::lemma_pow2_monotone(shift as nat, 11);
                    assert(s * p <= 0x20_0000_0000_0000 * 0x800) by (nonlinear_arith)
                        requires
                            s <= 0x20_0000_0000_0000,
                            0 <= p <= 0x800,
                    ;
                }
                let q = rounding::power_of_two(shift);
                (s as u128 * q, false)
            }
        } else {
            let shift: u32 = FRACTION_PLACES - k;
            let ghost p = pow2(shift as nat);
            let ghost u = pow2(k as nat);
            proof {
                lemma_pow2_adds(shift as nat, k as nat);
                lemma_pow2_pos(shift as nat);
                lemma_fundamental_div_mod(s as int, p as int);
                let q = s as int / p as int;
                let r = s as int % p as int;
                assert(self.size() == q * one + r * u) by (nonlinear_arith)
                    requires
                        self.size() == s * u,
                        one == p * u,
                        s == p * q + r,
                ;
                assert(0 <= r * u < one) by (nonlinear_arith)
                    requires
                        0 <= r < p,
                        u > 0,
                        one == p * u,
                ;
                lemma_fundamental_div_mod_converse(self.size() as int, one as int, q, r * u);
                assert(r == 0 <==> r * u == 0) by (nonlinear_arith)
                    requires
                        u > 0,
                ;
            }
            if shift >= 64 {
                proof {
                    rounding::lemma_pow2_monotone(64, shift as nat);
                    lemma_fundamental_div_mod_converse(s as int, p as int, 0, s as int);
                }
                (0, s != 0)
            } else {
                let q = rounding::power_of_two(shift);
                proof {
                    assert(s as int / p as int <= s) by (nonlinear_arith)
                        requires
                            p >= 1,
                            s >= 0,
                    ;
                }
                (s as u128 / q, s as u128 % q != 0)
            }
        }
    }

    /// Whether the number is finite and no integer.
    pub fn is_fractional(self) -> (b: bool)
        ensures
            b == (self.finite() && self.fractional()),
    {
        if self.is_nan() || self.is_infinite() {
            return false;
        }
        let (_, rest) = self.split();
        rest
    }

    /// The number as an integer between zero and `u64::MAX`.
    pub fn to_u64(self) -> (n: u64)
        ensures
            n == Binary64::as_unsigned(self),
    {
        if self.is_nan() || self.is_negative() {
            return 0;
        }
        if self.is_infinite() {
            return u64::MAX;
        }
        let (whole, _) = self.split();
        if whole > u64::MAX as u128 {
            u64::MAX
        } else {
            whole as u64
        }
    }

    fn bounded(negative: bool, size: u128) -> (n: i64)
        requires
            size <= 0x1_0000_0000_0000_0001,
        ensures
            n == Binary64::clamp_signed(
                if negative {
                    -(size as int)
                } else {
                    size as int
                },
            ),
    {
        if negative {
            if size >= 0x8000_0000_0000_0000 {
                i64::MIN
            } else {
                -(size as i64)
            }
        } else if size > i64::MAX as u128 {
            i64::MAX
        } else {
            size as i64
        }
    }

    /// The number cut toward zero, as an `i64`.
    pub fn to_i64(self) -> (n: i64)
        ensures
            n == Binary64::as_signed(self),
    {
        if self.is_nan() {
            return 0;
        }
        if self.is_infinite() {
            return if self.is_negative() {
                i64::MIN
            } else {
                i64::MAX
            };
        }
        let (whole, _) = self.split();
        Binary64::bounded(self.is_negative(), whole)
    }

    /// The greatest integer that is not above the number, as an `i64`.
    pub fn floor_to_i64(self) -> (n: i64)
        ensures
            n == Binary64::floor_signed(self),
    {
        if self.is_nan() || self.is_infinite() {
            return self.to_i64();
        }
        let (whole, rest) = self.split();
        let negative = self.is_negative();
        proof {
            let one = pow2(FRACTION_PLACES as nat) as int;
            lemma_pow2_pos(FRACTION_PLACES as nat);
            let size = self.size() as int;
            lemma_fundamental_div_mod(size, one);
            if negative {
                let q = size / one;
                let r = size % one;
                if r == 0 {
                    assert(-size == (-q) * one + 0) by (nonlinear_arith)
                        requires
                            size == one * q + r,
                            r == 0,
                    ;
                    lemma_fundamental_div_mod_converse(-size, one, -q, 0);
                } else {
                    assert(-size == (-q - 1) * one + (one - r)) by (nonlinear_arith)
                        requires
                            size == one * q + r,
                    ;
                    lemma_fundamental_div_mod_converse(-size, one, -q - 1, one - r);
                }
            }
        }
        if negative && rest {
            Binary64::bounded(true, whole + 1)
        } else {
            Binary64::bounded(negative, whole)
        }
    }

    /// The number nearest to an integer.
    pub fn from_u64(n: u64) -> (x: Binary64)
        ensures
            x == Binary64::of_integer(n as nat),
    {
        proof {
            lemma2_to64();
            lemma_pow2_pos(FRACTION_PLACES as nat);
            let p = pow2(FRACTION_PLACES as nat);
            assert(rounding::is_quotient(
                n as nat,
                false,
                n as nat * p,
                0,
                1,
                FRACTION_PLACES as nat,
            )) by (nonlinear_arith)
                requires
                    pow2(0) == 1,
                    p > 0,
                    p == pow2(FRACTION_PLACES as nat),
            ;
        }
        let magnitude = rounding::round_quotient(
            n as u128,
            false,
            0,
            FRACTION_PLACES as u128,
            Ghost((n as nat * pow2(FRACTION_PLACES as nat)) as nat),
            Ghost(1),
        );
        Binary64::with_sign(false, magnitude)
    }
}

impl Binary64 {
    /// The number nearest to a signed integer.
    pub fn from_i64(n: i64) -> (x: Binary64)
        ensures
            x == Binary64::of_signed(n as int),
    {
        if n == i64::MIN {
            Binary64::from_u64(0x8000_0000_0000_0000).negate()
        } else if n < 0 {
            Binary64::from_u64((-n) as u64).negate()
        } else {
            Binary64::from_u64(n as u64)
        }
    }
}

impl PartialEq for Binary64 {
    fn eq(&self, other: &Binary64) -> (b: bool) {
        self.is_same(*other)
    }
}

impl vstd::std_specs::cmp::PartialEqSpecImpl for Binary64 {
    open spec fn obeys_eq_spec() -> bool {
        true
    }

    open spec fn eq_spec(&self, other: &Binary64) -> bool {
        Binary64::same(*self, *other)
    }
}

} // verus!
