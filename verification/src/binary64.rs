//! Dollar amounts and prices: IEEE 754 binary64 numbers, held as their bits.
//!
//! The arithmetic is the standard's: the exact result, rounded to nearest with
//! ties to even. Its contracts speak of the numbers themselves, in units of
//! 2^-1074 (see [`crate::rounding`]).
use crate::rounding::{
    is_nearest, lemma_nearest_scaled, lemma_nearest_unique, lemma_units_at, lemma_units_monotone,
    nearest, power, round_quotient, round_scaled, units, BINADE, INFINITE, UNIT_EXPONENT,
};
use vstd::arithmetic::mul::lemma_mul_strict_inequality;
use vstd::arithmetic::power2::{
    lemma2_to64, lemma2_to64_rest, lemma_pow2_adds, lemma_pow2_pos, lemma_pow2_strictly_increases,
    lemma_pow2_unfold, pow2,
};
use vstd::prelude::*;

verus! {

/// The sign bit.
pub const SIGN: u64 = 0x8000_0000_0000_0000;

/// The one pattern that arithmetic here answers with where there is no number.
pub const NOT_A_NUMBER: u64 = 0x7FF8_0000_0000_0000;

/// How many tokens a quoted price is for.
pub const PER_MILLION: u64 = 1_000_000;

/// The sign bit of a binary32 pattern.
pub const SINGLE_SIGN: u32 = 0x8000_0000;

/// The magnitude of infinity among binary32 patterns.
pub const SINGLE_INFINITE: u32 = 0x7F80_0000;

/// Fraction values per binade of binary32: 2^23.
pub const SINGLE_BINADE: u32 = 0x80_0000;

/// How many powers of two lie between the units of binary32 and binary64,
/// 2^-149 and 2^-1074.
pub const SINGLE_UNIT: u64 = 925;

/// The number of units of 2^-149 that a finite binary32 magnitude stands for.
pub open spec fn single_units(magnitude: nat) -> nat {
    if magnitude < SINGLE_BINADE {
        magnitude
    } else {
        (SINGLE_BINADE + magnitude % (SINGLE_BINADE as nat)) as nat * pow2(
            (magnitude / (SINGLE_BINADE as nat) - 1) as nat,
        )
    }
}

/// A binary64 number.
#[derive(Clone, Copy, Debug)]
pub struct Binary64 {
    pub bits: u64,
}

impl Binary64 {
    /// The bits below the sign.
    pub open spec fn magnitude(self) -> nat {
        if self.bits < SIGN {
            self.bits as nat
        } else {
            (self.bits - SIGN) as nat
        }
    }

    pub open spec fn is_negative(self) -> bool {
        self.bits >= SIGN
    }

    pub open spec fn is_nan(self) -> bool {
        self.magnitude() > INFINITE
    }

    pub open spec fn is_infinite(self) -> bool {
        self.magnitude() == INFINITE
    }

    pub open spec fn is_finite(self) -> bool {
        self.magnitude() < INFINITE
    }

    /// The number in units of 2^-1074. Both zeros are 0; an infinity lies
    /// beyond every finite number of its sign.
    pub open spec fn value(self) -> int {
        if self.is_negative() {
            -(units(self.magnitude()) as int)
        } else {
            units(self.magnitude()) as int
        }
    }

    pub open spec fn of(negative: bool, magnitude: nat) -> Binary64 {
        Binary64 {
            bits: (if negative {
                SIGN + magnitude
            } else {
                magnitude as int
            }) as u64,
        }
    }

    pub open spec fn nan() -> Binary64 {
        Binary64 { bits: NOT_A_NUMBER }
    }

    /// `self + other`.
    pub open spec fn plus(self, other: Binary64) -> Binary64 {
        if self.is_nan() || other.is_nan() {
            Self::nan()
        } else if self.is_infinite() {
            if other.is_infinite() && self.is_negative() != other.is_negative() {
                Self::nan()
            } else {
                self
            }
        } else if other.is_infinite() {
            other
        } else {
            let sum = self.value() + other.value();
            if sum == 0 {
                Self::of(self.is_negative() && other.is_negative(), 0)
            } else if sum > 0 {
                Self::of(false, nearest(sum as nat, 1))
            } else {
                Self::of(true, nearest((-sum) as nat, 1))
            }
        }
    }

    /// `-self`.
    pub open spec fn opposite(self) -> Binary64 {
        Self::of(!self.is_negative(), self.magnitude())
    }

    /// `self - other`.
    pub open spec fn minus(self, other: Binary64) -> Binary64 {
        self.plus(other.opposite())
    }

    /// `self * other`.
    pub open spec fn times(self, other: Binary64) -> Binary64 {
        let negative = self.is_negative() != other.is_negative();
        if self.is_nan() || other.is_nan() {
            Self::nan()
        } else if self.is_infinite() || other.is_infinite() {
            if self.magnitude() == 0 || other.magnitude() == 0 {
                Self::nan()
            } else {
                Self::of(negative, INFINITE as nat)
            }
        } else {
            Self::of(
                negative,
                nearest(
                    units(self.magnitude()) * units(other.magnitude()),
                    pow2(UNIT_EXPONENT as nat),
                ),
            )
        }
    }

    /// `self / divisor`, for a positive whole divisor.
    pub open spec fn over(self, divisor: nat) -> Binary64 {
        if self.is_nan() {
            Self::nan()
        } else if self.is_infinite() {
            self
        } else {
            Self::of(self.is_negative(), nearest(units(self.magnitude()), divisor))
        }
    }

    /// `self / 1_000_000`: a price per million tokens as a price per token.
    pub open spec fn per_million(self) -> Binary64 {
        self.over(PER_MILLION as nat)
    }

    /// The number that a binary32 pattern stands for.
    pub open spec fn widened(single: u32) -> Binary64 {
        let negative = single >= SINGLE_SIGN;
        let magnitude = (if negative {
            single - SINGLE_SIGN
        } else {
            single as int
        }) as nat;
        if magnitude > SINGLE_INFINITE {
            Self::nan()
        } else if magnitude == SINGLE_INFINITE {
            Self::of(negative, INFINITE as nat)
        } else {
            Self::of(
                negative,
                nearest(single_units(magnitude) * pow2(SINGLE_UNIT as nat), 1),
            )
        }
    }

    /// The number nearest to a count.
    pub open spec fn from_count(count: nat) -> Binary64 {
        Self::of(false, nearest(count * pow2(UNIT_EXPONENT as nat), 1))
    }

    /// `self == other`, as numbers: the zeros are equal, and what is not a
    /// number equals nothing.
    pub open spec fn equals(self, other: Binary64) -> bool {
        !self.is_nan() && !other.is_nan() && self.value() == other.value()
    }

    /// `self >= other`, as numbers.
    pub open spec fn at_least(self, other: Binary64) -> bool {
        !self.is_nan() && !other.is_nan() && self.value() >= other.value()
    }

    /// Where a pattern stands in the standard's total order: negative patterns
    /// first, the larger magnitude the earlier, then the positive ones.
    pub open spec fn rank(self) -> int {
        if self.is_negative() {
            -(self.magnitude() as int) - 1
        } else {
            self.magnitude() as int
        }
    }
}

/// The significand and the exponent of a finite magnitude.
pub(crate) fn split(magnitude: u64) -> (parts: (u64, u64))
    requires
        magnitude < INFINITE,
    ensures
        units(magnitude as nat) == parts.0 as nat * pow2(parts.1 as nat),
        magnitude == parts.0 + parts.1 * BINADE,
        parts.0 < 2 * BINADE,
        parts.1 == 0 || parts.0 >= BINADE,
        parts.1 <= 2045,
{
    let parts: (u64, u64) = if magnitude < BINADE {
        (magnitude, 0)
    } else {
        (BINADE + magnitude % BINADE, magnitude / BINADE - 1)
    };
    proof {
        lemma_units_at(parts.0 as nat, parts.1 as nat);
    }
    parts
}

/// The magnitude nearest to the sum of two, the larger one first.
fn add_magnitudes(large: u64, small: u64) -> (magnitude: u64)
    requires
        small <= large < INFINITE,
    ensures
        is_nearest(units(large as nat) + units(small as nat), 1, magnitude as nat),
{
    let (high, high_exponent) = split(large);
    let (low, low_exponent) = split(small);
    proof {
        lemma_exponents(high, high_exponent, low, low_exponent);
    }
    let gap: u64 = high_exponent - low_exponent;
    if gap > 64 {
        proof {
            lemma_negligible(high as nat, high_exponent as nat, low as nat, low_exponent as nat);
        }
        return large;
    }
    let aligned: u128 = align(high, gap);
    let total: u128 = aligned + low as u128;
    let magnitude: u64 = round_scaled(total, low_exponent + UNIT_EXPONENT);
    proof {
        let p = pow2(low_exponent as nat);
        let one = pow2(UNIT_EXPONENT as nat);
        lemma_pow2_adds(gap as nat, low_exponent as nat);
        lemma_pow2_adds(low_exponent as nat, UNIT_EXPONENT as nat);
        let n = units(large as nat) + units(small as nat);
        assert(total as nat * (p * one) == n * one) by (nonlinear_arith)
            requires
                total == high as nat * pow2(gap as nat) + low,
                n == high as nat * (pow2(gap as nat) * p) + low as nat * p,
        ;
        lemma_pow2_pos(UNIT_EXPONENT as nat);
        lemma_nearest_scaled(n, 1, one, magnitude as nat);
    }
    magnitude
}

/// The magnitude nearest to the difference of two, the larger one first.
fn subtract_magnitudes(large: u64, small: u64) -> (magnitude: u64)
    requires
        small <= large < INFINITE,
    ensures
        units(small as nat) <= units(large as nat),
        is_nearest((units(large as nat) - units(small as nat)) as nat, 1, magnitude as nat),
{
    let (high, high_exponent) = split(large);
    let (low, low_exponent) = split(small);
    proof {
        lemma_exponents(high, high_exponent, low, low_exponent);
        lemma_units_monotone(small as nat, large as nat);
    }
    let gap: u64 = high_exponent - low_exponent;
    if gap > 64 {
        proof {
            lemma_negligible(high as nat, high_exponent as nat, low as nat, low_exponent as nat);
        }
        return large;
    }
    let aligned: u128 = align(high, gap);
    proof {
        let p = pow2(low_exponent as nat);
        lemma_pow2_adds(gap as nat, low_exponent as nat);
        lemma_pow2_pos(low_exponent as nat);
        assert(aligned as nat * p == high as nat * (pow2(gap as nat) * p)) by (nonlinear_arith)
            requires
                aligned == high as nat * pow2(gap as nat),
        ;
        assert(low <= aligned) by (nonlinear_arith)
            requires
                low as nat * p <= aligned as nat * p,
                p > 0,
        ;
    }
    let total: u128 = aligned - low as u128;
    let magnitude: u64 = round_scaled(total, low_exponent + UNIT_EXPONENT);
    proof {
        let p = pow2(low_exponent as nat);
        let one = pow2(UNIT_EXPONENT as nat);
        lemma_pow2_adds(low_exponent as nat, UNIT_EXPONENT as nat);
        let n = (units(large as nat) - units(small as nat)) as nat;
        assert(total as nat * (p * one) == n * one) by (nonlinear_arith)
            requires
                total == high as nat * pow2(gap as nat) - low,
                n == high as nat * (pow2(gap as nat) * p) - low as nat * p,
        ;
        lemma_pow2_pos(UNIT_EXPONENT as nat);
        lemma_nearest_scaled(n, 1, one, magnitude as nat);
    }
    magnitude
}

/// A significand moved left by `gap` bits.
fn align(significand: u64, gap: u64) -> (aligned: u128)
    requires
        significand < 2 * BINADE,
        gap <= 64,
    ensures
        aligned == significand as nat * pow2(gap as nat),
        aligned < 0x20_0000_0000_0000_0000_0000_0000_0000,
{
    let scale: u128 = power(gap);
    proof {
        lemma2_to64();
        if gap < 64 {
            lemma_pow2_strictly_increases(gap as nat, 64);
        }
        assert((significand as nat) * (scale as nat) < 0x20_0000_0000_0000_0000_0000_0000_0000)
            by (nonlinear_arith)
            requires
                significand < 2 * BINADE,
                scale <= 0x1_0000_0000_0000_0000,
        ;
    }
    significand as u128 * scale
}

/// Larger magnitudes have larger exponents.
proof fn lemma_exponents(high: u64, high_exponent: u64, low: u64, low_exponent: u64)
    requires
        low + low_exponent * BINADE <= high + high_exponent * BINADE,
        high < 2 * BINADE,
        low_exponent == 0 || low >= BINADE,
    ensures
        low_exponent <= high_exponent,
{
    if low_exponent > high_exponent {
        assert(low_exponent * BINADE >= high_exponent * BINADE + BINADE) by (nonlinear_arith)
            requires
                low_exponent >= high_exponent + 1,
        ;
    }
}

/// A number more than 64 binades down changes nothing.
proof fn lemma_negligible(high: nat, high_exponent: nat, low: nat, low_exponent: nat)
    requires
        BINADE <= high < 2 * BINADE,
        low < 2 * BINADE,
        high_exponent > low_exponent + 64,
        high + high_exponent * (BINADE as nat) < INFINITE,
    ensures
        low * pow2(low_exponent) < high * pow2(high_exponent),
        is_nearest(
            high * pow2(high_exponent) + low * pow2(low_exponent),
            1,
            high + high_exponent * (BINADE as nat),
        ),
        is_nearest(
            (high * pow2(high_exponent) - low * pow2(low_exponent)) as nat,
            1,
            high + high_exponent * (BINADE as nat),
        ),
{
    let b = BINADE as nat;
    let m = high + high_exponent * b;
    let quarter = pow2((high_exponent - 2) as nat);
    let half = pow2((high_exponent - 1) as nat);
    let whole = pow2(high_exponent);
    let tiny = low * pow2(low_exponent);
    lemma_pow2_unfold(high_exponent);
    lemma_pow2_unfold((high_exponent - 1) as nat);
    lemma2_to64();
    lemma2_to64_rest();
    lemma_pow2_adds(53, low_exponent);
    lemma_pow2_pos(low_exponent);
    lemma_pow2_strictly_increases(53 + low_exponent, (high_exponent - 2) as nat);
    lemma_mul_strict_inequality(low as int, 2 * b as int, pow2(low_exponent) as int);
    assert(tiny < quarter);
    lemma_units_at(high, high_exponent);
    lemma_units_at(high + 1, high_exponent);
    assert(m + 1 == (high + 1) + high_exponent * b);
    assert((high + 1) * whole == high * whole + whole) by (nonlinear_arith);
    assert(high * whole >= whole) by (nonlinear_arith)
        requires
            high >= 1,
    ;
    if high > b {
        lemma_units_at((high - 1) as nat, high_exponent);
        assert(m - 1 == (high - 1) + high_exponent * b);
        assert((high - 1) * whole == high * whole - whole) by (nonlinear_arith);
    } else {
        let top = (2 * b - 1) as nat;
        lemma_units_at(top, (high_exponent - 1) as nat);
        assert(m - 1 == top + (high_exponent - 1) * b) by (nonlinear_arith)
            requires
                m == b + high_exponent * b,
                top == 2 * b - 1,
        ;
        assert(top * half == high * whole - half) by (nonlinear_arith)
            requires
                top == 2 * high - 1,
                whole == 2 * half,
        ;
    }
}

impl Binary64 {
    /// Puts a sign to a magnitude.
    fn signed(negative: bool, magnitude: u64) -> (result: Binary64)
        requires
            magnitude < SIGN,
        ensures
            result == Self::of(negative, magnitude as nat),
    {
        Binary64 {
            bits: if negative {
                SIGN + magnitude
            } else {
                magnitude
            },
        }
    }

    /// Takes the sign off.
    pub(crate) fn unsigned(self) -> (result: (bool, u64))
        ensures
            result.0 == self.is_negative(),
            result.1 == self.magnitude(),
            result.1 < SIGN,
    {
        if self.bits < SIGN {
            (false, self.bits)
        } else {
            (true, self.bits - SIGN)
        }
    }

    /// `self + other`.
    pub fn sum(self, other: Binary64) -> (result: Binary64)
        ensures
            result == self.plus(other),
    {
        let (left_negative, left) = self.unsigned();
        let (right_negative, right) = other.unsigned();
        if left > INFINITE || right > INFINITE {
            return Binary64 { bits: NOT_A_NUMBER };
        }
        if left == INFINITE {
            if right == INFINITE && left_negative != right_negative {
                return Binary64 { bits: NOT_A_NUMBER };
            }
            return self;
        }
        if right == INFINITE {
            return other;
        }
        let (large_negative, large, small) = if left >= right {
            (left_negative, left, right)
        } else {
            (right_negative, right, left)
        };
        proof {
            lemma_units_monotone(small as nat, large as nat);
            if large > 0 {
                lemma_units_monotone(0, large as nat);
            }
        }
        if left_negative == right_negative {
            let magnitude: u64 = add_magnitudes(large, small);
            proof {
                lemma_nearest_unique(
                    units(large as nat) + units(small as nat),
                    1,
                    magnitude as nat,
                );
                if large == 0 {
                    lemma_zero_rounds(1, magnitude as nat);
                }
            }
            Self::signed(left_negative, magnitude)
        } else if large == small {
            Self::signed(false, 0)
        } else {
            let magnitude: u64 = subtract_magnitudes(large, small);
            proof {
                lemma_nearest_unique(
                    (units(large as nat) - units(small as nat)) as nat,
                    1,
                    magnitude as nat,
                );
            }
            Self::signed(large_negative, magnitude)
        }
    }

    /// `self - other`.
    pub fn difference(self, other: Binary64) -> (result: Binary64)
        ensures
            result == self.minus(other),
    {
        let (negative, magnitude) = other.unsigned();
        self.sum(Self::signed(!negative, magnitude))
    }

    /// `self * other`.
    pub fn product(self, other: Binary64) -> (result: Binary64)
        ensures
            result == self.times(other),
    {
        let (left_negative, left) = self.unsigned();
        let (right_negative, right) = other.unsigned();
        let negative: bool = left_negative != right_negative;
        if left > INFINITE || right > INFINITE {
            return Binary64 { bits: NOT_A_NUMBER };
        }
        if left == INFINITE || right == INFINITE {
            if left == 0 || right == 0 {
                return Binary64 { bits: NOT_A_NUMBER };
            }
            return Self::signed(negative, INFINITE);
        }
        let (first, first_exponent) = split(left);
        let (second, second_exponent) = split(right);
        assert(first as nat * second as nat <= 0x400_0000_0000_0000_0000_0000_0000)
            by (nonlinear_arith)
            requires
                first < 2 * BINADE,
                second < 2 * BINADE,
        ;
        let magnitude: u64 = round_scaled(
            first as u128 * second as u128,
            first_exponent + second_exponent,
        );
        proof {
            let one = pow2(UNIT_EXPONENT as nat);
            lemma_pow2_adds(first_exponent as nat, second_exponent as nat);
            let n = units(left as nat) * units(right as nat);
            let p = pow2(first_exponent as nat);
            let q = pow2(second_exponent as nat);
            assert((first as nat * second as nat) * (p * q) == n) by (nonlinear_arith)
                requires
                    n == (first as nat * p) * (second as nat * q),
            ;
            lemma_pow2_pos(UNIT_EXPONENT as nat);
            lemma_nearest_unique(n, one, magnitude as nat);
        }
        Self::signed(negative, magnitude)
    }

    /// `self / divisor`, for a positive whole divisor.
    pub fn divided(self, divisor: u64) -> (result: Binary64)
        requires
            0 < divisor <= PER_MILLION,
        ensures
            result == self.over(divisor as nat),
    {
        let (negative, magnitude) = self.unsigned();
        if magnitude > INFINITE {
            return Binary64 { bits: NOT_A_NUMBER };
        }
        if magnitude == INFINITE {
            return self;
        }
        let (significand, exponent) = split(magnitude);
        assert(BINADE <= BINADE * divisor <= BINADE * PER_MILLION) by (nonlinear_arith)
            requires
                0 < divisor <= PER_MILLION,
        ;
        let enough: u128 = BINADE as u128 * divisor as u128;
        let mut dividend: u128 = significand as u128;
        let mut shift: u64 = exponent;
        while dividend < enough && shift > 0
            invariant
                enough <= BINADE * PER_MILLION,
                dividend < 2 * enough,
                shift <= 2045,
                dividend as nat * pow2(shift as nat) == units(magnitude as nat),
            decreases shift,
        {
            proof {
                lemma_pow2_unfold(shift as nat);
                let p = pow2((shift - 1) as nat);
                assert((2 * dividend as nat) * p == dividend as nat * (2 * p)) by (nonlinear_arith);
            }
            dividend = 2 * dividend;
            shift = shift - 1;
        }
        let quotient: u64 = round_quotient(dividend, divisor as u128, shift);
        proof {
            lemma_nearest_unique(units(magnitude as nat), divisor as nat, quotient as nat);
        }
        Self::signed(negative, quotient)
    }

    /// `self / 1_000_000`.
    pub fn divided_per_million(self) -> (result: Binary64)
        ensures
            result == self.per_million(),
    {
        self.divided(PER_MILLION)
    }

    /// The number nearest to a count.
    pub fn of_count(count: u64) -> (result: Binary64)
        ensures
            result == Self::from_count(count as nat),
    {
        let magnitude: u64 = round_scaled(count as u128, 2 * UNIT_EXPONENT);
        proof {
            let one = pow2(UNIT_EXPONENT as nat);
            let n = count as nat * one;
            lemma_pow2_adds(UNIT_EXPONENT as nat, UNIT_EXPONENT as nat);
            lemma_pow2_pos(UNIT_EXPONENT as nat);
            assert(count as nat * (one * one) == n * one) by (nonlinear_arith)
                requires
                    n == count as nat * one,
            ;
            lemma_nearest_scaled(n, 1, one, magnitude as nat);
            lemma_nearest_unique(n, 1, magnitude as nat);
        }
        Self::signed(false, magnitude)
    }

    /// The number that a binary32 pattern stands for, in the wider format.
    pub fn widen(single: u32) -> (result: Binary64)
        ensures
            result == Self::widened(single),
    {
        let negative: bool = single >= SINGLE_SIGN;
        let magnitude: u32 = if negative {
            single - SINGLE_SIGN
        } else {
            single
        };
        if magnitude > SINGLE_INFINITE {
            return Binary64 { bits: NOT_A_NUMBER };
        }
        if magnitude == SINGLE_INFINITE {
            return Self::signed(negative, INFINITE);
        }
        let (significand, exponent): (u32, u32) = if magnitude < SINGLE_BINADE {
            (magnitude, 0)
        } else {
            (SINGLE_BINADE + magnitude % SINGLE_BINADE, magnitude / SINGLE_BINADE - 1)
        };
        let wide: u64 = round_scaled(
            significand as u128,
            exponent as u64 + SINGLE_UNIT + UNIT_EXPONENT,
        );
        proof {
            lemma2_to64();
            let one = pow2(UNIT_EXPONENT as nat);
            let n = single_units(magnitude as nat) * pow2(SINGLE_UNIT as nat);
            lemma_pow2_adds(exponent as nat, SINGLE_UNIT as nat);
            lemma_pow2_adds((exponent + SINGLE_UNIT) as nat, UNIT_EXPONENT as nat);
            lemma_pow2_pos(UNIT_EXPONENT as nat);
            let p = pow2(exponent as nat);
            let q = pow2(SINGLE_UNIT as nat);
            if magnitude < SINGLE_BINADE {
                assert(p == 1);
                assert(significand as nat * p == significand) by (nonlinear_arith)
                    requires
                        p == 1,
                ;
            }
            assert(single_units(magnitude as nat) == significand as nat * p);
            assert(significand as nat * (p * q * one) == n * one) by (nonlinear_arith)
                requires
                    n == (significand as nat * p) * q,
            ;
            lemma_nearest_scaled(n, 1, one, wide as nat);
            lemma_nearest_unique(n, 1, wide as nat);
        }
        Self::signed(negative, wide)
    }

    /// Whether the number is finite.
    pub fn finite(self) -> (result: bool)
        ensures
            result == self.is_finite(),
    {
        self.unsigned().1 < INFINITE
    }

    /// Where the pattern stands in the standard's total order.
    pub fn total_order(self) -> (rank: i64)
        ensures
            rank == self.rank(),
    {
        let (negative, magnitude) = self.unsigned();
        if negative {
            -(magnitude as i64) - 1
        } else {
            magnitude as i64
        }
    }

    /// `self >= other`.
    pub fn is_at_least(self, other: Binary64) -> (result: bool)
        ensures
            result == self.at_least(other),
    {
        let (left_negative, left) = self.unsigned();
        let (right_negative, right) = other.unsigned();
        proof {
            lemma_value_order(self, other);
        }
        if left > INFINITE || right > INFINITE {
            false
        } else if left_negative {
            if right_negative {
                left <= right
            } else {
                left == 0 && right == 0
            }
        } else {
            right_negative || left >= right
        }
    }
}

impl PartialEq for Binary64 {
    fn eq(&self, other: &Binary64) -> (result: bool) {
        let (left_negative, left) = self.unsigned();
        let (right_negative, right) = other.unsigned();
        proof {
            lemma_value_order(*self, *other);
        }
        left <= INFINITE && right <= INFINITE && left == right && (left_negative == right_negative
            || left == 0)
    }
}

impl vstd::std_specs::cmp::PartialEqSpecImpl for Binary64 {
    open spec fn obeys_eq_spec() -> bool {
        true
    }

    open spec fn eq_spec(&self, other: &Binary64) -> bool {
        self.equals(*other)
    }
}

/// Zero rounds to zero.
proof fn lemma_zero_rounds(d: nat, magnitude: nat)
    requires
        d > 0,
        is_nearest(0, d, magnitude),
    ensures
        magnitude == 0,
{
    if magnitude > 0 {
        lemma_units_monotone(0, magnitude);
        assert(d * (units((magnitude - 1) as nat) + units(magnitude)) > 0) by (nonlinear_arith)
            requires
                d > 0,
                units(magnitude) > 0,
        ;
    }
}

/// Values are ordered as magnitudes are, and only zero has the value zero.
proof fn lemma_value_order(left: Binary64, right: Binary64)
    ensures
        left.magnitude() == 0 <==> units(left.magnitude()) == 0,
        right.magnitude() == 0 <==> units(right.magnitude()) == 0,
        left.magnitude() <= right.magnitude() <==> units(left.magnitude()) <= units(
            right.magnitude(),
        ),
        left.magnitude() >= right.magnitude() <==> units(left.magnitude()) >= units(
            right.magnitude(),
        ),
{
    lemma_units_monotone(0, left.magnitude());
    lemma_units_monotone(0, right.magnitude());
    if left.magnitude() <= right.magnitude() {
        lemma_units_monotone(left.magnitude(), right.magnitude());
    } else {
        lemma_units_monotone(right.magnitude(), left.magnitude());
    }
}

} // verus!
