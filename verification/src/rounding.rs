//! Rounding to the nearest binary64 magnitude, ties to even.
//!
//! A *magnitude* is the bit pattern of a binary64 number without its sign bit.
//! Read as integers, magnitudes are ordered as the numbers they stand for, and
//! every finite one stands for a whole number of *units* of 2^-1074, the
//! smallest positive binary64 number. Sums, products and quotients of binary64
//! numbers are therefore exact ratios of natural numbers of units, and rounding
//! is a statement about integers.
use vstd::arithmetic::mul::{
    lemma_mul_inequality, lemma_mul_is_commutative, lemma_mul_strict_inequality,
};
use vstd::arithmetic::power2::{
    lemma2_to64, lemma2_to64_rest, lemma_pow2_adds, lemma_pow2_pos, lemma_pow2_strictly_increases,
    lemma_pow2_unfold, pow2,
};
use vstd::prelude::*;

verus! {

/// Fraction values per binade: 2^52.
pub const BINADE: u64 = 0x10_0000_0000_0000;

/// The magnitude of infinity. Smaller magnitudes are finite, larger ones are
/// not numbers.
pub const INFINITE: u64 = 0x7FF0_0000_0000_0000;

/// How many powers of two lie between one and the unit.
pub const UNIT_EXPONENT: u64 = 1074;

/// The number of units that a magnitude stands for. Infinity stands for the
/// first power of two that is too large to be represented.
pub open spec fn units(magnitude: nat) -> nat {
    if magnitude < BINADE {
        magnitude
    } else {
        (BINADE + magnitude % (BINADE as nat)) as nat * pow2((magnitude / (BINADE as nat) - 1) as nat)
    }
}

/// Whether `magnitude` is the one nearest to `n / d` units. Between two
/// magnitudes the boundary is the number halfway; a number on the boundary
/// belongs to the even one. Beyond the halfway point to infinity everything
/// belongs to infinity.
pub open spec fn is_nearest(n: nat, d: nat, magnitude: nat) -> bool {
    &&& magnitude <= INFINITE
    &&& magnitude > 0 ==> {
        let halfway = d * (units((magnitude - 1) as nat) + units(magnitude));
        if magnitude % 2 == 0 {
            halfway <= 2 * n
        } else {
            halfway < 2 * n
        }
    }
    &&& magnitude < INFINITE ==> {
        let halfway = d * (units(magnitude) + units(magnitude + 1));
        if magnitude % 2 == 0 {
            2 * n <= halfway
        } else {
            2 * n < halfway
        }
    }
}

/// The magnitude nearest to `n / d` units.
pub open spec fn nearest(n: nat, d: nat) -> nat {
    choose|magnitude: nat| is_nearest(n, d, magnitude)
}

/// A significand of at most 53 bits, moved up by `shift` binades, stands for
/// the significand times 2^`shift` units.
pub proof fn lemma_units_at(significand: nat, shift: nat)
    requires
        significand <= 2 * BINADE,
        shift == 0 || significand >= BINADE,
    ensures
        units(significand + shift * (BINADE as nat)) == significand * pow2(shift),
{
    let b = BINADE as nat;
    let m = significand + shift * b;
    lemma2_to64();
    lemma2_to64_rest();
    if significand < b {
        assert(shift == 0);
        assert(m == significand);
    } else if significand < 2 * b {
        assert(m == (shift + 1) * b + (significand - b)) by (nonlinear_arith)
            requires
                m == significand + shift * b,
        ;
        vstd::arithmetic::div_mod::lemma_fundamental_div_mod_converse(
            m as int,
            b as int,
            shift as int + 1,
            significand - b,
        );
    } else {
        assert(m == (shift + 2) * b) by (nonlinear_arith)
            requires
                m == significand + shift * b,
                significand == 2 * b,
        ;
        vstd::arithmetic::div_mod::lemma_fundamental_div_mod_converse(
            m as int,
            b as int,
            shift as int + 2,
            0,
        );
        lemma_pow2_unfold(shift + 1);
        assert(b * (2 * pow2(shift)) == (2 * b) * pow2(shift)) by (nonlinear_arith);
    }
}

/// Every magnitude is a significand moved up by some binades.
pub proof fn lemma_split(magnitude: nat) -> (parts: (nat, nat))
    ensures
        magnitude == parts.0 + parts.1 * BINADE,
        parts.0 < 2 * BINADE,
        parts.1 == 0 || parts.0 >= BINADE,
        units(magnitude) == parts.0 * pow2(parts.1),
{
    let b = BINADE as nat;
    let parts = if magnitude < b {
        (magnitude, 0)
    } else {
        ((b + magnitude % b) as nat, (magnitude / b - 1) as nat)
    };
    if magnitude >= b {
        vstd::arithmetic::div_mod::lemma_fundamental_div_mod(magnitude as int, b as int);
        assert(b * (magnitude / b) == b + parts.1 * b) by (nonlinear_arith)
            requires
                parts.1 == magnitude / b - 1,
        ;
    }
    lemma_units_at(parts.0, parts.1);
    parts
}

/// The next magnitude stands for more.
pub proof fn lemma_units_step(magnitude: nat)
    ensures
        units(magnitude) < units(magnitude + 1),
{
    let (q, s) = lemma_split(magnitude);
    lemma_units_at(q + 1, s);
    lemma_pow2_pos(s);
    assert((q + 1) * pow2(s) == q * pow2(s) + pow2(s)) by (nonlinear_arith);
}

/// Larger magnitudes stand for more.
pub proof fn lemma_units_monotone(low: nat, high: nat)
    requires
        low <= high,
    ensures
        units(low) <= units(high),
        low < high ==> units(low) < units(high),
    decreases high - low,
{
    if low < high {
        lemma_units_monotone(low, (high - 1) as nat);
        lemma_units_step((high - 1) as nat);
    }
}

/// At most one magnitude is nearest.
pub proof fn lemma_nearest_unique(n: nat, d: nat, magnitude: nat)
    requires
        d > 0,
        is_nearest(n, d, magnitude),
    ensures
        nearest(n, d) == magnitude,
{
    let other = nearest(n, d);
    assert(is_nearest(n, d, other));
    if other < magnitude {
        lemma_nearest_apart(n, d, other, magnitude);
    } else if magnitude < other {
        lemma_nearest_apart(n, d, magnitude, other);
    }
}

proof fn lemma_nearest_apart(n: nat, d: nat, low: nat, high: nat)
    requires
        d > 0,
        low < high,
        is_nearest(n, d, low),
    ensures
        !is_nearest(n, d, high),
{
    lemma_units_monotone(low, (high - 1) as nat);
    lemma_units_monotone(low + 1, high);
    let below = units(low) + units(low + 1);
    let above = units((high - 1) as nat) + units(high);
    lemma_mul_inequality(below as int, above as int, d as int);
    lemma_mul_is_commutative(below as int, d as int);
    lemma_mul_is_commutative(above as int, d as int);
    if low + 1 < high {
        lemma_mul_strict_inequality(below as int, above as int, d as int);
    }
}

/// The ratio alone decides, not the terms it is written in.
pub proof fn lemma_nearest_scaled(n: nat, d: nat, scale: nat, magnitude: nat)
    requires
        scale > 0,
        is_nearest(n * scale, d * scale, magnitude),
    ensures
        is_nearest(n, d, magnitude),
{
    if magnitude > 0 {
        lemma_cancel(n, d, scale, units((magnitude - 1) as nat) + units(magnitude));
    }
    if magnitude < INFINITE {
        lemma_cancel(n, d, scale, units(magnitude) + units(magnitude + 1));
    }
}

proof fn lemma_cancel(n: nat, d: nat, scale: nat, halves: nat)
    requires
        scale > 0,
    ensures
        (d * scale) * halves <= 2 * (n * scale) <==> d * halves <= 2 * n,
        (d * scale) * halves < 2 * (n * scale) <==> d * halves < 2 * n,
        2 * (n * scale) <= (d * scale) * halves <==> 2 * n <= d * halves,
        2 * (n * scale) < (d * scale) * halves <==> 2 * n < d * halves,
{
    let a = d * halves;
    let b = 2 * n;
    assert((d * scale) * halves == a * scale) by (nonlinear_arith)
        requires
            a == d * halves,
    ;
    assert(2 * (n * scale) == b * scale) by (nonlinear_arith)
        requires
            b == 2 * n,
    ;
    if a < b {
        lemma_mul_strict_inequality(a as int, b as int, scale as int);
    } else if b < a {
        lemma_mul_strict_inequality(b as int, a as int, scale as int);
    }
}

/// Rounding a quotient that already has the right number of bits: `q` is the
/// whole part of `num / den`, and `up` says whether the rest rounds it up.
proof fn lemma_quotient(num: nat, den: nat, shift: nat, q: nat, rest: nat, up: bool)
    requires
        den > 0,
        num == q * den + rest,
        rest < den,
        q < 2 * BINADE,
        shift == 0 || q >= BINADE,
        up == (2 * rest > den || (2 * rest == den && q % 2 == 1)),
    ensures
        ({
            let m = q + (if up { 1nat } else { 0nat }) + shift * (BINADE as nat);
            is_nearest(num * pow2(shift), den, if m < INFINITE { m } else { INFINITE as nat })
        }),
{
    let b = BINADE as nat;
    let p = pow2(shift);
    let n = num * p;
    lemma_pow2_pos(shift);
    let chosen = q + (if up { 1nat } else { 0nat });
    let m = chosen + shift * b;
    assert(m % 2 == chosen % 2) by (nonlinear_arith)
        requires
            m == chosen + shift * b,
            b == 2 * 0x8_0000_0000_0000nat,
    ;
    lemma_units_at(chosen, shift);
    // The boundary above.
    if !up {
        lemma_units_at(q + 1, shift);
        assert(m + 1 == (q + 1) + shift * b);
        let halfway = den * (units(m) + units(m + 1));
        assert(halfway == (den * (2 * q + 1)) * p) by (nonlinear_arith)
            requires
                halfway == den * (q * p + (q + 1) * p),
        ;
        assert(den * (2 * q + 1) - 2 * num == den - 2 * rest) by (nonlinear_arith)
            requires
                num == q * den + rest,
        ;
        assert(2 * n == (2 * num) * p) by (nonlinear_arith)
            requires
                n == num * p,
        ;
        if 2 * num < den * (2 * q + 1) {
            lemma_mul_strict_inequality((2 * num) as int, (den * (2 * q + 1)) as int, p as int);
        }
        assert(2 * n <= halfway);
        assert(q % 2 == 1 ==> 2 * n < halfway);
    } else {
        lemma_units_step(m);
        let halfway = den * (units(m) + units(m + 1));
        assert(halfway > den * (2 * ((q + 1) * p))) by (nonlinear_arith)
            requires
                den > 0,
                halfway == den * (units(m) + units(m + 1)),
                units(m) == (q + 1) * p,
                units(m + 1) > units(m),
        ;
        assert(den * (2 * ((q + 1) * p)) > 2 * n) by (nonlinear_arith)
            requires
                den > 0,
                p > 0,
                n == num * p,
                num == q * den + rest,
                rest < den,
        ;
    }
    // The boundary below.
    if m > 0 {
        let halfway = den * (units((m - 1) as nat) + units(m));
        if up {
            lemma_units_at(q, shift);
            assert(m - 1 == q + shift * b);
            assert(halfway == (den * (2 * q + 1)) * p) by (nonlinear_arith)
                requires
                    halfway == den * (q * p + (q + 1) * p),
            ;
            assert(den * (2 * q + 1) - 2 * num == den - 2 * rest) by (nonlinear_arith)
                requires
                    num == q * den + rest,
            ;
            assert(2 * n == (2 * num) * p) by (nonlinear_arith)
                requires
                    n == num * p,
            ;
            if 2 * num > den * (2 * q + 1) {
                lemma_mul_strict_inequality((den * (2 * q + 1)) as int, (2 * num) as int, p as int);
            }
            assert(halfway <= 2 * n);
            assert(q % 2 == 0 ==> halfway < 2 * n);
        } else {
            lemma_units_step((m - 1) as nat);
            assert(halfway < den * (2 * (q * p))) by (nonlinear_arith)
                requires
                    den > 0,
                    halfway == den * (units((m - 1) as nat) + units(m)),
                    units(m) == q * p,
                    units((m - 1) as nat) < units(m),
            ;
            assert(den * (2 * (q * p)) <= 2 * n) by (nonlinear_arith)
                requires
                    p > 0,
                    n == num * p,
                    num == q * den + rest,
            ;
        }
    }
    if m > INFINITE {
        lemma_units_monotone((INFINITE - 1) as nat, (m - 1) as nat);
        lemma_units_monotone(INFINITE as nat, m);
        let top = units((INFINITE - 1) as nat) + units(INFINITE as nat);
        let there = units((m - 1) as nat) + units(m);
        lemma_mul_inequality(top as int, there as int, den as int);
        lemma_mul_is_commutative(top as int, den as int);
        lemma_mul_is_commutative(there as int, den as int);
    }
}

/// Rounds `num / den` times 2^`shift` units.
pub(crate) fn round_quotient(num: u128, den: u128, shift: u64) -> (magnitude: u64)
    requires
        den > 0,
        num < 2 * BINADE * den,
        shift == 0 || num >= BINADE * den,
        shift <= 4000,
    ensures
        is_nearest(num as nat * pow2(shift as nat), den as nat, magnitude as nat),
{
    let q: u128 = num / den;
    let rest: u128 = num % den;
    proof {
        vstd::arithmetic::div_mod::lemma_fundamental_div_mod(num as int, den as int);
        lemma_mul_is_commutative(den as int, q as int);
        assert(q < 2 * BINADE) by (nonlinear_arith)
            requires
                q * den + rest == num,
                rest >= 0,
                num < 2 * BINADE * den,
                den > 0,
        ;
        if shift > 0 {
            assert(q >= BINADE) by (nonlinear_arith)
                requires
                    q * den + rest == num,
                    rest < den,
                    num >= BINADE * den,
                    den > 0,
            ;
        }
    }
    let up: bool = rest > den - rest || (rest == den - rest && q % 2 == 1);
    let chosen: u64 = if up {
        q as u64 + 1
    } else {
        q as u64
    };
    assert(shift * BINADE <= 4000 * BINADE) by (nonlinear_arith)
        requires
            shift <= 4000,
    ;
    let magnitude: u64 = chosen + shift * BINADE;
    proof {
        lemma_quotient(num as nat, den as nat, shift as nat, q as nat, rest as nat, up);
    }
    if magnitude < INFINITE {
        magnitude
    } else {
        INFINITE
    }
}

/// 2^`exponent`.
pub(crate) fn power(exponent: u64) -> (result: u128)
    requires
        exponent < 128,
    ensures
        result == pow2(exponent as nat),
{
    let mut result: u128 = 1;
    let mut done: u64 = 0;
    proof {
        lemma2_to64();
        lemma2_to64_rest();
    }
    while done < exponent
        invariant
            done <= exponent < 128,
            result == pow2(done as nat),
        decreases exponent - done,
    {
        proof {
            lemma_pow2_unfold((done + 1) as nat);
            lemma_pow2_below(done as nat + 1, 127);
        }
        result = result * 2;
        done = done + 1;
    }
    result
}

/// Powers of two up to 2^127 fit in 128 bits.
proof fn lemma_pow2_below(low: nat, high: nat)
    requires
        low <= high <= 127,
    ensures
        pow2(low) <= pow2(high),
        pow2(high) <= 0x8000_0000_0000_0000_0000_0000_0000_0000,
{
    lemma2_to64();
    lemma2_to64_rest();
    lemma_pow2_adds(63, 64);
    if low < high {
        lemma_pow2_strictly_increases(low, high);
    }
    if high < 127 {
        lemma_pow2_strictly_increases(high, 127);
    }
    assert(0x8000_0000_0000_0000nat * 0x1_0000_0000_0000_0000
        == 0x8000_0000_0000_0000_0000_0000_0000_0000);
}

/// How many bits `value` takes.
fn bit_length(value: u128) -> (length: u64)
    ensures
        length <= 128,
        value < pow2(length as nat),
        length > 0 ==> pow2((length - 1) as nat) <= value,
{
    let mut rest: u128 = value;
    let mut length: u64 = 0;
    proof {
        lemma2_to64();
        lemma2_to64_rest();
    }
    while rest > 0
        invariant
            length <= 128,
            rest * pow2(length as nat) <= value < (rest + 1) * pow2(length as nat),
            length > 0 ==> pow2((length - 1) as nat) <= value,
        decreases rest,
    {
        proof {
            let p = pow2(length as nat);
            let half = rest / 2;
            assert(p <= rest * p) by (nonlinear_arith)
                requires
                    rest >= 1,
            ;
            if length >= 128 {
                lemma2_to64();
                lemma2_to64_rest();
                lemma_pow2_adds(64, 64);
                assert(0x1_0000_0000_0000_0000nat * 0x1_0000_0000_0000_0000
                    == 0x1_0000_0000_0000_0000_0000_0000_0000_0000);
                if length > 128 {
                    lemma_pow2_strictly_increases(128, length as nat);
                }
            }
            lemma_pow2_unfold((length + 1) as nat);
            assert(half * (2 * p) <= rest * p) by (nonlinear_arith)
                requires
                    2 * half <= rest,
                    p >= 0,
            ;
            assert((rest + 1) * p <= (half + 1) * (2 * p)) by (nonlinear_arith)
                requires
                    rest + 1 <= 2 * (half + 1),
                    p >= 0,
            ;
        }
        rest = rest / 2;
        length = length + 1;
    }
    assert((rest + 1) * pow2(length as nat) == pow2(length as nat)) by (nonlinear_arith)
        requires
            rest == 0,
    ;
    length
}

/// Rounds `significand` times 2^`exponent`, in units of the unit's own scale:
/// 2^1074 stands for one unit.
pub(crate) fn round_scaled(significand: u128, exponent: u64) -> (magnitude: u64)
    requires
        significand < 0x100_0000_0000_0000_0000_0000_0000_0000,
        exponent <= 4500,
    ensures
        is_nearest(
            significand as nat * pow2(exponent as nat),
            pow2(UNIT_EXPONENT as nat),
            magnitude as nat,
        ),
{
    let ghost n = significand as nat * pow2(exponent as nat);
    let ghost one = pow2(UNIT_EXPONENT as nat);
    if significand == 0 {
        assert(n == 0);
        assert(one * (units(0) + units(1)) >= 0);
        return 0;
    }
    let length: u64 = bit_length(significand);
    proof {
        if length == 0 {
            lemma2_to64();
        }
        lemma2_to64();
        lemma2_to64_rest();
        lemma_pow2_pos(UNIT_EXPONENT as nat);
        lemma_pow2_pos(exponent as nat);
        lemma_length_bound(significand, length);
    }
    // The value lies below 2^(top - 1074) units, at or above half of that.
    let top: u64 = length + exponent;
    let shift: u64 = if top > UNIT_EXPONENT + 53 {
        top - UNIT_EXPONENT - 53
    } else {
        0
    };
    if exponent >= shift + UNIT_EXPONENT {
        let left: u64 = exponent - shift - UNIT_EXPONENT;
        let scale: u128 = power(left);
        proof {
            lemma_pow2_adds(length as nat, left as nat);
            lemma_scaled_up(significand as nat, length as nat, left as nat, shift as nat);
            lemma_pow2_adds(left as nat, shift as nat);
            lemma_pow2_adds((left + shift) as nat, UNIT_EXPONENT as nat);
        }
        let magnitude: u64 = round_quotient(significand * scale, 1, shift);
        proof {
            let num = significand as nat * scale as nat;
            let p = pow2(shift as nat);
            assert(n == (num * p) * one) by (nonlinear_arith)
                requires
                    n == significand as nat * (scale as nat * p * one),
                    num == significand as nat * scale as nat,
            ;
            lemma_nearest_widened(num * p, 1, one, magnitude as nat);
        }
        magnitude
    } else {
        let right: u64 = shift + UNIT_EXPONENT - exponent;
        if right > 126 {
            proof {
                assert(shift == 0);
                lemma_pow2_adds(right as nat, exponent as nat);
                lemma_pow2_below(121, 126);
                lemma_pow2_strictly_increases(126, right as nat);
                lemma_pow2_adds(64, 57);
                assert(2 * significand < pow2(right as nat));
                assert(2 * n < one) by (nonlinear_arith)
                    requires
                        n == significand as nat * pow2(exponent as nat),
                        one == pow2(right as nat) * pow2(exponent as nat),
                        2 * significand < pow2(right as nat),
                        pow2(exponent as nat) > 0,
                ;
                assert(one * (units(0) + units(1)) == one) by (nonlinear_arith)
                    requires
                        units(0) + units(1) == 1,
                ;
            }
            0
        } else {
            let den: u128 = power(right);
            proof {
                lemma_scaled_down(significand as nat, length as nat, right as nat, shift as nat);
            }
            let magnitude: u64 = round_quotient(significand, den, shift);
            proof {
                // significand * 2^shift / 2^right is significand * 2^exponent / 2^1074
                let p = pow2(shift as nat);
                lemma_pow2_adds(shift as nat, UNIT_EXPONENT as nat);
                lemma_pow2_adds(right as nat, exponent as nat);
                lemma_nearest_widened(
                    significand as nat * p,
                    den as nat,
                    pow2(exponent as nat),
                    magnitude as nat,
                );
                assert((significand as nat * p) * pow2(exponent as nat) == n * p)
                    by (nonlinear_arith)
                    requires
                        n == significand as nat * pow2(exponent as nat),
                ;
                assert(den as nat * pow2(exponent as nat) == one * p) by (nonlinear_arith)
                    requires
                        den as nat * pow2(exponent as nat) == p * one,
                ;
                lemma_pow2_pos(shift as nat);
                lemma_nearest_scaled(n, one, p, magnitude as nat);
            }
            magnitude
        }
    }
}

/// The converse of [`lemma_nearest_scaled`].
pub proof fn lemma_nearest_widened(n: nat, d: nat, scale: nat, magnitude: nat)
    requires
        scale > 0,
        is_nearest(n, d, magnitude),
    ensures
        is_nearest(n * scale, d * scale, magnitude),
{
    if magnitude > 0 {
        lemma_cancel(n, d, scale, units((magnitude - 1) as nat) + units(magnitude));
    }
    if magnitude < INFINITE {
        lemma_cancel(n, d, scale, units(magnitude) + units(magnitude + 1));
    }
}

/// A number below 2^120 takes at most 120 bits.
proof fn lemma_length_bound(value: u128, length: u64)
    requires
        value < 0x100_0000_0000_0000_0000_0000_0000_0000,
        length > 0 ==> pow2((length - 1) as nat) <= value,
    ensures
        length <= 120,
{
    if length > 120 {
        lemma2_to64();
        lemma2_to64_rest();
        lemma_pow2_adds(64, 56);
        assert(0x1_0000_0000_0000_0000nat * 0x100_0000_0000_0000
            == 0x100_0000_0000_0000_0000_0000_0000_0000);
        if length > 121 {
            lemma_pow2_strictly_increases(120, (length - 1) as nat);
        }
    }
}

/// A number of `length` bits, moved left so that it takes at most 53.
proof fn lemma_scaled_up(value: nat, length: nat, left: nat, shift: nat)
    requires
        value < pow2(length),
        length > 0 ==> pow2((length - 1) as nat) <= value,
        length + left <= 53,
        shift > 0 ==> length > 0 && length + left == 53,
    ensures
        left < 128,
        value * pow2(left) < 2 * BINADE,
        shift > 0 ==> value * pow2(left) >= BINADE,
{
    let p = pow2(left);
    lemma_pow2_pos(left);
    lemma2_to64();
    lemma2_to64_rest();
    lemma_pow2_adds(length, left);
    if length + left < 53 {
        lemma_pow2_strictly_increases(length + left, 53);
    }
    lemma_mul_strict_inequality(value as int, pow2(length) as int, p as int);
    if shift > 0 {
        lemma_pow2_adds((length - 1) as nat, left);
        lemma_mul_inequality(pow2((length - 1) as nat) as int, value as int, p as int);
    }
}

/// A number of `length` bits, divided so that the quotient takes at most 53.
proof fn lemma_scaled_down(value: nat, length: nat, right: nat, shift: nat)
    requires
        value < pow2(length),
        length > 0 ==> pow2((length - 1) as nat) <= value,
        length <= 53 + right,
        shift > 0 ==> length > 0 && length == 53 + right,
    ensures
        value < 2 * BINADE * pow2(right),
        shift > 0 ==> value >= BINADE * pow2(right),
{
    lemma2_to64();
    lemma2_to64_rest();
    lemma_pow2_adds(53, right);
    lemma_pow2_adds(52, right);
    if length < 53 + right {
        lemma_pow2_strictly_increases(length, 53 + right);
    }
}

} // verus!
