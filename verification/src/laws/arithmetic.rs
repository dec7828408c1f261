//! Laws of dollar amounts.
use crate::binary64::{
    single_units, Binary64, SINGLE_BINADE, SINGLE_INFINITE, SINGLE_SIGN, SINGLE_UNIT,
};
use crate::decimal::{digits, padded, scaled, ten_to};
use crate::model_rate_table::zero;
use crate::rate::{Rate, TokenUsage};
use crate::rounding::{
    is_nearest, lemma_nearest_unique, lemma_nearest_widened, lemma_units_at, lemma_units_monotone,
    nearest, units, BINADE, INFINITE, UNIT_EXPONENT,
};
use crate::usage_dashboard::usd_text;
use vstd::arithmetic::power2::{
    lemma2_to64, lemma2_to64_rest, lemma_pow2_adds, lemma_pow2_pos, lemma_pow2_unfold, pow2,
};
use vstd::prelude::*;

verus! {

/// Whether `magnitude` is not too large to be nearest to `n / d` units.
spec fn reaches(n: nat, d: nat, magnitude: nat) -> bool {
    magnitude > 0 ==> {
        let halfway = d * (units((magnitude - 1) as nat) + units(magnitude));
        if magnitude % 2 == 0 {
            halfway <= 2 * n
        } else {
            halfway < 2 * n
        }
    }
}

proof fn lemma_nearest_below(n: nat, d: nat, magnitude: nat)
    requires
        magnitude <= INFINITE,
        magnitude < INFINITE ==> !reaches(n, d, magnitude + 1),
    ensures
        exists|found: nat| is_nearest(n, d, found),
    decreases magnitude,
{
    if reaches(n, d, magnitude) {
        assert(is_nearest(n, d, magnitude));
    } else {
        lemma_nearest_below(n, d, (magnitude - 1) as nat);
    }
}

/// Every ratio has one nearest magnitude: rounding always has a result, and only
/// one.
pub proof fn law_rounding_has_one_result(n: nat, d: nat)
    requires
        d > 0,
    ensures
        is_nearest(n, d, nearest(n, d)),
        forall|magnitude: nat| is_nearest(n, d, magnitude) ==> magnitude == nearest(n, d),
{
    lemma_nearest_below(n, d, INFINITE as nat);
    assert forall|magnitude: nat| is_nearest(n, d, magnitude) implies magnitude == nearest(n, d) by {
        lemma_nearest_unique(n, d, magnitude);
    }
}

/// A number that can be represented is not changed by rounding.
pub proof fn law_representable_stays(magnitude: nat)
    requires
        magnitude <= INFINITE,
    ensures
        nearest(units(magnitude), 1) == magnitude,
{
    if magnitude > 0 {
        lemma_units_monotone((magnitude - 1) as nat, magnitude);
    }
    lemma_units_monotone(magnitude, magnitude + 1);
    lemma_nearest_unique(units(magnitude), 1, magnitude);
}

/// A significand of at most 53 bits times a power of two can be represented,
/// unless it is too large.
proof fn lemma_representable(significand: nat, exponent: nat) -> (magnitude: nat)
    requires
        0 < significand < 2 * BINADE,
    ensures
        units(magnitude) == significand * pow2(exponent),
        magnitude <= significand + exponent * (BINADE as nat),
    decreases exponent,
{
    let b = BINADE as nat;
    if exponent == 0 || significand >= BINADE {
        lemma_units_at(significand, exponent);
        significand + exponent * b
    } else {
        let magnitude = lemma_representable(2 * significand, (exponent - 1) as nat);
        lemma_pow2_unfold(exponent);
        assert((2 * significand) * pow2((exponent - 1) as nat) == significand * (2 * pow2(
            (exponent - 1) as nat,
        ))) by (nonlinear_arith);
        assert(2 * significand + (exponent - 1) * b <= significand + exponent * b)
            by (nonlinear_arith)
            requires
                significand < b,
        ;
        magnitude
    }
}

/// Widening a price is exact.
pub proof fn law_widening_is_exact(single: u32)
    requires
        single % SINGLE_SIGN < SINGLE_INFINITE,
    ensures
        Binary64::widened(single).is_finite(),
        Binary64::widened(single).value() == ({
            let exact = single_units((single % SINGLE_SIGN) as nat) * pow2(SINGLE_UNIT as nat);
            if single >= SINGLE_SIGN {
                -(exact as int)
            } else {
                exact as int
            }
        }),
{
    let m = (single % SINGLE_SIGN) as nat;
    let n = single_units(m) * pow2(SINGLE_UNIT as nat);
    let b = SINGLE_BINADE as nat;
    let (significand, exponent) = if m < b {
        (m, 0nat)
    } else {
        ((b + m % b) as nat, (m / b - 1) as nat)
    };
    lemma2_to64();
    lemma_pow2_adds(exponent, SINGLE_UNIT as nat);
    if m < b {
        assert(significand * pow2(exponent) == significand) by (nonlinear_arith)
            requires
                pow2(exponent) == 1,
        ;
    }
    assert(single_units(m) == significand * pow2(exponent));
    assert(n == significand * pow2(exponent + SINGLE_UNIT as nat)) by (nonlinear_arith)
        requires
            n == (significand * pow2(exponent)) * pow2(SINGLE_UNIT as nat),
            pow2(exponent + SINGLE_UNIT as nat) == pow2(exponent) * pow2(SINGLE_UNIT as nat),
    ;
    let wide = if significand == 0 {
        assert(n == 0) by (nonlinear_arith)
            requires
                n == significand * pow2(exponent + SINGLE_UNIT as nat),
                significand == 0,
        ;
        0
    } else {
        lemma_representable(significand, exponent + SINGLE_UNIT as nat)
    };
    assert(exponent <= 253);
    assert(significand + (exponent + SINGLE_UNIT) * BINADE < INFINITE) by (nonlinear_arith)
        requires
            significand < 0x100_0000,
            exponent <= 253,
            SINGLE_UNIT == 925,
            BINADE == 0x10_0000_0000_0000,
            INFINITE == 0x7FF0_0000_0000_0000,
    ;
    law_representable_stays(wide);
    assert(nearest(n, 1) == wide);
}

/// A count of up to 2^53 is exact.
pub proof fn law_counts_are_exact(count: nat)
    requires
        count <= 2 * BINADE,
    ensures
        Binary64::from_count(count).is_finite(),
        Binary64::from_count(count).value() == count * pow2(UNIT_EXPONENT as nat),
{
    let n = count * pow2(UNIT_EXPONENT as nat);
    if count == 0 {
        assert(n == 0) by (nonlinear_arith)
            requires
                n == count * pow2(UNIT_EXPONENT as nat),
                count == 0,
        ;
        law_representable_stays(0);
    } else if count < 2 * BINADE {
        let magnitude = lemma_representable(count, UNIT_EXPONENT as nat);
        law_representable_stays(magnitude);
    } else {
        lemma_units_at(count, UNIT_EXPONENT as nat);
        law_representable_stays(count + UNIT_EXPONENT as nat * (BINADE as nat));
    }
}

/// Without a cache discount the cache saves nothing.
pub proof fn law_no_discount_no_savings(rate: Rate, usage: TokenUsage)
    requires
        rate.input.is_finite(),
        rate.cache_read.equals(rate.input),
    ensures
        rate.savings_of(usage).equals(zero()),
{
    let count = Binary64::from_count(usage.cache_read_input_tokens as nat);
    let difference = rate.input.minus(rate.cache_read);
    lemma_count_is_finite(usage.cache_read_input_tokens as nat);
    lemma_finite_value(rate.cache_read, rate.input);
    assert(rate.cache_read.opposite().value() == -rate.cache_read.value());
    assert(difference.magnitude() == 0);
    lemma_times_nothing(count, difference);
}

/// Nothing times a finite number is nothing.
proof fn lemma_times_nothing(count: Binary64, other: Binary64)
    requires
        count.is_finite(),
        other.is_finite(),
        count.magnitude() == 0 || other.magnitude() == 0,
    ensures
        count.times(other).equals(zero()),
{
    let d = pow2(UNIT_EXPONENT as nat);
    lemma_pow2_pos(UNIT_EXPONENT as nat);
    let n = units(count.magnitude()) * units(other.magnitude());
    assert(n == 0) by (nonlinear_arith)
        requires
            n == units(count.magnitude()) * units(other.magnitude()),
            units(count.magnitude()) == 0 || units(other.magnitude()) == 0,
    ;
    assert(d * (units(0) + units(1)) >= 0) by (nonlinear_arith);
    assert(is_nearest(0, d, 0));
    lemma_nearest_unique(0, d, 0);
}

/// Where nothing was read from cache, the cache saves nothing.
pub proof fn law_no_cache_reads_no_savings(rate: Rate, usage: TokenUsage)
    requires
        usage.cache_read_input_tokens == 0,
        rate.input.minus(rate.cache_read).is_finite(),
    ensures
        rate.savings_of(usage).equals(zero()),
{
    law_counts_are_exact(0);
    assert(0 * pow2(UNIT_EXPONENT as nat) == 0);
    let count = Binary64::from_count(0);
    if count.magnitude() > 0 {
        lemma_units_monotone(0, count.magnitude());
    }
    lemma_times_nothing(count, rate.input.minus(rate.cache_read));
}

/// Only the cache reads decide what the cache saves.
pub proof fn law_only_cache_reads_save(rate: Rate, usage: TokenUsage, other: TokenUsage)
    requires
        usage.cache_read_input_tokens == other.cache_read_input_tokens,
    ensures
        rate.savings_of(usage) == rate.savings_of(other),
{
}

/// Where cached reads cost at least as much as input does, the cache saves
/// nothing or less.
pub proof fn law_dearer_cache_reads_save_nothing(rate: Rate, usage: TokenUsage)
    requires
        rate.input.is_finite(),
        rate.cache_read.is_finite(),
        rate.cache_read.at_least(rate.input),
        usage.cache_read_input_tokens > 0 || rate.input.minus(rate.cache_read).is_finite(),
    ensures
        zero().at_least(rate.savings_of(usage)),
{
    let count = Binary64::from_count(usage.cache_read_input_tokens as nat);
    lemma_count_is_finite(usage.cache_read_input_tokens as nat);
    lemma_count_is_not_zero(usage.cache_read_input_tokens as nat);
    let difference = rate.input.minus(rate.cache_read);
    assert(rate.cache_read.opposite().value() == -rate.cache_read.value());
    let gap = (rate.cache_read.value() - rate.input.value()) as nat;
    law_rounding_has_one_result(gap, 1);
    let d = pow2(UNIT_EXPONENT as nat);
    lemma_pow2_pos(UNIT_EXPONENT as nat);
    law_rounding_has_one_result(units(count.magnitude()) * units(difference.magnitude()), d);
    assert(!difference.is_nan());
    if !difference.is_negative() {
        assert(difference.magnitude() == 0);
        lemma_times_nothing(count, difference);
    } else if difference.is_infinite() {
        assert(count.magnitude() > 0);
        assert(rate.savings_of(usage) == Binary64::of(true, INFINITE as nat));
    } else {
        assert(rate.savings_of(usage).is_negative());
    }
}

/// Whether some finite number has this value.
pub open spec fn is_representable(value: int) -> bool {
    exists|number: Binary64| number.is_finite() && #[trigger] number.value() == value
}

/// Whether each step of a cost is exact: every count, every product and every
/// sum so far can be represented.
pub open spec fn adds_up_exactly(rate: Rate, usage: TokenUsage) -> bool {
    let one = pow2(UNIT_EXPONENT as nat);
    let input = usage.input_tokens * rate.input.value();
    let output = usage.output_tokens * rate.output.value();
    let read = usage.cache_read_input_tokens * rate.cache_read.value();
    let write = usage.cache_creation_input_tokens * rate.cache_write.value();
    &&& is_representable(usage.input_tokens * one)
    &&& is_representable(usage.output_tokens * one)
    &&& is_representable(usage.cache_read_input_tokens * one)
    &&& is_representable(usage.cache_creation_input_tokens * one)
    &&& is_representable(input)
    &&& is_representable(output)
    &&& is_representable(read)
    &&& is_representable(write)
    &&& is_representable(input + output)
    &&& is_representable(input + output + read)
    &&& is_representable(input + output + read + write)
}

/// Whether each step of the savings is exact.
pub open spec fn saves_exactly(rate: Rate, usage: TokenUsage) -> bool {
    let difference = rate.input.value() - rate.cache_read.value();
    &&& is_representable(usage.cache_read_input_tokens * pow2(UNIT_EXPONENT as nat))
    &&& is_representable(difference)
    &&& is_representable(usage.cache_read_input_tokens * difference)
}

/// A value that can be represented is not rounded.
proof fn lemma_exact(value: int)
    requires
        is_representable(value),
    ensures
        ({
            let size = (if value < 0 { -value } else { value }) as nat;
            nearest(size, 1) < INFINITE && units(nearest(size, 1)) == size
        }),
{
    let number = choose|number: Binary64| number.is_finite() && #[trigger] number.value() == value;
    law_representable_stays(number.magnitude());
}

proof fn lemma_exact_plus(one: Binary64, other: Binary64)
    requires
        one.is_finite(),
        other.is_finite(),
        is_representable(one.value() + other.value()),
    ensures
        one.plus(other).is_finite(),
        one.plus(other).value() == one.value() + other.value(),
{
    lemma_exact(one.value() + other.value());
}

proof fn lemma_exact_count(count: u64)
    requires
        is_representable(count * pow2(UNIT_EXPONENT as nat)),
    ensures
        Binary64::from_count(count as nat).is_finite(),
        !Binary64::from_count(count as nat).is_negative(),
        Binary64::from_count(count as nat).value() == count * pow2(UNIT_EXPONENT as nat),
{
    let n = count * pow2(UNIT_EXPONENT as nat);
    assert(n >= 0) by (nonlinear_arith)
        requires
            n == count * pow2(UNIT_EXPONENT as nat),
    ;
    lemma_exact(n);
}

proof fn lemma_exact_times(count: u64, price: Binary64)
    requires
        is_representable(count * pow2(UNIT_EXPONENT as nat)),
        price.is_finite(),
        is_representable(count * price.value()),
    ensures
        Binary64::from_count(count as nat).times(price).is_finite(),
        Binary64::from_count(count as nat).times(price).value() == count * price.value(),
{
    let one = pow2(UNIT_EXPONENT as nat);
    lemma_pow2_pos(UNIT_EXPONENT as nat);
    lemma_exact_count(count);
    lemma_exact(count * price.value());
    let size = units(price.magnitude());
    let n = count as nat * size;
    let times = units(Binary64::from_count(count as nat).magnitude()) * size;
    assert(times == n * one) by (nonlinear_arith)
        requires
            times == (count as nat * one) * size,
            n == count as nat * size,
    ;
    assert(count * price.value() == (if price.is_negative() {
        -(n as int)
    } else {
        n as int
    })) by (nonlinear_arith)
        requires
            n == count as nat * size,
            price.value() == (if price.is_negative() {
                -(size as int)
            } else {
                size as int
            }),
    ;
    law_rounding_has_one_result(n, 1);
    assert(1 * one == one);
    lemma_nearest_widened(n, 1, one, nearest(n, 1));
    lemma_nearest_unique(n * one, one, nearest(n, 1));
}

proof fn lemma_exact_cost(rate: Rate, usage: TokenUsage)
    requires
        rate.input.is_finite(),
        rate.output.is_finite(),
        rate.cache_read.is_finite(),
        rate.cache_write.is_finite(),
        adds_up_exactly(rate, usage),
    ensures
        rate.cost_of(usage).is_finite(),
        rate.cost_of(usage).value() == usage.input_tokens * rate.input.value()
            + usage.output_tokens * rate.output.value() + usage.cache_read_input_tokens
            * rate.cache_read.value() + usage.cache_creation_input_tokens
            * rate.cache_write.value(),
{
    lemma_exact_times(usage.input_tokens, rate.input);
    lemma_exact_times(usage.output_tokens, rate.output);
    lemma_exact_times(usage.cache_read_input_tokens, rate.cache_read);
    lemma_exact_times(usage.cache_creation_input_tokens, rate.cache_write);
    let input = Binary64::from_count(usage.input_tokens as nat).times(rate.input);
    let output = Binary64::from_count(usage.output_tokens as nat).times(rate.output);
    let read = Binary64::from_count(usage.cache_read_input_tokens as nat).times(rate.cache_read);
    let write = Binary64::from_count(usage.cache_creation_input_tokens as nat).times(
        rate.cache_write,
    );
    lemma_exact_plus(input, output);
    lemma_exact_plus(input.plus(output), read);
    lemma_exact_plus(input.plus(output).plus(read), write);
}

/// The rate without a cache discount.
pub open spec fn without_discount(rate: Rate) -> Rate {
    Rate {
        input: rate.input,
        output: rate.output,
        cache_read: rate.input,
        cache_write: rate.cache_write,
    }
}

/// The savings are what the cache reads would have cost at the full input rate,
/// less what they did cost: wherever nothing is rounded, the cost without the
/// discount less the cost with it.
pub proof fn law_savings_are_the_difference(rate: Rate, usage: TokenUsage)
    requires
        rate.input.is_finite(),
        rate.output.is_finite(),
        rate.cache_read.is_finite(),
        rate.cache_write.is_finite(),
        adds_up_exactly(rate, usage),
        adds_up_exactly(without_discount(rate), usage),
        saves_exactly(rate, usage),
    ensures
        rate.savings_of(usage).value() == without_discount(rate).cost_of(usage).value()
            - rate.cost_of(usage).value(),
        rate.cache_read.value() > rate.input.value() && usage.cache_read_input_tokens > 0
            ==> rate.savings_of(usage).value() < 0,
{
    lemma_exact_cost(rate, usage);
    lemma_exact_cost(without_discount(rate), usage);
    let reads = usage.cache_read_input_tokens;
    let full = rate.input.value();
    let less = rate.cache_read.value();
    assert(rate.cache_read.opposite().value() == -less);
    lemma_exact_plus(rate.input, rate.cache_read.opposite());
    lemma_exact_times(reads, rate.input.minus(rate.cache_read));
    assert(reads * (full - less) == reads * full - reads * less) by (nonlinear_arith);
    assert(less > full && reads > 0 ==> reads * (full - less) < 0) by (nonlinear_arith);
}

/// Equal numbers are finite together.
proof fn lemma_finite_value(one: Binary64, other: Binary64)
    requires
        one.equals(other),
        other.is_finite(),
    ensures
        one.is_finite(),
{
    lemma_units_monotone(other.magnitude(), INFINITE as nat);
    if one.is_infinite() {
        lemma_units_monotone(0, INFINITE as nat);
    }
}

/// Rounding does not go past a number that can be represented.
proof fn lemma_nearest_at_most(n: nat, d: nat, magnitude: nat)
    requires
        d > 0,
        n <= d * units(magnitude),
    ensures
        nearest(n, d) <= magnitude,
        nearest(n, d) <= INFINITE,
{
    law_rounding_has_one_result(n, d);
    let found = nearest(n, d);
    if found > magnitude {
        let below = units((found - 1) as nat);
        let above = units(found);
        lemma_units_monotone(magnitude, (found - 1) as nat);
        lemma_units_monotone(magnitude, found);
        assert(2 * n < d * (below + above)) by (nonlinear_arith)
            requires
                d > 0,
                n <= d * units(magnitude),
                units(magnitude) <= below,
                units(magnitude) < above,
        ;
    }
}

proof fn lemma_count_is_finite(count: nat)
    requires
        count <= u64::MAX,
    ensures
        Binary64::from_count(count).is_finite(),
        !Binary64::from_count(count).is_negative(),
{
    let b = BINADE as nat;
    let cap = b + 1086 * b;
    lemma_units_at(b, 1086);
    lemma2_to64();
    lemma2_to64_rest();
    lemma_pow2_adds(12, 1074);
    let one = pow2(UNIT_EXPONENT as nat);
    assert(count * one <= units(cap)) by (nonlinear_arith)
        requires
            units(cap) == b * (pow2(12) * one),
            b * pow2(12) == 0x1_0000_0000_0000_0000,
            count <= u64::MAX,
    ;
    lemma_nearest_at_most(count * one, 1, cap);
}

proof fn lemma_count_is_not_zero(count: nat)
    ensures
        count > 0 ==> Binary64::from_count(count).magnitude() > 0,
{
    let one = pow2(UNIT_EXPONENT as nat);
    lemma_pow2_pos(UNIT_EXPONENT as nat);
    let n = count * one;
    law_rounding_has_one_result(n, 1);
    assert(count > 0 ==> n > 0) by (nonlinear_arith)
        requires
            n == count * one,
            one > 0,
    ;
    assert(units(0) == 0 && units(1) == 1);
}

/// Whether an amount is a number that is not negative.
pub open spec fn is_amount(amount: Binary64) -> bool {
    amount.at_least(zero())
}

/// Amounts add up to an amount.
pub proof fn law_amounts_add_up(one: Binary64, other: Binary64)
    requires
        is_amount(one),
        is_amount(other),
    ensures
        is_amount(one.plus(other)),
{
    let sum = one.value() + other.value();
    if !one.is_infinite() && !other.is_infinite() && sum > 0 {
        law_rounding_has_one_result(sum as nat, 1);
    }
    lemma_units_monotone(0, INFINITE as nat);
}

proof fn lemma_amount_times(count: Binary64, price: Binary64)
    requires
        count.is_finite(),
        !count.is_negative(),
        is_amount(price),
        price.is_finite(),
    ensures
        is_amount(count.times(price)),
{
    let n = units(count.magnitude()) * units(price.magnitude());
    let d = pow2(UNIT_EXPONENT as nat);
    lemma_pow2_pos(UNIT_EXPONENT as nat);
    law_rounding_has_one_result(n, d);
    if price.is_negative() {
        if price.magnitude() > 0 {
            lemma_units_monotone(0, price.magnitude());
        }
        assert(n == 0) by (nonlinear_arith)
            requires
                n == units(count.magnitude()) * units(price.magnitude()),
                units(price.magnitude()) == 0,
        ;
        assert(d * (units(0) + units(1)) >= 0) by (nonlinear_arith);
        assert(is_nearest(0, d, 0));
    }
}

/// At prices that are finite and not negative, usage never costs less than
/// nothing.
pub proof fn law_costs_are_not_negative(rate: Rate, usage: TokenUsage)
    requires
        crate::laws::rates::is_usable_rate(rate),
    ensures
        is_amount(rate.cost_of(usage)),
{
    let input = Binary64::from_count(usage.input_tokens as nat);
    let output = Binary64::from_count(usage.output_tokens as nat);
    let read = Binary64::from_count(usage.cache_read_input_tokens as nat);
    let write = Binary64::from_count(usage.cache_creation_input_tokens as nat);
    lemma_count_is_finite(usage.input_tokens as nat);
    lemma_count_is_finite(usage.output_tokens as nat);
    lemma_count_is_finite(usage.cache_read_input_tokens as nat);
    lemma_count_is_finite(usage.cache_creation_input_tokens as nat);
    lemma_amount_times(input, rate.input);
    lemma_amount_times(output, rate.output);
    lemma_amount_times(read, rate.cache_read);
    lemma_amount_times(write, rate.cache_write);
    let first = input.times(rate.input).plus(output.times(rate.output));
    law_amounts_add_up(input.times(rate.input), output.times(rate.output));
    law_amounts_add_up(first, read.times(rate.cache_read));
    law_amounts_add_up(first.plus(read.times(rate.cache_read)), write.times(rate.cache_write));
}

proof fn lemma_padded_length(n: nat, width: nat)
    ensures
        padded(n, width).len() == width,
    decreases width,
{
    if width > 0 {
        lemma_padded_length(n / 10, (width - 1) as nat);
    }
}

/// A number in decimal has no point, and one of ten or more has two digits.
proof fn lemma_digits(n: nat)
    ensures
        digits(n).len() >= 1,
        n >= 10 ==> digits(n).len() >= 2,
        n < 10 ==> digits(n).len() == 1,
        0 < n < 10 ==> digits(n)[0] != '0',
        forall|i: int| 0 <= i < digits(n).len() ==> #[trigger] digits(n)[i] != '.',
    decreases n,
{
    if n >= 10 {
        lemma_digits(n / 10);
        assert forall|i: int| 0 <= i < digits(n).len() implies #[trigger] digits(n)[i] != '.' by {
            if i < digits(n / 10).len() {
                assert(digits(n)[i] == digits(n / 10)[i]);
            }
        }
    }
}

/// A dollar or more is at least a hundred cents.
proof fn lemma_cents(amount: Binary64)
    requires
        amount.at_least(Binary64::from_count(1)),
        amount.is_finite(),
    ensures
        !amount.is_negative(),
        scaled(amount.magnitude(), 2) >= 100,
{
    let one = pow2(UNIT_EXPONENT as nat);
    lemma_pow2_pos(UNIT_EXPONENT as nat);
    law_counts_are_exact(1);
    assert(1 * one == one);
    let n = units(amount.magnitude());
    assert(n >= one);
    reveal_with_fuel(ten_to, 3);
    assert((n * 100) / one >= 100) by (nonlinear_arith)
        requires
            n >= one,
            one > 0,
    ;
}

/// No amount comes out as `$0.00`: below a dollar there are four places.
pub proof fn law_no_amount_is_zero_cents(amount: Binary64)
    ensures
        usd_text(amount) != seq!['$', '0', '.', '0', '0'],
{
    let text = usd_text(amount);
    let nothing = seq!['$', '0', '.', '0', '0'];
    if amount.is_finite() && !amount.is_negative() {
        let n0 = scaled(amount.magnitude(), 0);
        let n2 = scaled(amount.magnitude(), 2);
        let n4 = scaled(amount.magnitude(), 4);
        lemma_digits(n0);
        reveal_with_fuel(ten_to, 5);
        lemma_digits(n2 / 100);
        lemma_digits(n4 / 10_000);
        lemma_padded_length(n2, 2);
        lemma_padded_length(n4, 4);
        if amount.at_least(Binary64::from_count(100)) {
            assert(text[2] == digits(n0)[1] || text.len() == 2);
        } else if amount.at_least(Binary64::from_count(1)) {
            lemma_cents(amount);
            assert(text[1] == digits(n2 / 100)[0]);
            assert(text.len() == 1 + digits(n2 / 100).len() + 1 + 2);
        } else {
            assert(text.len() == 1 + digits(n4 / 10_000).len() + 1 + 4);
        }
    } else if amount.is_nan() {
        assert(text[1] == 'N');
    } else {
        assert(text[1] == '-' || text[1] == 'i');
    }
    assert(nothing[1] == '0' && nothing[2] == '.' && nothing.len() == 5);
}

/// How far apart two numbers are.
pub open spec fn distance(one: int, other: int) -> int {
    if one >= other {
        one - other
    } else {
        other - one
    }
}

/// Magnitudes count units one by one up to 2^53, and from 2^52 on every 2^52 of
/// them double the number.
pub proof fn law_magnitudes_double(magnitude: nat)
    ensures
        magnitude < 0x20_0000_0000_0000 ==> units(magnitude) == magnitude,
        magnitude >= 0x10_0000_0000_0000 ==> units(magnitude + 0x10_0000_0000_0000) == 2 * units(
            magnitude,
        ),
{
    let (q, e) = crate::rounding::lemma_split(magnitude);
    let b = BINADE as nat;
    lemma2_to64();
    if magnitude < 2 * b {
        if e > 0 {
            assert(e * b >= b) by (nonlinear_arith)
                requires
                    e >= 1,
            ;
            assert(magnitude >= 2 * b);
        }
        assert(q * pow2(0) == q) by (nonlinear_arith)
            requires
                pow2(0) == 1,
        ;
    }
    if magnitude >= b {
        if q < b {
            assert(e == 0);
            assert(e * b == 0) by (nonlinear_arith)
                requires
                    e == 0,
            ;
        }
        lemma_units_at(q, e + 1);
        assert(q + (e + 1) * b == magnitude + b) by (nonlinear_arith)
            requires
                magnitude == q + e * b,
        ;
        lemma_pow2_unfold(e + 1);
        assert(q * (2 * pow2(e)) == 2 * (q * pow2(e))) by (nonlinear_arith);
    }
}

/// The same of the narrower format: units one by one up to 2^24, and from 2^23
/// on every 2^23 magnitudes double the number.
pub proof fn law_single_magnitudes_double(magnitude: nat)
    ensures
        magnitude < 0x100_0000 ==> single_units(magnitude) == magnitude,
        magnitude >= 0x80_0000 ==> single_units(magnitude + 0x80_0000) == 2 * single_units(
            magnitude,
        ),
{
    lemma2_to64();
    let b = 0x80_0000nat;
    if magnitude >= b {
        let e = (magnitude / b - 1) as nat;
        let q = (b + magnitude % b) as nat;
        assert((magnitude + b) / b == magnitude / b + 1);
        assert((magnitude + b) % b == magnitude % b);
        lemma_pow2_unfold(e + 1);
        assert(q * (2 * pow2(e)) == 2 * (q * pow2(e))) by (nonlinear_arith);
        if magnitude < 2 * b {
            assert(magnitude / b == 1);
            assert(q * pow2(0) == q) by (nonlinear_arith)
                requires
                    pow2(0) == 1,
            ;
        }
    }
}

/// Rounding gives the nearest number there is: no other is nearer, and where one
/// is as near, the even one is taken. Infinity counts as the power of two that
/// follows the largest finite number.
pub proof fn law_rounding_is_to_the_nearest(n: nat, d: nat, other: nat)
    requires
        d > 0,
        other <= 0x7FF0_0000_0000_0000,
    ensures
        nearest(n, d) <= 0x7FF0_0000_0000_0000,
        distance(n as int, (d * units(nearest(n, d))) as int) <= distance(n as int, (d * units(other)) as int),
        distance(n as int, (d * units(nearest(n, d))) as int) == distance(n as int, (d * units(other)) as int)
            && other != nearest(n, d) ==> nearest(n, d) % 2 == 0,
{
    law_rounding_has_one_result(n, d);
    let m = nearest(n, d);
    let here = d * units(m);
    let there = d * units(other);
    if other < m {
        let next = (m - 1) as nat;
        lemma_units_monotone(other, next);
        lemma_units_monotone(next, m);
        lemma_below(n, d, units(next), units(m), units(other));
        if other < next {
            lemma_units_monotone(other, next);
            assert(d * units(other) < d * units(next)) by (nonlinear_arith)
                requires
                    d > 0,
                    units(other) < units(next),
            ;
        }
    } else if m < other {
        let next = m + 1;
        lemma_units_monotone(next, other);
        lemma_units_monotone(m, next);
        lemma_above(n, d, units(m), units(next), units(other));
        if next < other {
            lemma_units_monotone(next, other);
            assert(d * units(next) < d * units(other)) by (nonlinear_arith)
                requires
                    d > 0,
                    units(next) < units(other),
            ;
        }
    }
}

proof fn lemma_below(n: nat, d: nat, next: nat, here: nat, other: nat)
    requires
        d > 0,
        other <= next < here,
        d * (next + here) <= 2 * n,
    ensures
        distance(n as int, (d * here) as int) <= distance(n as int, (d * other) as int),
        distance(n as int, (d * here) as int) == distance(n as int, (d * other) as int) ==> 2 * n
            == d * (next + here),
{
    assert(d * (next + here) == d * next + d * here) by (nonlinear_arith);
    assert(d * other <= d * next) by (nonlinear_arith)
        requires
            other <= next,
    ;
    assert(d * next < d * here) by (nonlinear_arith)
        requires
            next < here,
            d > 0,
    ;
}

proof fn lemma_above(n: nat, d: nat, here: nat, next: nat, other: nat)
    requires
        d > 0,
        here < next <= other,
        2 * n <= d * (here + next),
    ensures
        distance(n as int, (d * here) as int) <= distance(n as int, (d * other) as int),
        distance(n as int, (d * here) as int) == distance(n as int, (d * other) as int) ==> 2 * n
            == d * (here + next),
{
    assert(d * (here + next) == d * here + d * next) by (nonlinear_arith);
    assert(d * next <= d * other) by (nonlinear_arith)
        requires
            next <= other,
    ;
    assert(d * here < d * next) by (nonlinear_arith)
        requires
            here < next,
            d > 0,
    ;
}

/// The number that a pattern stands for, by its bits: the lower 63 say how many
/// units, and the upper one whether it is negative.
pub proof fn law_values_by_their_bits(number: Binary64)
    ensures
        number.bits < 0x8000_0000_0000_0000 ==> number.value() == units(number.bits as nat),
        number.bits >= 0x8000_0000_0000_0000 ==> number.value() == -(units(
            (number.bits - 0x8000_0000_0000_0000) as nat,
        ) as int),
        number.is_nan() <==> 0x7FF0_0000_0000_0000 < number.bits < 0x8000_0000_0000_0000
            || number.bits > 0xFFF0_0000_0000_0000,
        number.is_infinite() <==> number.bits == 0x7FF0_0000_0000_0000 || number.bits
            == 0xFFF0_0000_0000_0000,
        number.is_finite() <==> !number.is_nan() && !number.is_infinite(),
        number.is_negative() <==> number.bits >= 0x8000_0000_0000_0000,
{
}

/// No number is nearer to `exact / scale` than the one whose magnitude is nearest
/// to its size.
proof fn lemma_no_nearer(exact: int, scale: nat, rounded: Binary64, other: Binary64)
    requires
        scale > 0,
        !other.is_nan(),
        exact >= 0 ==> rounded.value() == units(nearest(exact as nat, scale)) && rounded.magnitude()
            == nearest(exact as nat, scale),
        exact < 0 ==> rounded.value() == -(units(nearest((-exact) as nat, scale)) as int)
            && rounded.magnitude() == nearest((-exact) as nat, scale),
    ensures
        distance(exact, scale * rounded.value()) <= distance(exact, scale * other.value()),
        distance(exact, scale * rounded.value()) == distance(exact, scale * other.value())
            && rounded.value() != other.value() ==> rounded.bits % 2 == 0,
{
    let size = (if exact >= 0 {
        exact
    } else {
        -exact
    }) as nat;
    law_rounding_is_to_the_nearest(size, scale, other.magnitude());
    law_rounding_is_to_the_nearest(size, scale, 0);
    let u = units(nearest(size, scale)) as int;
    let v = units(other.magnitude()) as int;
    assert(scale * (-u) == -(scale * u)) by (nonlinear_arith);
    assert(scale * (-v) == -(scale * v)) by (nonlinear_arith);
    assert(scale * v >= 0) by (nonlinear_arith)
        requires
            v >= 0,
    ;
    assert(v > 0 ==> scale * v > 0) by (nonlinear_arith)
        requires
            scale > 0,
    ;
    assert(scale * 0 == 0);
}

proof fn lemma_of(negative: bool, n: nat, d: nat)
    requires
        d > 0,
    ensures
        ({
            let made = Binary64::of(negative, nearest(n, d));
            &&& made.is_negative() == negative
            &&& made.magnitude() == nearest(n, d)
            &&& !made.is_nan()
        }),
{
    law_rounding_has_one_result(n, d);
}

/// A sum of finite numbers is the number nearest to the exact sum. It does not
/// matter which comes first.
pub proof fn law_sums_are_the_nearest(one: Binary64, two: Binary64, other: Binary64)
    requires
        one.is_finite(),
        two.is_finite(),
        !other.is_nan(),
    ensures
        !one.plus(two).is_nan(),
        distance(one.value() + two.value(), one.plus(two).value()) <= distance(
            one.value() + two.value(),
            other.value(),
        ),
        distance(one.value() + two.value(), one.plus(two).value()) == distance(
            one.value() + two.value(),
            other.value(),
        ) && one.plus(two).value() != other.value() ==> one.plus(two).bits % 2 == 0,
        one.plus(two) == two.plus(one),
{
    let sum = one.value() + two.value();
    if sum > 0 {
        lemma_of(false, sum as nat, 1);
    } else if sum < 0 {
        lemma_of(true, (-sum) as nat, 1);
    } else {
        law_representable_stays(0);
    }
    lemma_no_nearer(sum, 1, one.plus(two), other);
    assert(1 * one.plus(two).value() == one.plus(two).value());
    assert(1 * other.value() == other.value());
}

/// A difference of finite numbers is the number nearest to the exact one.
pub proof fn law_differences_are_the_nearest(one: Binary64, two: Binary64, other: Binary64)
    requires
        one.is_finite(),
        two.is_finite(),
        !other.is_nan(),
    ensures
        !one.minus(two).is_nan(),
        distance(one.value() - two.value(), one.minus(two).value()) <= distance(
            one.value() - two.value(),
            other.value(),
        ),
        distance(one.value() - two.value(), one.minus(two).value()) == distance(
            one.value() - two.value(),
            other.value(),
        ) && one.minus(two).value() != other.value() ==> one.minus(two).bits % 2 == 0,
{
    assert(two.opposite().value() == -two.value());
    law_sums_are_the_nearest(one, two.opposite(), other);
}

/// A product of finite numbers is the number nearest to the exact one, and
/// negative exactly where one factor is, as bits go.
pub proof fn law_products_are_the_nearest(one: Binary64, two: Binary64, other: Binary64)
    requires
        one.is_finite(),
        two.is_finite(),
        !other.is_nan(),
    ensures
        !one.times(two).is_nan(),
        one.times(two).is_negative() <==> one.is_negative() != two.is_negative(),
        distance(one.value() * two.value(), pow2(1074) * one.times(two).value()) <= distance(
            one.value() * two.value(),
            pow2(1074) * other.value(),
        ),
        distance(one.value() * two.value(), pow2(1074) * one.times(two).value()) == distance(
            one.value() * two.value(),
            pow2(1074) * other.value(),
        ) && one.times(two).value() != other.value() ==> one.times(two).bits % 2 == 0,
        one.times(two) == two.times(one),
{
    let d = pow2(1074);
    lemma_pow2_pos(1074);
    let u = units(one.magnitude());
    let v = units(two.magnitude());
    let n = u * v;
    let negative = one.is_negative() != two.is_negative();
    lemma_of(negative, n, d);
    assert(u * v == v * u) by (nonlinear_arith);
    let exact = one.value() * two.value();
    assert(exact == (if negative {
        -(n as int)
    } else {
        n as int
    })) by (nonlinear_arith)
        requires
            n == u * v,
            one.value() == (if one.is_negative() {
                -(u as int)
            } else {
                u as int
            }),
            two.value() == (if two.is_negative() {
                -(v as int)
            } else {
                v as int
            }),
            negative == (one.is_negative() != two.is_negative()),
            exact == one.value() * two.value(),
    ;
    if n == 0 {
        assert(d * (units(0) + units(1)) >= 0) by (nonlinear_arith);
        assert(is_nearest(0, d, 0));
        lemma_nearest_unique(0, d, 0);
    }
    lemma_no_nearer(exact, d, one.times(two), other);
}

/// A quotient by a whole number is the number nearest to the exact one, and has
/// the sign of the dividend.
pub proof fn law_quotients_are_the_nearest(one: Binary64, divisor: nat, other: Binary64)
    requires
        one.is_finite(),
        divisor > 0,
        !other.is_nan(),
    ensures
        !one.over(divisor).is_nan(),
        one.over(divisor).is_negative() == one.is_negative(),
        distance(one.value(), divisor * one.over(divisor).value()) <= distance(
            one.value(),
            divisor * other.value(),
        ),
        distance(one.value(), divisor * one.over(divisor).value()) == distance(
            one.value(),
            divisor * other.value(),
        ) && one.over(divisor).value() != other.value() ==> one.over(divisor).bits % 2 == 0,
{
    let n = units(one.magnitude());
    lemma_of(one.is_negative(), n, divisor);
    if n == 0 {
        assert(divisor * (units(0) + units(1)) >= 0) by (nonlinear_arith);
        assert(is_nearest(0, divisor, 0));
        lemma_nearest_unique(0, divisor, 0);
    }
    lemma_no_nearer(one.value(), divisor, one.over(divisor), other);
}

/// A price per million is divided by a million.
pub proof fn law_per_million_is_a_millionth(price: Binary64)
    ensures
        price.per_million() == price.over(1_000_000),
{
}

/// A count is the number nearest to it.
pub proof fn law_counts_are_the_nearest(count: nat, other: Binary64)
    requires
        !other.is_nan(),
    ensures
        !Binary64::from_count(count).is_nan(),
        !Binary64::from_count(count).is_negative(),
        distance((count * pow2(1074)) as int, Binary64::from_count(count).value()) <= distance(
            (count * pow2(1074)) as int,
            other.value(),
        ),
        distance((count * pow2(1074)) as int, Binary64::from_count(count).value()) == distance(
            (count * pow2(1074)) as int,
            other.value(),
        ) && Binary64::from_count(count).value() != other.value() ==> Binary64::from_count(
            count,
        ).bits % 2 == 0,
{
    let n = count * pow2(1074);
    lemma_of(false, n, 1);
    lemma_no_nearer(n as int, 1, Binary64::from_count(count), other);
    assert(1 * Binary64::from_count(count).value() == Binary64::from_count(count).value());
    assert(1 * other.value() == other.value());
}

/// What is not a number makes no number, and infinities go by the standard:
/// opposite ones have no sum, an infinity and anything else add up to it, and one
/// times anything but zero is one, with the sign of both.
pub proof fn law_numbers_without_a_size(one: Binary64, two: Binary64, divisor: nat)
    ensures
        one.is_nan() || two.is_nan() ==> one.plus(two).is_nan() && one.minus(two).is_nan()
            && one.times(two).is_nan(),
        one.is_nan() ==> one.over(divisor).is_nan(),
        one.is_infinite() ==> one.over(divisor) == one,
        one.is_infinite() && two.is_infinite() ==> {
            &&& one.is_negative() == two.is_negative() ==> one.plus(two) == one
            &&& one.is_negative() != two.is_negative() ==> one.plus(two).is_nan()
            &&& one.is_negative() == two.is_negative() ==> one.minus(two).is_nan()
            &&& one.is_negative() != two.is_negative() ==> one.minus(two) == one
        },
        one.is_infinite() && two.is_finite() ==> one.plus(two) == one && two.plus(one) == one
            && one.minus(two) == one,
        one.is_infinite() && !two.is_nan() ==> {
            &&& two.value() == 0 <==> one.times(two).is_nan()
            &&& two.value() == 0 <==> two.times(one).is_nan()
            &&& two.value() != 0 ==> one.times(two).is_infinite() && two.times(one).is_infinite()
                && one.times(two).is_negative() == (one.is_negative() != two.is_negative())
                && two.times(one).is_negative() == (one.is_negative() != two.is_negative())
        },
{
    if two.magnitude() > 0 {
        lemma_units_monotone(0, two.magnitude());
    }
}

/// A sum that is nothing has no sign, unless both terms are negative zeros; so a
/// number less itself is a plain zero.
pub proof fn law_signs_of_nothing(one: Binary64, two: Binary64)
    requires
        one.is_finite(),
        two.is_finite(),
    ensures
        one.value() + two.value() == 0 ==> {
            &&& one.plus(two).value() == 0
            &&& one.plus(two).is_negative() <==> one.is_negative() && two.is_negative()
        },
        one.minus(one).bits == 0,
        one.opposite().value() == -one.value(),
        one.opposite().is_negative() != one.is_negative(),
{
}

/// Numbers compare as their values do, and what is not a number with nothing.
pub proof fn law_comparisons_go_by_value(one: Binary64, two: Binary64)
    ensures
        one.equals(two) <==> !one.is_nan() && !two.is_nan() && one.value() == two.value(),
        one.at_least(two) <==> !one.is_nan() && !two.is_nan() && one.value() >= two.value(),
        one.equals(two) <==> one.at_least(two) && two.at_least(one),
        one.is_nan() || two.is_nan() || one.at_least(two) || two.at_least(one),
        one.at_least(two) <==> two.opposite().at_least(one.opposite()),
{
    assert(!one.is_nan() ==> one.opposite().value() == -one.value());
    assert(!two.is_nan() ==> two.opposite().value() == -two.value());
}

/// The total order goes by value, puts the negative zero before the other, every
/// pattern in a place of its own, and turns round with the sign.
pub proof fn law_total_order(one: Binary64, two: Binary64)
    ensures
        !one.is_nan() && !two.is_nan() && one.value() < two.value() ==> one.rank() < two.rank(),
        one.rank() == two.rank() <==> one.bits == two.bits,
        one.is_negative() && !two.is_negative() ==> one.rank() < two.rank(),
        one.rank() < two.rank() <==> two.opposite().rank() < one.opposite().rank(),
        one.is_nan() && !two.is_nan() ==> (one.is_negative() <==> one.rank() < two.rank()),
{
    if one.magnitude() <= two.magnitude() {
        lemma_units_monotone(one.magnitude(), two.magnitude());
    } else {
        lemma_units_monotone(two.magnitude(), one.magnitude());
    }
}

/// Infinite prices stay infinite when they are widened, and what is not a number
/// stays none.
pub proof fn law_widening_keeps_the_kind(single: u32)
    ensures
        single % 0x8000_0000 == 0x7F80_0000 ==> Binary64::widened(single).is_infinite(),
        single % 0x8000_0000 > 0x7F80_0000 ==> Binary64::widened(single).is_nan(),
        single % 0x8000_0000 <= 0x7F80_0000 ==> (Binary64::widened(single).is_negative()
            <==> single >= 0x8000_0000),
{
    if single % 0x8000_0000 < 0x7F80_0000 {
        lemma_of(
            single >= 0x8000_0000,
            single_units((single % 0x8000_0000) as nat) * pow2(SINGLE_UNIT as nat),
            1,
        );
    }
}

/// Adding nothing changes no number.
proof fn lemma_plus_nothing(number: Binary64, nothing: Binary64)
    requires
        !number.is_nan(),
        nothing.equals(zero()),
    ensures
        number.plus(nothing).equals(number),
{
    if nothing.magnitude() > 0 {
        lemma_units_monotone(0, nothing.magnitude());
    }
    if number.is_finite() {
        law_representable_stays(number.magnitude());
    }
}

/// Equal numbers make equal sums.
proof fn lemma_plus_equals(one: Binary64, two: Binary64, other: Binary64)
    requires
        one.equals(two),
        !one.plus(other).is_nan(),
    ensures
        two.plus(other).equals(one.plus(other)),
{
    lemma_units_monotone(0, INFINITE as nat);
    if one.is_finite() {
        lemma_finite_value(two, one);
    }
    if two.is_finite() {
        lemma_finite_value(one, two);
    }
    if one.is_finite() && other.is_finite() {
        law_sums_are_the_nearest(one, other, zero());
        law_sums_are_the_nearest(two, other, zero());
    }
}

/// A part of a sum that is a number is one too.
proof fn lemma_parts_are_numbers(one: Binary64, two: Binary64)
    requires
        !one.plus(two).is_nan(),
    ensures
        !one.is_nan(),
        !two.is_nan(),
{
}

/// Only the tokens of some classes.
pub open spec fn only(usage: TokenUsage, output: bool, read: bool, write: bool) -> TokenUsage {
    TokenUsage {
        input_tokens: usage.input_tokens,
        output_tokens: if output {
            usage.output_tokens
        } else {
            0
        },
        cache_read_input_tokens: if read {
            usage.cache_read_input_tokens
        } else {
            0
        },
        cache_creation_input_tokens: if write {
            usage.cache_creation_input_tokens
        } else {
            0
        },
    }
}

/// No tokens at a finite price cost nothing.
proof fn lemma_no_tokens(price: Binary64)
    requires
        price.is_finite(),
    ensures
        Binary64::from_count(0).times(price).equals(zero()),
{
    law_counts_are_exact(0);
    assert(0 * pow2(UNIT_EXPONENT as nat) == 0);
    let count = Binary64::from_count(0);
    if count.magnitude() > 0 {
        lemma_units_monotone(0, count.magnitude());
    }
    lemma_times_nothing(count, price);
}

/// A cost is made up class by class, each at its own price and each rounded as it
/// is added: input first, then output, then cache reads, then cache writes. This
/// holds at finite prices wherever the cost is a number.
pub proof fn law_costs_add_up_class_by_class(rate: Rate, usage: TokenUsage)
    requires
        rate.input.is_finite(),
        rate.output.is_finite(),
        rate.cache_read.is_finite(),
        rate.cache_write.is_finite(),
        !rate.cost_of(usage).is_nan(),
    ensures
        rate.cost_of(only(usage, false, false, false)).equals(
            Binary64::from_count(usage.input_tokens as nat).times(rate.input),
        ),
        rate.cost_of(only(usage, true, false, false)).equals(
            rate.cost_of(only(usage, false, false, false)).plus(
                Binary64::from_count(usage.output_tokens as nat).times(rate.output),
            ),
        ),
        rate.cost_of(only(usage, true, true, false)).equals(
            rate.cost_of(only(usage, true, false, false)).plus(
                Binary64::from_count(usage.cache_read_input_tokens as nat).times(rate.cache_read),
            ),
        ),
        rate.cost_of(usage).equals(
            rate.cost_of(only(usage, true, true, false)).plus(
                Binary64::from_count(usage.cache_creation_input_tokens as nat).times(
                    rate.cache_write,
                ),
            ),
        ),
{
    let none = Binary64::from_count(0);
    let no_output = none.times(rate.output);
    let no_read = none.times(rate.cache_read);
    let no_write = none.times(rate.cache_write);
    lemma_no_tokens(rate.output);
    lemma_no_tokens(rate.cache_read);
    lemma_no_tokens(rate.cache_write);
    let input = Binary64::from_count(usage.input_tokens as nat).times(rate.input);
    let output = Binary64::from_count(usage.output_tokens as nat).times(rate.output);
    let read = Binary64::from_count(usage.cache_read_input_tokens as nat).times(rate.cache_read);
    let write = Binary64::from_count(usage.cache_creation_input_tokens as nat).times(
        rate.cache_write,
    );
    let two = input.plus(output);
    let three = two.plus(read);
    lemma_parts_are_numbers(three, write);
    lemma_parts_are_numbers(two, read);
    lemma_parts_are_numbers(input, output);
    // Input alone.
    let first = rate.cost_of(only(usage, false, false, false));
    lemma_plus_nothing(input, no_output);
    lemma_plus_nothing(input.plus(no_output), no_read);
    lemma_plus_nothing(input.plus(no_output).plus(no_read), no_write);
    assert(first.equals(input));
    // Input and output.
    let second = rate.cost_of(only(usage, true, false, false));
    lemma_plus_nothing(two, no_read);
    lemma_plus_nothing(two.plus(no_read), no_write);
    lemma_plus_equals(input, first, output);
    assert(second.equals(two));
    // And cache reads.
    let third = rate.cost_of(only(usage, true, true, false));
    lemma_plus_nothing(three, no_write);
    lemma_plus_equals(two, second, read);
    assert(third.equals(three));
    // And cache writes.
    lemma_plus_equals(three, third, write);
}

/// Wherever nothing is rounded a cost is the exact one: each count at the price
/// of its own class, all four together.
pub proof fn law_costs_are_exact_where_nothing_is_rounded(rate: Rate, usage: TokenUsage)
    requires
        rate.input.is_finite(),
        rate.output.is_finite(),
        rate.cache_read.is_finite(),
        rate.cache_write.is_finite(),
        adds_up_exactly(rate, usage),
    ensures
        rate.cost_of(usage).value() == usage.input_tokens * rate.input.value()
            + usage.output_tokens * rate.output.value() + usage.cache_read_input_tokens
            * rate.cache_read.value() + usage.cache_creation_input_tokens
            * rate.cache_write.value(),
{
    lemma_exact_cost(rate, usage);
}

/// The savings are what the cache reads alone would cost at the difference of the
/// two prices, where that is finite.
pub proof fn law_savings_are_a_cost_of_cache_reads(
    rate: Rate,
    usage: TokenUsage,
    difference: Rate,
    reads: TokenUsage,
)
    requires
        difference.cache_read == rate.input.minus(rate.cache_read),
        difference.cache_read.is_finite(),
        difference.input.is_finite(),
        difference.output.is_finite(),
        difference.cache_write.is_finite(),
        reads.input_tokens == 0,
        reads.output_tokens == 0,
        reads.cache_creation_input_tokens == 0,
        reads.cache_read_input_tokens == usage.cache_read_input_tokens,
        !rate.savings_of(usage).is_nan(),
    ensures
        difference.cost_of(reads).equals(rate.savings_of(usage)),
{
    let none = Binary64::from_count(0);
    let no_input = none.times(difference.input);
    let no_output = none.times(difference.output);
    let no_write = none.times(difference.cache_write);
    lemma_no_tokens(difference.input);
    lemma_no_tokens(difference.output);
    lemma_no_tokens(difference.cache_write);
    let saved = rate.savings_of(usage);
    lemma_plus_nothing(no_input, no_output);
    let nothing = no_input.plus(no_output);
    lemma_plus_nothing(saved, nothing);
    assert(nothing.equals(zero()));
    assert(nothing.plus(saved) == saved.plus(nothing)) by {
        if nothing.is_infinite() {
            lemma_units_monotone(0, INFINITE as nat);
        }
        if saved.is_finite() {
            law_sums_are_the_nearest(nothing, saved, zero());
        }
    }
    lemma_plus_nothing(nothing.plus(saved), no_write);
}

/// A price of the settings is the number nearest to its millionth: no other,
/// taken a million times, is nearer to the price itself.
pub proof fn law_settings_prices_are_millionths(single: u32, other: Binary64)
    requires
        single % 0x8000_0000 < 0x7F80_0000,
        !other.is_nan(),
    ensures
        ({
            let exact = single_units((single % 0x8000_0000) as nat) * pow2(925);
            let price = if single >= 0x8000_0000 {
                -(exact as int)
            } else {
                exact as int
            };
            let taken = Binary64::widened(single).over(1_000_000);
            distance(price, 1_000_000 * taken.value()) <= distance(
                price,
                1_000_000 * other.value(),
            )
        }),
{
    law_widening_is_exact(single);
    law_quotients_are_the_nearest(Binary64::widened(single), 1_000_000, other);
}

/// At a price that is not a number there is no cost, and so there is none where
/// no tokens meet an infinite price.
pub proof fn law_no_cost_without_prices(rate: Rate, usage: TokenUsage)
    ensures
        rate.input.is_nan() || rate.output.is_nan() || rate.cache_read.is_nan()
            || rate.cache_write.is_nan() ==> rate.cost_of(usage).is_nan(),
        rate.input.is_nan() || rate.cache_read.is_nan() ==> rate.savings_of(usage).is_nan(),
        rate.input.is_infinite() && usage.input_tokens == 0 ==> rate.cost_of(usage).is_nan(),
        rate.output.is_infinite() && usage.output_tokens == 0 ==> rate.cost_of(usage).is_nan(),
        rate.cache_read.is_infinite() && usage.cache_read_input_tokens == 0 ==> rate.cost_of(
            usage,
        ).is_nan(),
        rate.cache_write.is_infinite() && usage.cache_creation_input_tokens == 0 ==> rate.cost_of(
            usage,
        ).is_nan(),
{
    law_counts_are_exact(0);
    assert(0 * pow2(UNIT_EXPONENT as nat) == 0);
    let count = Binary64::from_count(0);
    if count.magnitude() > 0 {
        lemma_units_monotone(0, count.magnitude());
    }
}

/// At any prices, infinite ones too, what is counted is made up of one product
/// for each class: the parts of a cost are input, output, cache reads and cache
/// writes, added in this order, and the savings are one product.
pub proof fn law_parts_of_costs_and_savings(
    rate: Rate,
    usage: TokenUsage,
    input: Binary64,
    output: Binary64,
    read: Binary64,
    write: Binary64,
)
    requires
        input == Binary64::from_count(usage.input_tokens as nat).times(rate.input),
        output == Binary64::from_count(usage.output_tokens as nat).times(rate.output),
        read == Binary64::from_count(usage.cache_read_input_tokens as nat).times(rate.cache_read),
        write == Binary64::from_count(usage.cache_creation_input_tokens as nat).times(
            rate.cache_write,
        ),
    ensures
        rate.cost_of(usage) == input.plus(output).plus(read).plus(write),
        rate.savings_of(usage) == Binary64::from_count(usage.cache_read_input_tokens as nat).times(
            rate.input.minus(rate.cache_read),
        ),
{
}

} // verus!
