//! Numbers as decimal text.
use crate::binary64::{split, Binary64};
use crate::rounding::{power, units, BINADE, INFINITE, UNIT_EXPONENT};
use vstd::arithmetic::power2::{
    lemma2_to64, lemma2_to64_rest, lemma_pow2_adds, lemma_pow2_pos, lemma_pow2_strictly_increases,
    lemma_pow2_unfold, pow2,
};
use vstd::prelude::*;
use vstd::string::*;

verus! {

/// `String::push` appends one character.
pub assume_specification[ String::push ](text: &mut String, c: char)
    ensures
        final(text)@ == old(text)@.push(c),
;

/// The character of a digit.
pub open spec fn digit(n: nat) -> char {
    (48 + n) as char
}

/// A natural number in decimal.
pub open spec fn digits(n: nat) -> Seq<char>
    decreases n,
{
    if n < 10 {
        seq![digit(n)]
    } else {
        digits(n / 10).push(digit(n % 10))
    }
}

/// The last `width` decimal digits of a natural number.
pub open spec fn padded(n: nat, width: nat) -> Seq<char>
    decreases width,
{
    if width == 0 {
        Seq::empty()
    } else {
        padded(n / 10, (width - 1) as nat).push(digit(n % 10))
    }
}

/// `n / d`, rounded to the nearest whole number, halves to the even one.
pub open spec fn rounded(n: nat, d: nat) -> nat {
    let whole = n / d;
    let rest = n % d;
    if 2 * rest > d || (2 * rest == d && whole % 2 == 1) {
        whole + 1
    } else {
        whole
    }
}

/// 10^`places`.
pub open spec fn ten_to(places: nat) -> nat
    decreases places,
{
    if places == 0 {
        1
    } else {
        10 * ten_to((places - 1) as nat)
    }
}

/// How many 10^-`places` a finite number of units comes to, rounded.
pub open spec fn scaled(magnitude: nat, places: nat) -> nat {
    rounded(units(magnitude) * ten_to(places), pow2(UNIT_EXPONENT as nat))
}

/// A natural number of 10^-`places`, with a decimal point where there are any
/// places.
pub open spec fn pointed(n: nat, places: nat) -> Seq<char> {
    if places == 0 {
        digits(n)
    } else {
        digits(n / ten_to(places)).push('.') + padded(n, places)
    }
}

/// A number with a fixed number of decimal places.
pub open spec fn fixed(number: Binary64, places: nat) -> Seq<char> {
    if number.is_nan() {
        seq!['N', 'a', 'N']
    } else {
        (if number.is_negative() {
            seq!['-']
        } else {
            Seq::empty()
        }) + (if number.is_infinite() {
            seq!['i', 'n', 'f']
        } else {
            pointed(scaled(number.magnitude(), places), places)
        })
    }
}

/// The number that decimal digits stand for, the last digit first.
spec fn count_of(places: Seq<u8>) -> nat
    decreases places.len(),
{
    if places.len() == 0 {
        0
    } else {
        places[0] as nat + 10 * count_of(places.drop_first())
    }
}

/// Decimal digits, the last one first, as text.
spec fn text_of(places: Seq<u8>) -> Seq<char>
    decreases places.len(),
{
    if places.len() == 0 {
        Seq::empty()
    } else {
        text_of(places.drop_first()).push(digit(places[0] as nat))
    }
}

spec fn all_digits(places: Seq<u8>) -> bool {
    forall|i: int| 0 <= i < places.len() ==> places[i] < 10
}

/// Digits without a leading zero are the number's own.
proof fn lemma_text_of(places: Seq<u8>)
    requires
        all_digits(places),
        places.len() > 0,
        places.len() == 1 || places.last() != 0,
    ensures
        text_of(places) == digits(count_of(places)),
        places.last() != 0 ==> count_of(places) > 0,
    decreases places.len(),
{
    let rest = places.drop_first();
    if places.len() == 1 {
        assert(rest.len() == 0);
        assert(count_of(rest) == 0);
        assert(text_of(rest) =~= Seq::<char>::empty());
        assert(text_of(places) =~= seq![digit(places[0] as nat)]);
    } else {
        assert(rest.last() == places.last());
        lemma_text_of(rest);
        assert(count_of(places) / 10 == count_of(rest));
        assert(count_of(places) % 10 == places[0]);
    }
}

/// So many digits are the last ones of the number they stand for and of every
/// number that continues it.
proof fn lemma_padded(places: Seq<u8>, more: nat)
    requires
        all_digits(places),
    ensures
        text_of(places) == padded(count_of(places) + ten_to(places.len()) * more, places.len()),
    decreases places.len(),
{
    if places.len() > 0 {
        let rest = places.drop_first();
        lemma_padded(rest, more);
        let n = count_of(places) + ten_to(places.len()) * more;
        let m = count_of(rest) + ten_to(rest.len()) * more;
        assert(n == places[0] + 10 * m) by (nonlinear_arith)
            requires
                n == (places[0] as nat + 10 * count_of(rest)) + (10 * ten_to(rest.len())) * more,
                m == count_of(rest) + ten_to(rest.len()) * more,
        ;
        assert(n / 10 == m);
        assert(n % 10 == places[0]);
    }
}

/// Digits split anywhere: the upper ones count for a power of ten each.
proof fn lemma_count_split(places: Seq<u8>, at: int)
    requires
        0 <= at <= places.len(),
        all_digits(places),
    ensures
        count_of(places) == count_of(places.take(at)) + ten_to(at as nat) * count_of(
            places.skip(at),
        ),
        count_of(places.take(at)) < ten_to(at as nat),
    decreases at,
{
    if at == 0 {
        assert(places.skip(0) =~= places);
        assert(places.take(0).len() == 0);
        assert(1 * count_of(places) == count_of(places));
    } else {
        let rest = places.drop_first();
        lemma_count_split(rest, at - 1);
        assert(places.take(at).drop_first() =~= rest.take(at - 1));
        assert(places.skip(at) =~= rest.skip(at - 1));
        let upper = count_of(places.skip(at));
        let scale = ten_to((at - 1) as nat);
        assert(10 * (scale * upper) == (10 * scale) * upper) by (nonlinear_arith);
    }
}

/// A zero in front changes nothing.
proof fn lemma_count_zero(places: Seq<u8>)
    ensures
        count_of(places.push(0)) == count_of(places),
    decreases places.len(),
{
    if places.len() == 0 {
        assert(places.push(0).drop_first() =~= Seq::<u8>::empty());
        assert(count_of(Seq::<u8>::empty()) == 0);
    } else {
        lemma_count_zero(places.drop_first());
        assert(places.push(0).drop_first() =~= places.drop_first().push(0));
    }
}

/// One more digit in front counts for a power of ten each.
proof fn lemma_count_push(places: Seq<u8>, next: u8)
    ensures
        count_of(places.push(next)) == count_of(places) + ten_to(places.len()) * next,
    decreases places.len(),
{
    if places.len() == 0 {
        assert(places.push(next).drop_first() =~= Seq::<u8>::empty());
        assert(count_of(Seq::<u8>::empty()) == 0);
        assert(ten_to(0) * next == next) by (nonlinear_arith)
            requires
                ten_to(0) == 1,
        ;
    } else {
        let rest = places.drop_first();
        lemma_count_push(rest, next);
        assert(places.push(next).drop_first() =~= rest.push(next));
        let scale = ten_to(rest.len());
        assert(10 * (scale * next) == (10 * scale) * next) by (nonlinear_arith);
    }
}

/// The decimal digits of a number, the last one first, none of them a leading
/// zero.
fn digits_of(number: u128) -> (places: Vec<u8>)
    ensures
        all_digits(places@),
        count_of(places@) == number,
        places.len() > 0,
        places.len() == 1 || places@.last() != 0,
{
    let mut places: Vec<u8> = Vec::new();
    let mut rest: u128 = number;
    assert(ten_to(0) * rest == rest) by (nonlinear_arith)
        requires
            ten_to(0) == 1,
    ;
    while rest >= 10
        invariant
            all_digits(places@),
            number == count_of(places@) + ten_to(places@.len()) * rest,
            number >= 10 ==> rest > 0,
            rest <= number,
            number < 10 ==> places.len() == 0,
        decreases rest,
    {
        let ghost before = places@;
        let last: u8 = (rest % 10) as u8;
        places.push(last);
        proof {
            lemma_count_push(before, last);
            let scale = ten_to(before.len());
            assert((10 * scale) * (rest / 10) + scale * last == scale * rest) by (nonlinear_arith)
                requires
                    last == rest % 10,
            ;
        }
        rest = rest / 10;
    }
    let ghost before = places@;
    places.push(rest as u8);
    proof {
        lemma_count_push(before, rest as u8);
    }
    places
}

/// Twice the number, digit by digit.
fn double(places: &mut Vec<u8>)
    requires
        all_digits(old(places)@),
        old(places).len() > 0,
        old(places).len() == 1 || old(places)@.last() != 0,
    ensures
        all_digits(final(places)@),
        count_of(final(places)@) == 2 * count_of(old(places)@),
        final(places).len() > 0,
        final(places).len() == 1 || final(places)@.last() != 0,
{
    let ghost before = places@;
    let length: usize = places.len();
    let mut carry: u8 = 0;
    let mut at: usize = 0;
    assert(before.take(0) =~= places@.take(0));
    while at < length
        invariant
            length == before.len(),
            places.len() == length,
            at <= length,
            carry <= 1,
            all_digits(places@),
            all_digits(before),
            forall|i: int| at <= i < length ==> places@[i] == before[i],
            count_of(places@.take(at as int)) + ten_to(at as nat) * carry == 2 * count_of(
                before.take(at as int),
            ),
            at > 0 && places@[at - 1] == 0 && before[at - 1] != 0 ==> carry == 1,
        decreases length - at,
    {
        let twice: u8 = 2 * places[at] + carry;
        let ghost now = places@;
        let (next, over): (u8, u8) = if twice >= 10 {
            (twice - 10, 1)
        } else {
            (twice, 0)
        };
        places.set(at, next);
        proof {
            assert(places@.take(at as int + 1) =~= now.take(at as int).push(next));
            assert(before.take(at as int + 1) =~= before.take(at as int).push(before[at as int]));
            lemma_count_push(now.take(at as int), next);
            lemma_count_push(before.take(at as int), before[at as int]);
            let scale = ten_to(at as nat);
            let was = before[at as int];
            assert(scale * next + (10 * scale) * over == 2 * (scale * was) + scale * carry)
                by (nonlinear_arith)
                requires
                    next + 10 * over == 2 * was + carry,
            ;
        }
        carry = over;
        at = at + 1;
    }
    assert(places@.take(length as int) =~= places@);
    assert(before.take(length as int) =~= before);
    if carry > 0 {
        let ghost now = places@;
        places.push(carry);
        proof {
            lemma_count_push(now, carry);
        }
    }
}

/// Digits as text, with a decimal point before the last `places` of them.
fn pointed_text(digits: &Vec<u8>, places: usize) -> (text: String)
    requires
        all_digits(digits@),
        digits.len() > places,
        digits.len() == places + 1 || digits@.last() != 0,
    ensures
        text@ == pointed(count_of(digits@), places as nat),
{
    let mut text: String = String::new();
    let mut at: usize = digits.len();
    assert(digits@.skip(at as int) =~= Seq::<u8>::empty());
    while at > places
        invariant
            places <= at <= digits.len(),
            all_digits(digits@),
            text@ == text_of(digits@.skip(at as int)),
        decreases at,
    {
        at = at - 1;
        text.push((48 + digits[at]) as char);
        assert(digits@.skip(at as int).drop_first() =~= digits@.skip(at as int + 1));
    }
    let ghost whole = digits@.skip(places as int);
    let ghost part = digits@.take(places as int);
    let ghost n = count_of(digits@);
    proof {
        lemma_text_of(whole);
        lemma_count_split(digits@, places as int);
        lemma_padded(part, count_of(whole));
        let scale = ten_to(places as nat);
        vstd::arithmetic::mul::lemma_mul_is_commutative(scale as int, count_of(whole) as int);
        vstd::arithmetic::div_mod::lemma_fundamental_div_mod_converse(
            n as int,
            scale as int,
            count_of(whole) as int,
            count_of(part) as int,
        );
    }
    if places > 0 {
        text.push('.');
        let ghost head = text@;
        assert(part.skip(places as int) =~= Seq::<u8>::empty());
        while at > 0
            invariant
                at <= places < digits.len(),
                all_digits(digits@),
                part == digits@.take(places as int),
                text@ == head + text_of(part.skip(at as int)),
            decreases at,
        {
            at = at - 1;
            text.push((48 + digits[at]) as char);
            assert(part.skip(at as int).drop_first() =~= part.skip(at as int + 1));
        }
        assert(part.skip(0) =~= part);
    } else {
        assert(digits@.skip(0) =~= digits@);
    }
    text
}

/// A natural number in decimal.
pub fn count_text(number: u64) -> (text: String)
    ensures
        text@ == digits(number as nat),
{
    let places: Vec<u8> = digits_of(number as u128);
    pointed_text(&places, 0)
}

/// 10^`places`, for few places.
fn ten_power(places: usize) -> (result: u128)
    requires
        places <= 4,
    ensures
        result == ten_to(places as nat),
        result <= 10_000,
{
    reveal_with_fuel(ten_to, 5);
    if places == 0 {
        1
    } else if places == 1 {
        10
    } else if places == 2 {
        100
    } else if places == 3 {
        1000
    } else {
        10_000
    }
}

/// The decimal digits of a finite number of units in 10^-`places`, rounded.
fn scaled_digits(magnitude: u64, places: usize) -> (result: Vec<u8>)
    requires
        magnitude < INFINITE,
        places <= 4,
    ensures
        all_digits(result@),
        count_of(result@) == scaled(magnitude as nat, places as nat),
        result.len() > 0,
        result.len() == 1 || result@.last() != 0,
{
    let (significand, exponent) = split(magnitude);
    let scale: u128 = ten_power(places);
    let ghost one = pow2(UNIT_EXPONENT as nat);
    let ghost p = pow2(exponent as nat);
    let ghost n = units(magnitude as nat) * ten_to(places as nat);
    assert(significand as nat * scale as nat <= 2 * BINADE * 10_000) by (nonlinear_arith)
        requires
            significand < 2 * BINADE,
            scale <= 10_000,
    ;
    let product: u128 = significand as u128 * scale;
    assert(n == product as nat * p) by (nonlinear_arith)
        requires
            n == (significand as nat * p) * scale as nat,
            product == significand as nat * scale as nat,
    ;
    proof {
        lemma2_to64();
        lemma2_to64_rest();
        lemma_pow2_pos(exponent as nat);
        lemma_pow2_pos(UNIT_EXPONENT as nat);
    }
    if exponent >= UNIT_EXPONENT {
        let mut result: Vec<u8> = digits_of(product);
        let mut doublings: u64 = exponent - UNIT_EXPONENT;
        proof {
            let q = pow2(doublings as nat);
            lemma_pow2_adds(doublings as nat, UNIT_EXPONENT as nat);
            let whole = product as nat * q;
            assert(n == whole * one) by (nonlinear_arith)
                requires
                    n == product as nat * (q * one),
                    whole == product as nat * q,
            ;
            vstd::arithmetic::div_mod::lemma_fundamental_div_mod_converse(
                n as int,
                one as int,
                whole as int,
                0,
            );
        }
        while doublings > 0
            invariant
                all_digits(result@),
                result.len() > 0,
                result.len() == 1 || result@.last() != 0,
                count_of(result@) * pow2(doublings as nat) == scaled(
                    magnitude as nat,
                    places as nat,
                ),
            decreases doublings,
        {
            let ghost before = count_of(result@);
            double(&mut result);
            proof {
                lemma_pow2_unfold(doublings as nat);
                let q = pow2((doublings - 1) as nat);
                assert((2 * before) * q == before * (2 * q)) by (nonlinear_arith);
            }
            doublings = doublings - 1;
        }
        proof {
            lemma2_to64();
            let n = count_of(result@);
            assert(n * pow2(0) == n) by (nonlinear_arith)
                requires
                    pow2(0) == 1,
            ;
        }
        result
    } else {
        let right: u64 = UNIT_EXPONENT - exponent;
        proof {
            lemma_pow2_adds(right as nat, exponent as nat);
            lemma_pow2_pos(right as nat);
            lemma_rounded_scaled(product as nat, pow2(right as nat), p);
        }
        if right > 126 {
            proof {
                lemma_pow2_strictly_increases(126, right as nat);
                lemma_pow2_adds(64, 62);
                assert(2 * product < pow2(right as nat));
                vstd::arithmetic::div_mod::lemma_fundamental_div_mod_converse(
                    product as int,
                    pow2(right as nat) as int,
                    0,
                    product as int,
                );
            }
            digits_of(0)
        } else {
            let den: u128 = power(right);
            let whole: u128 = product / den;
            let rest: u128 = product % den;
            if rest > den - rest || (rest == den - rest && whole % 2 == 1) {
                proof {
                    vstd::arithmetic::div_mod::lemma_div_nonincreasing(product as int, den as int);
                }
                digits_of(whole + 1)
            } else {
                digits_of(whole)
            }
        }
    }
}

/// Rounding depends on the ratio alone.
proof fn lemma_rounded_scaled(n: nat, d: nat, scale: nat)
    requires
        d > 0,
        scale > 0,
    ensures
        rounded(n * scale, d * scale) == rounded(n, d),
{
    let whole = n / d;
    let rest = n % d;
    vstd::arithmetic::div_mod::lemma_fundamental_div_mod(n as int, d as int);
    assert(n * scale == whole * (d * scale) + rest * scale) by (nonlinear_arith)
        requires
            n == d * whole + rest,
    ;
    assert(rest * scale < d * scale) by (nonlinear_arith)
        requires
            rest < d,
            scale > 0,
    ;
    vstd::arithmetic::div_mod::lemma_fundamental_div_mod_converse(
        (n * scale) as int,
        (d * scale) as int,
        whole as int,
        (rest * scale) as int,
    );
    if 2 * rest > d {
        assert(2 * (rest * scale) > d * scale) by (nonlinear_arith)
            requires
                2 * rest > d,
                scale > 0,
        ;
    } else if 2 * rest == d {
        assert(2 * (rest * scale) == d * scale) by (nonlinear_arith)
            requires
                2 * rest == d,
        ;
    } else {
        assert(2 * (rest * scale) < d * scale) by (nonlinear_arith)
            requires
                2 * rest < d,
                scale > 0,
        ;
    }
}

/// A number with a fixed number of decimal places.
pub fn fixed_text(number: Binary64, places: usize) -> (text: String)
    requires
        places <= 4,
    ensures
        text@ == fixed(number, places as nat),
{
    proof {
        reveal_strlit("NaN");
        reveal_strlit("-");
        reveal_strlit("inf");
    }
    let (negative, magnitude) = number.unsigned();
    if magnitude > INFINITE {
        let text: String = "NaN".to_owned();
        assert(text@ =~= seq!['N', 'a', 'N']);
        return text;
    }
    let mut text: String = String::new();
    if negative {
        text.push('-');
    }
    if magnitude == INFINITE {
        text.append("inf");
        assert("inf"@ =~= seq!['i', 'n', 'f']);
        assert(text@ =~= fixed(number, places as nat));
    } else {
        let mut found: Vec<u8> = scaled_digits(magnitude, places);
        while found.len() <= places
            invariant
                all_digits(found@),
                places <= 4,
                count_of(found@) == scaled(magnitude as nat, places as nat),
                found.len() == places + 1 || found.len() <= places || found@.last() != 0,
            decreases places + 1 - found.len(),
        {
            proof {
                lemma_count_zero(found@);
            }
            found.push(0);
        }
        let number_text: String = pointed_text(&found, places);
        text.append(number_text.as_str());
        assert(text@ =~= fixed(number, places as nat));
    }
    text
}

} // verus!
