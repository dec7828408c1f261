//! Laws of figures: a number as text reads back as the number.
use crate::binary64::Binary64;
use crate::decimal::{digit, digits, fixed, padded, pointed, rounded, scaled, ten_to};
use crate::laws::arithmetic::distance;
use crate::rounding::{units, UNIT_EXPONENT};
use vstd::arithmetic::div_mod::{lemma_fundamental_div_mod, lemma_mod_breakdown};
use vstd::arithmetic::power::pow;
use vstd::arithmetic::power2::{lemma_pow2_pos, pow2};
use vstd::prelude::*;

verus! {

/// The number that a row of figures stands for.
pub open spec fn read(text: Seq<char>) -> nat
    decreases text.len(),
{
    if text.len() == 0 {
        0
    } else {
        10 * read(text.drop_last()) + (text.last() as u32 - 48) as nat
    }
}

/// Whether a text is nothing but figures.
pub open spec fn all_figures(text: Seq<char>) -> bool {
    forall|i: int| 0 <= i < text.len() ==> 48 <= (#[trigger] text[i]) as u32 <= 57
}

proof fn lemma_read_push(text: Seq<char>, n: nat)
    requires
        all_figures(text),
        n < 10,
    ensures
        all_figures(text.push(digit(n))),
        read(text.push(digit(n))) == 10 * read(text) + n,
{
    let longer = text.push(digit(n));
    assert(longer.drop_last() =~= text);
    assert(digit(n) as u32 == 48 + n);
    assert forall|i: int| 0 <= i < longer.len() implies 48 <= (#[trigger] longer[i]) as u32
        <= 57 by {
        if i < text.len() {
            assert(longer[i] == text[i]);
        }
    }
}

/// A count is written in figures alone, without a leading zero, and reads back as
/// the count.
pub proof fn law_counts_read_back(n: nat)
    ensures
        all_figures(digits(n)),
        read(digits(n)) == n,
        digits(n).len() >= 1,
        digits(n).len() > 1 ==> digits(n)[0] as u32 != 48,
    decreases n,
{
    if n < 10 {
        lemma_read_push(Seq::empty(), n);
        assert(read(Seq::<char>::empty()) == 0);
        assert(Seq::<char>::empty().push(digit(n)) =~= digits(n));
    } else {
        law_counts_read_back(n / 10);
        lemma_read_push(digits(n / 10), n % 10);
        if digits(n / 10).len() == 1 {
            assert(digits(n)[0] == digits(n / 10)[0]);
            lemma_one_figure(digits(n / 10));
        }
    }
}

proof fn lemma_one_figure(text: Seq<char>)
    requires
        text.len() == 1,
        all_figures(text),
    ensures
        read(text) == text[0] as u32 - 48,
{
    assert(text.drop_last() =~= Seq::empty());
    assert(read(text.drop_last()) == 0);
    assert(48 <= text[0] as u32);
}

proof fn lemma_ten_to(places: nat)
    ensures
        ten_to(places) == pow(10, places),
    decreases places,
{
    reveal(pow);
    if places > 0 {
        lemma_ten_to((places - 1) as nat);
    }
}

proof fn lemma_padded_reads(n: nat, width: nat)
    ensures
        padded(n, width).len() == width,
        all_figures(padded(n, width)),
        read(padded(n, width)) == n % ten_to(width),
        ten_to(width) > 0,
    decreases width,
{
    if width > 0 {
        let less = (width - 1) as nat;
        lemma_padded_reads(n / 10, less);
        lemma_read_push(padded(n / 10, less), n % 10);
        lemma_mod_breakdown(n as int, 10, ten_to(less) as int);
    }
}

proof fn lemma_rounded(n: nat, d: nat)
    requires
        d > 0,
    ensures
        2 * distance((rounded(n, d) * d) as int, n as int) <= d,
        2 * distance((rounded(n, d) * d) as int, n as int) == d ==> rounded(n, d) % 2 == 0,
{
    let whole = n / d;
    let rest = n % d;
    lemma_fundamental_div_mod(n as int, d as int);
    assert(d * whole == whole * d) by (nonlinear_arith);
    assert((whole + 1) * d == whole * d + d) by (nonlinear_arith);
}

/// The text of a number without its sign.
pub open spec fn unsigned(number: Binary64, places: nat) -> Seq<char> {
    if number.is_negative() {
        fixed(number, places).drop_first()
    } else {
        fixed(number, places)
    }
}

/// How many 10^-`places` a text with so many places stands for.
pub open spec fn shown(text: Seq<char>, places: nat) -> nat {
    if places == 0 {
        read(text)
    } else {
        (read(text.take(text.len() - places - 1)) * pow(10, places) + read(
            text.skip(text.len() - places),
        )) as nat
    }
}

/// A finite number is written with a minus sign exactly where it is negative, so
/// many places behind a point, figures before it without a leading zero, and no
/// point where there are no places. What is shown is nearest to the number, and
/// even where two are as near.
pub proof fn law_numbers_read_back(number: Binary64, places: nat)
    requires
        number.is_finite(),
    ensures
        number.is_negative() ==> fixed(number, places).len() > 0 && fixed(number, places)[0] == '-',
        ({
            let text = unsigned(number, places);
            let size = if number.value() < 0 {
                -number.value()
            } else {
                number.value()
            };
            let off = distance(
                (shown(text, places) * pow2(1074)) as int,
                size * pow(10, places),
            );
            &&& places == 0 ==> all_figures(text) && text.len() >= 1
            &&& places > 0 ==> {
                &&& text.len() >= places + 2
                &&& text[text.len() - places - 1] == '.'
                &&& all_figures(text.take(text.len() - places - 1))
                &&& all_figures(text.skip(text.len() - places))
                &&& text.len() > places + 2 ==> text[0] as u32 != 48
            }
            &&& 2 * off <= pow2(1074)
            &&& 2 * off == pow2(1074) ==> shown(text, places) % 2 == 0
        }),
{
    let n = scaled(number.magnitude(), places);
    let text = unsigned(number, places);
    let own = pointed(n, places);
    assert(UNIT_EXPONENT as nat == 1074);
    lemma_pow2_pos(1074);
    lemma_ten_to(places);
    lemma_rounded(units(number.magnitude()) * ten_to(places), pow2(1074));
    if number.is_negative() {
        assert((seq!['-'] + own).drop_first() =~= own);
    } else {
        assert(Seq::<char>::empty() + own =~= own);
    }
    assert(text == own);
    if places == 0 {
        law_counts_read_back(n);
        assert(shown(text, places) == n);
    } else {
        let ten = ten_to(places);
        let whole = digits(n / ten);
        let part = padded(n, places);
        lemma_padded_reads(n, places);
        law_counts_read_back(n / ten);
        lemma_fundamental_div_mod(n as int, ten as int);
        assert(text.take(text.len() - places - 1) =~= whole);
        assert(text.skip(text.len() - places) =~= part);
        assert(text[text.len() - places - 1] == '.');
        assert(text[0] == whole[0]);
        assert((n / ten) * ten == ten * (n / ten)) by (nonlinear_arith);
        assert(shown(text, places) == n);
    }
}

/// What is not a number says so, and infinity is written with its sign.
pub proof fn law_numbers_without_figures(number: Binary64, places: nat)
    ensures
        number.is_nan() ==> fixed(number, places) == seq!['N', 'a', 'N'],
        number.is_infinite() && !number.is_negative() ==> fixed(number, places)
            == seq!['i', 'n', 'f'],
        number.is_infinite() && number.is_negative() ==> fixed(number, places)
            == seq!['-', 'i', 'n', 'f'],
{
    if number.is_infinite() {
        assert(fixed(number, places) =~= (if number.is_negative() {
            seq!['-', 'i', 'n', 'f']
        } else {
            seq!['i', 'n', 'f']
        }));
    }
}

} // verus!
