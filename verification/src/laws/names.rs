//! Laws of names: what their normal form keeps, and what it leaves out.
use crate::text::{
    after_last, ascii_normalized, before_first, is_ascii_name, is_ascii_text, is_white_space,
    lowercase, normalized, small_letter, small_letters, trimmed,
};
use vstd::prelude::*;

verus! {

/// Whether a text is nothing but white space.
pub open spec fn is_blank(s: Seq<char>) -> bool {
    forall|i: int| 0 <= i < s.len() ==> is_white_space(#[trigger] s[i])
}

/// The capital of an ASCII small letter; any other character is itself.
pub open spec fn capital_letter(c: char) -> char {
    if 'a' <= c <= 'z' {
        ((c as u32) - 32) as char
    } else {
        c
    }
}

/// A text in capitals, as far as it is ASCII.
pub open spec fn capital_letters(s: Seq<char>) -> Seq<char> {
    s.map_values(|c: char| capital_letter(c))
}

/// Texts that differ in the case of ASCII letters alone have such parts.
pub proof fn lemma_small_parts(one: Seq<char>, other: Seq<char>)
    requires
        small_letters(one) == small_letters(other),
    ensures
        small_letters(trimmed(one)) == small_letters(trimmed(other)),
        small_letters(before_first(one, '[')) == small_letters(before_first(other, '[')),
    decreases one.len(),
{
    assert(one.len() == small_letters(one).len());
    assert(other.len() == small_letters(other).len());
    if one.len() > 0 {
        let last = one.len() - 1;
        assert(small_letters(one)[0] == small_letter(one[0]));
        assert(small_letters(other)[0] == small_letter(other[0]));
        assert(small_letters(one)[last] == small_letter(one[last]));
        assert(small_letters(other)[last] == small_letter(other[last]));
        assert forall|i: int| 0 <= i < one.len() implies small_letter(one[i]) == small_letter(
            other[i],
        ) by {
            assert(small_letters(one)[i] == small_letter(one[i]));
            assert(small_letters(other)[i] == small_letter(other[i]));
        }
        assert(small_letters(one.drop_first()) =~= small_letters(other.drop_first()));
        assert(small_letters(one.drop_last()) =~= small_letters(other.drop_last()));
        lemma_small_parts(one.drop_first(), other.drop_first());
        lemma_small_parts(one.drop_last(), other.drop_last());
        let first = before_first(one.drop_first(), '[');
        let second = before_first(other.drop_first(), '[');
        assert(small_letters(seq![one[0]] + first) =~= seq![small_letter(one[0])] + small_letters(
            first,
        ));
        assert(small_letters(seq![other[0]] + second) =~= seq![small_letter(other[0])]
            + small_letters(second));
    } else {
        assert(one =~= other);
    }
}

/// Capitals become the same small letters.
pub proof fn lemma_capitals(s: Seq<char>)
    ensures
        small_letters(capital_letters(s)) == small_letters(s),
{
    let capitals = capital_letters(s);
    assert forall|i: int| 0 <= i < s.len() implies #[trigger] small_letters(capitals)[i]
        == small_letters(s)[i] by {
        assert(capitals[i] == capital_letter(s[i]));
    }
    assert(small_letters(capitals) =~= small_letters(s));
}

/// Texts that differ in case alone are ASCII together.
proof fn lemma_ascii_together(one: Seq<char>, other: Seq<char>)
    requires
        small_letters(one) == small_letters(other),
        is_ascii_text(one),
    ensures
        is_ascii_text(other),
{
    assert(one.len() == small_letters(one).len());
    assert(other.len() == small_letters(other).len());
    assert forall|i: int| 0 <= i < other.len() implies (#[trigger] other[i] as u32) < 128 by {
        assert(small_letters(one)[i] == small_letter(one[i]));
        assert(small_letters(other)[i] == small_letter(other[i]));
        assert((one[i] as u32) < 128);
    }
}

/// Names that differ in case alone are ASCII together.
pub proof fn lemma_ascii_names_together(one: Seq<char>, other: Seq<char>)
    requires
        small_letters(one) == small_letters(other),
    ensures
        is_ascii_name(one) <==> is_ascii_name(other),
{
    lemma_small_parts(one, other);
    if is_ascii_name(one) {
        lemma_ascii_together(trimmed(one), trimmed(other));
    }
    if is_ascii_name(other) {
        lemma_ascii_together(trimmed(other), trimmed(one));
    }
}

proof fn lemma_ascii_parts(s: Seq<char>, mark: char)
    requires
        is_ascii_text(s),
    ensures
        is_ascii_text(trimmed(s)),
        is_ascii_text(before_first(s, mark)),
    decreases s.len(),
{
    if s.len() > 0 {
        lemma_ascii_parts(s.drop_first(), mark);
        lemma_ascii_parts(s.drop_last(), mark);
        let rest = before_first(s.drop_first(), mark);
        assert forall|i: int| 0 <= i < before_first(s, mark).len() implies (
        #[trigger] before_first(s, mark)[i] as u32) < 128 by {
            if i == 0 {
                assert(before_first(s, mark)[i] == s[0]);
            } else {
                assert(before_first(s, mark)[i] == rest[i - 1]);
            }
        }
    }
}

/// An ASCII text is an ASCII name, and so is the part before a mark.
pub proof fn law_ascii_texts_are_ascii_names(s: Seq<char>, mark: char)
    requires
        is_ascii_text(s),
    ensures
        is_ascii_name(s),
        is_ascii_name(before_first(s, mark)),
{
    lemma_ascii_parts(s, mark);
    lemma_ascii_parts(before_first(s, mark), mark);
}

proof fn lemma_trim_end(s: Seq<char>, space: char)
    requires
        is_white_space(space),
    ensures
        trimmed(s.push(space)) == trimmed(s),
    decreases s.len(),
{
    let longer = s.push(space);
    if s.len() == 0 {
        assert(longer.drop_first() =~= s);
    } else if is_white_space(s.first()) {
        assert(longer.drop_first() =~= s.drop_first().push(space));
        lemma_trim_end(s.drop_first(), space);
    } else {
        assert(longer.drop_last() =~= s);
    }
}

proof fn lemma_trim_surrounding(before: Seq<char>, s: Seq<char>, after: Seq<char>)
    requires
        is_blank(before),
        is_blank(after),
    ensures
        trimmed(before + s + after) == trimmed(s),
    decreases before.len() + after.len(),
{
    let all = before + s + after;
    if after.len() > 0 {
        let less = after.drop_last();
        assert(is_white_space(after[after.len() - 1]));
        assert forall|i: int| 0 <= i < less.len() implies is_white_space(#[trigger] less[i]) by {
            assert(less[i] == after[i]);
        }
        lemma_trim_surrounding(before, s, less);
        lemma_trim_end(before + s + less, after.last());
        assert((before + s + less).push(after.last()) =~= all);
    } else if before.len() > 0 {
        let less = before.drop_first();
        assert(is_white_space(before[0]));
        assert forall|i: int| 0 <= i < less.len() implies is_white_space(#[trigger] less[i]) by {
            assert(less[i] == before[i + 1]);
        }
        lemma_trim_surrounding(less, s, after);
        assert(all.first() == before[0]);
        assert(all.drop_first() =~= less + s + after);
    } else {
        assert(all =~= s);
    }
}

/// White space around a name does not change its normal form.
pub proof fn law_surrounding_white_space(before: Seq<char>, name: Seq<char>, after: Seq<char>)
    requires
        is_blank(before),
        is_blank(after),
    ensures
        normalized(before + name + after) == normalized(name),
        ascii_normalized(before + name + after) == ascii_normalized(name),
{
    lemma_trim_surrounding(before, name, after);
}

proof fn lemma_trimmed_ends(s: Seq<char>)
    ensures
        trimmed(s).len() > 0 ==> !is_white_space(trimmed(s).first()) && !is_white_space(
            trimmed(s).last(),
        ),
        trimmed(s).len() == 0 <==> is_blank(s),
    decreases s.len(),
{
    if s.len() > 0 && is_white_space(s.first()) {
        let less = s.drop_first();
        lemma_trimmed_ends(less);
        if is_blank(less) {
            assert forall|i: int| 0 <= i < s.len() implies is_white_space(#[trigger] s[i]) by {
                if i > 0 {
                    assert(s[i] == less[i - 1]);
                }
            }
        } else {
            let i = choose|i: int| 0 <= i < less.len() && !is_white_space(#[trigger] less[i]);
            assert(s[i + 1] == less[i]);
        }
    } else if s.len() > 0 && is_white_space(s.last()) {
        let less = s.drop_last();
        lemma_trimmed_ends(less);
        assert(!is_white_space(s[0]));
        assert(less[0] == s[0]);
    } else if s.len() > 0 {
        assert(!is_white_space(s[0]));
    }
}

/// Normalizing an ASCII name again changes nothing.
pub proof fn law_normalizing_twice(name: Seq<char>)
    requires
        is_ascii_name(name),
    ensures
        is_ascii_name(ascii_normalized(name)),
        ascii_normalized(ascii_normalized(name)) == ascii_normalized(name),
{
    let kept = trimmed(name);
    let once = ascii_normalized(name);
    lemma_trimmed_ends(name);
    assert forall|i: int| 0 <= i < once.len() implies (#[trigger] once[i] as u32) < 128 by {
        assert(once[i] == small_letter(kept[i]));
        assert((kept[i] as u32) < 128);
    }
    if once.len() > 0 {
        assert(once.first() == small_letter(kept.first()));
        assert(once.last() == small_letter(kept.last()));
    }
    assert(trimmed(once) == once);
    assert forall|i: int| 0 <= i < once.len() implies #[trigger] small_letters(once)[i]
        == once[i] by {
        assert(once[i] == small_letter(kept[i]));
        assert((kept[i] as u32) < 128);
    }
    assert(small_letters(once) =~= once);
}

/// An ASCII name in capitals has the normal form that it has.
pub proof fn law_capitals_do_not_count(name: Seq<char>)
    requires
        is_ascii_name(name),
    ensures
        is_ascii_name(capital_letters(name)),
        ascii_normalized(capital_letters(name)) == ascii_normalized(name),
{
    lemma_capitals(name);
    lemma_small_parts(capital_letters(name), name);
    lemma_ascii_names_together(capital_letters(name), name);
}

/// The normal form of an ASCII name neither begins nor ends with white space.
pub proof fn law_normal_form_has_no_space_around(name: Seq<char>)
    requires
        is_ascii_name(name),
        ascii_normalized(name).len() > 0,
    ensures
        !is_white_space(ascii_normalized(name).first()),
        !is_white_space(ascii_normalized(name).last()),
{
    let kept = trimmed(name);
    lemma_trimmed_ends(name);
    assert(ascii_normalized(name).first() == small_letter(kept.first()));
    assert(ascii_normalized(name).last() == small_letter(kept.last()));
}

/// The normal form of an ASCII name is empty exactly where the name is nothing
/// but white space.
pub proof fn law_blank_names_are_empty(name: Seq<char>)
    requires
        is_ascii_name(name),
    ensures
        ascii_normalized(name).len() == 0 <==> is_blank(name),
{
    lemma_trimmed_ends(name);
}

/// An ASCII name that neither begins nor ends with white space keeps all its
/// characters, inner white space too, but for the capitals.
pub proof fn law_inner_white_space_is_kept(name: Seq<char>)
    requires
        is_ascii_name(name),
        name.len() > 0,
        !is_white_space(name.first()),
        !is_white_space(name.last()),
    ensures
        ascii_normalized(name) == small_letters(name),
{
}

/// What stands before a text and behind it, both white space, that trimming cuts
/// off.
proof fn lemma_cut_off(s: Seq<char>) -> (parts: (Seq<char>, Seq<char>))
    ensures
        is_blank(parts.0),
        is_blank(parts.1),
        s == parts.0 + trimmed(s) + parts.1,
    decreases s.len(),
{
    if s.len() > 0 && is_white_space(s.first()) {
        let (before, after) = lemma_cut_off(s.drop_first());
        let longer = seq![s.first()] + before;
        assert forall|i: int| 0 <= i < longer.len() implies is_white_space(
            #[trigger] longer[i],
        ) by {
            if i > 0 {
                assert(longer[i] == before[i - 1]);
            }
        }
        assert(longer + trimmed(s) + after =~= seq![s.first()] + s.drop_first());
        assert(seq![s.first()] + s.drop_first() =~= s);
        (longer, after)
    } else if s.len() > 0 && is_white_space(s.last()) {
        let (before, after) = lemma_cut_off(s.drop_last());
        let longer = after.push(s.last());
        assert forall|i: int| 0 <= i < longer.len() implies is_white_space(
            #[trigger] longer[i],
        ) by {
            if i < after.len() {
                assert(longer[i] == after[i]);
            }
        }
        assert(before + trimmed(s) + longer =~= s.drop_last().push(s.last()));
        assert(s.drop_last().push(s.last()) =~= s);
        (before, longer)
    } else {
        assert(Seq::empty() + s + Seq::empty() =~= s);
        (Seq::empty(), Seq::empty())
    }
}

/// Trimming cuts white space off the ends of a text, all of it, and nothing
/// else.
pub proof fn law_trimming_cuts_white_space_alone(s: Seq<char>)
    ensures
        exists|before: Seq<char>, after: Seq<char>|
            is_blank(before) && is_blank(after) && s == #[trigger] (before + trimmed(s) + after),
        trimmed(s).len() > 0 ==> !is_white_space(trimmed(s).first()) && !is_white_space(
            trimmed(s).last(),
        ),
{
    let (before, after) = lemma_cut_off(s);
    assert(s == before + trimmed(s) + after);
    lemma_trimmed_ends(s);
}

/// The normal form of a name is what stands between the white space around it,
/// lowered.
pub proof fn law_normal_form_is_the_lowered_core(
    before: Seq<char>,
    core: Seq<char>,
    after: Seq<char>,
)
    requires
        is_blank(before),
        is_blank(after),
        core.len() > 0 ==> !is_white_space(core.first()) && !is_white_space(core.last()),
    ensures
        normalized(before + core + after) == lowercase(core),
        ascii_normalized(before + core + after) == small_letters(core),
{
    lemma_trim_surrounding(before, core, after);
}

/// A text is the part before the first mark, which has no mark in it, and a rest
/// that is empty or begins with one.
pub proof fn law_part_before_the_first_mark(s: Seq<char>, mark: char)
    ensures
        !before_first(s, mark).contains(mark),
        before_first(s, mark).len() <= s.len(),
        s.take(before_first(s, mark).len() as int) == before_first(s, mark),
        before_first(s, mark).len() < s.len() ==> s[before_first(s, mark).len() as int] == mark,
    decreases s.len(),
{
    let part = before_first(s, mark);
    if s.len() > 0 && s.first() != mark {
        let rest = s.drop_first();
        let less = before_first(rest, mark);
        law_part_before_the_first_mark(rest, mark);
        assert(part == seq![s.first()] + less);
        if part.contains(mark) {
            let i = choose|i: int| 0 <= i < part.len() && part[i] == mark;
            assert(i > 0);
            assert(less[i - 1] == mark);
        }
        assert forall|i: int| 0 <= i < part.len() implies #[trigger] s.take(part.len() as int)[i]
            == part[i] by {
            if i > 0 {
                assert(part[i] == less[i - 1]);
                assert(rest.take(less.len() as int)[i - 1] == less[i - 1]);
            }
        }
        assert(s.take(part.len() as int) =~= part);
        if part.len() < s.len() {
            assert(rest[less.len() as int] == s[part.len() as int]);
        }
    } else {
        assert(s.take(0) =~= part);
    }
}

/// A text is the part behind the last mark, which has no mark in it, and a front
/// that is empty or ends with one.
pub proof fn law_part_behind_the_last_mark(s: Seq<char>, mark: char)
    ensures
        !after_last(s, mark).contains(mark),
        after_last(s, mark).len() <= s.len(),
        s.skip(s.len() - after_last(s, mark).len()) == after_last(s, mark),
        after_last(s, mark).len() < s.len() ==> s[s.len() - after_last(s, mark).len() - 1] == mark,
    decreases s.len(),
{
    let part = after_last(s, mark);
    if s.len() > 0 && s.last() != mark {
        let rest = s.drop_last();
        let less = after_last(rest, mark);
        law_part_behind_the_last_mark(rest, mark);
        assert(part == less.push(s.last()));
        if part.contains(mark) {
            let i = choose|i: int| 0 <= i < part.len() && part[i] == mark;
            assert(i < less.len());
            assert(less[i] == mark);
        }
        let from = s.len() - part.len();
        assert forall|i: int| 0 <= i < part.len() implies #[trigger] s.skip(from)[i] == part[i] by {
            if i < less.len() {
                assert(part[i] == less[i]);
                assert(rest.skip(rest.len() - less.len())[i] == less[i]);
            }
        }
        assert(s.skip(from) =~= part);
    } else {
        assert(s.skip(s.len() as int) =~= part);
    }
}

/// Small letters keep the length and every character but the capitals, which
/// become the letters 32 places on; none of them is left.
pub proof fn law_small_letters_character_by_character(s: Seq<char>, at: int)
    requires
        0 <= at < s.len(),
    ensures
        small_letters(s).len() == s.len(),
        65 <= s[at] as u32 <= 90 ==> small_letters(s)[at] as u32 == s[at] as u32 + 32,
        !(65 <= s[at] as u32 <= 90) ==> small_letters(s)[at] == s[at],
        !(65 <= small_letters(s)[at] as u32 <= 90),
{
    assert(small_letters(s)[at] == small_letter(s[at]));
}

} // verus!
