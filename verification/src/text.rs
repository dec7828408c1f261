//! Model names as the price table spells them.
use vstd::prelude::*;
use vstd::string::*;

verus! {

/// The Unicode property White_Space.
pub open spec fn is_white_space(c: char) -> bool {
    ||| '\u{9}' <= c <= '\u{D}'
    ||| c == '\u{20}'
    ||| c == '\u{85}'
    ||| c == '\u{A0}'
    ||| c == '\u{1680}'
    ||| '\u{2000}' <= c <= '\u{200A}'
    ||| c == '\u{2028}'
    ||| c == '\u{2029}'
    ||| c == '\u{202F}'
    ||| c == '\u{205F}'
    ||| c == '\u{3000}'
}

/// `s` without the white space at its ends.
pub open spec fn trimmed(s: Seq<char>) -> Seq<char>
    decreases s.len(),
{
    if s.len() > 0 && is_white_space(s.first()) {
        trimmed(s.drop_first())
    } else if s.len() > 0 && is_white_space(s.last()) {
        trimmed(s.drop_last())
    } else {
        s
    }
}

/// What `str::to_lowercase` makes of a text.
pub uninterp spec fn lowercase(s: Seq<char>) -> Seq<char>;

/// Whether a text is made of ASCII characters.
pub open spec fn is_ascii_text(s: Seq<char>) -> bool {
    forall|i: int| 0 <= i < s.len() ==> (#[trigger] s[i] as u32) < 128
}

/// The small letter of an ASCII capital; any other character is itself.
pub open spec fn small_letter(c: char) -> char {
    if 'A' <= c <= 'Z' {
        ((c as u32) + 32) as char
    } else {
        c
    }
}

/// A text in small letters, as far as it is ASCII.
pub open spec fn small_letters(s: Seq<char>) -> Seq<char> {
    s.map_values(|c: char| small_letter(c))
}

/// `str::trim` drops the leading and the trailing characters that have the
/// property White_Space, and nothing else.
pub assume_specification[ str::trim ](s: &str) -> (result: &str)
    ensures
        result@ == trimmed(s@),
;

/// `str::to_lowercase` answers with a text that its argument alone decides,
/// by Unicode's tables. An ASCII text keeps its characters, but for the capital
/// letters, which become small.
pub assume_specification[ str::to_lowercase ](s: &str) -> (result: String)
    ensures
        result@ == lowercase(s@),
        is_ascii_text(s@) ==> result@ == small_letters(s@),
;

/// The part of `s` before the first `mark`, or all of it.
pub open spec fn before_first(s: Seq<char>, mark: char) -> Seq<char>
    decreases s.len(),
{
    if s.len() == 0 || s.first() == mark {
        Seq::empty()
    } else {
        seq![s.first()] + before_first(s.drop_first(), mark)
    }
}

/// The part of `s` after the last `mark`, or all of it.
pub open spec fn after_last(s: Seq<char>, mark: char) -> Seq<char>
    decreases s.len(),
{
    if s.len() == 0 || s.last() == mark {
        Seq::empty()
    } else {
        after_last(s.drop_last(), mark).push(s.last())
    }
}

/// How names are compared: white space at the ends and case do not count.
pub open spec fn normalized(s: Seq<char>) -> Seq<char> {
    lowercase(trimmed(s))
}

/// The normal form of an ASCII name.
pub open spec fn ascii_normalized(s: Seq<char>) -> Seq<char> {
    small_letters(trimmed(s))
}

/// Whether a name is ASCII, apart from white space at its ends.
pub open spec fn is_ascii_name(s: Seq<char>) -> bool {
    is_ascii_text(trimmed(s))
}

/// A name as the price table spells it.
pub fn normalize_key(model: &str) -> (key: String)
    ensures
        key@ == normalized(model@),
        is_ascii_name(model@) ==> key@ == ascii_normalized(model@),
{
    model.trim().to_lowercase()
}

/// The name after the last `/`, so `vendor/model-x` also answers to `model-x`.
pub fn bare_name(key: &str) -> (name: &str)
    ensures
        name@ == after_last(key@, '/'),
{
    let length: usize = key.unicode_len();
    let mut start: usize = 0;
    let mut seen: usize = 0;
    for c in characters: key.chars()
        invariant
            characters.seq() == key@,
            length == key@.len(),
            seen == characters.index(),
            start <= seen <= length,
            after_last(key@.take(seen as int), '/') == key@.subrange(start as int, seen as int),
    {
        proof {
            assert(key@.take(seen as int + 1).drop_last() =~= key@.take(seen as int));
            assert(c == key@[seen as int]);
            assert(key@.subrange(start as int, seen as int).push(c) =~= key@.subrange(
                start as int,
                seen as int + 1,
            ));
        }
        seen = seen + 1;
        if c == '/' {
            start = seen;
            assert(key@.subrange(start as int, seen as int) =~= Seq::<char>::empty());
        }
    }
    assert(key@.take(length as int) =~= key@);
    key.substring_char(start, length)
}

/// Drops a bracketed variant suffix such as that of `model-x[1m]`, which marks a
/// context tier the table does not price separately.
pub fn strip_variant(key: &str) -> (base: &str)
    ensures
        base@ == before_first(key@, '['),
{
    let mut end: usize = 0;
    let mut open: bool = true;
    let length: usize = key.unicode_len();
    assert(key@.skip(0) =~= key@);
    for c in characters: key.chars()
        invariant
            characters.seq() == key@,
            length == key@.len(),
            end <= characters.index(),
            open ==> end == characters.index(),
            before_first(key@, '[') == key@.take(end as int) + (if open {
                before_first(key@.skip(end as int), '[')
            } else {
                Seq::empty()
            }),
    {
        if open {
            proof {
                assert(key@.skip(end as int).drop_first() =~= key@.skip(end as int + 1));
                assert(key@.take(end as int) + seq![c] =~= key@.take(end as int + 1));
            }
            if c == '[' {
                open = false;
            } else {
                end = end + 1;
            }
        }
    }
    key.substring_char(0, end)
}

} // verus!
