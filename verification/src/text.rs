//! The little that a session has to know of text.

use vstd::prelude::*;
use vstd::utf8::{encode_utf8, encode_utf8_decode_utf8};

verus! {

/// Whether a character has the Unicode property `White_Space`.
pub open spec fn is_white_space(c: char) -> bool {
    ||| '\u{9}' <= c <= '\u{d}'
    ||| c == '\u{20}'
    ||| c == '\u{85}'
    ||| c == '\u{a0}'
    ||| c == '\u{1680}'
    ||| '\u{2000}' <= c <= '\u{200a}'
    ||| c == '\u{2028}'
    ||| c == '\u{2029}'
    ||| c == '\u{202f}'
    ||| c == '\u{205f}'
    ||| c == '\u{3000}'
}

/// What `text` begins with, up to the first white space.
pub open spec fn leading_word(text: Seq<char>) -> Seq<char>
    decreases text.len(),
{
    if text.len() == 0 || is_white_space(text[0]) {
        Seq::empty()
    } else {
        seq![text[0]] + leading_word(text.skip(1))
    }
}

/// The first word of `text`, empty where it has none. White space separates
/// words.
pub open spec fn first_word(text: Seq<char>) -> Seq<char>
    decreases text.len(),
{
    if text.len() == 0 {
        Seq::empty()
    } else if is_white_space(text[0]) {
        first_word(text.skip(1))
    } else {
        leading_word(text)
    }
}

/// A character in ASCII upper case.
pub open spec fn upper_char(c: char) -> char {
    if 'a' <= c <= 'z' {
        (c as u32 - 32) as char
    } else {
        c
    }
}

/// A text in ASCII upper case.
pub open spec fn upper(text: Seq<char>) -> Seq<char> {
    text.map_values(|c: char| upper_char(c))
}

/// `str::to_ascii_uppercase`, as its documentation has it: the letters `a` to `z`
/// become `A` to `Z`, and every other character stays as it is.
pub assume_specification[ str::to_ascii_uppercase ](text: &str) -> (capitals: String)
    ensures
        capitals@ == upper(text@),
;

/// Whether a character has the Unicode property `White_Space`.
pub fn white_space(c: char) -> (yes: bool)
    ensures
        yes == is_white_space(c),
{
    ('\u{9}' <= c && c <= '\u{d}') || c == '\u{20}' || c == '\u{85}' || c == '\u{a0}' || c
        == '\u{1680}' || ('\u{2000}' <= c && c <= '\u{200a}') || c == '\u{2028}' || c == '\u{2029}'
        || c == '\u{202f}' || c == '\u{205f}' || c == '\u{3000}'
}

/// The first word of a text is what stands between the white space before it and
/// the white space after it.
pub proof fn lemma_first_word(text: Seq<char>, from: int, to: int)
    requires
        0 <= from <= to <= text.len(),
        forall|i: int| 0 <= i < from ==> is_white_space(text[i]),
        forall|i: int| from <= i < to ==> !is_white_space(text[i]),
        to < text.len() ==> is_white_space(text[to]),
        from == to ==> to == text.len(),
    ensures
        first_word(text) == text.subrange(from, to),
    decreases text.len(),
{
    if from > 0 {
        lemma_first_word(text.skip(1), from - 1, to - 1);
        assert(text.skip(1).subrange(from - 1, to - 1) =~= text.subrange(from, to));
    } else if text.len() > 0 {
        lemma_leading_word(text, to);
    }
}

proof fn lemma_leading_word(text: Seq<char>, to: int)
    requires
        0 <= to <= text.len(),
        forall|i: int| 0 <= i < to ==> !is_white_space(text[i]),
        to < text.len() ==> is_white_space(text[to]),
    ensures
        leading_word(text) == text.take(to),
    decreases text.len(),
{
    if to > 0 {
        lemma_leading_word(text.skip(1), to - 1);
        assert(seq![text[0]] + text.skip(1).take(to - 1) =~= text.take(to));
    } else {
        assert(text.take(0) =~= Seq::empty());
    }
}

/// The first word of `text`, empty where it has none.
pub fn word(text: &str) -> (first: &str)
    ensures
        first@ == first_word(text@),
{
    let len: usize = text.unicode_len();
    let mut from: usize = 0;
    let mut to: usize = 0;
    let mut ended: bool = false;
    for c in it: text.chars()
        invariant
            it.seq() == text@,
            len == text@.len(),
            from <= to <= it.index(),
            forall|i: int| 0 <= i < from ==> is_white_space(text@[i]),
            forall|i: int| from <= i < to ==> !is_white_space(text@[i]),
            !ended ==> to == it.index(),
            ended ==> from < to && to < it.index() && is_white_space(text@[to as int]),
    {
        if !ended {
            if !white_space(c) {
                to = to + 1;
            } else if from == to {
                from = from + 1;
                to = to + 1;
            } else {
                ended = true;
            }
        }
    }
    proof {
        lemma_first_word(text@, from as int, to as int);
    }
    text.substring_char(from, to)
}

/// Whether `text` holds the character `wanted`.
pub fn holds(text: &str, wanted: char) -> (yes: bool)
    ensures
        yes == text@.contains(wanted),
{
    for c in it: text.chars()
        invariant
            it.seq() == text@,
            forall|i: int| 0 <= i < it.index() ==> text@[i] != wanted,
    {
        if c == wanted {
            assert(text@[it.index() as int] == wanted);
            return true;
        }
    }
    false
}

/// What follows `prefix` in `text`, where `text` begins with it.
pub fn after_prefix<'a>(text: &'a str, prefix: &str) -> (rest: Option<&'a str>)
    ensures
        rest is Some <==> prefix@.is_prefix_of(text@),
        rest matches Some(rest) ==> rest@ == text@.skip(prefix@.len() as int),
{
    let text_len: usize = text.unicode_len();
    let prefix_len: usize = prefix.unicode_len();
    if text_len < prefix_len {
        return None;
    }
    let mut i: usize = 0;
    while i < prefix_len
        invariant
            i <= prefix_len <= text_len,
            prefix_len == prefix@.len(),
            text_len == text@.len(),
            forall|j: int| 0 <= j < i ==> text@[j] == prefix@[j],
        decreases prefix_len - i,
    {
        if text.get_char(i) != prefix.get_char(i) {
            return None;
        }
        i = i + 1;
    }
    assert(prefix@ =~= text@.take(prefix_len as int));
    Some(text.substring_char(prefix_len, text_len))
}

/// Whether two texts are the same.
pub fn same(left: &str, right: &str) -> (yes: bool)
    ensures
        yes == (left@ == right@),
{
    let a = left.as_bytes();
    let b = right.as_bytes();
    proof {
        encode_utf8_decode_utf8(left@);
        encode_utf8_decode_utf8(right@);
    }
    if a.len() != b.len() {
        return false;
    }
    let mut i: usize = 0;
    while i < a.len()
        invariant
            i <= a@.len() == b@.len(),
            a@ == encode_utf8(left@),
            b@ == encode_utf8(right@),
            forall|j: int| 0 <= j < i ==> a@[j] == b@[j],
        decreases a@.len() - i,
    {
        if a[i] != b[i] {
            return false;
        }
        i = i + 1;
    }
    assert(a@ =~= b@);
    true
}

} // verus!
