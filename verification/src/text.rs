//! Character-level helpers shared by the parsers and classifiers.

use vstd::prelude::*;

verus! {

/// ASCII lower-casing of one character; other characters are kept.
pub open spec fn lower_char(c: char) -> char {
    if 'A' <= c && c <= 'Z' {
        ((c as u32) + 32) as char
    } else {
        c
    }
}

/// ASCII lower-casing of a whole character sequence.
pub open spec fn lower_seq(s: Seq<char>) -> Seq<char> {
    s.map_values(|c: char| lower_char(c))
}

pub fn to_lower_char(c: char) -> (r: char)
    ensures
        r == lower_char(c),
{
    if 'A' <= c && c <= 'Z' {
        let b: u8 = (c as u8) + 32;
        b as char
    } else {
        c
    }
}

/// The characters of `s`, in order.
pub fn chars_of(s: &str) -> (v: Vec<char>)
    ensures
        v@ == s@,
{
    let mut v: Vec<char> = Vec::new();
    for c in iter: s.chars()
        invariant
            v@ == iter.seq().take(iter.index() as int),
    {
        v.push(c);
    }
    v
}

/// `s` equals the lower-case word `word` when ASCII case is ignored.
pub open spec fn same_word(s: Seq<char>, word: Seq<char>) -> bool {
    lower_seq(s) == word
}

/// `s` starts with the lower-case word `word` when ASCII case is ignored.
pub open spec fn starts_with_word(s: Seq<char>, word: Seq<char>) -> bool {
    word.len() <= s.len() && lower_seq(s.take(word.len() as int)) == word
}

/// Case-insensitive (ASCII) comparison against a lower-case word.
pub fn is_word(s: &Vec<char>, word: &[char]) -> (r: bool)
    ensures
        r == same_word(s@, word@),
{
    if s.len() != word.len() {
        return false;
    }
    let mut i: usize = 0;
    while i < s.len()
        invariant
            s.len() == word.len(),
            i <= s.len(),
            forall|j: int| 0 <= j < i ==> lower_char(#[trigger] s@[j]) == word@[j],
        decreases s.len() - i,
    {
        if to_lower_char(s[i]) != word[i] {
            assert(lower_seq(s@)[i as int] != word@[i as int]);
            return false;
        }
        i = i + 1;
    }
    assert(lower_seq(s@) =~= word@);
    true
}

/// Case-insensitive (ASCII) prefix test against a lower-case word.
pub fn has_word_prefix(s: &Vec<char>, word: &[char]) -> (r: bool)
    ensures
        r == starts_with_word(s@, word@),
{
    if s.len() < word.len() {
        return false;
    }
    let mut i: usize = 0;
    while i < word.len()
        invariant
            word.len() <= s.len(),
            i <= word.len(),
            forall|j: int| 0 <= j < i ==> lower_char(#[trigger] s@[j]) == word@[j],
        decreases word.len() - i,
    {
        if to_lower_char(s[i]) != word[i] {
            assert(lower_seq(s@.take(word.len() as int))[i as int] != word@[i as int]);
            return false;
        }
        i = i + 1;
    }
    assert(lower_seq(s@.take(word.len() as int)) =~= word@);
    true
}

/// `m` is the text `prefix` followed by some message.
pub open spec fn message_with(m: Seq<char>, prefix: Seq<char>) -> bool {
    prefix.is_prefix_of(m)
}

/// Builds a `String` from characters through `FromIterator<char> for String`, which yields
/// exactly the given characters in order.
#[verifier::external_body]
pub(crate) fn string_from_chars(v: &[char]) -> (s: String)
    ensures
        s@ == v@,
{
    v.iter().collect()
}

} // verus!
