//! Lower-casing of text.

use vstd::prelude::*;
use vstd::utf8::is_ascii_chars;

verus! {

/// The ASCII character that is `c` in lower case, where there is one, and `c`
/// itself otherwise. Besides the letters `A` to `Z` that is the Kelvin sign. The
/// one other character beyond ASCII with an ASCII character in its lower case is
/// U+0130, whose lower case is two characters.
pub open spec fn fold_char(c: char) -> char {
    if 'A' <= c && c <= 'Z' {
        (c as u32 + 32) as char
    } else if c == '\u{212a}' {
        'k'
    } else {
        c
    }
}

/// The ASCII character that the lower case of `c` starts with, where it starts
/// with one, and `c` itself otherwise.
pub open spec fn lower_start(c: char) -> char {
    if c == '\u{130}' {
        'i'
    } else {
        fold_char(c)
    }
}

/// `s` with each character folded. A piece of `s` is an ASCII text in lower case
/// exactly where that text stands in the folded `s`.
pub open spec fn folded(s: Seq<char>) -> Seq<char> {
    s.map_values(|c: char| fold_char(c))
}

/// Gives [`fold_char`].
pub fn fold_one(c: char) -> (lower: char)
    ensures
        lower == fold_char(c),
{
    if 'A' <= c && c <= 'Z' {
        ((c as u32) as u8 + 32) as char
    } else if c == '\u{212a}' {
        'k'
    } else {
        c
    }
}

/// Folds each character.
pub fn fold(s: &[char]) -> (r: Vec<char>)
    ensures
        r@ == folded(s@),
{
    let mut r: Vec<char> = Vec::new();
    for i in 0..s.len()
        invariant
            r@ == folded(s@).take(i as int),
    {
        let lower: char = fold_one(s[i]);
        assert(folded(s@).take(i + 1) == folded(s@).take(i as int).push(lower));
        r.push(lower);
    }
    assert(folded(s@).take(s@.len() as int) == folded(s@));
    r
}

/// What `str::to_lowercase` makes of the text `s`: its lower case by the
/// Unicode rules, which may differ from `s` in length.
pub uninterp spec fn lowercase(s: Seq<char>) -> Seq<char>;

/// `s` in lower case. On ASCII text only the letters `A` to `Z` change.
pub open spec fn lower_case(s: Seq<char>) -> Seq<char> {
    if is_ascii_chars(s) {
        folded(s)
    } else {
        lowercase(s)
    }
}

/// Calls `str::to_lowercase`. Its result is a function of the text alone, here
/// named [`lowercase`]. On a text of ASCII characters it lower-cases the letters
/// `A` to `Z` and keeps every other character. On other text it goes by the
/// Unicode tables, and its result is known by its name alone.
#[verifier::external_body]
pub(crate) fn to_lowercase(s: &str) -> (lower: String)
    ensures
        lower@ == lowercase(s@),
        is_ascii_chars(s@) ==> lower@ == folded(s@),
{
    s.to_lowercase()
}

} // verus!
