//! Which lines declare something, and under which name.

use crate::laws::lines::{lemma_trimmed_start_skips, names_follow_the_keyword};
use crate::laws::shape::lemma_type_names;
use crate::laws::text::{whitespace_holds_no_word, words_stand_between_whitespace};
use crate::lowercase::{fold_char, folded, lower_case, lower_start, lowercase};
use crate::name::{
    behind_keyword, first_piece_between, keywords_beyond_ascii_are_left_behind, name_behind,
    name_len, stands_at, the_first_keyword_counts,
};
use crate::outline::{declaration, Declaration};
use crate::text::{
    first_word, found, lemma_first_is_found, lemma_found_is_first, occurs_at, trimmed_start,
    whitespace,
};
use vstd::prelude::*;
use vstd::utf8::is_ascii_chars;

verus! {

/// Each kind of declaration has its own keyword.
pub proof fn kinds_have_their_keywords()
    ensures
        Declaration::Namespace.keyword() == "namespace"@,
        Declaration::Operation.keyword() == "operation"@,
        Declaration::Function.keyword() == "function"@,
        Declaration::Newtype.keyword() == "newtype"@,
{
}

/// `d` is the kind whose keyword is `word`, or none where `word` is no keyword.
proof fn lemma_words_of_kinds(word: Seq<char>, d: Option<Declaration>)
    requires
        d == (if word == "namespace"@ {
            Some(Declaration::Namespace)
        } else if word == "operation"@ {
            Some(Declaration::Operation)
        } else if word == "function"@ {
            Some(Declaration::Function)
        } else if word == "newtype"@ {
            Some(Declaration::Newtype)
        } else {
            None
        }),
    ensures
        d == Some(Declaration::Namespace) <==> word == "namespace"@,
        d == Some(Declaration::Operation) <==> word == "operation"@,
        d == Some(Declaration::Function) <==> word == "function"@,
        d == Some(Declaration::Newtype) <==> word == "newtype"@,
{
    lemma_type_names();
}

/// A line declares something of a kind exactly where its first word is the keyword
/// of that kind, in any case. Here the first word is not `internal`.
pub proof fn only_keywords_declare(before: Seq<char>, word: Seq<char>, rest: Seq<char>)
    requires
        forall|i: int| 0 <= i < before.len() ==> whitespace(#[trigger] before[i]),
        word.len() > 0,
        forall|i: int| 0 <= i < word.len() ==> !whitespace(#[trigger] word[i]),
        rest.len() > 0 ==> whitespace(rest[0]),
        folded(word) != "internal"@,
    ensures
        ({
            let d = declaration(before + word + rest);
            &&& d == Some(Declaration::Namespace) <==> folded(word) == "namespace"@
            &&& d == Some(Declaration::Operation) <==> folded(word) == "operation"@
            &&& d == Some(Declaration::Function) <==> folded(word) == "function"@
            &&& d == Some(Declaration::Newtype) <==> folded(word) == "newtype"@
        }),
{
    words_stand_between_whitespace(before, word, rest);
    lemma_words_of_kinds(folded(word), declaration(before + word + rest));
}

/// Behind `internal`, in any case, the second word decides instead.
pub proof fn only_keywords_declare_behind_internal(
    before: Seq<char>,
    mark: Seq<char>,
    gap: Seq<char>,
    word: Seq<char>,
    rest: Seq<char>,
)
    requires
        forall|i: int| 0 <= i < before.len() ==> whitespace(#[trigger] before[i]),
        folded(mark) == "internal"@,
        gap.len() > 0,
        forall|i: int| 0 <= i < gap.len() ==> whitespace(#[trigger] gap[i]),
        word.len() > 0,
        forall|i: int| 0 <= i < word.len() ==> !whitespace(#[trigger] word[i]),
        rest.len() > 0 ==> whitespace(rest[0]),
    ensures
        ({
            let d = declaration(before + mark + (gap + word + rest));
            &&& d == Some(Declaration::Namespace) <==> folded(word) == "namespace"@
            &&& d == Some(Declaration::Operation) <==> folded(word) == "operation"@
            &&& d == Some(Declaration::Function) <==> folded(word) == "function"@
            &&& d == Some(Declaration::Newtype) <==> folded(word) == "newtype"@
        }),
{
    let tail = gap + word + rest;
    lemma_mark_is_a_word(mark);
    assert(whitespace(tail[0])) by {
        assert(whitespace(gap[0]));
    }
    words_stand_between_whitespace(before, mark, tail);
    words_stand_between_whitespace(gap, word, rest);
    lemma_words_of_kinds(folded(word), declaration(before + mark + tail));
}

proof fn lemma_mark_is_a_word(mark: Seq<char>)
    requires
        folded(mark) == "internal"@,
    ensures
        mark.len() == 8,
        forall|i: int| 0 <= i < mark.len() ==> !whitespace(#[trigger] mark[i]),
{
    reveal_strlit("internal");
    assert(folded(mark).len() == 8);
    assert forall|i: int| 0 <= i < mark.len() implies !whitespace(#[trigger] mark[i]) by {
        assert(folded(mark)[i] == fold_char(mark[i]));
        assert(!whitespace("internal"@[i]));
    }
}

/// A line of whitespace declares nothing, nor does `internal` alone.
pub proof fn nothing_declares_without_a_keyword(
    before: Seq<char>,
    mark: Seq<char>,
    after: Seq<char>,
)
    requires
        forall|i: int| 0 <= i < before.len() ==> whitespace(#[trigger] before[i]),
        folded(mark) == "internal"@,
        forall|i: int| 0 <= i < after.len() ==> whitespace(#[trigger] after[i]),
    ensures
        declaration(before) is None,
        declaration(before + mark + after) is None,
{
    lemma_mark_is_a_word(mark);
    whitespace_holds_no_word(before);
    whitespace_holds_no_word(after);
    if after.len() > 0 {
        assert(whitespace(after[0]));
    }
    words_stand_between_whitespace(before, mark, after);
    let none = Seq::<char>::empty();
    assert(folded(first_word(before)) == none && folded(first_word(after)) == none);
    reveal_strlit("internal");
    reveal_strlit("namespace");
    reveal_strlit("operation");
    reveal_strlit("function");
    reveal_strlit("newtype");
    assert("internal"@.len() == 8 && "namespace"@.len() == 9 && "operation"@.len() == 9);
    assert("function"@.len() == 8 && "newtype"@.len() == 7);
}

/// A name behind the keyword, made of characters that are none of `(`, `<`, `{` and
/// `:` nor whitespace and followed by one of these or by nothing, is the declared
/// name in full.
pub proof fn names_are_returned_whole(
    front: Seq<char>,
    gap: Seq<char>,
    name: Seq<char>,
    rest: Seq<char>,
    keyword: Seq<char>,
)
    requires
        behind_keyword(front + gap + name + rest, keyword) == Some(front.len() as int),
        forall|i: int| 0 <= i < gap.len() ==> whitespace(#[trigger] gap[i]),
        name.len() > 0,
        forall|i: int|
            0 <= i < name.len() ==> (#[trigger] name[i]) != '(' && name[i] != '<' && name[i] != '{'
                && name[i] != ':' && !whitespace(name[i]),
        rest.len() > 0 ==> rest[0] == '(' || rest[0] == '<' || rest[0] == '{' || rest[0] == ':'
            || whitespace(rest[0]),
    ensures
        name_behind(front + gap + name + rest, keyword) == name,
{
    names_follow_the_keyword(front, gap, name, rest, keyword);
}

/// Where the keyword is missing, or is followed by one of `(`, `<`, `{` and `:` or by
/// nothing, the name is `(anonymous)`.
pub proof fn missing_names_are_anonymous(
    front: Seq<char>,
    gap: Seq<char>,
    rest: Seq<char>,
    keyword: Seq<char>,
)
    requires
        behind_keyword(front + gap + rest, keyword) == Some(front.len() as int) || behind_keyword(
            front + gap + rest,
            keyword,
        ) is None,
        forall|i: int| 0 <= i < gap.len() ==> whitespace(#[trigger] gap[i]),
        rest.len() > 0 ==> rest[0] == '(' || rest[0] == '<' || rest[0] == '{' || rest[0] == ':',
    ensures
        name_behind(front + gap + rest, keyword) == "(anonymous)"@,
{
    let text = front + gap + rest;
    assert(text.skip(front.len() as int) == gap + rest);
    lemma_trimmed_start_skips(gap, rest);
    assert(trimmed_start(rest) == rest);
    assert(name_len(rest) == 0);
}

/// An ASCII keyword stands where the letters are its own, in any case. The last
/// letter may be U+0130 where the keyword ends in `i`.
pub proof fn keywords_stand_where_their_letters_do(text: Seq<char>, keyword: Seq<char>, at: int)
    requires
        is_ascii_chars(keyword),
        keyword.len() > 0,
        0 <= at,
        at + keyword.len() <= text.len(),
    ensures
        stands_at(text, keyword, at) <==> {
            let piece = text.subrange(at, at + keyword.len());
            &&& folded(piece.drop_last()) == folded(keyword.drop_last())
            &&& fold_char(piece.last()) == fold_char(keyword.last()) || (piece.last()
                == '\u{130}' && fold_char(keyword.last()) == 'i')
        },
{
    let n = keyword.len() as int;
    let piece = text.subrange(at, at + n);
    let last = n - 1;
    assert(is_ascii_chars(keyword) ==> keyword[last] != '\u{130}');
    assert(piece.last() == text[at + last]);
    assert(keyword.last() == keyword[last]);
    if stands_at(text, keyword, at) {
        assert forall|k: int| 0 <= k < last implies folded(piece.drop_last())[k] == folded(
            keyword.drop_last(),
        )[k] by {
            assert(fold_char(keyword[k]) == fold_char(text[at + k]));
        }
        assert(folded(piece.drop_last()) == folded(keyword.drop_last()));
        assert(fold_char(keyword[last]) == lower_start(text[at + last]));
    } else if folded(piece.drop_last()) == folded(keyword.drop_last()) && (fold_char(piece.last())
        == fold_char(keyword.last()) || (piece.last() == '\u{130}' && fold_char(keyword.last())
        == 'i')) {
        assert forall|k: int| 0 <= k < n implies fold_char(#[trigger] keyword[k]) == (if k == n - 1 {
            lower_start(text[at + k])
        } else {
            fold_char(text[at + k])
        }) by {
            if k < last {
                assert(folded(piece.drop_last())[k] == fold_char(text[at + k]));
                assert(folded(keyword.drop_last())[k] == fold_char(keyword[k]));
            } else {
                assert(fold_char('\u{130}') == '\u{130}');
            }
        }
    }
}

/// In a text without U+0130 an ASCII keyword is found where the text first reads
/// like it, in any case; where it reads like it nowhere, none is found.
pub proof fn the_first_reading_is_found(text: Seq<char>, keyword: Seq<char>)
    requires
        is_ascii_chars(keyword),
        keyword.len() > 0,
        forall|i: int| 0 <= i < text.len() ==> (#[trigger] text[i]) != '\u{130}',
    ensures
        match behind_keyword(text, keyword) {
            Some(j) => {
                let n = keyword.len() as int;
                &&& n <= j <= text.len()
                &&& folded(text.subrange(j - n, j)) == folded(keyword)
                &&& forall|k: int|
                    0 <= k < j - n ==> folded(#[trigger] text.subrange(k, k + n)) != folded(keyword)
            },
            None => forall|k: int|
                0 <= k && k + keyword.len() <= text.len() ==> folded(
                    #[trigger] text.subrange(k, k + keyword.len()),
                ) != folded(keyword),
        },
{
    let n = keyword.len() as int;
    the_first_keyword_counts(text, keyword);
    assert forall|k: int| 0 <= k && k + n <= text.len() implies stands_at(text, keyword, k) == (
    folded(#[trigger] text.subrange(k, k + n)) == folded(keyword)) by {
        lemma_reading(text, keyword, k);
    }
    if let Some(j) = behind_keyword(text, keyword) {
        assert(folded(text.subrange(j - n, j - n + n)) == folded(keyword));
        assert forall|k: int| 0 <= k < j - n implies folded(#[trigger] text.subrange(k, k + n))
            != folded(keyword) by {
            assert(!stands_at(text, keyword, k));
        }
    } else {
        assert forall|k: int| 0 <= k && k + n <= text.len() implies folded(
            #[trigger] text.subrange(k, k + n),
        ) != folded(keyword) by {
            assert(!stands_at(text, keyword, k));
        }
    }
}

proof fn lemma_reading(text: Seq<char>, keyword: Seq<char>, at: int)
    requires
        is_ascii_chars(keyword),
        keyword.len() > 0,
        0 <= at,
        at + keyword.len() <= text.len(),
        forall|i: int| 0 <= i < text.len() ==> (#[trigger] text[i]) != '\u{130}',
    ensures
        stands_at(text, keyword, at) == (folded(text.subrange(at, at + keyword.len())) == folded(
            keyword,
        )),
{
    let n = keyword.len() as int;
    let piece = text.subrange(at, at + n);
    assert(piece.last() == text[at + n - 1]);
    keywords_stand_where_their_letters_do(text, keyword, at);
    assert(folded(piece).drop_last() == folded(piece.drop_last()));
    assert(folded(keyword).drop_last() == folded(keyword.drop_last()));
    assert(folded(piece).last() == fold_char(piece.last()));
    assert(folded(keyword).last() == fold_char(keyword.last()));
    if folded(piece.drop_last()) == folded(keyword.drop_last()) && fold_char(piece.last())
        == fold_char(keyword.last()) {
        assert(folded(piece) == folded(piece.drop_last()).push(fold_char(piece.last())));
        assert(folded(keyword) == folded(keyword.drop_last()).push(fold_char(keyword.last())));
    }
}

/// Folding works character by character, and changes the letters `A` to `Z` and the
/// Kelvin sign alone.
pub proof fn folding_changes_capitals_only(s: Seq<char>, i: int)
    requires
        0 <= i < s.len(),
    ensures
        folded(s).len() == s.len(),
        'A' <= s[i] <= 'Z' ==> folded(s)[i] as u32 == s[i] as u32 + 32,
        s[i] == '\u{212a}' ==> folded(s)[i] == 'k',
        !('A' <= s[i] <= 'Z') && s[i] != '\u{212a}' ==> folded(s)[i] == s[i],
{
}

/// The lower case of ASCII text is its folding; of other text it is what
/// `str::to_lowercase` makes of it.
pub proof fn lower_case_is_that_of_the_library(s: Seq<char>)
    ensures
        is_ascii_chars(s) ==> lower_case(s) == folded(s),
        !is_ascii_chars(s) ==> lower_case(s) == lowercase(s),
{
}

/// The empty keyword stands before everything.
pub proof fn the_empty_keyword_comes_first(text: Seq<char>)
    ensures
        behind_keyword(text, seq![]) == Some(0int),
{
    assert(stands_at(text, seq![], 0));
}

/// A keyword beyond ASCII whose lower case stands in that of the text ends where the
/// lower case of the text before reaches behind its first place, and not earlier.
pub proof fn the_lower_case_leads_behind_the_keyword(text: Seq<char>, keyword: Seq<char>, i: int)
    requires
        !is_ascii_chars(keyword),
        0 <= i,
        i + lower_case(keyword).len() <= lower_case(text).len(),
        lower_case(text).subrange(i, i + lower_case(keyword).len()) == lower_case(keyword),
        forall|j: int|
            0 <= j < i ==> #[trigger] lower_case(text).subrange(j, j + lower_case(keyword).len())
                != lower_case(keyword),
    ensures
        match behind_keyword(text, keyword) {
            Some(j) => {
                &&& 0 <= j <= text.len()
                &&& lower_case(text.take(j)).len() >= i + lower_case(keyword).len()
                &&& forall|k: int|
                    0 <= k < j ==> lower_case(#[trigger] text.take(k)).len() < i + lower_case(
                        keyword,
                    ).len()
            },
            None => false,
        },
{
    let lower = lower_case(text);
    let pattern = lower_case(keyword);
    assert forall|j: int| 0 <= j < i implies !occurs_at(lower, pattern, j) by {
        assert(lower.subrange(j, j + pattern.len()) != pattern);
    }
    lemma_first_is_found(lower, pattern, i);
    keywords_beyond_ascii_are_left_behind(text, keyword);
}

/// A keyword beyond ASCII whose lower case does not stand in that of the text is
/// found as the first piece of the text that has its lower case, the shortest from
/// its start; where there is none, it is not found.
pub proof fn pieces_are_found_by_themselves(text: Seq<char>, keyword: Seq<char>)
    requires
        !is_ascii_chars(keyword),
        forall|j: int|
            0 <= j && j + lower_case(keyword).len() <= lower_case(text).len()
                ==> #[trigger] lower_case(text).subrange(j, j + lower_case(keyword).len())
                != lower_case(keyword),
    ensures
        behind_keyword(text, keyword) is None ==> forall|k: int, l: int|
            0 <= k <= l <= text.len() ==> lower_case(#[trigger] text.subrange(k, l)) != lower_case(
                keyword,
            ),
        behind_keyword(text, keyword) matches Some(j) ==> exists|i: int|
            {
                &&& 0 <= i <= j <= text.len()
                &&& lower_case(#[trigger] text.subrange(i, j)) == lower_case(keyword)
                &&& forall|k: int, l: int|
                    0 <= k <= l <= text.len() && (k < i || (k == i && l < j)) ==> lower_case(
                        #[trigger] text.subrange(k, l),
                    ) != lower_case(keyword)
            },
{
    let lower = lower_case(text);
    let pattern = lower_case(keyword);
    lemma_found_is_first(lower, pattern);
    if let Some(j) = found(lower, pattern) {
        assert(lower.subrange(j, j + pattern.len()) == pattern);
    }
    keywords_beyond_ascii_are_left_behind(text, keyword);
    if let Some(j) = behind_keyword(text, keyword) {
        let i = choose|i: int| first_piece_between(text, keyword, 0, i, j);
        assert(lower_case(text.subrange(i, j)) == lower_case(keyword));
    }
}

} // verus!
