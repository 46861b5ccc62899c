//! The name that a declaration line declares.

use crate::lowercase::{fold_char, fold_one, lower_case, lower_start, to_lowercase};
use crate::text::{
    chars_of, find, found, is_whitespace, lemma_found_is_first, same_text, string_of, trim_start,
    trimmed_start, whitespace,
};
use vstd::prelude::*;
use vstd::slice::slice_subrange;
use vstd::utf8::is_ascii_chars;

verus! {

/// The lower case of `text` from `i` on starts with the ASCII text `keyword`, in any
/// case. The last character may have more in its lower case than the keyword takes
/// up.
pub open spec fn stands_at(text: Seq<char>, keyword: Seq<char>, i: int) -> bool {
    &&& 0 <= i
    &&& i + keyword.len() <= text.len()
    &&& forall|k: int|
        0 <= k < keyword.len() ==> fold_char(#[trigger] keyword[k]) == if k == keyword.len() - 1 {
            lower_start(text[i + k])
        } else {
            fold_char(text[i + k])
        }
}

/// The least index, from `from` on, at which the ASCII text `keyword` stands.
pub open spec fn standing_from(text: Seq<char>, keyword: Seq<char>, from: int) -> Option<int>
    decreases text.len() + 1 - from,
{
    if from < 0 || from > text.len() {
        None
    } else if stands_at(text, keyword, from) {
        Some(from)
    } else {
        standing_from(text, keyword, from + 1)
    }
}

/// The least index, from `j` on, before which `text` has at least `n` characters
/// in lower case; at most the length of `text`.
pub open spec fn reaching(text: Seq<char>, n: int, j: int) -> int
    decreases text.len() - j,
{
    if j < 0 || j >= text.len() {
        text.len() as int
    } else if lower_case(text.take(j)).len() >= n {
        j
    } else {
        reaching(text, n, j + 1)
    }
}

/// The least end, from `j` on, of a piece of `text` from `i` on that is `keyword`
/// but for letter case.
pub open spec fn end_from(text: Seq<char>, keyword: Seq<char>, i: int, j: int) -> Option<int>
    decreases text.len() + 1 - j,
{
    if j < i || j > text.len() {
        None
    } else if lower_case(text.subrange(i, j)) == lower_case(keyword) {
        Some(j)
    } else {
        end_from(text, keyword, i, j + 1)
    }
}

/// The end of the first piece of `text`, from `i` on, that is `keyword` but for
/// letter case.
pub open spec fn behind_from(text: Seq<char>, keyword: Seq<char>, i: int) -> Option<int>
    decreases text.len() + 1 - i,
{
    if i < 0 || i > text.len() {
        None
    } else {
        match end_from(text, keyword, i, i) {
            Some(j) => Some(j),
            None => behind_from(text, keyword, i + 1),
        }
    }
}

/// The index behind the first `keyword` in `text`, whatever its letter case.
///
/// The keyword is looked for in the lower case of the text. What a letter is in
/// lower case may depend on the letters around it, so a keyword beyond ASCII that
/// is not found there is looked for as a piece of the text by itself.
pub open spec fn behind_keyword(text: Seq<char>, keyword: Seq<char>) -> Option<int> {
    if is_ascii_chars(keyword) {
        match standing_from(text, keyword, 0) {
            Some(i) => Some(i + keyword.len()),
            None => None,
        }
    } else {
        match found(lower_case(text), lower_case(keyword)) {
            Some(i) => Some(reaching(text, i + lower_case(keyword).len(), 0)),
            None => behind_from(text, keyword, 0),
        }
    }
}

/// The characters that end a name.
pub open spec fn ends_name(c: char) -> bool {
    c == '(' || c == '<' || c == '{' || c == ':' || whitespace(c)
}

/// How many characters stand at the start of `s` before the first that ends a
/// name.
pub open spec fn name_len(s: Seq<char>) -> nat
    decreases s.len(),
{
    if s.len() > 0 && !ends_name(s[0]) {
        1 + name_len(s.skip(1))
    } else {
        0
    }
}

/// The name at the start of `s`, behind any whitespace.
pub open spec fn leading_name(s: Seq<char>) -> Seq<char> {
    let rest = trimmed_start(s);
    rest.take(name_len(rest) as int)
}

/// The label of a declaration without a name.
pub open spec fn anonymous() -> Seq<char> {
    "(anonymous)"@
}

/// The name that stands in `text` behind `keyword`.
pub open spec fn name_behind(text: Seq<char>, keyword: Seq<char>) -> Seq<char> {
    match behind_keyword(text, keyword) {
        None => anonymous(),
        Some(i) => {
            let name = leading_name(text.skip(i));
            if name.len() == 0 {
                anonymous()
            } else {
                name
            }
        },
    }
}

/// An ASCII keyword is found where it first stands; where none is found, none
/// stands.
pub proof fn the_first_keyword_counts(text: Seq<char>, keyword: Seq<char>)
    requires
        is_ascii_chars(keyword),
    ensures
        match behind_keyword(text, keyword) {
            Some(j) => stands_at(text, keyword, j - keyword.len()) && forall|k: int|
                k < j - keyword.len() ==> !stands_at(text, keyword, k),
            None => forall|k: int| !stands_at(text, keyword, k),
        },
{
    lemma_standing_from_is_first(text, keyword, 0);
}

proof fn lemma_standing_from_is_first(text: Seq<char>, keyword: Seq<char>, from: int)
    requires
        0 <= from,
    ensures
        match standing_from(text, keyword, from) {
            Some(i) => from <= i && stands_at(text, keyword, i) && forall|k: int|
                from <= k < i ==> !stands_at(text, keyword, k),
            None => forall|k: int| from <= k ==> !stands_at(text, keyword, k),
        },
    decreases text.len() + 1 - from,
{
    if from <= text.len() && !stands_at(text, keyword, from) {
        lemma_standing_from_is_first(text, keyword, from + 1);
    }
}

/// The piece of `text` between `i` and `j` is `keyword` but for letter case, and
/// no piece is that starts earlier, from `from` on, or starts there and is shorter.
pub open spec fn first_piece_between(
    text: Seq<char>,
    keyword: Seq<char>,
    from: int,
    i: int,
    j: int,
) -> bool {
    &&& from <= i <= j <= text.len()
    &&& lower_case(text.subrange(i, j)) == lower_case(keyword)
    &&& forall|k: int, l: int|
        from <= k <= l <= text.len() && (k < i || (k == i && l < j)) ==> lower_case(
            #[trigger] text.subrange(k, l),
        ) != lower_case(keyword)
}

/// No piece of `text` that starts from `from` on is `keyword` but for letter case.
pub open spec fn no_piece_from(text: Seq<char>, keyword: Seq<char>, from: int) -> bool {
    forall|k: int, l: int|
        from <= k <= l <= text.len() ==> lower_case(#[trigger] text.subrange(k, l)) != lower_case(
            keyword,
        )
}

/// The shortest front of `text` whose lower case has at least `n` characters ends
/// at `j`.
pub open spec fn reaches_first_at(text: Seq<char>, n: int, j: int) -> bool {
    &&& 0 <= j <= text.len()
    &&& lower_case(text.take(j)).len() >= n
    &&& forall|k: int| 0 <= k < j ==> lower_case(#[trigger] text.take(k)).len() < n
}

/// A keyword beyond ASCII that stands in the lower case of the text is left behind
/// by the shortest front of the text whose lower case holds its first place. One
/// that does not is left behind by its first piece. Where nothing is found, it
/// stands neither way.
pub proof fn keywords_beyond_ascii_are_left_behind(text: Seq<char>, keyword: Seq<char>)
    requires
        !is_ascii_chars(keyword),
    ensures
        match behind_keyword(text, keyword) {
            Some(j) => match found(lower_case(text), lower_case(keyword)) {
                Some(i) => reaches_first_at(text, i + lower_case(keyword).len(), j),
                None => exists|i: int| first_piece_between(text, keyword, 0, i, j),
            },
            None => found(lower_case(text), lower_case(keyword)) is None && no_piece_from(
                text,
                keyword,
                0,
            ),
        },
{
    lemma_found_is_first(lower_case(text), lower_case(keyword));
    match found(lower_case(text), lower_case(keyword)) {
        Some(i) => {
            lemma_reaching_is_least(text, i + lower_case(keyword).len(), 0);
        },
        None => {
            lemma_behind_from_is_first(text, keyword, 0);
        },
    }
}

proof fn lemma_reaching_is_least(text: Seq<char>, n: int, j: int)
    requires
        0 <= j <= text.len(),
        lower_case(text).len() >= n,
    ensures
        ({
            let e = reaching(text, n, j);
            &&& j <= e <= text.len()
            &&& lower_case(text.take(e)).len() >= n
            &&& forall|k: int| j <= k < e ==> lower_case(#[trigger] text.take(k)).len() < n
        }),
    decreases text.len() - j,
{
    if j == text.len() {
        assert(text.take(j) == text);
    } else if lower_case(text.take(j)).len() < n {
        lemma_reaching_is_least(text, n, j + 1);
    }
}

proof fn lemma_end_from_is_least(text: Seq<char>, keyword: Seq<char>, i: int, j: int)
    requires
        0 <= i <= j,
    ensures
        match end_from(text, keyword, i, j) {
            Some(e) => j <= e <= text.len() && lower_case(text.subrange(i, e)) == lower_case(
                keyword,
            ) && forall|l: int|
                j <= l < e ==> lower_case(#[trigger] text.subrange(i, l)) != lower_case(keyword),
            None => forall|l: int|
                j <= l <= text.len() ==> lower_case(#[trigger] text.subrange(i, l)) != lower_case(
                    keyword,
                ),
        },
    decreases text.len() + 1 - j,
{
    if j <= text.len() && lower_case(text.subrange(i, j)) != lower_case(keyword) {
        lemma_end_from_is_least(text, keyword, i, j + 1);
    }
}

proof fn lemma_behind_from_is_first(text: Seq<char>, keyword: Seq<char>, from: int)
    requires
        0 <= from,
    ensures
        match behind_from(text, keyword, from) {
            Some(j) => exists|i: int| first_piece_between(text, keyword, from, i, j),
            None => no_piece_from(text, keyword, from),
        },
    decreases text.len() + 1 - from,
{
    if from <= text.len() {
        lemma_end_from_is_least(text, keyword, from, from);
        match end_from(text, keyword, from, from) {
            Some(j) => {
                assert(first_piece_between(text, keyword, from, from, j));
            },
            None => {
                lemma_behind_from_is_first(text, keyword, from + 1);
                if let Some(j) = behind_from(text, keyword, from + 1) {
                    let next = from + 1;
                    let i = choose|i: int| first_piece_between(text, keyword, next, i, j);
                    assert(first_piece_between(text, keyword, from, i, j));
                }
            },
        }
    }
}

/// Decides [`stands_at`].
fn is_standing_at(text: &[char], keyword: &[char], i: usize) -> (b: bool)
    requires
        i <= text@.len(),
    ensures
        b == stands_at(text@, keyword@, i as int),
{
    let n: usize = keyword.len();
    let len: usize = text.len();
    if n > len - i {
        return false;
    }
    for k in 0..n
        invariant
            n == keyword@.len(),
            len == text@.len(),
            i + n <= len,
            forall|m: int|
                0 <= m < k ==> fold_char(#[trigger] keyword@[m]) == if m == n - 1 {
                    lower_start(text@[i + m])
                } else {
                    fold_char(text@[i + m])
                },
    {
        let c: char = text[i + k];
        let lower: char = if k == n - 1 && c == '\u{130}' {
            'i'
        } else {
            fold_one(c)
        };
        if fold_one(keyword[k]) != lower {
            assert(fold_char(keyword@[k as int]) != lower);
            return false;
        }
    }
    true
}

/// Finds an ASCII keyword.
fn find_behind_ascii(text: &[char], keyword: &[char]) -> (behind: Option<usize>)
    requires
        is_ascii_chars(keyword@),
    ensures
        match behind {
            Some(i) => behind_keyword(text@, keyword@) == Some(i as int) && i <= text@.len(),
            None => behind_keyword(text@, keyword@) is None,
        },
{
    let n: usize = text.len();
    let mut i: usize = 0;
    while i < n
        invariant
            n == text@.len(),
            i <= n,
            is_ascii_chars(keyword@),
            standing_from(text@, keyword@, 0) == standing_from(text@, keyword@, i as int),
        decreases n - i,
    {
        if is_standing_at(text, keyword, i) {
            return Some(i + keyword.len());
        }
        i += 1;
    }
    assert(standing_from(text@, keyword@, n + 1) is None);
    if is_standing_at(text, keyword, n) {
        Some(n)
    } else {
        None
    }
}

/// How many characters a text has in lower case.
fn lower_len(text: &[char]) -> (n: usize)
    ensures
        n == lower_case(text@).len(),
{
    let lower = chars_of(to_lowercase(string_of(text).as_str()).as_str());
    lower.len()
}

/// Finds [`reaching`].
fn find_reaching(text: &[char], n: usize) -> (end: usize)
    ensures
        end == reaching(text@, n as int, 0),
        end <= text@.len(),
{
    let mut j: usize = 0;
    while j < text.len()
        invariant
            j <= text@.len(),
            reaching(text@, n as int, 0) == reaching(text@, n as int, j as int),
        decreases text@.len() - j,
    {
        if lower_len(slice_subrange(text, 0, j)) >= n {
            return j;
        }
        j += 1;
    }
    j
}

/// Finds the least end from `i` on; see [`end_from`].
fn find_end(
    text: &[char],
    lower_keyword: &[char],
    i: usize,
    Ghost(keyword): Ghost<Seq<char>>,
) -> (end: Option<usize>)
    requires
        lower_keyword@ == lower_case(keyword),
        i <= text@.len(),
    ensures
        match end {
            Some(j) => end_from(text@, keyword, i as int, i as int) == Some(j as int) && j
                <= text@.len(),
            None => end_from(text@, keyword, i as int, i as int) is None,
        },
{
    let n: usize = text.len();
    let mut j: usize = i;
    while j < n
        invariant
            n == text@.len(),
            i <= j <= n,
            lower_keyword@ == lower_case(keyword),
            end_from(text@, keyword, i as int, i as int) == end_from(
                text@,
                keyword,
                i as int,
                j as int,
            ),
        decreases n - j,
    {
        if is_keyword(slice_subrange(text, i, j), lower_keyword) {
            return Some(j);
        }
        j += 1;
    }
    if is_keyword(slice_subrange(text, i, n), lower_keyword) {
        Some(n)
    } else {
        assert(end_from(text@, keyword, i as int, n + 1) is None);
        None
    }
}

/// Whether a text is `lower_keyword` once it is in lower case.
fn is_keyword(text: &[char], lower_keyword: &[char]) -> (b: bool)
    ensures
        b == (lower_case(text@) == lower_keyword@),
{
    let lower = chars_of(to_lowercase(string_of(text).as_str()).as_str());
    same_text(&lower, lower_keyword)
}

/// Finds a keyword as a piece of the text by itself.
fn find_piece(
    text: &[char],
    lower_keyword: &[char],
    Ghost(keyword): Ghost<Seq<char>>,
) -> (behind: Option<usize>)
    requires
        lower_keyword@ == lower_case(keyword),
    ensures
        match behind {
            Some(i) => behind_from(text@, keyword, 0) == Some(i as int) && i <= text@.len(),
            None => behind_from(text@, keyword, 0) is None,
        },
{
    let n: usize = text.len();
    let mut i: usize = 0;
    while i < n
        invariant
            n == text@.len(),
            i <= n,
            lower_keyword@ == lower_case(keyword),
            behind_from(text@, keyword, 0) == behind_from(text@, keyword, i as int),
        decreases n - i,
    {
        let end = find_end(text, lower_keyword, i, Ghost(keyword));
        if end.is_some() {
            return end;
        }
        i += 1;
    }
    let end = find_end(text, lower_keyword, n, Ghost(keyword));
    assert(behind_from(text@, keyword, n + 1) is None);
    end
}

/// Finds any other keyword.
fn find_behind_other(text: &[char], keyword: &str) -> (behind: Option<usize>)
    requires
        !is_ascii_chars(keyword@),
    ensures
        match behind {
            Some(i) => behind_keyword(text@, keyword@) == Some(i as int) && i <= text@.len(),
            None => behind_keyword(text@, keyword@) is None,
        },
{
    let lower = chars_of(to_lowercase(string_of(text).as_str()).as_str());
    let lower_keyword = chars_of(to_lowercase(keyword).as_str());
    proof {
        lemma_found_is_first(lower@, lower_keyword@);
        assert(lower.len() == lower@.len());
    }
    match find(&lower, &lower_keyword) {
        Some(i) => Some(find_reaching(text, i + lower_keyword.len())),
        None => find_piece(text, &lower_keyword, Ghost(keyword@)),
    }
}

/// Cuts the name at the start of `s` out.
fn cut_leading_name(s: &[char]) -> (name: &[char])
    ensures
        name@ == leading_name(s@),
{
    let rest = trim_start(s);
    let mut n: usize = 0;
    assert(rest@.skip(0) == rest@);
    while n < rest.len() && !(rest[n] == '(' || rest[n] == '<' || rest[n] == '{' || rest[n] == ':'
        || is_whitespace(rest[n]))
        invariant
            n <= rest@.len(),
            name_len(rest@) == n + name_len(rest@.skip(n as int)),
        decreases rest@.len() - n,
    {
        assert(rest@.skip(n as int).skip(1) == rest@.skip(n + 1));
        n += 1;
    }
    slice_subrange(rest, 0, n)
}

/// Cuts the name out that stands from `behind` on, the place behind a keyword.
pub fn cut_name_at(text: &[char], behind: usize) -> (name: String)
    requires
        behind <= text@.len(),
    ensures
        name@ == ({
            let name = leading_name(text@.skip(behind as int));
            if name.len() == 0 {
                anonymous()
            } else {
                name
            }
        }),
{
    assert(text@.subrange(behind as int, text@.len() as int) == text@.skip(behind as int));
    let name = cut_leading_name(slice_subrange(text, behind, text.len()));
    if name.len() == 0 {
        "(anonymous)".to_owned()
    } else {
        string_of(name)
    }
}

/// [`extract_qs_name`] for an ASCII keyword, on characters.
pub(crate) fn cut_name(text: &[char], keyword: &[char]) -> (name: String)
    requires
        is_ascii_chars(keyword@),
    ensures
        name@ == name_behind(text@, keyword@),
{
    match find_behind_ascii(text, keyword) {
        None => "(anonymous)".to_owned(),
        Some(behind) => cut_name_at(text, behind),
    }
}

/// Finds `keyword`, whatever its letter case, in `trimmed`, and returns the next
/// whitespace-delimited token, stopping at `(`, `<`, `{` or `:`. Where there is no
/// keyword or no token, the name is `(anonymous)`.
pub fn extract_qs_name(trimmed: &str, keyword: &str) -> (name: String)
    ensures
        name@ == name_behind(trimmed@, keyword@),
{
    let text = chars_of(trimmed);
    if keyword.is_ascii() {
        cut_name(&text, &chars_of(keyword))
    } else {
        match find_behind_other(&text, keyword) {
            None => "(anonymous)".to_owned(),
            Some(behind) => cut_name_at(&text, behind),
        }
    }
}

} // verus!
