//! What counts on a line, and what does not.

use crate::laws::shape::lemma_type_names;
use crate::lowercase::{fold_char, folded, lower_start};
use crate::name::{
    anonymous, behind_keyword, ends_name, name_behind, name_len, stands_at,
    the_first_keyword_counts,
};
use crate::outline::{code_text, declaration, outline, Declaration};
use crate::parser::code_lines;
use crate::plugin::language_for;
use crate::text::{
    after_first_word, first_word, found, lemma_first_is_found, lemma_found_is_first,
    lemma_trimmed_end_cuts, lemma_trimmed_start_cuts, lines_of, occurs_at, trimmed, trimmed_end,
    trimmed_start, whitespace, word_len,
};
use vstd::prelude::*;
use vstd::utf8::is_ascii_chars;

verus! {

/// `s` holds whitespace only.
pub open spec fn blank(s: Seq<char>) -> bool {
    forall|i: int| 0 <= i < s.len() ==> whitespace(#[trigger] s[i])
}

pub(crate) proof fn lemma_trimmed_start_skips(a: Seq<char>, s: Seq<char>)
    requires
        blank(a),
    ensures
        trimmed_start(a + s) == trimmed_start(s),
    decreases a.len(),
{
    if a.len() == 0 {
        assert(a + s == s);
    } else {
        let rest = a.skip(1);
        assert forall|i: int| 0 <= i < rest.len() implies whitespace(#[trigger] rest[i]) by {
            assert(whitespace(a[i + 1]));
        }
        lemma_trimmed_start_skips(rest, s);
        assert(whitespace((a + s)[0]));
        assert((a + s).skip(1) == rest + s);
    }
}

pub(crate) proof fn lemma_trimmed_end_skips(s: Seq<char>, b: Seq<char>)
    requires
        blank(b),
    ensures
        trimmed_end(s + b) == trimmed_end(s),
    decreases b.len(),
{
    if b.len() == 0 {
        assert(s + b == s);
    } else {
        let rest = b.drop_last();
        assert forall|i: int| 0 <= i < rest.len() implies whitespace(#[trigger] rest[i]) by {
            assert(whitespace(b[i]));
        }
        lemma_trimmed_end_skips(s, rest);
        assert(whitespace((s + b).last()));
        assert((s + b).drop_last() == s + rest);
    }
}

/// Trimming the start works on the front: what follows a text with something in
/// it stays behind it.
pub(crate) proof fn lemma_trimmed_start_concat(s: Seq<char>, b: Seq<char>)
    ensures
        blank(s) ==> trimmed_start(s).len() == 0,
        !blank(s) ==> trimmed_start(s).len() > 0,
        !blank(s) ==> trimmed_start(s + b) == trimmed_start(s) + b,
    decreases s.len(),
{
    if s.len() > 0 && whitespace(s[0]) {
        let rest = s.skip(1);
        lemma_trimmed_start_concat(rest, b);
        if blank(s) {
            assert forall|i: int| 0 <= i < rest.len() implies whitespace(#[trigger] rest[i]) by {
                assert(whitespace(s[i + 1]));
            }
        } else {
            if blank(rest) {
                assert forall|i: int| 0 <= i < s.len() implies whitespace(#[trigger] s[i]) by {
                    if i > 0 {
                        assert(whitespace(rest[i - 1]));
                    }
                }
            }
            assert((s + b).skip(1) == rest + b);
        }
    }
}

/// Whitespace around a line makes no difference.
pub proof fn indentation_is_ignored(before: Seq<char>, line: Seq<char>, after: Seq<char>)
    requires
        blank(before),
        blank(after),
    ensures
        code_text(before + line + after) == code_text(line),
{
    assert(before + line + after == before + (line + after));
    lemma_trimmed_start_skips(before, line + after);
    lemma_trimmed_start_concat(line, after);
    if blank(line) {
        let all = line + after;
        assert forall|i: int| 0 <= i < all.len() implies whitespace(#[trigger] all[i]) by {
            if i < line.len() {
                assert(whitespace(line[i]));
            } else {
                assert(whitespace(after[i - line.len()]));
            }
        }
        lemma_trimmed_start_concat(all, Seq::empty());
        assert(trimmed_start(all) == trimmed_start(line));
    } else {
        lemma_trimmed_end_skips(trimmed_start(line), after);
    }
}

/// What is found in a text is found at the same place in a longer one, and in a
/// shorter one that still holds it.
proof fn lemma_found_in_prefix(s: Seq<char>, pattern: Seq<char>, n: int)
    requires
        0 <= n <= s.len(),
    ensures
        found(s.take(n), pattern) matches Some(i) ==> found(s, pattern) == Some(i),
        found(s, pattern) matches Some(i) ==> i + pattern.len() <= n ==> found(s.take(n), pattern)
            == Some(i),
        found(s, pattern) is None ==> found(s.take(n), pattern) is None,
{
    let short = s.take(n);
    lemma_found_is_first(s, pattern);
    lemma_found_is_first(short, pattern);
    assert forall|j: int| 0 <= j && j + pattern.len() <= n implies occurs_at(short, pattern, j)
        == occurs_at(s, pattern, j) by {
        assert(short.subrange(j, j + pattern.len()) == s.subrange(j, j + pattern.len()));
    }
    if let Some(i) = found(short, pattern) {
        assert(occurs_at(s, pattern, i));
        assert forall|j: int| 0 <= j < i implies !occurs_at(s, pattern, j) by {
            assert(!occurs_at(short, pattern, j));
        }
        lemma_first_is_found(s, pattern, i);
    }
    if let Some(i) = found(s, pattern) {
        if i + pattern.len() <= n {
            assert(occurs_at(short, pattern, i));
            lemma_first_is_found(short, pattern, i);
        }
    }
}

/// A comment makes no difference. The line before it must not end in a slash,
/// since that slash would start the comment.
pub proof fn comments_are_ignored(line: Seq<char>, comment: Seq<char>)
    requires
        line.len() > 0 ==> line.last() != '/',
    ensures
        code_text(line + "//"@ + comment) == code_text(line),
{
    reveal_strlit("//");
    let slashes = "//"@;
    assert(slashes.len() == 2 && slashes[0] == '/' && slashes[1] == '/');
    let tail = slashes + comment;
    let full = line + slashes + comment;
    assert(full == line + tail);
    let u = trimmed_start(line);
    lemma_trimmed_start_concat(line, tail);
    lemma_trimmed_start_cuts(line);
    if blank(line) {
        lemma_trimmed_start_skips(line, tail);
        assert(!whitespace(tail[0]));
        assert(u + tail == tail);
    }
    assert(trimmed_start(full) == u + tail);
    // The slashes outlive the trimming at the end.
    let t = trimmed(full);
    let w = u + tail;
    lemma_trimmed_end_cuts(w);
    let m = t.len() as int;
    assert(t == w.take(m));
    assert(w[u.len() as int + 1] == '/');
    assert(m >= u.len() + 2) by {
        if m < u.len() + 2 {
            assert(whitespace(w[u.len() as int + 1]));
        }
    }
    assert(u == t.take(u.len() as int));
    let v = trimmed(line);
    lemma_trimmed_end_cuts(u);
    assert(v == u.take(v.len() as int));
    lemma_found_in_prefix(u, slashes, v.len() as int);
    lemma_found_in_prefix(t, slashes, u.len() as int);
    lemma_found_is_first(u, slashes);
    if let Some(p) = found(u, slashes) {
        assert(u.subrange(p, p + 2)[1] == '/');
        assert(u[p + 1] == '/');
        assert(p + 2 <= v.len()) by {
            if p + 2 > v.len() {
                assert(whitespace(u[p + 1]));
            }
        }
        assert(t.take(p) == v.take(p));
    } else {
        let k = u.len() as int;
        assert(t.subrange(k, k + 2) == slashes);
        assert(occurs_at(t, slashes, k));
        assert forall|j: int| 0 <= j < k implies !occurs_at(t, slashes, j) by {
            if occurs_at(t, slashes, j) {
                assert(t.subrange(j, j + 2)[0] == '/');
                assert(t[j] == '/');
                if j == k - 1 {
                    assert(u.last() == line.last());
                } else {
                    assert(u.subrange(j, j + 2) == t.subrange(j, j + 2));
                    assert(occurs_at(u, slashes, j));
                }
            }
        }
        lemma_first_is_found(t, slashes, k);
        assert(t.take(k) == u);
        assert(trimmed_start(u) == u);
    }
}

/// `touched` is `line` between `before` and `after`, both whitespace, and perhaps
/// a comment behind that, which no slash before it runs into.
pub open spec fn noise_added(
    line: Seq<char>,
    touched: Seq<char>,
    before: Seq<char>,
    after: Seq<char>,
    comment: Seq<char>,
) -> bool {
    let spaced = before + line + after;
    &&& blank(before)
    &&& blank(after)
    &&& touched == spaced || {
        &&& spaced.len() > 0 ==> spaced.last() != '/'
        &&& touched == spaced + "//"@ + comment
    }
}

/// `touched` is `line` with whitespace around it and perhaps a comment behind it.
pub open spec fn same_but_for_noise(line: Seq<char>, touched: Seq<char>) -> bool {
    exists|before: Seq<char>, after: Seq<char>, comment: Seq<char>|
        noise_added(line, touched, before, after, comment)
}

/// Whitespace around the lines of a source and comments behind them make no
/// difference to its outline.
pub proof fn noise_is_ignored(a: Seq<char>, b: Seq<char>)
    requires
        lines_of(a).len() == lines_of(b).len(),
        forall|i: int|
            0 <= i < lines_of(a).len() ==> same_but_for_noise(
                #[trigger] lines_of(a)[i],
                lines_of(b)[i],
            ),
    ensures
        code_lines(a) == code_lines(b),
        outline(code_lines(a)) == outline(code_lines(b)),
{
    assert forall|i: int| 0 <= i < lines_of(a).len() implies code_text(#[trigger] lines_of(a)[i])
        == code_text(lines_of(b)[i]) by {
        lemma_noise(lines_of(a)[i], lines_of(b)[i]);
    }
    assert(code_lines(a) == code_lines(b));
}

proof fn lemma_noise(line: Seq<char>, touched: Seq<char>)
    requires
        same_but_for_noise(line, touched),
    ensures
        code_text(touched) == code_text(line),
{
    let (before, after, comment) = choose|
        before: Seq<char>,
        after: Seq<char>,
        comment: Seq<char>,
    | noise_added(line, touched, before, after, comment);
    indentation_is_ignored(before, line, after);
    if touched != before + line + after {
        comments_are_ignored(before + line + after, comment);
    }
}

proof fn lemma_fold_keeps_whitespace(c: char)
    ensures
        whitespace(fold_char(c)) == whitespace(c),
{
}

proof fn lemma_fold_words(s: Seq<char>)
    ensures
        trimmed_start(folded(s)) == folded(trimmed_start(s)),
        word_len(folded(s)) == word_len(s),
        word_len(s) <= s.len(),
    decreases s.len(),
{
    if s.len() > 0 {
        lemma_fold_keeps_whitespace(s[0]);
        lemma_fold_words(s.skip(1));
        assert(folded(s).skip(1) == folded(s.skip(1)));
    }
}

proof fn lemma_fold_first_word(s: Seq<char>)
    ensures
        first_word(folded(s)) == folded(first_word(s)),
        after_first_word(folded(s)) == folded(after_first_word(s)),
{
    let t = trimmed_start(s);
    let n = word_len(t) as int;
    lemma_fold_words(s);
    lemma_fold_words(t);
    assert(folded(t).take(n) == folded(t.take(n)));
    assert(folded(t).skip(n) == folded(t.skip(n)));
}

/// Upper and lower case make no difference to what a line declares.
pub proof fn keywords_count_in_any_case(a: Seq<char>, b: Seq<char>)
    requires
        folded(a) == folded(b),
    ensures
        declaration(a) == declaration(b),
{
    lemma_fold_first_word(a);
    lemma_fold_first_word(b);
    lemma_fold_first_word(after_first_word(a));
    lemma_fold_first_word(after_first_word(b));
}

proof fn lemma_word_len_of(word: Seq<char>, rest: Seq<char>)
    requires
        forall|i: int| 0 <= i < word.len() ==> !whitespace(#[trigger] word[i]),
        rest.len() > 0 ==> whitespace(rest[0]),
    ensures
        word_len(word + rest) == word.len(),
    decreases word.len(),
{
    let all = word + rest;
    if word.len() == 0 {
        assert(all == rest);
    } else {
        let short = word.skip(1);
        assert forall|i: int| 0 <= i < short.len() implies !whitespace(#[trigger] short[i]) by {
            assert(!whitespace(word[i + 1]));
        }
        lemma_word_len_of(short, rest);
        assert(all.skip(1) == short + rest);
        assert(!whitespace(all[0]));
    }
}

/// The first word of a line that starts with it.
pub(crate) proof fn lemma_first_word_of(word: Seq<char>, rest: Seq<char>)
    requires
        word.len() > 0,
        forall|i: int| 0 <= i < word.len() ==> !whitespace(#[trigger] word[i]),
        rest.len() > 0 ==> whitespace(rest[0]),
    ensures
        first_word(word + rest) == word,
        after_first_word(word + rest) == rest,
{
    let all = word + rest;
    lemma_word_len_of(word, rest);
    assert(!whitespace(word[0]));
    assert(trimmed_start(all) == all);
    assert(all.take(word.len() as int) == word);
    assert(all.skip(word.len() as int) == rest);
}

proof fn lemma_folds_to_word(head: Seq<char>, word: Seq<char>)
    requires
        folded(head) == word,
        forall|i: int| 0 <= i < word.len() ==> !whitespace(#[trigger] word[i]),
    ensures
        head.len() == word.len(),
        forall|i: int| 0 <= i < head.len() ==> !whitespace(#[trigger] head[i]),
{
    assert forall|i: int| 0 <= i < head.len() implies !whitespace(#[trigger] head[i]) by {
        assert(word[i] == fold_char(head[i]));
        lemma_fold_keeps_whitespace(head[i]);
    }
}

/// A declaration that is marked `internal`, in any case, declares what it declares
/// without the mark.
pub proof fn internal_makes_no_difference(mark: Seq<char>, gap: Seq<char>, text: Seq<char>)
    requires
        folded(mark) == "internal"@,
        gap.len() > 0,
        blank(gap),
        folded(first_word(text)) != "internal"@,
    ensures
        declaration(mark + gap + text) == declaration(text),
{
    reveal_strlit("internal");
    let word = "internal"@;
    let rest = gap + text;
    assert(mark + gap + text == mark + rest);
    assert(word.len() == 8);
    assert forall|i: int| 0 <= i < word.len() implies !whitespace(#[trigger] word[i]) by {
    }
    lemma_folds_to_word(mark, word);
    assert(whitespace(rest[0])) by {
        assert(whitespace(gap[0]));
    }
    lemma_first_word_of(mark, rest);
    lemma_trimmed_start_skips(gap, text);
    assert(first_word(rest) == first_word(text));
}

proof fn lemma_keywords_are_words(kind: Declaration)
    ensures
        kind.keyword().len() > 0,
        is_ascii_chars(kind.keyword()),
        folded(kind.keyword()) == kind.keyword(),
        kind.keyword() != "internal"@,
        forall|i: int| 0 <= i < kind.keyword().len() ==> !whitespace(#[trigger] kind.keyword()[i]),
{
    reveal_strlit("internal");
    reveal_strlit("namespace");
    reveal_strlit("operation");
    reveal_strlit("function");
    reveal_strlit("newtype");
    let word = kind.keyword();
    assert("internal"@.len() == 8 && "internal"@[0] == 'i');
    assert("namespace"@.len() == 9 && "operation"@.len() == 9);
    assert("function"@.len() == 8 && "function"@[0] == 'f' && "newtype"@.len() == 7);
    assert forall|i: int| 0 <= i < word.len() implies !whitespace(#[trigger] word[i])
        && fold_char(word[i]) == word[i] by {
    }
    assert(folded(word) == word);
}

/// A declared name holds no character that ends a name, unless it stands for a
/// missing one.
pub proof fn declared_names_are_tokens(text: Seq<char>, keyword: Seq<char>, i: int)
    requires
        0 <= i < name_behind(text, keyword).len(),
        name_behind(text, keyword) != anonymous(),
    ensures
        !ends_name(name_behind(text, keyword)[i]),
{
    if let Some(at) = behind_keyword(text, keyword) {
        lemma_name_len_stops(trimmed_start(text.skip(at)));
    }
}

proof fn lemma_name_len_stops(s: Seq<char>)
    ensures
        name_len(s) <= s.len(),
        forall|i: int| 0 <= i < name_len(s) ==> !ends_name(#[trigger] s[i]),
    decreases s.len(),
{
    if s.len() > 0 && !ends_name(s[0]) {
        let rest = s.skip(1);
        lemma_name_len_stops(rest);
        assert forall|i: int| 0 <= i < name_len(s) implies !ends_name(#[trigger] s[i]) by {
            if i > 0 {
                assert(!ends_name(rest[i - 1]));
            }
        }
    }
}

proof fn lemma_name_len_of(name: Seq<char>, rest: Seq<char>)
    requires
        forall|i: int| 0 <= i < name.len() ==> !ends_name(#[trigger] name[i]),
        rest.len() > 0 ==> ends_name(rest[0]),
    ensures
        name_len(name + rest) == name.len(),
    decreases name.len(),
{
    let all = name + rest;
    if name.len() == 0 {
        assert(all == rest);
    } else {
        let short = name.skip(1);
        assert forall|i: int| 0 <= i < short.len() implies !ends_name(#[trigger] short[i]) by {
            assert(!ends_name(name[i + 1]));
        }
        lemma_name_len_of(short, rest);
        assert(all.skip(1) == short + rest);
        assert(!ends_name(all[0]));
    }
}

/// The name is what follows the first place of the keyword, behind any whitespace,
/// up to a character that ends a name. Here `head` is the line up to the end of
/// the keyword.
pub proof fn names_follow_the_keyword(
    head: Seq<char>,
    gap: Seq<char>,
    name: Seq<char>,
    rest: Seq<char>,
    keyword: Seq<char>,
)
    requires
        behind_keyword(head + gap + name + rest, keyword) == Some(head.len() as int),
        blank(gap),
        name.len() > 0,
        forall|i: int| 0 <= i < name.len() ==> !ends_name(#[trigger] name[i]),
        rest.len() > 0 ==> ends_name(rest[0]),
    ensures
        name_behind(head + gap + name + rest, keyword) == name,
{
    let text = head + gap + name + rest;
    let token = name + rest;
    assert(text.skip(head.len() as int) == gap + token);
    lemma_trimmed_start_skips(gap, token);
    assert(!ends_name(name[0]));
    assert(token[0] == name[0]);
    assert(trimmed_start(token) == token);
    lemma_name_len_of(name, rest);
    assert(token.take(name.len() as int) == name);
}

/// What folds to an ASCII keyword is one.
proof fn lemma_head_stands(head: Seq<char>, text: Seq<char>, keyword: Seq<char>, at: int)
    requires
        folded(head) == keyword,
        folded(keyword) == keyword,
        is_ascii_chars(keyword),
        0 <= at,
        at + head.len() <= text.len(),
        text.subrange(at, at + head.len()) == head,
    ensures
        stands_at(text, keyword, at),
{
    assert(head.len() == folded(head).len());
    assert forall|k: int| 0 <= k < keyword.len() implies fold_char(#[trigger] keyword[k]) == (if k
        == keyword.len() - 1 {
        lower_start(text[at + k])
    } else {
        fold_char(text[at + k])
    }) by {
        assert(text.subrange(at, at + head.len())[k] == text[at + k]);
        assert(folded(head)[k] == fold_char(head[k]));
        assert(folded(keyword)[k] == fold_char(keyword[k]));
        assert(keyword[k] != '\u{130}');
    }
}

/// A line that starts with a keyword, in upper or lower case, and whitespace
/// declares something of its kind, under the name that follows.
pub proof fn lines_declare_what_follows(
    head: Seq<char>,
    gap: Seq<char>,
    name: Seq<char>,
    rest: Seq<char>,
    kind: Declaration,
)
    requires
        folded(head) == kind.keyword(),
        gap.len() > 0,
        blank(gap),
        name.len() > 0,
        forall|i: int| 0 <= i < name.len() ==> !ends_name(#[trigger] name[i]),
        rest.len() > 0 ==> ends_name(rest[0]),
    ensures
        declaration(head + gap + name + rest) == Some(kind),
        name_behind(head + gap + name + rest, kind.keyword()) == name,
{
    let text = head + gap + name + rest;
    let tail = gap + name + rest;
    let keyword = kind.keyword();
    let n = head.len() as int;
    lemma_keywords_are_words(kind);
    lemma_folds_to_word(head, keyword);
    assert(text == head + tail);
    assert(whitespace(tail[0])) by {
        assert(whitespace(gap[0]));
    }
    lemma_first_word_of(head, tail);
    lemma_type_names();
    assert(text.subrange(0, n) == head);
    lemma_head_stands(head, text, keyword, 0);
    the_first_keyword_counts(text, keyword);
    names_follow_the_keyword(head, gap, name, rest, keyword);
}

/// A declaration that is marked `internal`, in any case, declares something of its
/// kind under the name that follows the keyword.
#[verifier::rlimit(40)]
pub proof fn internal_declarations_keep_their_names(
    mark: Seq<char>,
    space: Seq<char>,
    head: Seq<char>,
    gap: Seq<char>,
    name: Seq<char>,
    rest: Seq<char>,
    kind: Declaration,
)
    requires
        folded(mark) == "internal"@,
        space.len() > 0,
        blank(space),
        folded(head) == kind.keyword(),
        gap.len() > 0,
        blank(gap),
        name.len() > 0,
        forall|i: int| 0 <= i < name.len() ==> !ends_name(#[trigger] name[i]),
        rest.len() > 0 ==> ends_name(rest[0]),
    ensures
        declaration(mark + space + (head + gap + name + rest)) == Some(kind),
        name_behind(mark + space + (head + gap + name + rest), kind.keyword()) == name,
{
    let text = head + gap + name + rest;
    let full = mark + space + text;
    let keyword = kind.keyword();
    let at = (mark + space).len() as int;
    let n = head.len() as int;
    lemma_keywords_are_words(kind);
    lemma_folds_to_word(head, keyword);
    lines_declare_what_follows(head, gap, name, rest, kind);
    assert(folded(first_word(text)) == keyword) by {
        let tail = gap + name + rest;
        assert(text == head + tail);
        assert(whitespace(tail[0])) by {
            assert(whitespace(gap[0]));
        }
        lemma_first_word_of(head, tail);
    }
    internal_makes_no_difference(mark, space, text);
    // The keyword stands behind the mark, and nowhere before.
    assert(full.subrange(at, at + n) == head);
    lemma_head_stands(head, full, keyword, at);
    assert forall|j: int| 0 <= j < at implies !stands_at(full, keyword, j) by {
        lemma_not_in_mark(mark, space, text, kind, j);
    }
    the_first_keyword_counts(full, keyword);
    assert(full == mark + space + head + gap + name + rest);
    names_follow_the_keyword(mark + space + head, gap, name, rest, keyword);
}

/// No keyword stands in the mark `internal` or in the whitespace behind it.
proof fn lemma_not_in_mark(
    mark: Seq<char>,
    space: Seq<char>,
    text: Seq<char>,
    kind: Declaration,
    j: int,
)
    requires
        folded(mark) == "internal"@,
        blank(space),
        0 <= j < mark.len() + space.len(),
    ensures
        !stands_at(mark + space + text, kind.keyword(), j),
{
    let full = mark + space + text;
    let keyword = kind.keyword();
    lemma_keyword_letters(kind);
    assert(mark.len() == 8) by {
        reveal_strlit("internal");
        assert(folded(mark).len() == 8);
    }
    if stands_at(full, keyword, j) {
        assert(fold_char(keyword[0]) == fold_char(full[j]));
        assert(fold_char(keyword[1]) == fold_char(full[j + 1]));
        assert(fold_char(keyword[2]) == fold_char(full[j + 2]));
        if j < 8 {
            lemma_mark_letters(mark, j);
            assert(full[j] == mark[j]);
            if j < 7 {
                assert(full[j + 1] == mark[j + 1]);
            }
            if j < 6 {
                assert(full[j + 2] == mark[j + 2]);
            }
        } else {
            assert(full[j] == space[j - 8]);
            assert(whitespace(space[j - 8]));
            lemma_fold_keeps_whitespace(full[j]);
        }
    }
}

proof fn lemma_keyword_letters(kind: Declaration)
    ensures
        ({
            let k = kind.keyword();
            &&& k.len() >= 7
            &&& k[0] == 'n' && k[1] == 'a' && k[2] == 'm' || k[0] == 'n' && k[1] == 'e' || k[0]
                == 'o' || k[0] == 'f'
        }),
{
    reveal_strlit("namespace");
    reveal_strlit("operation");
    reveal_strlit("function");
    reveal_strlit("newtype");
}

proof fn lemma_mark_letters(mark: Seq<char>, j: int)
    requires
        folded(mark) == "internal"@,
        0 <= j < 8,
    ensures
        fold_char(mark[j]) != 'o' && fold_char(mark[j]) != 'f',
        fold_char(mark[j]) == 'n' ==> j == 1 && fold_char(mark[2]) == 't' || j == 5 && fold_char(
            mark[6],
        ) == 'a' && fold_char(mark[7]) == 'l',
{
    reveal_strlit("internal");
    let word = "internal"@;
    assert(word[0] == 'i' && word[1] == 'n' && word[2] == 't' && word[3] == 'e');
    assert(word[4] == 'r' && word[5] == 'n' && word[6] == 'a' && word[7] == 'l');
    assert(word.len() == 8);
    assert(folded(mark)[j] == fold_char(mark[j]));
    assert(folded(mark)[2] == fold_char(mark[2]));
    assert(folded(mark)[6] == fold_char(mark[6]) && folded(mark)[7] == fold_char(mark[7]));
}

/// A file is a Q# file if its name ends in `.qs`, in upper or lower case, and no
/// other is.
pub proof fn extension_counts_in_any_case(filename: Seq<char>)
    ensures
        language_for(filename) == "qsharp"@ <==> {
            let n = filename.len();
            &&& n >= 3
            &&& filename[n - 3] == '.'
            &&& filename[n - 2] == 'q' || filename[n - 2] == 'Q'
            &&& filename[n - 1] == 's' || filename[n - 1] == 'S'
        },
        language_for(filename) == "qsharp"@ || language_for(filename) == Seq::<char>::empty(),
{
    reveal_strlit(".qs");
    reveal_strlit("qsharp");
    let lower = folded(filename);
    let n = filename.len();
    assert(".qs"@.len() == 3 && ".qs"@[0] == '.' && ".qs"@[1] == 'q' && ".qs"@[2] == 's');
    assert("qsharp"@.len() == 6);
    if n >= 3 {
        let end = lower.skip(n - 3);
        assert(end[0] == lower[n - 3] && end[1] == lower[n - 2] && end[2] == lower[n - 1]);
        if lower[n - 3] == '.' && lower[n - 2] == 'q' && lower[n - 1] == 's' {
            assert(end == ".qs"@);
        }
    }
}

/// The lower case of an ASCII letter; any other character itself.
pub open spec fn ascii_lower(c: char) -> char {
    if 'A' <= c && c <= 'Z' {
        (c as u32 + 32) as char
    } else {
        c
    }
}

/// `a` and `b` differ in the case of ASCII letters at most.
pub open spec fn same_ignoring_ascii_case(a: Seq<char>, b: Seq<char>) -> bool {
    &&& a.len() == b.len()
    &&& forall|i: int| 0 <= i < a.len() ==> ascii_lower(#[trigger] a[i]) == ascii_lower(b[i])
}

/// File names that differ in the case of ASCII letters at most have the same
/// language.
pub proof fn letter_case_of_names_is_ignored(a: Seq<char>, b: Seq<char>)
    requires
        same_ignoring_ascii_case(a, b),
    ensures
        language_for(a) == language_for(b),
{
    assert forall|i: int| 0 <= i < a.len() implies folded(a)[i] == folded(b)[i] by {
        assert(ascii_lower(a[i]) == ascii_lower(b[i]));
    }
    assert(folded(a) == folded(b));
}

} // verus!
