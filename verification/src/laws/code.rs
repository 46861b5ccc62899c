//! The code of a line, and the label that a statement gets from it.

use crate::laws::lines::comments_are_ignored;
use crate::laws::text::{
    only_that_character_is_trimmed, the_first_place_is_found, trimming_leaves_the_core,
};
use crate::outline::{brace, code_text, statement_text, worth_a_node};
use crate::parser::code_lines;
use crate::text::{
    found, lemma_trimmed_end_cuts, lemma_trimmed_start_cuts, lines_of, trimmed, trimmed_end, trimmed_end_of,
    trimmed_start, whitespace,
};
use vstd::prelude::*;

verus! {

/// A line without two slashes in a row keeps all that stands between the
/// whitespace around it, single slashes too.
pub proof fn single_slashes_start_no_comment(line: Seq<char>)
    requires
        forall|i: int| 0 <= i < line.len() - 1 ==> !((#[trigger] line[i]) == '/' && line[i + 1]
            == '/'),
    ensures
        code_text(line) == trimmed(line),
{
    let t = trimmed(line);
    let u = trimmed_start(line);
    reveal_strlit("//");
    lemma_trimmed_start_cuts(line);
    lemma_trimmed_end_cuts(u);
    the_first_place_is_found(t, "//"@);
    if let Some(p) = found(t, "//"@) {
        let at = line.len() - u.len() + p;
        assert(t.subrange(p, p + 2)[0] == '/' && t.subrange(p, p + 2)[1] == '/');
        assert(t[p] == u[p] && t[p + 1] == u[p + 1]);
        assert(u[p] == line[at] && u[p + 1] == line[at + 1]);
    }
}

/// The first two slashes in a row start the comment: the code is what stands before
/// them, without the whitespace around it.
pub proof fn two_slashes_start_the_comment(line: Seq<char>, at: int)
    requires
        0 <= at < line.len() - 1,
        line[at] == '/' && line[at + 1] == '/',
        forall|i: int| 0 <= i < at ==> !((#[trigger] line[i]) == '/' && line[i + 1] == '/'),
    ensures
        code_text(line) == trimmed(line.take(at)),
{
    let front = line.take(at);
    reveal_strlit("//");
    assert(line == front + "//"@ + line.skip(at + 2));
    if front.len() > 0 {
        assert(front.last() == line[at - 1]);
    }
    comments_are_ignored(front, line.skip(at + 2));
    assert forall|i: int| 0 <= i < front.len() - 1 implies !((#[trigger] front[i]) == '/' && front[i
        + 1] == '/') by {
        assert(front[i] == line[i] && front[i + 1] == line[i + 1]);
    }
    single_slashes_start_no_comment(front);
}

/// The label of a statement is the line without the semicolons at its end and
/// without the whitespace on either side of what is left, and nothing else is cut.
pub proof fn labels_lose_semicolons_and_whitespace_only(
    before: Seq<char>,
    label: Seq<char>,
    after: Seq<char>,
    semicolons: Seq<char>,
)
    requires
        forall|i: int| 0 <= i < before.len() ==> whitespace(#[trigger] before[i]),
        label.len() > 0 ==> !whitespace(label[0]) && !whitespace(label.last()),
        forall|i: int| 0 <= i < after.len() ==> whitespace(#[trigger] after[i]),
        label.len() > 0 && after.len() == 0 ==> label.last() != ';',
        forall|i: int| 0 <= i < semicolons.len() ==> (#[trigger] semicolons[i]) == ';',
    ensures
        statement_text(before + label + after + semicolons) == label,
{
    let spaced = before + label + after;
    assert(spaced.len() > 0 ==> spaced.last() != ';') by {
        if after.len() > 0 {
            assert(spaced.last() == after.last());
            assert(whitespace(after.last()));
        } else if label.len() > 0 {
            assert(spaced.last() == label.last());
        } else if before.len() > 0 {
            assert(spaced.last() == before.last());
            assert(whitespace(before.last()));
        }
    }
    only_that_character_is_trimmed(spaced, semicolons, ';');
    trimming_leaves_the_core(before, label, after);
}

/// A line that ends in no semicolon is its own label.
pub proof fn lines_are_their_own_labels(text: Seq<char>)
    requires
        text.len() > 0,
        !whitespace(text[0]),
        !whitespace(text.last()),
        text.last() != ';',
    ensures
        statement_text(text) == text,
{
    let none = Seq::<char>::empty();
    labels_lose_semicolons_and_whitespace_only(none, text, none, none);
    assert(none + text + none + none == text);
}

/// A line starts with its label, and behind the label stand semicolons and
/// whitespace alone.
pub proof fn lines_start_with_their_labels(text: Seq<char>)
    requires
        text.len() > 0,
        !whitespace(text[0]),
    ensures
        statement_text(text).len() <= text.len(),
        statement_text(text) == text.take(statement_text(text).len() as int),
        forall|i: int|
            statement_text(text).len() <= i < text.len() ==> (#[trigger] text[i]) == ';'
                || whitespace(text[i]),
{
    let bare = trimmed_end_of(text, ';');
    lemma_end_of_cuts(text, ';');
    let label = statement_text(text);
    if bare.len() > 0 {
        assert(bare[0] == text[0]);
        assert(trimmed_start(bare) == bare);
    }
    lemma_trimmed_end_cuts(bare);
    assert(label == trimmed_end(bare));
    assert(bare.take(label.len() as int) == text.take(label.len() as int));
    assert forall|i: int| label.len() <= i < text.len() implies (#[trigger] text[i]) == ';'
        || whitespace(text[i]) by {
        if i < bare.len() {
            assert(whitespace(bare[i]));
            assert(bare[i] == text[i]);
        }
    }
}

proof fn lemma_end_of_cuts(s: Seq<char>, c: char)
    ensures
        trimmed_end_of(s, c).len() <= s.len(),
        trimmed_end_of(s, c) == s.take(trimmed_end_of(s, c).len() as int),
        forall|i: int| trimmed_end_of(s, c).len() <= i < s.len() ==> (#[trigger] s[i]) == c,
    decreases s.len(),
{
    if s.len() > 0 && s.last() == c {
        let rest = s.drop_last();
        lemma_end_of_cuts(rest, c);
        let n = trimmed_end_of(rest, c).len() as int;
        assert(rest.take(n) == s.take(n));
        assert forall|i: int| n <= i < s.len() implies (#[trigger] s[i]) == c by {
            if i < s.len() - 1 {
                assert(rest[i] == c);
            }
        }
    } else {
        assert(s.take(s.len() as int) == s);
    }
}

/// Lines that end in no semicolon and differ have different labels.
pub proof fn different_lines_have_different_labels(a: Seq<char>, b: Seq<char>)
    requires
        a.len() > 0 && !whitespace(a[0]) && !whitespace(a.last()) && a.last() != ';',
        b.len() > 0 && !whitespace(b[0]) && !whitespace(b.last()) && b.last() != ';',
        a != b,
    ensures
        statement_text(a) != statement_text(b),
{
    lines_are_their_own_labels(a);
    lines_are_their_own_labels(b);
}

/// A statement is worth a node where it holds any character but the two braces.
pub proof fn only_braces_are_worth_no_node(stmt: Seq<char>)
    ensures
        worth_a_node(stmt) <==> !(forall|i: int|
            0 <= i < stmt.len() ==> (#[trigger] stmt[i]) == '{' || stmt[i] == '}'),
{
    if worth_a_node(stmt) {
        let i = choose|i: int| 0 <= i < stmt.len() && !brace(#[trigger] stmt[i]);
        assert(stmt[i] != '{' && stmt[i] != '}');
    }
    if !(forall|i: int|
        0 <= i < stmt.len() ==> (#[trigger] stmt[i]) == '{' || stmt[i] == '}') {
        let i = choose|i: int|
            0 <= i < stmt.len() && !((#[trigger] stmt[i]) == '{' || stmt[i] == '}');
        assert(!brace(stmt[i]));
    }
}

/// A line of whitespace holds no code.
pub proof fn whitespace_is_no_code(line: Seq<char>)
    requires
        forall|i: int| 0 <= i < line.len() ==> whitespace(#[trigger] line[i]),
    ensures
        code_text(line).len() == 0,
{
    let none = Seq::<char>::empty();
    assert forall|i: int| 0 <= i < line.len() - 1 implies !((#[trigger] line[i]) == '/' && line[i
        + 1] == '/') by {
        assert(whitespace(line[i]));
    }
    single_slashes_start_no_comment(line);
    trimming_leaves_the_core(line, none, none);
    assert(line + none + none == line);
}

/// Every line of a source has its code, in the order of the lines.
pub proof fn every_line_has_its_code(source: Seq<char>, i: int)
    requires
        0 <= i < lines_of(source).len(),
    ensures
        code_lines(source).len() == lines_of(source).len(),
        code_lines(source)[i] == code_text(lines_of(source)[i]),
{
}

} // verus!
