//! An edit inside a string shows in the outline.

use crate::laws::lines::lines_declare_what_follows;
use crate::lowercase::{fold_char, folded};
use crate::name::name_behind;
use crate::node::{block_view, leaf_view, NodeView};
use crate::outline::{
    after_lines, brace, code_text, declaration, outline, statement_text, worth_a_node,
    Declaration, FrameView, OutlineView,
};
use crate::parser::code_lines;
use crate::text::{
    child_id, decimal, first_word, found, lemma_found_is_first, line_len, lines_of, occurrences,
    trimmed, trimmed_end_of, trimmed_start, whitespace, without_carriage_return, word_len,
};
use vstd::prelude::*;

verus! {

/// A source with one operation, which sends the message `x`.
pub open spec fn message_source(x: Seq<char>) -> Seq<char> {
    "operation F() : Unit {\nMessage(\""@ + x + "\");\n}"@
}

/// `x` holds no line feed, no slash and no brace.
pub open spec fn plain(x: Seq<char>) -> bool {
    forall|i: int|
        0 <= i < x.len() ==> (#[trigger] x[i]) != '\n' && x[i] != '/' && !brace(x[i])
}

/// The outline of [`message_source`]: the operation, over all three lines, with
/// the statement on the second line as its only child.
pub open spec fn message_outline(x: Seq<char>) -> NodeView {
    let statement = leaf_view("0.0.0"@, "qs_statement"@, "Message(\""@ + x + "\")"@, 1);
    let operation = block_view("0.0"@, "operation"@, "F"@, 0, 2, seq![statement]);
    block_view("0"@, "compilation_unit"@, "compilation_unit"@, 0, 2, seq![operation])
}

proof fn lemma_line_len_of(line: Seq<char>, rest: Seq<char>)
    requires
        forall|i: int| 0 <= i < line.len() ==> (#[trigger] line[i]) != '\n',
    ensures
        line_len(line + seq!['\n'] + rest) == line.len(),
        line_len(line) == line.len(),
    decreases line.len(),
{
    let all = line + seq!['\n'] + rest;
    if line.len() > 0 {
        let short = line.skip(1);
        assert forall|i: int| 0 <= i < short.len() implies (#[trigger] short[i]) != '\n' by {
            assert(line[i + 1] != '\n');
        }
        lemma_line_len_of(short, rest);
        assert(all.skip(1) == short + seq!['\n'] + rest);
        assert(all[0] == line[0]);
    } else {
        assert(all[0] == '\n');
    }
}

proof fn lemma_first_line(line: Seq<char>, rest: Seq<char>)
    requires
        forall|i: int| 0 <= i < line.len() ==> (#[trigger] line[i]) != '\n',
    ensures
        lines_of(line + seq!['\n'] + rest) == seq![without_carriage_return(line)] + lines_of(rest),
{
    let all = line + seq!['\n'] + rest;
    let n = line.len() as int;
    lemma_line_len_of(line, rest);
    assert(all.take(n) == line);
    assert(all.skip(n + 1) == rest);
}

proof fn lemma_untrimmed(s: Seq<char>)
    requires
        s.len() > 0,
        !whitespace(s[0]),
        !whitespace(s.last()),
    ensures
        trimmed(s) == s,
{
}

proof fn lemma_code_is_the_line(line: Seq<char>)
    requires
        line.len() > 0,
        !whitespace(line[0]),
        !whitespace(line.last()),
        forall|i: int| 0 <= i < line.len() ==> (#[trigger] line[i]) != '/',
    ensures
        code_text(line) == line,
{
    reveal_strlit("//");
    lemma_untrimmed(line);
    lemma_found_is_first(line, "//"@);
    if let Some(i) = found(line, "//"@) {
        assert(line.subrange(i, i + 2)[0] == line[i]);
        assert("//"@[0] == '/');
    }
}

proof fn lemma_no_occurrences(s: Seq<char>, c: char)
    requires
        forall|i: int| 0 <= i < s.len() ==> (#[trigger] s[i]) != c,
    ensures
        occurrences(s, c) == 0,
    decreases s.len(),
{
    if s.len() > 0 {
        let short = s.drop_last();
        assert forall|i: int| 0 <= i < short.len() implies (#[trigger] short[i]) != c by {
            assert(s[i] != c);
        }
        lemma_no_occurrences(short, c);
    }
}

proof fn lemma_word_len_bound(s: Seq<char>)
    ensures
        word_len(s) <= s.len(),
    decreases s.len(),
{
    if s.len() > 0 && !whitespace(s[0]) {
        lemma_word_len_bound(s.skip(1));
    }
}

/// A line that starts with none of the letters that keywords start with.
proof fn lemma_declares_nothing(line: Seq<char>)
    requires
        line.len() > 0,
        !whitespace(line[0]),
        fold_char(line[0]) != 'i',
        fold_char(line[0]) != 'n',
        fold_char(line[0]) != 'o',
        fold_char(line[0]) != 'f',
    ensures
        declaration(line) is None,
{
    lemma_word_len_bound(line);
    assert(trimmed_start(line) == line);
    assert(word_len(line) >= 1);
    assert(folded(first_word(line))[0] == fold_char(line[0]));
    reveal_strlit("internal");
    reveal_strlit("namespace");
    reveal_strlit("operation");
    reveal_strlit("function");
    reveal_strlit("newtype");
    assert("internal"@[0] == 'i' && "namespace"@[0] == 'n' && "operation"@[0] == 'o');
    assert("function"@[0] == 'f' && "newtype"@[0] == 'n');
}

proof fn lemma_message_line(x: Seq<char>)
    requires
        plain(x),
    ensures
        ({
            let line = "Message(\""@ + x + "\");"@;
            &&& code_text(line) == line
            &&& declaration(line) is None
            &&& statement_text(line) == "Message(\""@ + x + "\")"@
            &&& worth_a_node(statement_text(line))
            &&& occurrences(line, '{') == 0
            &&& occurrences(line, '}') == 0
            &&& without_carriage_return(line) == line
            &&& forall|i: int| 0 <= i < line.len() ==> (#[trigger] line[i]) != '\n'
        }),
{
    let line = "Message(\""@ + x + "\");"@;
    let statement = "Message(\""@ + x + "\")"@;
    reveal_strlit("Message(\"");
    reveal_strlit("\");");
    reveal_strlit("\")");
    assert("Message(\""@.len() == 9 && "\");"@.len() == 3 && "\")"@.len() == 2);
    assert(line == statement.push(';'));
    assert forall|i: int| 0 <= i < line.len() implies (#[trigger] line[i]) != '\n' && line[i] != '/'
        && line[i] != '{' && line[i] != '}' by {
        if i < 9 {
            assert(line[i] == "Message(\""@[i]);
        } else if i < 9 + x.len() {
            assert(line[i] == x[i - 9]);
        } else {
            assert(line[i] == "\");"@[i - 9 - x.len()]);
        }
    }
    assert(line[0] == 'M' && statement[0] == 'M');
    assert(line.last() == ';' && statement.last() == ')');
    lemma_code_is_the_line(line);
    lemma_no_occurrences(line, '{');
    lemma_no_occurrences(line, '}');
    assert(line.drop_last() == statement);
    assert(trimmed_end_of(statement, ';') == statement);
    lemma_untrimmed(statement);
    assert(!brace(statement[0]));
    lemma_declares_nothing(line);
}

proof fn lemma_head_line()
    ensures
        ({
            let line = "operation F() : Unit {"@;
            &&& code_text(line) == line
            &&& declaration(line) == Some(Declaration::Operation)
            &&& name_behind(line, "operation"@) == "F"@
            &&& occurrences(line, '{') == 1
            &&& occurrences(line, '}') == 0
            &&& without_carriage_return(line) == line
            &&& line.len() == 22
            &&& forall|i: int| 0 <= i < line.len() ==> (#[trigger] line[i]) != '\n'
        }),
{
    let line = "operation F() : Unit {"@;
    reveal_strlit("operation F() : Unit {");
    reveal_strlit("operation");
    reveal_strlit(" ");
    reveal_strlit("F");
    reveal_strlit("() : Unit {");
    assert(line.len() == 22);
    assert forall|i: int| 0 <= i < line.len() implies (#[trigger] line[i]) != '\n' && line[i] != '/'
        && line[i] != '}' && (i < 21 ==> line[i] != '{') by {
    }
    lemma_code_is_the_line(line);
    lemma_no_occurrences(line, '}');
    lemma_no_occurrences(line.drop_last(), '{');
    assert(line == "operation"@ + " "@ + "F"@ + "() : Unit {"@);
    assert(folded("operation"@) == "operation"@);
    lines_declare_what_follows(
        "operation"@,
        " "@,
        "F"@,
        "() : Unit {"@,
        Declaration::Operation,
    );
}

proof fn lemma_last_line()
    ensures
        code_text("}"@) == "}"@,
        lines_of("}"@) == seq!["}"@],
        declaration("}"@) is None,
        !worth_a_node(statement_text("}"@)),
        occurrences("}"@, '{') == 0,
        occurrences("}"@, '}') == 1,
        "}"@.len() == 1,
{
    let line = "}"@;
    reveal_strlit("}");
    assert(line.len() == 1 && line[0] == '}');
    lemma_code_is_the_line(line);
    lemma_line_len_of(line, seq![]);
    assert(line.drop_last() == Seq::<char>::empty());
    lemma_no_occurrences(line, '{');
    lemma_no_occurrences(line.drop_last(), '}');
    lemma_untrimmed(line);
    lemma_declares_nothing(line);
}

proof fn lemma_message_code(x: Seq<char>)
    requires
        plain(x),
    ensures
        code_lines(message_source(x)) == seq![
            "operation F() : Unit {"@,
            "Message(\""@ + x + "\");"@,
            "}"@,
        ],
{
    let first = "operation F() : Unit {"@;
    let second = "Message(\""@ + x + "\");"@;
    let third = "}"@;
    lemma_head_line();
    lemma_message_line(x);
    lemma_last_line();
    let rest = second + seq!['\n'] + third;
    assert(message_source(x) == first + seq!['\n'] + rest) by {
        reveal_strlit("operation F() : Unit {\nMessage(\"");
        reveal_strlit("operation F() : Unit {");
        reveal_strlit("Message(\"");
        reveal_strlit("\");\n}");
        reveal_strlit("\");");
        reveal_strlit("}");
        assert("operation F() : Unit {\nMessage(\""@ == first + seq!['\n'] + "Message(\""@);
        assert("\");\n}"@ == "\");"@ + seq!['\n'] + third);
    }
    lemma_first_line(first, rest);
    lemma_first_line(second, third);
    assert(lines_of(message_source(x)) == seq![first, second, third]);
}

/// A message in an operation becomes a statement of the operation, the only one,
/// with its text as it stands in the source but for the semicolon.
pub proof fn messages_become_statements(x: Seq<char>)
    requires
        plain(x),
    ensures
        outline(code_lines(message_source(x))) == message_outline(x),
{
    let texts = code_lines(message_source(x));
    lemma_message_code(x);
    lemma_head_line();
    lemma_message_line(x);
    lemma_last_line();
    let id = "0.0"@;
    let child = "0.0.0"@;
    assert(child_id("0"@, 0) == id && child_id(id, 0) == child) by {
        reveal_strlit("0");
        reveal_strlit("0.0");
        reveal_strlit("0.0.0");
        assert(decimal(0) == seq!['0']);
    }
    let start = OutlineView::start();
    let frame = FrameView {
        id,
        node_type: "operation"@,
        label: "F"@,
        start_line: 0,
        close_depth: 0,
        children: seq![],
    };
    let opened = OutlineView { root: seq![], stack: seq![frame], namespaces: 0, depth: 1 };
    assert(after_lines(texts, 0) == start);
    assert(start.step(texts[0], 0).stack == opened.stack);
    assert(after_lines(texts, 1) == opened);
    let statement = leaf_view(child, "qs_statement"@, "Message(\""@ + x + "\")"@, 1);
    let filled = FrameView { children: seq![statement], ..frame };
    let read = OutlineView { stack: seq![filled], ..opened };
    assert(opened.count_braces(texts[1], 1) == opened);
    assert(frame.with_child(statement).children == filled.children);
    assert(opened.step(texts[1], 1).stack == read.stack);
    assert(after_lines(texts, 2) == read);
    let operation = filled.closed_at(2);
    let closed = OutlineView { root: seq![operation], stack: seq![], namespaces: 0, depth: 0 };
    let lowered = OutlineView { depth: 0, ..read };
    assert(lowered.close_top(2).root == closed.root);
    assert(lowered.close_top(2).stack == closed.stack);
    assert(lowered.close_top(2).close_reached(2) == closed);
    assert(read.step(texts[2], 2) == closed);
    assert(after_lines(texts, 3) == closed);
    assert(closed.drained(2) == seq![operation]);
}

/// Different messages give different outlines.
pub proof fn message_edits_show(a: Seq<char>, b: Seq<char>)
    requires
        plain(a),
        plain(b),
        a != b,
    ensures
        outline(code_lines(message_source(a))) != outline(code_lines(message_source(b))),
{
    messages_become_statements(a);
    messages_become_statements(b);
    let front = "Message(\""@;
    let back = "\")"@;
    if message_outline(a) == message_outline(b) {
        let label_a = message_outline(a).children[0].children[0].label;
        let label_b = message_outline(b).children[0].children[0].label;
        assert(label_a == front + a + back && label_b == front + b + back);
        assert(a == label_a.subrange(front.len() as int, label_a.len() - back.len()));
        assert(b == label_b.subrange(front.len() as int, label_b.len() - back.len()));
    }
}

} // verus!
