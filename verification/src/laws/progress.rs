//! What one line does to the outline.

use crate::name::name_behind;
use crate::node::{block_view, leaf_view};
use crate::outline::{declaration, statement_text, worth_a_node, Declaration, OutlineView};
use crate::text::{child_id, occurrences};
use vstd::prelude::*;

verus! {

/// A line without code changes nothing.
pub proof fn empty_lines_change_nothing(s: OutlineView, line: u32)
    ensures
        s.step(seq![], line) == s,
{
}

proof fn lemma_close_reached(s: OutlineView, end: u32)
    ensures
        ({
            let t = s.close_reached(end);
            &&& t.depth == s.depth
            &&& t.stack.len() == 0 || t.stack.last().close_depth < t.depth
            &&& t.namespaces == s.namespaces
            &&& s.root.is_prefix_of(t.root)
        }),
    decreases s.stack.len(),
{
    if s.stack.len() > 0 && s.stack.last().close_depth >= s.depth {
        lemma_close_reached(s.close_top(end), end);
        assert(s.root.is_prefix_of(s.close_top(end).root));
    }
}

/// The braces of a line move the depth by their difference, and no declaration
/// stays innermost whose depth has been reached.
pub proof fn closing_stops_below_the_depth(s: OutlineView, text: Seq<char>, line: u32)
    ensures
        s.count_braces(text, line).depth == s.depth + occurrences(text, '{') - occurrences(
            text,
            '}',
        ),
        s.count_braces(text, line).stack.len() == 0 || s.count_braces(
            text,
            line,
        ).stack.last().close_depth < s.count_braces(text, line).depth,
{
    lemma_close_reached(
        OutlineView { depth: s.depth + occurrences(text, '{') - occurrences(text, '}'), ..s },
        line,
    );
}

/// A finished node at the top level stays as it is.
pub proof fn finished_nodes_stay(s: OutlineView, text: Seq<char>, line: u32)
    ensures
        s.root.is_prefix_of(s.step(text, line).root),
{
    if text.len() > 0 {
        lemma_close_reached(
            OutlineView { depth: s.depth + occurrences(text, '{') - occurrences(text, '}'), ..s },
            line,
        );
    }
}

/// A statement inside a declaration becomes the last child of the innermost one,
/// with its text as the label.
pub proof fn statements_are_kept(s: OutlineView, text: Seq<char>, line: u32)
    requires
        text.len() > 0,
        declaration(text) is None,
        worth_a_node(statement_text(text)),
        s.count_braces(text, line).stack.len() > 0,
    ensures
        ({
            let moved = s.count_braces(text, line);
            let t = s.step(text, line);
            &&& t.stack.len() == moved.stack.len()
            &&& t.stack.last().children == moved.stack.last().children.push(
                leaf_view(moved.next_id(), "qs_statement"@, statement_text(text), line),
            )
        }),
{
}

/// A declaration whose braces open and close on its own line is closed there: its
/// node, with the declared name and without children, is attached, and nothing
/// else is opened or closed behind the braces.
pub proof fn one_line_blocks_are_closed(
    s: OutlineView,
    text: Seq<char>,
    line: u32,
    kind: Declaration,
)
    requires
        declaration(text) == Some(kind),
        kind != Declaration::Newtype,
        occurrences(text, '{') > 0,
        occurrences(text, '{') <= occurrences(text, '}'),
    ensures
        ({
            let moved = s.count_braces(text, line);
            let namespaces = if kind == Declaration::Namespace {
                s.namespaces + 1
            } else {
                s.namespaces
            };
            let id = if kind == Declaration::Namespace {
                child_id("0"@, s.namespaces)
            } else {
                moved.next_id()
            };
            s.step(text, line) == (OutlineView { namespaces, ..moved }).attach(
                block_view(
                    id,
                    kind.keyword(),
                    name_behind(text, kind.keyword()),
                    line,
                    line,
                    seq![],
                ),
            )
        }),
{
    let moved = s.count_braces(text, line);
    lemma_close_reached(
        OutlineView { depth: s.depth + occurrences(text, '{') - occurrences(text, '}'), ..s },
        line,
    );
    let opened = moved.open_block(kind, name_behind(text, kind.keyword()), line, s.depth);
    assert(opened.stack.drop_last() == moved.stack);
}

/// A newtype is attached as a leaf with the declared name, whatever its braces.
pub proof fn newtypes_are_attached(s: OutlineView, text: Seq<char>, line: u32)
    requires
        text.len() > 0,
        declaration(text) == Some(Declaration::Newtype),
    ensures
        ({
            let moved = s.count_braces(text, line);
            s.step(text, line) == moved.attach(
                leaf_view(moved.next_id(), "newtype"@, name_behind(text, "newtype"@), line),
            )
        }),
{
}

/// A declaration with a body that the line leaves open is the innermost one from
/// then on, with the name that the line declares.
pub proof fn open_blocks_are_innermost(
    s: OutlineView,
    text: Seq<char>,
    line: u32,
    kind: Declaration,
)
    requires
        text.len() > 0,
        declaration(text) == Some(kind),
        kind != Declaration::Newtype,
        occurrences(text, '{') == 0 || occurrences(text, '{') > occurrences(text, '}'),
    ensures
        ({
            let t = s.step(text, line);
            &&& t.stack.len() == s.count_braces(text, line).stack.len() + 1
            &&& t.stack.last().node_type == kind.keyword()
            &&& t.stack.last().label == name_behind(text, kind.keyword())
            &&& t.stack.last().start_line == line
            &&& t.stack.last().close_depth == s.depth
            &&& t.stack.last().children.len() == 0
        }),
{
    lemma_close_reached(
        OutlineView { depth: s.depth + occurrences(text, '{') - occurrences(text, '}'), ..s },
        line,
    );
}

} // verus!
