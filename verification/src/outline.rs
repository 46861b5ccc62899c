//! From the lines of a source to its outline.
//!
//! The outline grows line by line. Declarations with a body open a frame; the
//! frame is closed, and its node handed to the frame below it, by the first line
//! that takes the brace depth down to the depth before the declaration.

use crate::lowercase::folded;
use crate::name::name_behind;
use crate::node::{block_node, block_view, leaf_view, node_views, NodeView, SemanticNode};
use crate::text::{
    after_first_word, child_id, first_word, found, occurrences, trimmed, trimmed_end_of,
};
use vstd::prelude::*;

verus! {

/// The kinds of declaration.
#[derive(Clone, Copy, Debug, PartialEq, Eq, Structural)]
pub enum Declaration {
    Namespace,
    Operation,
    Function,
    Newtype,
}

impl Declaration {
    /// The keyword that starts such a declaration, which is also the type of its
    /// node.
    pub open spec fn keyword(self) -> Seq<char> {
        match self {
            Declaration::Namespace => "namespace"@,
            Declaration::Operation => "operation"@,
            Declaration::Function => "function"@,
            Declaration::Newtype => "newtype"@,
        }
    }

    /// Gives [`Declaration::keyword`].
    pub fn as_str(self) -> (s: &'static str)
        ensures
            s@ == self.keyword(),
    {
        match self {
            Declaration::Namespace => "namespace",
            Declaration::Operation => "operation",
            Declaration::Function => "function",
            Declaration::Newtype => "newtype",
        }
    }
}

/// The code on a line: the line without its `//` comment and without the
/// whitespace around it.
pub open spec fn code_text(line: Seq<char>) -> Seq<char> {
    let t = trimmed(line);
    match found(t, "//"@) {
        Some(p) => trimmed(t.take(p)),
        None => t,
    }
}

/// The word of a line that may be a declaration keyword, in lower case: the
/// first, or the second behind `internal`.
pub open spec fn keyword_word(text: Seq<char>) -> Seq<char> {
    if folded(first_word(text)) == "internal"@ {
        folded(first_word(after_first_word(text)))
    } else {
        folded(first_word(text))
    }
}

/// What a line declares.
pub open spec fn declaration(text: Seq<char>) -> Option<Declaration> {
    let word = keyword_word(text);
    if word == Declaration::Namespace.keyword() {
        Some(Declaration::Namespace)
    } else if word == Declaration::Operation.keyword() {
        Some(Declaration::Operation)
    } else if word == Declaration::Function.keyword() {
        Some(Declaration::Function)
    } else if word == Declaration::Newtype.keyword() {
        Some(Declaration::Newtype)
    } else {
        None
    }
}

/// A line without whitespace and semicolons around it.
pub open spec fn statement_text(text: Seq<char>) -> Seq<char> {
    trimmed(trimmed_end_of(text, ';'))
}

/// `c` is a brace.
pub open spec fn brace(c: char) -> bool {
    c == '{' || c == '}'
}

/// `stmt` holds something else than braces.
pub open spec fn worth_a_node(stmt: Seq<char>) -> bool {
    exists|i: int| 0 <= i < stmt.len() && !brace(#[trigger] stmt[i])
}

/// What a [`QsFrame`] holds.
pub struct FrameView {
    pub id: Seq<char>,
    pub node_type: Seq<char>,
    pub label: Seq<char>,
    pub start_line: u32,
    pub close_depth: int,
    pub children: Seq<NodeView>,
}

impl FrameView {
    /// The node of the frame when it is closed on the line `end`.
    pub open spec fn closed_at(self, end: u32) -> NodeView {
        block_view(self.id, self.node_type, self.label, self.start_line, end, self.children)
    }

    /// The frame with one child more.
    pub open spec fn with_child(self, node: NodeView) -> FrameView {
        FrameView { children: self.children.push(node), ..self }
    }
}

/// How far an outline has come.
pub struct OutlineView {
    /// The finished nodes at the top level.
    pub root: Seq<NodeView>,
    /// The open declarations, innermost last.
    pub stack: Seq<FrameView>,
    /// How many namespaces were opened.
    pub namespaces: nat,
    /// How many more braces were opened than closed.
    pub depth: int,
}

impl OutlineView {
    /// Nothing read yet.
    pub open spec fn start() -> OutlineView {
        OutlineView { root: seq![], stack: seq![], namespaces: 0, depth: 0 }
    }

    /// `node` becomes the last child of the innermost open declaration, or the
    /// last node at the top level.
    pub open spec fn attach(self, node: NodeView) -> OutlineView {
        if self.stack.len() == 0 {
            OutlineView { root: self.root.push(node), ..self }
        } else {
            OutlineView {
                stack: self.stack.update(
                    self.stack.len() - 1,
                    self.stack.last().with_child(node),
                ),
                ..self
            }
        }
    }

    /// The innermost open declaration is closed on the line `end`.
    pub open spec fn close_top(self, end: u32) -> OutlineView {
        (OutlineView { stack: self.stack.drop_last(), ..self }).attach(
            self.stack.last().closed_at(end),
        )
    }

    /// The open declarations are closed, from the innermost on, as long as the
    /// depth is down to the one before the declaration.
    pub open spec fn close_reached(self, end: u32) -> OutlineView
        decreases self.stack.len(),
    {
        if self.stack.len() > 0 && self.stack.last().close_depth >= self.depth {
            self.close_top(end).close_reached(end)
        } else {
            self
        }
    }

    /// The id of the next child of the innermost open declaration.
    pub open spec fn next_id(self) -> Seq<char> {
        if self.stack.len() == 0 {
            child_id("0"@, 0)
        } else {
            child_id(self.stack.last().id, self.stack.last().children.len())
        }
    }

    /// A declaration with a body is opened. Namespaces are numbered through the
    /// source; the other declarations are numbered as children.
    pub open spec fn open_block(
        self,
        kind: Declaration,
        label: Seq<char>,
        line: u32,
        close_depth: int,
    ) -> OutlineView {
        let frame = FrameView {
            id: if kind == Declaration::Namespace {
                child_id("0"@, self.namespaces)
            } else {
                self.next_id()
            },
            node_type: kind.keyword(),
            label,
            start_line: line,
            close_depth,
            children: seq![],
        };
        OutlineView {
            stack: self.stack.push(frame),
            namespaces: if kind == Declaration::Namespace {
                self.namespaces + 1
            } else {
                self.namespaces
            },
            ..self
        }
    }

    /// A node without a body is added.
    pub open spec fn add_leaf(self, node_type: Seq<char>, label: Seq<char>, line: u32) -> OutlineView {
        self.attach(leaf_view(self.next_id(), node_type, label, line))
    }

    /// The braces of the line are counted, and what they close is closed.
    pub open spec fn count_braces(self, text: Seq<char>, line: u32) -> OutlineView {
        (OutlineView {
            depth: self.depth + occurrences(text, '{') - occurrences(text, '}'),
            ..self
        }).close_reached(line)
    }

    /// The line with the code `text` is read.
    pub open spec fn step(self, text: Seq<char>, line: u32) -> OutlineView {
        if text.len() == 0 {
            self
        } else {
            let moved = self.count_braces(text, line);
            match declaration(text) {
                Some(Declaration::Newtype) => moved.add_leaf(
                    Declaration::Newtype.keyword(),
                    name_behind(text, Declaration::Newtype.keyword()),
                    line,
                ),
                Some(kind) => {
                    let opened = moved.open_block(
                        kind,
                        name_behind(text, kind.keyword()),
                        line,
                        self.depth,
                    );
                    if occurrences(text, '{') > 0 && opened.depth <= self.depth {
                        opened.close_top(line)
                    } else {
                        opened
                    }
                },
                None => if worth_a_node(statement_text(text)) && moved.stack.len() > 0 {
                    moved.add_leaf("qs_statement"@, statement_text(text), line)
                } else {
                    moved
                },
            }
        }
    }

    /// The top level once the source has ended on the line `end`: what is still
    /// open is closed there, innermost first, each at the top level.
    pub open spec fn drained(self, end: u32) -> Seq<NodeView> {
        self.root + Seq::new(
            self.stack.len(),
            |i: int| self.stack[self.stack.len() - 1 - i].closed_at(end),
        )
    }
}

/// The outline after the first `n` lines.
pub open spec fn after_lines(texts: Seq<Seq<char>>, n: int) -> OutlineView
    decreases n,
{
    if n <= 0 {
        OutlineView::start()
    } else {
        after_lines(texts, n - 1).step(texts[n - 1], (n - 1) as u32)
    }
}

/// The number of the last of `n` lines; line numbers count modulo 2^32.
pub open spec fn last_line(n: int) -> u32 {
    if n <= 0 {
        0
    } else {
        (n - 1) as u32
    }
}

/// The outline of a source whose lines hold the code `texts`.
pub open spec fn outline(texts: Seq<Seq<char>>) -> NodeView {
    let end = last_line(texts.len() as int);
    block_view(
        "0"@,
        "compilation_unit"@,
        "compilation_unit"@,
        0,
        end,
        after_lines(texts, texts.len() as int).drained(end),
    )
}

/// A declaration whose body is being read.
#[derive(Debug)]
pub struct QsFrame {
    pub id: String,
    pub node_type: &'static str,
    pub label: String,
    pub start_line: u32,
    /// The frame closes when the brace depth falls to or below this value.
    pub close_depth: i128,
    pub children: Vec<SemanticNode>,
}

impl View for QsFrame {
    type V = FrameView;

    open spec fn view(&self) -> FrameView {
        FrameView {
            id: self.id@,
            node_type: self.node_type@,
            label: self.label@,
            start_line: self.start_line,
            close_depth: self.close_depth as int,
            children: node_views(self.children@),
        }
    }
}

/// The views of a stack of frames.
pub open spec fn frame_views(frames: Seq<QsFrame>) -> Seq<FrameView> {
    Seq::new(frames.len(), |i: int| frames[i]@)
}

impl QsFrame {
    /// Closes the frame on the line `end`.
    pub fn close(self, end: u32) -> (node: SemanticNode)
        ensures
            node@ == self@.closed_at(end),
    {
        block_node(
            self.id.as_str(),
            self.node_type,
            self.label.as_str(),
            self.start_line,
            end,
            self.children,
        )
    }
}

/// Hands `node` to the innermost frame, or to the top level where no frame is
/// open.
pub fn push_to(stack: &mut Vec<QsFrame>, root: &mut Vec<SemanticNode>, node: SemanticNode)
    ensures
        old(stack)@.len() == 0 ==> final(stack)@ == old(stack)@ && node_views(final(root)@)
            == node_views(old(root)@).push(node@),
        old(stack)@.len() > 0 ==> final(root)@ == old(root)@ && frame_views(final(stack)@)
            == frame_views(old(stack)@).update(
            old(stack)@.len() - 1,
            old(stack)@.last()@.with_child(node@),
        ),
{
    let n: usize = stack.len();
    if n > 0 {
        let ghost children = stack@.last().children@;
        stack[n - 1].children.push(node);
        assert(node_views(children.push(node)) == node_views(children).push(node@));
        assert(frame_views(stack@) == frame_views(old(stack)@).update(
            n - 1,
            old(stack)@.last()@.with_child(node@),
        ));
    } else {
        root.push(node);
        assert(node_views(root@) == node_views(old(root)@).push(node@));
    }
}

} // verus!
