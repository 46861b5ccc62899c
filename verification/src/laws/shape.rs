//! The shape of every outline: its root, the types, labels and ids of its nodes.

use crate::name::name_behind;
use crate::node::{block_view, leaf_view, NodeView, SemanticNode};
use crate::outline::{
    after_lines, declaration, last_line, outline, statement_text, worth_a_node, Declaration,
    FrameView, OutlineView,
};
use crate::text::{child_id, occurrences};
use vstd::prelude::*;

verus! {

/// `p` holds of `node` and of every node below it.
pub open spec fn every_node(node: NodeView, p: spec_fn(NodeView) -> bool) -> bool
    decreases node,
{
    &&& p(node)
    &&& forall|i: int|
        0 <= i < node.children.len() ==> every_node(#[trigger] node.children[i], p)
}

/// The types of the nodes that declare something with a body.
pub open spec fn block_type(t: Seq<char>) -> bool {
    t == "namespace"@ || t == "operation"@ || t == "function"@
}

/// The types of the nodes without a body.
pub open spec fn leaf_type(t: Seq<char>) -> bool {
    t == "newtype"@ || t == "qs_statement"@
}

/// Every child but a namespace is named after its parent and its place.
pub open spec fn child_ids_follow(id: Seq<char>, children: Seq<NodeView>) -> bool {
    forall|i: int|
        0 <= i < children.len() ==> (#[trigger] children[i]).node_type == "namespace"@
            || children[i].id == child_id(id, i as nat)
}

spec fn sound_node(n: NodeView) -> bool {
    &&& n.label.len() > 0
    &&& n.start_column == 0 && n.end_column == 0 && n.text.len() == 0
    &&& block_type(n.node_type) || (leaf_type(n.node_type) && n.children.len() == 0
        && n.start_line == n.end_line)
    &&& child_ids_follow(n.id, n.children)
}

spec fn sound_tree(n: NodeView) -> bool
    decreases n,
{
    &&& sound_node(n)
    &&& forall|i: int| 0 <= i < n.children.len() ==> sound_tree(#[trigger] n.children[i])
}

spec fn sound_trees(nodes: Seq<NodeView>) -> bool {
    forall|i: int| 0 <= i < nodes.len() ==> sound_tree(#[trigger] nodes[i])
}

spec fn sound_frame(f: FrameView) -> bool {
    &&& f.label.len() > 0
    &&& block_type(f.node_type)
    &&& child_ids_follow(f.id, f.children)
    &&& sound_trees(f.children)
}

spec fn linked(stack: Seq<FrameView>, j: int) -> bool {
    stack[j].node_type == "namespace"@ || stack[j].id == child_id(
        stack[j - 1].id,
        stack[j - 1].children.len(),
    )
}

spec fn sound(s: OutlineView) -> bool {
    &&& sound_trees(s.root)
    &&& forall|j: int| 0 <= j < s.stack.len() ==> sound_frame(#[trigger] s.stack[j])
    &&& forall|j: int| 1 <= j < s.stack.len() ==> #[trigger] linked(s.stack, j)
}

/// The node types differ from each other.
pub proof fn lemma_type_names()
    ensures
        forall|k: Declaration| k != Declaration::Newtype ==> block_type(#[trigger] k.keyword()),
        leaf_type(Declaration::Newtype.keyword()),
        leaf_type("qs_statement"@),
        !leaf_type("namespace"@),
        !leaf_type("operation"@),
        !leaf_type("function"@),
        !leaf_type("compilation_unit"@),
        !block_type("compilation_unit"@),
        !block_type("qs_statement"@),
        !block_type("newtype"@),
        "namespace"@ != "operation"@,
        "namespace"@ != "function"@,
        "operation"@ != "function"@,
        "newtype"@ != "qs_statement"@,
        "compilation_unit"@.len() > 0,
{
    reveal_strlit("namespace");
    reveal_strlit("operation");
    reveal_strlit("function");
    reveal_strlit("newtype");
    reveal_strlit("qs_statement");
    reveal_strlit("compilation_unit");
    assert("namespace"@.len() == 9 && "operation"@.len() == 9 && "function"@.len() == 8);
    assert("newtype"@.len() == 7 && "qs_statement"@.len() == 12);
    assert("compilation_unit"@.len() == 16);
    assert("namespace"@[0] != "operation"@[0]);
}

/// A declaration always has a name to show.
pub proof fn declared_names_are_never_empty(text: Seq<char>, keyword: Seq<char>)
    ensures
        name_behind(text, keyword).len() > 0,
{
    reveal_strlit("(anonymous)");
}

proof fn lemma_attach_keeps_sound(s: OutlineView, node: NodeView)
    requires
        sound(s),
        sound_tree(node),
        s.stack.len() > 0 ==> node.node_type == "namespace"@ || node.id == s.next_id(),
    ensures
        sound(s.attach(node)),
{
    let t = s.attach(node);
    if s.stack.len() > 0 {
        let top = s.stack.len() - 1;
        assert forall|j: int| 0 <= j < t.stack.len() implies sound_frame(#[trigger] t.stack[j]) by {
            assert(sound_frame(s.stack[j]));
        }
        assert forall|j: int| 1 <= j < t.stack.len() implies #[trigger] linked(t.stack, j) by {
            assert(linked(s.stack, j));
        }
    }
}

proof fn lemma_close_top_keeps_sound(s: OutlineView, end: u32)
    requires
        sound(s),
        s.stack.len() > 0,
    ensures
        sound(s.close_top(end)),
{
    let below = OutlineView { stack: s.stack.drop_last(), ..s };
    let top = s.stack.last();
    assert(sound_frame(top));
    assert forall|j: int| 0 <= j < below.stack.len() implies sound_frame(
        #[trigger] below.stack[j],
    ) by {
        assert(sound_frame(s.stack[j]));
    }
    assert forall|j: int| 1 <= j < below.stack.len() implies #[trigger] linked(below.stack, j) by {
        assert(linked(s.stack, j));
    }
    if s.stack.len() > 1 {
        assert(linked(s.stack, s.stack.len() - 1));
    }
    lemma_attach_keeps_sound(below, top.closed_at(end));
}

proof fn lemma_close_reached_keeps_sound(s: OutlineView, end: u32)
    requires
        sound(s),
    ensures
        sound(s.close_reached(end)),
    decreases s.stack.len(),
{
    if s.stack.len() > 0 && s.stack.last().close_depth >= s.depth {
        lemma_close_top_keeps_sound(s, end);
        lemma_close_reached_keeps_sound(s.close_top(end), end);
    }
}

proof fn lemma_add_leaf_keeps_sound(s: OutlineView, t: Seq<char>, label: Seq<char>, line: u32)
    requires
        sound(s),
        leaf_type(t),
        label.len() > 0,
    ensures
        sound(s.add_leaf(t, label, line)),
{
    lemma_attach_keeps_sound(s, leaf_view(s.next_id(), t, label, line));
}

proof fn lemma_open_block_keeps_sound(
    s: OutlineView,
    kind: Declaration,
    label: Seq<char>,
    line: u32,
    close_depth: int,
)
    requires
        sound(s),
        kind != Declaration::Newtype,
        label.len() > 0,
    ensures
        sound(s.open_block(kind, label, line, close_depth)),
{
    lemma_type_names();
    let t = s.open_block(kind, label, line, close_depth);
    assert forall|j: int| 0 <= j < t.stack.len() implies sound_frame(#[trigger] t.stack[j]) by {
        if j < s.stack.len() {
            assert(sound_frame(s.stack[j]));
        }
    }
    assert forall|j: int| 1 <= j < t.stack.len() implies #[trigger] linked(t.stack, j) by {
        if j < s.stack.len() {
            assert(linked(s.stack, j));
        }
    }
}

proof fn lemma_step_keeps_sound(s: OutlineView, text: Seq<char>, line: u32)
    requires
        sound(s),
    ensures
        sound(s.step(text, line)),
{
    lemma_type_names();
    if text.len() > 0 {
        let moved = s.count_braces(text, line);
        lemma_close_reached_keeps_sound(
            OutlineView { depth: moved_depth(s, text), ..s },
            line,
        );
        match declaration(text) {
            Some(kind) => {
                let name = name_behind(text, kind.keyword());
                declared_names_are_never_empty(text, kind.keyword());
                if kind == Declaration::Newtype {
                    lemma_add_leaf_keeps_sound(moved, kind.keyword(), name, line);
                } else {
                    let opened = moved.open_block(kind, name, line, s.depth);
                    lemma_open_block_keeps_sound(moved, kind, name, line, s.depth);
                    lemma_close_top_keeps_sound(opened, line);
                }
            },
            None => {
                if worth_a_node(statement_text(text)) {
                    lemma_add_leaf_keeps_sound(
                        moved,
                        "qs_statement"@,
                        statement_text(text),
                        line,
                    );
                }
            },
        }
    }
}

spec fn moved_depth(s: OutlineView, text: Seq<char>) -> int {
    s.depth + occurrences(text, '{') - occurrences(text, '}')
}

proof fn lemma_lines_keep_sound(texts: Seq<Seq<char>>, n: int)
    ensures
        sound(after_lines(texts, n)),
    decreases n,
{
    if n > 0 {
        lemma_lines_keep_sound(texts, n - 1);
        lemma_step_keeps_sound(
            after_lines(texts, n - 1),
            texts[n - 1],
            (n - 1) as u32,
        );
    }
}

proof fn lemma_top_level_is_sound(texts: Seq<Seq<char>>)
    ensures
        sound_trees(outline(texts).children),
{
    let n = texts.len() as int;
    let s = after_lines(texts, n);
    let end = last_line(n);
    lemma_lines_keep_sound(texts, n);
    assert forall|i: int| 0 <= i < s.drained(end).len() implies sound_tree(
        #[trigger] s.drained(end)[i],
    ) by {
        if i >= s.root.len() {
            assert(sound_frame(s.stack[s.stack.len() - 1 - (i - s.root.len())]));
        }
    }
}

proof fn lemma_sound_tree_has(node: NodeView, p: spec_fn(NodeView) -> bool)
    requires
        sound_tree(node),
        forall|n: NodeView| #[trigger] sound_node(n) ==> p(n),
    ensures
        every_node(node, p),
    decreases node,
{
    assert forall|i: int| 0 <= i < node.children.len() implies every_node(
        #[trigger] node.children[i],
        p,
    ) by {
        lemma_sound_tree_has(node.children[i], p);
    }
}

proof fn lemma_outline_has(
    texts: Seq<Seq<char>>,
    p: spec_fn(NodeView) -> bool,
)
    requires
        forall|n: NodeView| #[trigger] sound_node(n) ==> p(n),
    ensures
        forall|i: int|
            0 <= i < outline(texts).children.len() ==> every_node(
                #[trigger] outline(texts).children[i],
                p,
            ),
{
    lemma_top_level_is_sound(texts);
    assert forall|i: int| 0 <= i < outline(texts).children.len() implies every_node(
        #[trigger] outline(texts).children[i],
        p,
    ) by {
        lemma_sound_tree_has(outline(texts).children[i], p);
    }
}

/// The root of an outline is the compilation unit, over all lines.
pub proof fn root_is_the_compilation_unit(texts: Seq<Seq<char>>)
    ensures
        outline(texts).node_type == "compilation_unit"@,
        outline(texts).id == "0"@,
        outline(texts).label == "compilation_unit"@,
        outline(texts).start_line == 0,
        outline(texts).end_line == last_line(texts.len() as int),
        texts.len() == 0 ==> outline(texts).end_line == 0,
        0 < texts.len() <= 0x1_0000_0000 ==> outline(texts).end_line == texts.len() - 1,
{
}

/// A view of a node shows every field of it, and the views of its children in order.
pub proof fn views_show_every_field(node: SemanticNode)
    ensures
        node@.id == node.id@,
        node@.node_type == node.node_type@,
        node@.label == node.label@,
        node@.start_line == node.start_line,
        node@.start_column == node.start_column,
        node@.end_line == node.end_line,
        node@.end_column == node.end_column,
        node@.text == node.text@,
        node@.children.len() == node.children@.len(),
        forall|i: int|
            0 <= i < node.children@.len() ==> (#[trigger] node@.children[i]) == node.children@[i]@,
{
}

/// Every node has a label.
pub proof fn labels_are_never_empty(texts: Seq<Seq<char>>)
    ensures
        every_node(outline(texts), |n: NodeView| n.label.len() > 0),
{
    let p = |n: NodeView| n.label.len() > 0;
    lemma_type_names();
    lemma_outline_has(texts, p);
}

/// Every node covers whole lines and carries no source text.
pub proof fn nodes_cover_whole_lines(texts: Seq<Seq<char>>)
    ensures
        every_node(
            outline(texts),
            |n: NodeView| n.start_column == 0 && n.end_column == 0 && n.text.len() == 0,
        ),
{
    let p = |n: NodeView| n.start_column == 0 && n.end_column == 0 && n.text.len() == 0;
    lemma_outline_has(texts, p);
}

/// Below the compilation unit stand only namespaces, operations, functions,
/// newtypes and statements.
pub proof fn node_types_are_known(texts: Seq<Seq<char>>)
    ensures
        forall|i: int|
            0 <= i < outline(texts).children.len() ==> every_node(
                #[trigger] outline(texts).children[i],
                |n: NodeView| block_type(n.node_type) || leaf_type(n.node_type),
            ),
{
    lemma_outline_has(
        texts,
        |n: NodeView| block_type(n.node_type) || leaf_type(n.node_type),
    );
}

/// Newtypes and statements stand on one line and have no children.
pub proof fn newtypes_and_statements_are_leaves(texts: Seq<Seq<char>>)
    ensures
        every_node(
            outline(texts),
            |n: NodeView|
                leaf_type(n.node_type) ==> n.children.len() == 0 && n.start_line == n.end_line,
        ),
{
    let p = |n: NodeView|
        leaf_type(n.node_type) ==> n.children.len() == 0 && n.start_line == n.end_line;
    lemma_type_names();
    assert forall|n: NodeView| #[trigger] sound_node(n) implies p(n) by {
        lemma_type_names();
    }
    lemma_outline_has(texts, p);
}

/// Below the compilation unit every child but a namespace is named after its
/// parent and its place among the children.
pub proof fn children_are_numbered(texts: Seq<Seq<char>>)
    ensures
        forall|i: int|
            0 <= i < outline(texts).children.len() ==> every_node(
                #[trigger] outline(texts).children[i],
                |n: NodeView| child_ids_follow(n.id, n.children),
            ),
{
    lemma_outline_has(texts, |n: NodeView| child_ids_follow(n.id, n.children));
}

/// A declaration that the source leaves open is named after the one that it stands
/// in, which follows it at the top level, and the number of children there; a
/// namespace is not.
pub proof fn open_declarations_are_numbered(texts: Seq<Seq<char>>, i: int)
    requires
        after_lines(texts, texts.len() as int).root.len() <= i < outline(texts).children.len() - 1,
    ensures
        outline(texts).children[i].node_type == "namespace"@ || outline(texts).children[i].id
            == child_id(
            outline(texts).children[i + 1].id,
            outline(texts).children[i + 1].children.len(),
        ),
{
    let n = texts.len() as int;
    let s = after_lines(texts, n);
    let end = last_line(n);
    let j = s.stack.len() - 1 - (i - s.root.len());
    lemma_lines_keep_sound(texts, n);
    assert(linked(s.stack, j));
    assert(outline(texts).children[i] == s.stack[j].closed_at(end));
    assert(outline(texts).children[i + 1] == s.stack[j - 1].closed_at(end));
}

/// A node is made of the parts that it is given, over whole lines.
pub proof fn nodes_are_made_of_their_parts(
    id: Seq<char>,
    node_type: Seq<char>,
    label: Seq<char>,
    start: u32,
    end: u32,
    children: Seq<NodeView>,
)
    ensures
        block_view(id, node_type, label, start, end, children) == (NodeView {
            id,
            node_type,
            label,
            start_line: start,
            start_column: 0,
            end_line: end,
            end_column: 0,
            text: seq![],
            children,
        }),
        leaf_view(id, node_type, label, start) == (NodeView {
            id,
            node_type,
            label,
            start_line: start,
            start_column: 0,
            end_line: start,
            end_column: 0,
            text: seq![],
            children: seq![],
        }),
{
}

/// An open declaration keeps its fields when it gets a child, which comes last, and
/// when it is closed.
pub proof fn frames_keep_their_fields(frame: FrameView, node: NodeView, end: u32)
    ensures
        frame.with_child(node).id == frame.id,
        frame.with_child(node).node_type == frame.node_type,
        frame.with_child(node).label == frame.label,
        frame.with_child(node).start_line == frame.start_line,
        frame.with_child(node).close_depth == frame.close_depth,
        frame.with_child(node).children == frame.children.push(node),
        frame.closed_at(end).id == frame.id,
        frame.closed_at(end).node_type == frame.node_type,
        frame.closed_at(end).label == frame.label,
        frame.closed_at(end).start_line == frame.start_line,
        frame.closed_at(end).end_line == end,
        frame.closed_at(end).children == frame.children,
{
}

} // verus!
