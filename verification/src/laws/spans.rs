//! The lines of a node lie within the lines of its parent, behind those of the
//! nodes before it.

use crate::laws::shape::every_node;
use crate::name::name_behind;
use crate::node::{leaf_view, NodeView};
use crate::outline::{
    after_lines, declaration, last_line, outline, statement_text, Declaration, FrameView,
    OutlineView,
};
use crate::text::occurrences;
use vstd::prelude::*;

verus! {

/// `node` ends no earlier than it starts, and so do the children of `node`
/// within it.
pub open spec fn spans_nest(node: NodeView) -> bool {
    &&& node.start_line <= node.end_line
    &&& forall|i: int|
        0 <= i < node.children.len() ==> node.start_line <= (
        #[trigger] node.children[i]).start_line && node.children[i].end_line <= node.end_line
}

/// The children of `node` start behind the line on which `node` starts.
pub open spec fn children_start_later(node: NodeView) -> bool {
    forall|i: int|
        0 <= i < node.children.len() ==> node.start_line < (
        #[trigger] node.children[i]).start_line
}

/// Each of the nodes starts behind the line on which any before it starts, and no
/// earlier than that one ends.
pub open spec fn in_order(nodes: Seq<NodeView>) -> bool {
    forall|i: int, j: int|
        0 <= i < j < nodes.len() ==> (#[trigger] nodes[i]).start_line < (
        #[trigger] nodes[j]).start_line && nodes[i].end_line <= nodes[j].start_line
}

/// A node that starts on `line` can follow the nodes.
spec fn all_before(nodes: Seq<NodeView>, line: int) -> bool {
    forall|i: int|
        0 <= i < nodes.len() ==> (#[trigger] nodes[i]).start_line < line && nodes[i].end_line
            <= line
}

spec fn nested_tree(node: NodeView) -> bool
    decreases node,
{
    &&& spans_nest(node)
    &&& children_start_later(node)
    &&& in_order(node.children)
    &&& forall|i: int| 0 <= i < node.children.len() ==> nested_tree(#[trigger] node.children[i])
}

/// The nodes are nested, start from `from` on and before `limit`, and end by `to`.
spec fn nested_between(nodes: Seq<NodeView>, from: int, limit: int, to: int) -> bool {
    forall|i: int|
        0 <= i < nodes.len() ==> nested_tree(#[trigger] nodes[i]) && from <= nodes[i].start_line
            < limit && nodes[i].end_line <= to
}

spec fn nested_frame(f: FrameView, limit: int, line: int) -> bool {
    &&& f.start_line < limit
    &&& f.start_line <= line
    &&& nested_between(f.children, f.start_line + 1, limit, line)
    &&& in_order(f.children)
}

spec fn opened_in_order(stack: Seq<FrameView>, j: int) -> bool {
    &&& stack[j - 1].start_line < stack[j].start_line
    &&& all_before(stack[j - 1].children, stack[j].start_line as int)
}

/// What has been read starts before `limit` and, where it has ended, ended by
/// `line`.
spec fn nested(s: OutlineView, limit: int, line: int) -> bool {
    &&& nested_between(s.root, 0, limit, line)
    &&& in_order(s.root)
    &&& s.stack.len() > 0 ==> all_before(s.root, s.stack[0].start_line as int)
    &&& forall|j: int| 0 <= j < s.stack.len() ==> nested_frame(#[trigger] s.stack[j], limit, line)
    &&& forall|j: int| 1 <= j < s.stack.len() ==> #[trigger] opened_in_order(s.stack, j)
}

proof fn lemma_later(s: OutlineView, limit: int, line: int, later_limit: int, later: int)
    requires
        nested(s, limit, line),
        limit <= later_limit,
        line <= later,
    ensures
        nested(s, later_limit, later),
{
    assert forall|j: int| 0 <= j < s.stack.len() implies nested_frame(
        #[trigger] s.stack[j],
        later_limit,
        later,
    ) by {
        assert(nested_frame(s.stack[j], limit, line));
    }
}

proof fn lemma_attach(s: OutlineView, node: NodeView, limit: int, line: int)
    requires
        nested(s, limit, line),
        nested_tree(node),
        node.start_line < limit,
        node.end_line <= line,
        s.stack.len() == 0 ==> all_before(s.root, node.start_line as int),
        s.stack.len() > 0 ==> s.stack.last().start_line < node.start_line && all_before(
            s.stack.last().children,
            node.start_line as int,
        ),
    ensures
        nested(s.attach(node), limit, line),
{
    let t = s.attach(node);
    if s.stack.len() > 0 {
        assert forall|j: int| 0 <= j < t.stack.len() implies nested_frame(
            #[trigger] t.stack[j],
            limit,
            line,
        ) by {
            assert(nested_frame(s.stack[j], limit, line));
        }
        assert forall|j: int| 1 <= j < t.stack.len() implies #[trigger] opened_in_order(
            t.stack,
            j,
        ) by {
            assert(opened_in_order(s.stack, j));
        }
    }
}

proof fn lemma_close_top(s: OutlineView, limit: int, end: u32)
    requires
        nested(s, limit, end as int),
        s.stack.len() > 0,
    ensures
        nested(s.close_top(end), limit, end as int),
{
    let below = OutlineView { stack: s.stack.drop_last(), ..s };
    let top = s.stack.last();
    assert(nested_frame(top, limit, end as int));
    assert forall|j: int| 0 <= j < below.stack.len() implies nested_frame(
        #[trigger] below.stack[j],
        limit,
        end as int,
    ) by {
        assert(nested_frame(s.stack[j], limit, end as int));
    }
    assert forall|j: int| 1 <= j < below.stack.len() implies #[trigger] opened_in_order(
        below.stack,
        j,
    ) by {
        assert(opened_in_order(s.stack, j));
    }
    if s.stack.len() > 1 {
        assert(opened_in_order(s.stack, s.stack.len() - 1));
    }
    lemma_attach(below, top.closed_at(end), limit, end as int);
}

proof fn lemma_close_reached(s: OutlineView, limit: int, end: u32)
    requires
        nested(s, limit, end as int),
    ensures
        nested(s.close_reached(end), limit, end as int),
    decreases s.stack.len(),
{
    if s.stack.len() > 0 && s.stack.last().close_depth >= s.depth {
        lemma_close_top(s, limit, end);
        lemma_close_reached(s.close_top(end), limit, end);
    }
}

proof fn lemma_add_leaf(s: OutlineView, t: Seq<char>, label: Seq<char>, line: u32)
    requires
        nested(s, line as int, line as int),
    ensures
        nested(s.add_leaf(t, label, line), line + 1, line as int),
{
    if s.stack.len() > 0 {
        assert(nested_frame(s.stack.last(), line as int, line as int));
    }
    let node = leaf_view(s.next_id(), t, label, line);
    assert(nested_tree(node));
    lemma_later(s, line as int, line as int, line + 1, line as int);
    lemma_attach(s, node, line + 1, line as int);
}

proof fn lemma_open_block(
    s: OutlineView,
    kind: Declaration,
    label: Seq<char>,
    line: u32,
    close_depth: int,
)
    requires
        nested(s, line as int, line as int),
    ensures
        nested(s.open_block(kind, label, line, close_depth), line + 1, line as int),
{
    let t = s.open_block(kind, label, line, close_depth);
    assert forall|j: int| 0 <= j < t.stack.len() implies nested_frame(
        #[trigger] t.stack[j],
        line + 1,
        line as int,
    ) by {
        if j < s.stack.len() {
            assert(nested_frame(s.stack[j], line as int, line as int));
        }
    }
    assert forall|j: int| 1 <= j < t.stack.len() implies #[trigger] opened_in_order(
        t.stack,
        j,
    ) by {
        assert(nested_frame(s.stack[j - 1], line as int, line as int));
        if j < s.stack.len() {
            assert(opened_in_order(s.stack, j));
        }
    }
}

proof fn lemma_step(s: OutlineView, text: Seq<char>, line: u32)
    requires
        nested(s, line as int, line as int),
    ensures
        nested(s.step(text, line), line + 1, line as int),
{
    if text.len() > 0 {
        let counted = OutlineView {
            depth: s.depth + occurrences(text, '{') - occurrences(text, '}'),
            ..s
        };
        let moved = s.count_braces(text, line);
        lemma_close_reached(counted, line as int, line);
        match declaration(text) {
            Some(kind) => {
                let name = name_behind(text, kind.keyword());
                if kind == Declaration::Newtype {
                    lemma_add_leaf(moved, kind.keyword(), name, line);
                } else {
                    let opened = moved.open_block(kind, name, line, s.depth);
                    lemma_open_block(moved, kind, name, line, s.depth);
                    lemma_close_top(opened, line + 1, line);
                }
            },
            None => {
                lemma_add_leaf(moved, "qs_statement"@, statement_text(text), line);
                lemma_later(moved, line as int, line as int, line + 1, line as int);
            },
        }
    } else {
        lemma_later(s, line as int, line as int, line + 1, line as int);
    }
}

proof fn lemma_lines(texts: Seq<Seq<char>>, n: int)
    requires
        0 <= n <= 0x1_0000_0000,
    ensures
        nested(after_lines(texts, n), n, last_line(n) as int),
    decreases n,
{
    if n > 0 {
        let line = (n - 1) as u32;
        lemma_lines(texts, n - 1);
        lemma_later(
            after_lines(texts, n - 1),
            n - 1,
            last_line(n - 1) as int,
            line as int,
            line as int,
        );
        lemma_step(after_lines(texts, n - 1), texts[n - 1], line);
    }
}

proof fn lemma_every_node(node: NodeView)
    requires
        nested_tree(node),
    ensures
        every_node(node, |n: NodeView| spans_nest(n)),
        every_node(node, |n: NodeView| children_start_later(n)),
        every_node(node, |n: NodeView| in_order(n.children)),
    decreases node,
{
    let p = |n: NodeView| spans_nest(n);
    let q = |n: NodeView| children_start_later(n);
    let r = |n: NodeView| in_order(n.children);
    assert forall|i: int| 0 <= i < node.children.len() implies every_node(
        #[trigger] node.children[i],
        p,
    ) && every_node(node.children[i], q) && every_node(node.children[i], r) by {
        lemma_every_node(node.children[i]);
    }
}

proof fn lemma_top_level(texts: Seq<Seq<char>>)
    requires
        texts.len() <= 0x1_0000_0000,
    ensures
        forall|i: int|
            0 <= i < outline(texts).children.len() ==> nested_tree(
                #[trigger] outline(texts).children[i],
            ) && outline(texts).children[i].end_line <= last_line(texts.len() as int),
{
    let n = texts.len() as int;
    let s = after_lines(texts, n);
    let end = last_line(n);
    let tree = outline(texts);
    lemma_lines(texts, n);
    assert forall|i: int| 0 <= i < tree.children.len() implies nested_tree(
        #[trigger] tree.children[i],
    ) && tree.children[i].end_line <= end by {
        if i >= s.root.len() {
            let f = s.stack[s.stack.len() - 1 - (i - s.root.len())];
            assert(nested_frame(f, n, end as int));
        }
    }
}

/// Every node ends no earlier than it starts, and lies within its parent. The
/// source has no more lines than line numbers can tell apart.
pub proof fn nodes_lie_within_their_parents(texts: Seq<Seq<char>>)
    requires
        texts.len() <= 0x1_0000_0000,
    ensures
        every_node(outline(texts), |n: NodeView| spans_nest(n)),
{
    let tree = outline(texts);
    lemma_top_level(texts);
    assert forall|i: int| 0 <= i < tree.children.len() implies every_node(
        #[trigger] tree.children[i],
        |n: NodeView| spans_nest(n),
    ) by {
        lemma_every_node(tree.children[i]);
    }
}

/// A node below a declaration starts on a later line than the declaration. The
/// source has no more lines than line numbers can tell apart.
pub proof fn bodies_start_behind_their_declarations(texts: Seq<Seq<char>>)
    requires
        texts.len() <= 0x1_0000_0000,
    ensures
        forall|i: int|
            0 <= i < outline(texts).children.len() ==> every_node(
                #[trigger] outline(texts).children[i],
                |n: NodeView| children_start_later(n),
            ),
{
    let tree = outline(texts);
    lemma_top_level(texts);
    assert forall|i: int| 0 <= i < tree.children.len() implies every_node(
        #[trigger] tree.children[i],
        |n: NodeView| children_start_later(n),
    ) by {
        lemma_every_node(tree.children[i]);
    }
}

/// Below the compilation unit the children of a node follow each other in the
/// source, each on a later line; so do those of the compilation unit where every
/// declaration has been closed. The source has no more lines than line numbers
/// can tell apart.
pub proof fn siblings_follow_each_other(texts: Seq<Seq<char>>)
    requires
        texts.len() <= 0x1_0000_0000,
    ensures
        forall|i: int|
            0 <= i < outline(texts).children.len() ==> every_node(
                #[trigger] outline(texts).children[i],
                |n: NodeView| in_order(n.children),
            ),
        after_lines(texts, texts.len() as int).stack.len() == 0 ==> in_order(
            outline(texts).children,
        ),
{
    let tree = outline(texts);
    lemma_top_level(texts);
    assert forall|i: int| 0 <= i < tree.children.len() implies every_node(
        #[trigger] tree.children[i],
        |n: NodeView| in_order(n.children),
    ) by {
        lemma_every_node(tree.children[i]);
    }
    let s = after_lines(texts, texts.len() as int);
    if s.stack.len() == 0 {
        lemma_lines(texts, texts.len() as int);
        assert(tree.children == s.root);
    }
}

} // verus!
