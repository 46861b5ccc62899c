//! The nodes of an outline.

use vstd::prelude::*;

verus! {

/// A node of an outline: a declaration, a statement or the whole source.
#[derive(Debug)]
pub struct SemanticNode {
    pub id: String,
    pub node_type: String,
    pub label: String,
    pub start_line: u32,
    pub start_column: u32,
    pub end_line: u32,
    pub end_column: u32,
    /// Source text of the node. An outline leaves it empty.
    pub text: String,
    pub children: Vec<SemanticNode>,
}

/// What a [`SemanticNode`] holds.
pub struct NodeView {
    pub id: Seq<char>,
    pub node_type: Seq<char>,
    pub label: Seq<char>,
    pub start_line: u32,
    pub start_column: u32,
    pub end_line: u32,
    pub end_column: u32,
    pub text: Seq<char>,
    pub children: Seq<NodeView>,
}

impl View for SemanticNode {
    type V = NodeView;

    open spec fn view(&self) -> NodeView {
        node_view(*self)
    }
}

/// The view of a node.
pub open spec fn node_view(node: SemanticNode) -> NodeView
    decreases node,
{
    NodeView {
        id: node.id@,
        node_type: node.node_type@,
        label: node.label@,
        start_line: node.start_line,
        start_column: node.start_column,
        end_line: node.end_line,
        end_column: node.end_column,
        text: node.text@,
        children: Seq::new(
            node.children@.len(),
            |i: int|
                if 0 <= i < node.children@.len() {
                    node_view(node.children@[i])
                } else {
                    arbitrary()
                },
        ),
    }
}

/// The views of a list of nodes.
pub open spec fn node_views(nodes: Seq<SemanticNode>) -> Seq<NodeView> {
    Seq::new(nodes.len(), |i: int| nodes[i]@)
}

/// A node over whole lines, from `start` to `end`.
pub open spec fn block_view(
    id: Seq<char>,
    node_type: Seq<char>,
    label: Seq<char>,
    start: u32,
    end: u32,
    children: Seq<NodeView>,
) -> NodeView {
    NodeView {
        id,
        node_type,
        label,
        start_line: start,
        start_column: 0,
        end_line: end,
        end_column: 0,
        text: seq![],
        children,
    }
}

/// A node on one line, without children.
pub open spec fn leaf_view(
    id: Seq<char>,
    node_type: Seq<char>,
    label: Seq<char>,
    line: u32,
) -> NodeView {
    block_view(id, node_type, label, line, line, seq![])
}

/// Makes a node over whole lines.
pub fn block_node(
    id: &str,
    node_type: &str,
    label: &str,
    start: u32,
    end: u32,
    children: Vec<SemanticNode>,
) -> (node: SemanticNode)
    ensures
        node@ == block_view(id@, node_type@, label@, start, end, node_views(children@)),
{
    let node = SemanticNode {
        id: id.to_owned(),
        node_type: node_type.to_owned(),
        label: label.to_owned(),
        start_line: start,
        start_column: 0,
        end_line: end,
        end_column: 0,
        text: String::new(),
        children,
    };
    assert(node@.children == node_views(children@));
    node
}

/// Makes a node on one line.
pub fn leaf(id: &str, node_type: &str, label: &str, line: u32) -> (node: SemanticNode)
    ensures
        node@ == leaf_view(id@, node_type@, label@, line),
{
    let children: Vec<SemanticNode> = Vec::new();
    assert(node_views(children@) == Seq::<NodeView>::empty());
    block_node(id, node_type, label, line, line, children)
}

} // verus!
