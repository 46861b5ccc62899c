//! Which lines of a source have a node: no declaration and no statement in a body
//! gets lost, and none is counted twice.

use crate::laws::shape::lemma_type_names;
use crate::name::name_behind;
use crate::node::{leaf_view, NodeView};
use crate::outline::{
    after_lines, declaration, last_line, outline, statement_text, worth_a_node, Declaration,
    FrameView, OutlineView,
};
use crate::text::{child_id, decimal, occurrences};
use vstd::prelude::*;

verus! {

/// What a node says of the line that it starts on.
pub struct Heading {
    pub id: Seq<char>,
    pub node_type: Seq<char>,
    pub label: Seq<char>,
    pub start_line: u32,
}

/// The heading of a node.
pub open spec fn heading(node: NodeView) -> Heading {
    Heading {
        id: node.id,
        node_type: node.node_type,
        label: node.label,
        start_line: node.start_line,
    }
}

/// How many nodes in the tree under `node` have a heading with `p`.
pub open spec fn nodes_where(node: NodeView, p: spec_fn(Heading) -> bool) -> nat
    decreases node,
{
    (if p(heading(node)) {
        1nat
    } else {
        0nat
    }) + all_nodes_where(node.children, p)
}

/// How many nodes in the trees under `nodes` have a heading with `p`.
pub open spec fn all_nodes_where(nodes: Seq<NodeView>, p: spec_fn(Heading) -> bool) -> nat
    decreases nodes,
{
    if nodes.len() == 0 {
        0
    } else {
        all_nodes_where(nodes.drop_last(), p) + nodes_where(nodes.last(), p)
    }
}

/// The heading of the node that the line with the code `text` gets, read behind
/// `s`. Declarations always get one; other lines get one where they hold more
/// than braces and a declaration is open.
pub open spec fn heading_behind(s: OutlineView, text: Seq<char>, line: u32) -> Option<Heading> {
    let moved = s.count_braces(text, line);
    if text.len() == 0 {
        None
    } else {
        match declaration(text) {
            Some(kind) => Some(
                Heading {
                    id: if kind == Declaration::Namespace {
                        child_id("0"@, s.namespaces)
                    } else {
                        moved.next_id()
                    },
                    node_type: kind.keyword(),
                    label: name_behind(text, kind.keyword()),
                    start_line: line,
                },
            ),
            None => if worth_a_node(statement_text(text)) && moved.stack.len() > 0 {
                Some(
                    Heading {
                        id: moved.next_id(),
                        node_type: "qs_statement"@,
                        label: statement_text(text),
                        start_line: line,
                    },
                )
            } else {
                None
            },
        }
    }
}

/// The heading of the node that line `i` gets.
pub open spec fn heading_on_line(texts: Seq<Seq<char>>, i: int) -> Option<Heading> {
    heading_behind(after_lines(texts, i), texts[i], i as u32)
}

/// How many of the first `n` lines get a node whose heading has `p`.
pub open spec fn lines_where(texts: Seq<Seq<char>>, p: spec_fn(Heading) -> bool, n: int) -> nat
    decreases n,
{
    if n <= 0 {
        0
    } else {
        lines_where(texts, p, n - 1) + match heading_on_line(texts, n - 1) {
            Some(h) => if p(h) {
                1nat
            } else {
                0nat
            },
            None => 0nat,
        }
    }
}

/// How many of the first `n` lines declare something of the given kind.
pub open spec fn declaring_lines(texts: Seq<Seq<char>>, kind: Declaration, n: int) -> nat
    decreases n,
{
    if n <= 0 {
        0
    } else {
        declaring_lines(texts, kind, n - 1) + if texts[n - 1].len() > 0 && declaration(
            texts[n - 1],
        ) == Some(kind) {
            1nat
        } else {
            0nat
        }
    }
}

/// How many nodes in the trees of the open declarations have a heading with `p`.
pub open spec fn frames_where(stack: Seq<FrameView>, p: spec_fn(Heading) -> bool) -> nat
    decreases stack.len(),
{
    if stack.len() == 0 {
        0
    } else {
        frames_where(stack.drop_last(), p) + nodes_where(stack.last().closed_at(0), p)
    }
}

/// How many nodes there are so far with a heading with `p`.
pub open spec fn state_where(s: OutlineView, p: spec_fn(Heading) -> bool) -> nat {
    all_nodes_where(s.root, p) + frames_where(s.stack, p)
}

/// One where `b` holds, and none otherwise.
pub open spec fn one_if(b: bool) -> nat {
    if b {
        1
    } else {
        0
    }
}

proof fn lemma_push(nodes: Seq<NodeView>, node: NodeView, p: spec_fn(Heading) -> bool)
    ensures
        all_nodes_where(nodes.push(node), p) == all_nodes_where(nodes, p) + nodes_where(node, p),
{
    assert(nodes.push(node).drop_last() == nodes);
}

proof fn lemma_concat(a: Seq<NodeView>, b: Seq<NodeView>, p: spec_fn(Heading) -> bool)
    ensures
        all_nodes_where(a + b, p) == all_nodes_where(a, p) + all_nodes_where(b, p),
    decreases b.len(),
{
    if b.len() == 0 {
        assert(a + b == a);
    } else {
        lemma_concat(a, b.drop_last(), p);
        assert((a + b).drop_last() == a + b.drop_last());
    }
}

proof fn lemma_attach(s: OutlineView, node: NodeView, p: spec_fn(Heading) -> bool)
    ensures
        state_where(s.attach(node), p) == state_where(s, p) + nodes_where(node, p),
{
    if s.stack.len() == 0 {
        lemma_push(s.root, node, p);
    } else {
        let t = s.attach(node);
        lemma_push(s.stack.last().children, node, p);
        assert(t.stack.drop_last() == s.stack.drop_last());
        assert(heading(t.stack.last().closed_at(0)) == heading(s.stack.last().closed_at(0)));
    }
}

pub(crate) proof fn lemma_closing_keeps_nodes(s: OutlineView, end: u32, p: spec_fn(Heading) -> bool)
    requires
        s.stack.len() > 0,
    ensures
        state_where(s.close_top(end), p) == state_where(s, p),
{
    let below = OutlineView { stack: s.stack.drop_last(), ..s };
    let top = s.stack.last();
    lemma_attach(below, top.closed_at(end), p);
    assert(heading(top.closed_at(end)) == heading(top.closed_at(0)));
}

proof fn lemma_close_reached(s: OutlineView, end: u32, p: spec_fn(Heading) -> bool)
    ensures
        state_where(s.close_reached(end), p) == state_where(s, p),
        s.close_reached(end).namespaces == s.namespaces,
    decreases s.stack.len(),
{
    if s.stack.len() > 0 && s.stack.last().close_depth >= s.depth {
        lemma_closing_keeps_nodes(s, end, p);
        lemma_close_reached(s.close_top(end), end, p);
    }
}

proof fn lemma_open_block(
    s: OutlineView,
    kind: Declaration,
    label: Seq<char>,
    line: u32,
    close_depth: int,
    p: spec_fn(Heading) -> bool,
)
    ensures
        ({
            let t = s.open_block(kind, label, line, close_depth);
            state_where(t, p) == state_where(s, p) + one_if(
                p(heading(t.stack.last().closed_at(0))),
            )
        }),
{
    let t = s.open_block(kind, label, line, close_depth);
    assert(t.stack.drop_last() == s.stack);
    assert(t.stack.last().children == Seq::<NodeView>::empty());
}

proof fn lemma_add_leaf(
    s: OutlineView,
    node_type: Seq<char>,
    label: Seq<char>,
    line: u32,
    p: spec_fn(Heading) -> bool,
)
    ensures
        state_where(s.add_leaf(node_type, label, line), p) == state_where(s, p) + one_if(
            p(Heading { id: s.next_id(), node_type, label, start_line: line }),
        ),
{
    let node = leaf_view(s.next_id(), node_type, label, line);
    lemma_attach(s, node, p);
    assert(all_nodes_where(node.children, p) == 0);
    assert(heading(node) == (Heading { id: s.next_id(), node_type, label, start_line: line }));
}

proof fn lemma_step(s: OutlineView, text: Seq<char>, line: u32, p: spec_fn(Heading) -> bool)
    ensures
        state_where(s.step(text, line), p) == state_where(s, p) + match heading_behind(
            s,
            text,
            line,
        ) {
            Some(h) => one_if(p(h)),
            None => 0nat,
        },
        s.step(text, line).namespaces == s.namespaces + one_if(
            text.len() > 0 && declaration(text) == Some(Declaration::Namespace),
        ),
{
    if text.len() > 0 {
        let counted = OutlineView {
            depth: s.depth + occurrences(text, '{') - occurrences(text, '}'),
            ..s
        };
        let moved = s.count_braces(text, line);
        lemma_close_reached(counted, line, p);
        match declaration(text) {
            Some(kind) => {
                let name = name_behind(text, kind.keyword());
                if kind == Declaration::Newtype {
                    lemma_add_leaf(moved, kind.keyword(), name, line, p);
                } else {
                    let opened = moved.open_block(kind, name, line, s.depth);
                    lemma_open_block(moved, kind, name, line, s.depth, p);
                    lemma_closing_keeps_nodes(opened, line, p);
                    assert(heading_behind(s, text, line) == Some(
                        heading(opened.stack.last().closed_at(0)),
                    ));
                }
            },
            None => {
                lemma_add_leaf(moved, "qs_statement"@, statement_text(text), line, p);
            },
        }
    }
}

proof fn lemma_drain(stack: Seq<FrameView>, end: u32, p: spec_fn(Heading) -> bool)
    ensures
        all_nodes_where(
            Seq::new(stack.len(), |i: int| stack[stack.len() - 1 - i].closed_at(end)),
            p,
        ) == frames_where(stack, p),
    decreases stack.len(),
{
    let nodes = Seq::new(stack.len(), |i: int| stack[stack.len() - 1 - i].closed_at(end));
    if stack.len() > 0 {
        let below = stack.drop_last();
        let rest = Seq::new(below.len(), |i: int| below[below.len() - 1 - i].closed_at(end));
        let top = stack.last().closed_at(end);
        lemma_drain(below, end, p);
        assert(nodes == seq![top] + rest);
        lemma_concat(seq![top], rest, p);
        assert(seq![top].drop_last() == Seq::<NodeView>::empty());
        assert(all_nodes_where(seq![top].drop_last(), p) == 0);
        assert(all_nodes_where(seq![top], p) == nodes_where(top, p));
        assert(heading(top) == heading(stack.last().closed_at(0)));
        assert(nodes_where(top, p) == nodes_where(stack.last().closed_at(0), p));
    }
}

pub(crate) proof fn lemma_lines_are_counted(texts: Seq<Seq<char>>, p: spec_fn(Heading) -> bool, n: int)
    ensures
        state_where(after_lines(texts, n), p) == lines_where(texts, p, n),
        after_lines(texts, n).namespaces == declaring_lines(texts, Declaration::Namespace, n),
    decreases n,
{
    if n > 0 {
        lemma_lines_are_counted(texts, p, n - 1);
        lemma_step(after_lines(texts, n - 1), texts[n - 1], (n - 1) as u32, p);
    }
}

/// The nodes below the compilation unit are those that the lines get, one each:
/// there are as many of them with a heading of any given kind as there are lines
/// with such a heading.
pub proof fn nodes_are_those_of_the_lines(texts: Seq<Seq<char>>, p: spec_fn(Heading) -> bool)
    ensures
        all_nodes_where(outline(texts).children, p) == lines_where(texts, p, texts.len() as int),
{
    let s = after_lines(texts, texts.len() as int);
    let end = last_line(texts.len() as int);
    lemma_lines_are_counted(texts, p, texts.len() as int);
    lemma_drain(s.stack, end, p);
    lemma_concat(
        s.root,
        Seq::new(s.stack.len(), |i: int| s.stack[s.stack.len() - 1 - i].closed_at(end)),
        p,
    );
}

pub(crate) proof fn lemma_one_line(texts: Seq<Seq<char>>, p: spec_fn(Heading) -> bool, i: int, n: int)
    requires
        0 <= i <= u32::MAX,
        n <= 0x1_0000_0000,
        forall|h: Heading| #[trigger] p(h) ==> h.start_line == i,
    ensures
        lines_where(texts, p, n) == match heading_on_line(texts, i) {
            Some(h) => one_if(i < n && p(h)),
            None => 0nat,
        },
    decreases n,
{
    if n > 0 {
        lemma_one_line(texts, p, i, n - 1);
        if let Some(h) = heading_on_line(texts, n - 1) {
            assert(h.start_line == n - 1);
        }
    }
}

/// A line of the source has at most one node below the compilation unit that
/// starts on it: the one with its heading. So no two nodes there start on the
/// same line. The source has no more lines than line numbers can tell apart.
pub proof fn lines_have_one_node_each(texts: Seq<Seq<char>>, i: int)
    requires
        0 <= i < texts.len() <= 0x1_0000_0000,
    ensures
        all_nodes_where(outline(texts).children, |g: Heading| g.start_line == i) == (
        if heading_on_line(texts, i) is Some {
            1nat
        } else {
            0nat
        }),
        heading_on_line(texts, i) matches Some(h) ==> all_nodes_where(
            outline(texts).children,
            |g: Heading| g == h,
        ) == 1,
{
    let p = |g: Heading| g.start_line == i;
    nodes_are_those_of_the_lines(texts, p);
    lemma_one_line(texts, p, i, texts.len() as int);
    if let Some(h) = heading_on_line(texts, i) {
        let q = |g: Heading| g == h;
        nodes_are_those_of_the_lines(texts, q);
        lemma_one_line(texts, q, i, texts.len() as int);
    }
}

/// No node starts behind the last line. The source has no more lines than line
/// numbers can tell apart.
pub proof fn nodes_start_on_lines_of_the_source(texts: Seq<Seq<char>>, i: u32)
    requires
        texts.len() <= i,
    ensures
        all_nodes_where(outline(texts).children, |g: Heading| g.start_line == i) == 0,
{
    let p = |g: Heading| g.start_line == i;
    nodes_are_those_of_the_lines(texts, p);
    lemma_one_line(texts, p, i as int, texts.len() as int);
}

/// A line that declares something has exactly one node, which carries the type
/// and the name that the line declares. The source has no more lines than line
/// numbers can tell apart.
pub proof fn every_declaration_has_its_node(texts: Seq<Seq<char>>, i: int, kind: Declaration)
    requires
        0 <= i < texts.len() <= 0x1_0000_0000,
        texts[i].len() > 0,
        declaration(texts[i]) == Some(kind),
    ensures
        all_nodes_where(outline(texts).children, |g: Heading| g.start_line == i) == 1,
        all_nodes_where(
            outline(texts).children,
            |g: Heading|
                g.start_line == i && g.node_type == kind.keyword() && g.label == name_behind(
                    texts[i],
                    kind.keyword(),
                ),
        ) == 1,
{
    let p = |g: Heading|
        g.start_line == i && g.node_type == kind.keyword() && g.label == name_behind(
            texts[i],
            kind.keyword(),
        );
    lines_have_one_node_each(texts, i);
    nodes_are_those_of_the_lines(texts, p);
    lemma_one_line(texts, p, i, texts.len() as int);
}

/// A line that does not declare something of a kind has no node of its type. The
/// source has no more lines than line numbers can tell apart.
pub proof fn declarations_come_from_their_lines(
    texts: Seq<Seq<char>>,
    i: int,
    kind: Declaration,
)
    requires
        0 <= i < texts.len() <= 0x1_0000_0000,
        texts[i].len() == 0 || declaration(texts[i]) != Some(kind),
    ensures
        all_nodes_where(
            outline(texts).children,
            |g: Heading| g.start_line == i && g.node_type == kind.keyword(),
        ) == 0,
{
    let p = |g: Heading| g.start_line == i && g.node_type == kind.keyword();
    lemma_kind_of_keyword(kind, kind);
    if let Some(other) = declaration(texts[i]) {
        lemma_kind_of_keyword(other, kind);
    }
    nodes_are_those_of_the_lines(texts, p);
    lemma_one_line(texts, p, i, texts.len() as int);
}

/// A line inside a declaration that declares nothing and holds more than braces
/// has exactly one node: a statement that carries its text. The source has no
/// more lines than line numbers can tell apart.
pub proof fn every_statement_has_its_node(texts: Seq<Seq<char>>, i: int)
    requires
        0 <= i < texts.len() <= 0x1_0000_0000,
        texts[i].len() > 0,
        declaration(texts[i]) is None,
        worth_a_node(statement_text(texts[i])),
        after_lines(texts, i).count_braces(texts[i], i as u32).stack.len() > 0,
    ensures
        all_nodes_where(outline(texts).children, |g: Heading| g.start_line == i) == 1,
        all_nodes_where(
            outline(texts).children,
            |g: Heading|
                g.start_line == i && g.node_type == "qs_statement"@ && g.label == statement_text(
                    texts[i],
                ),
        ) == 1,
{
    let p = |g: Heading|
        g.start_line == i && g.node_type == "qs_statement"@ && g.label == statement_text(texts[i]);
    lines_have_one_node_each(texts, i);
    nodes_are_those_of_the_lines(texts, p);
    lemma_one_line(texts, p, i, texts.len() as int);
}

/// Any other line has no node: one without code, one of braces alone, and one
/// that declares nothing outside any declaration. The source has no more lines
/// than line numbers can tell apart.
pub proof fn other_lines_have_no_node(texts: Seq<Seq<char>>, i: int)
    requires
        0 <= i < texts.len() <= 0x1_0000_0000,
        texts[i].len() == 0 || declaration(texts[i]) is None && (!worth_a_node(
            statement_text(texts[i]),
        ) || after_lines(texts, i).count_braces(texts[i], i as u32).stack.len() == 0),
    ensures
        all_nodes_where(outline(texts).children, |g: Heading| g.start_line == i) == 0,
{
    lines_have_one_node_each(texts, i);
}

/// An outline shows what each line gets: two sources with the same outline agree
/// in the heading on every line. The sources have no more lines than line numbers
/// can tell apart.
pub proof fn outlines_show_every_heading(a: Seq<Seq<char>>, b: Seq<Seq<char>>, i: int)
    requires
        0 <= i < a.len() <= 0x1_0000_0000,
        i < b.len() <= 0x1_0000_0000,
        outline(a) == outline(b),
    ensures
        heading_on_line(a, i) == heading_on_line(b, i),
{
    lines_have_one_node_each(a, i);
    lines_have_one_node_each(b, i);
    if let Some(h) = heading_on_line(a, i) {
        let q = |g: Heading| g == h;
        nodes_are_those_of_the_lines(b, q);
        lemma_one_line(b, q, i, b.len() as int);
    }
}

/// An edit of a statement shows: two sources whose statements on a line differ,
/// each inside a declaration, have different outlines. The sources have no more
/// lines than line numbers can tell apart.
pub proof fn statement_edits_show(a: Seq<Seq<char>>, b: Seq<Seq<char>>, i: int)
    requires
        0 <= i < a.len() <= 0x1_0000_0000,
        i < b.len() <= 0x1_0000_0000,
        declaration(a[i]) is None,
        declaration(b[i]) is None,
        worth_a_node(statement_text(a[i])),
        worth_a_node(statement_text(b[i])),
        after_lines(a, i).count_braces(a[i], i as u32).stack.len() > 0,
        after_lines(b, i).count_braces(b[i], i as u32).stack.len() > 0,
        statement_text(a[i]) != statement_text(b[i]),
    ensures
        outline(a) != outline(b),
{
    lemma_statement_has_text(a[i]);
    lemma_statement_has_text(b[i]);
    if outline(a) == outline(b) {
        outlines_show_every_heading(a, b, i);
    }
}

proof fn lemma_statement_has_text(text: Seq<char>)
    requires
        worth_a_node(statement_text(text)),
    ensures
        text.len() > 0,
{
}

proof fn lemma_kind_of_keyword(a: Declaration, b: Declaration)
    ensures
        a.keyword() == b.keyword() <==> a == b,
        a.keyword() != "qs_statement"@,
        a.keyword() != "compilation_unit"@,
{
    lemma_type_names();
}

/// The tree holds as many nodes of a declared kind as there are lines that
/// declare one, however many lines there are.
pub proof fn declarations_are_counted(texts: Seq<Seq<char>>, kind: Declaration)
    ensures
        nodes_where(outline(texts), |h: Heading| h.node_type == kind.keyword())
            == declaring_lines(texts, kind, texts.len() as int),
{
    let p = |h: Heading| h.node_type == kind.keyword();
    lemma_kind_of_keyword(kind, kind);
    nodes_are_those_of_the_lines(texts, p);
    lemma_declarations_counted(texts, kind, texts.len() as int);
}

proof fn lemma_declarations_counted(texts: Seq<Seq<char>>, kind: Declaration, n: int)
    ensures
        lines_where(texts, |h: Heading| h.node_type == kind.keyword(), n) == declaring_lines(
            texts,
            kind,
            n,
        ),
    decreases n,
{
    if n > 0 {
        lemma_declarations_counted(texts, kind, n - 1);
        lemma_kind_of_keyword(kind, kind);
        if let Some(other) = declaration(texts[n - 1]) {
            lemma_kind_of_keyword(other, kind);
        }
    }
}

/// Different numbers have different digits.
pub proof fn decimal_is_injective(a: nat, b: nat)
    ensures
        decimal(a) == decimal(b) ==> a == b,
    decreases a,
{
    if decimal(a) == decimal(b) {
        lemma_decimal_len(a);
        lemma_decimal_len(b);
        if a < 10 && b < 10 {
            assert(decimal(a)[0] == decimal(b)[0]);
        } else if a >= 10 && b >= 10 {
            assert(decimal(a).drop_last() == decimal(a / 10));
            assert(decimal(b).drop_last() == decimal(b / 10));
            decimal_is_injective(a / 10, b / 10);
            assert(decimal(a).last() == decimal(b).last());
        }
    }
}

proof fn lemma_decimal_len(n: nat)
    ensures
        decimal(n).len() >= 1,
        n >= 10 ==> decimal(n).len() >= 2,
    decreases n,
{
    if n >= 10 {
        lemma_decimal_len(n / 10);
    }
}

proof fn lemma_child_id_is_injective(parent: Seq<char>, a: nat, b: nat)
    ensures
        child_id(parent, a) == child_id(parent, b) ==> a == b,
{
    let head = parent.push('.');
    if child_id(parent, a) == child_id(parent, b) {
        assert(child_id(parent, a).skip(head.len() as int) == decimal(a));
        assert(child_id(parent, b).skip(head.len() as int) == decimal(b));
        decimal_is_injective(a, b);
    }
}

proof fn lemma_namespaces_counted(texts: Seq<Seq<char>>, k: nat, n: int)
    ensures
        lines_where(
            texts,
            |h: Heading| h.node_type == "namespace"@ && h.id == child_id("0"@, k),
            n,
        ) == one_if(k < declaring_lines(texts, Declaration::Namespace, n)),
    decreases n,
{
    let p = |h: Heading| h.node_type == "namespace"@ && h.id == child_id("0"@, k);
    if n > 0 {
        lemma_namespaces_counted(texts, k, n - 1);
        lemma_lines_are_counted(texts, p, n - 1);
        lemma_type_names();
        if let Some(other) = declaration(texts[n - 1]) {
            lemma_kind_of_keyword(other, Declaration::Namespace);
            lemma_child_id_is_injective("0"@, after_lines(texts, n - 1).namespaces, k);
        }
    }
}

/// The namespaces are numbered through the source from zero: exactly one of them
/// has the id `0.k` where `k` is below their number, and none where it is not.
pub proof fn namespaces_are_numbered_through(texts: Seq<Seq<char>>, k: nat)
    ensures
        nodes_where(
            outline(texts),
            |h: Heading| h.node_type == "namespace"@ && h.id == child_id("0"@, k),
        ) == (if k < declaring_lines(texts, Declaration::Namespace, texts.len() as int) {
            1nat
        } else {
            0nat
        }),
{
    let p = |h: Heading| h.node_type == "namespace"@ && h.id == child_id("0"@, k);
    lemma_type_names();
    nodes_are_those_of_the_lines(texts, p);
    lemma_namespaces_counted(texts, k, texts.len() as int);
}

/// The namespaces are numbered in the order of their lines: the number of one is how
/// many stand before it. The source has no more lines than line numbers can tell
/// apart.
pub proof fn namespaces_are_numbered_in_order(texts: Seq<Seq<char>>, i: int)
    requires
        0 <= i < texts.len() <= 0x1_0000_0000,
        texts[i].len() > 0,
        declaration(texts[i]) == Some(Declaration::Namespace),
    ensures
        all_nodes_where(
            outline(texts).children,
            |h: Heading|
                h.start_line == i && h.node_type == "namespace"@ && h.id == child_id(
                    "0"@,
                    declaring_lines(texts, Declaration::Namespace, i),
                ),
        ) == 1,
{
    let p = |h: Heading|
        h.start_line == i && h.node_type == "namespace"@ && h.id == child_id(
            "0"@,
            declaring_lines(texts, Declaration::Namespace, i),
        );
    nodes_are_those_of_the_lines(texts, p);
    lemma_lines_are_counted(texts, p, i);
    lemma_one_line(texts, p, i, texts.len() as int);
}

} // verus!
