//! Where a declaration ends, and what stands in it.

use crate::laws::code::only_braces_are_worth_no_node;
use crate::laws::count::{
    all_nodes_where, frames_where, heading, heading_on_line, lemma_closing_keeps_nodes,
    lemma_lines_are_counted, lemma_one_line, nodes_are_those_of_the_lines, nodes_where,
    state_where, Heading,
};
use crate::laws::progress::closing_stops_below_the_depth;
use crate::laws::shape::{block_type, every_node, lemma_type_names};
use crate::laws::text::every_place_is_counted;
use crate::name::name_behind;
use crate::node::{leaf_view, NodeView};
use crate::outline::{
    after_lines, declaration, last_line, outline, statement_text, worth_a_node, Declaration,
    FrameView, OutlineView,
};
use crate::text::{child_id, decimal, occurrences};
use vstd::prelude::*;

verus! {

/// How many more braces were opened than closed on the first `n` lines.
pub open spec fn depth_behind(texts: Seq<Seq<char>>, n: int) -> int
    decreases n,
{
    if n <= 0 {
        0
    } else {
        depth_behind(texts, n - 1) + texts[n - 1].filter(|c: char| c == '{').len() - texts[n
            - 1].filter(|c: char| c == '}').len()
    }
}

/// Line `i` declares something with a body.
pub open spec fn opens_block(texts: Seq<Seq<char>>, i: int) -> bool {
    &&& texts[i].len() > 0
    &&& declaration(texts[i]) is Some
    &&& declaration(texts[i]) != Some(Declaration::Newtype)
}

/// Line `j` brings the depth back to where it was before line `i`. Line `i` itself
/// does so only where it opens a brace.
pub open spec fn brings_back(texts: Seq<Seq<char>>, i: int, j: int) -> bool {
    &&& depth_behind(texts, j + 1) <= depth_behind(texts, i)
    &&& if i == j {
        texts[i].contains('{')
    } else {
        texts[j].len() > 0
    }
}

/// A declaration between the lines `i` and `j` still waits for a lower depth than
/// the one behind line `j`.
pub open spec fn waits_between(texts: Seq<Seq<char>>, i: int, j: int) -> bool {
    exists|k: int|
        i < k < j && opens_block(texts, k) && #[trigger] depth_behind(texts, k) < depth_behind(
            texts,
            j + 1,
        )
}

/// `node`, if it has a body, starts on a line that declares one and ends on the
/// first line that brings the depth back; where there is none, on the last line.
/// Only a declaration within it that waits for a lower depth holds it open longer.
pub open spec fn ends_where_the_depth_is_back(texts: Seq<Seq<char>>, node: NodeView) -> bool {
    let i = node.start_line as int;
    let e = node.end_line as int;
    block_type(node.node_type) ==> {
        &&& i < texts.len()
        &&& opens_block(texts, i)
        &&& brings_back(texts, i, e) || e == texts.len() - 1
        &&& brings_back(texts, i, i) ==> e == i
        &&& forall|j: int|
            i < j < e && #[trigger] brings_back(texts, i, j) ==> waits_between(texts, i, j)
    }
}

/// A line that gets a node where a declaration is open: one that declares something
/// or holds more than braces.
pub open spec fn has_content(text: Seq<char>) -> bool {
    &&& text.len() > 0
    &&& declaration(text) is Some || !(forall|i: int|
        0 <= i < statement_text(text).len() ==> (#[trigger] statement_text(text)[i]) == '{'
            || statement_text(text)[i] == '}')
}

/// The node of line `i`: its type and label are what the line says.
pub open spec fn is_node_of_line(texts: Seq<Seq<char>>, i: int) -> spec_fn(Heading) -> bool {
    |g: Heading|
        {
            &&& g.start_line == i
            &&& match declaration(texts[i]) {
                Some(kind) => g.node_type == kind.keyword() && g.label == name_behind(
                    texts[i],
                    kind.keyword(),
                ),
                None => g.node_type == "qs_statement"@ && g.label == statement_text(texts[i]),
            }
        }
}

/// Below `node` stands the node of every line with content between its first and
/// its last line.
pub open spec fn holds_its_lines(texts: Seq<Seq<char>>, node: NodeView) -> bool {
    block_type(node.node_type) ==> forall|i: int|
        node.start_line < i < node.end_line && has_content(#[trigger] texts[i]) ==> all_nodes_where(
            node.children,
            is_node_of_line(texts, i),
        ) == 1
}

/// Every line with content between the first and the last line of `node` has a node
/// in the outline.
pub open spec fn its_lines_have_nodes(texts: Seq<Seq<char>>, node: NodeView) -> bool {
    block_type(node.node_type) ==> forall|i: int|
        node.start_line < i < node.end_line && has_content(#[trigger] texts[i]) ==> all_nodes_where(
            outline(texts).children,
            is_node_of_line(texts, i),
        ) == 1
}

spec fn its_lines_have_headings(texts: Seq<Seq<char>>, node: NodeView) -> bool {
    block_type(node.node_type) ==> forall|i: int|
        node.start_line < i < node.end_line && has_content(#[trigger] texts[i])
            ==> heading_on_line(texts, i) is Some
}

/// `node`, if it has a body, ends on a line that brings the depth back, and what
/// stands below it starts before that line.
pub open spec fn ends_behind_its_body(texts: Seq<Seq<char>>, node: NodeView) -> bool {
    block_type(node.node_type) ==> {
        &&& brings_back(texts, node.start_line as int, node.end_line as int)
        &&& forall|i: int|
            0 <= i < node.children.len() ==> every_node(
                #[trigger] node.children[i],
                |n: NodeView| n.start_line < node.end_line,
            )
    }
}

/// The nodes at the top level of an outline that their own lines have closed come
/// first; those that the source leaves open follow.
pub open spec fn closed_at_top_level(texts: Seq<Seq<char>>) -> nat {
    after_lines(texts, texts.len() as int).root.len()
}

spec fn fine_tree(texts: Seq<Seq<char>>, node: NodeView, m: int) -> bool
    decreases node,
{
    &&& node.start_line < m
    &&& ends_where_the_depth_is_back(texts, node)
    &&& holds_its_lines(texts, node)
    &&& its_lines_have_headings(texts, node)
    &&& node.end_line < texts.len()
    &&& block_type(node.node_type) ==> brings_back(
        texts,
        node.start_line as int,
        node.end_line as int,
    ) && all_start_before(node.children, node.end_line as int)
    &&& forall|i: int|
        0 <= i < node.children.len() ==> fine_tree(texts, #[trigger] node.children[i], m)
}

spec fn fine_trees(texts: Seq<Seq<char>>, nodes: Seq<NodeView>, m: int) -> bool {
    forall|i: int| 0 <= i < nodes.len() ==> fine_tree(texts, #[trigger] nodes[i], m)
}

spec fn starts_before(node: NodeView, m: int) -> bool
    decreases node,
{
    &&& node.start_line < m
    &&& forall|i: int|
        0 <= i < node.children.len() ==> starts_before(#[trigger] node.children[i], m)
}

spec fn all_start_before(nodes: Seq<NodeView>, m: int) -> bool {
    forall|i: int| 0 <= i < nodes.len() ==> starts_before(#[trigger] nodes[i], m)
}

/// What is known of an open declaration once `m` lines are read.
spec fn fine_frame(texts: Seq<Seq<char>>, f: FrameView, m: int) -> bool {
    let i = f.start_line as int;
    &&& i < m
    &&& block_type(f.node_type)
    &&& opens_block(texts, i)
    &&& f.close_depth == depth_behind(texts, i)
    &&& !brings_back(texts, i, i)
    &&& forall|j: int|
        i < j < m && #[trigger] brings_back(texts, i, j) ==> waits_between(texts, i, j)
    &&& forall|l: int|
        i < l < m && has_content(#[trigger] texts[l]) ==> heading_on_line(texts, l) is Some
    &&& fine_trees(texts, f.children, m)
}

/// What lies below a frame started before it.
spec fn below_starts_before(s: OutlineView, t: int) -> bool {
    let m = s.stack[t].start_line as int;
    &&& all_start_before(s.root, m)
    &&& forall|u: int|
        0 <= u < t ==> (#[trigger] s.stack[u]).start_line < m && all_start_before(
            s.stack[u].children,
            m,
        )
}

spec fn fine(texts: Seq<Seq<char>>, s: OutlineView, m: int) -> bool {
    &&& fine_trees(texts, s.root, m)
    &&& forall|t: int| 0 <= t < s.stack.len() ==> fine_frame(texts, #[trigger] s.stack[t], m)
    &&& forall|t: int| 0 <= t < s.stack.len() ==> #[trigger] below_starts_before(s, t)
}

/// Every line that got a node has it somewhere.
spec fn all_counted(texts: Seq<Seq<char>>, s: OutlineView, m: int) -> bool {
    forall|l: int|
        0 <= l < m && heading_on_line(texts, l) is Some && has_content(#[trigger] texts[l])
            ==> state_where(s, is_node_of_line(texts, l)) == 1
}

proof fn lemma_depth(texts: Seq<Seq<char>>, n: int)
    ensures
        after_lines(texts, n).depth == depth_behind(texts, n),
    decreases n,
{
    if n > 0 {
        let s = after_lines(texts, n - 1);
        let text = texts[n - 1];
        lemma_depth(texts, n - 1);
        every_place_is_counted(text, '{');
        every_place_is_counted(text, '}');
        closing_stops_below_the_depth(s, text, (n - 1) as u32);
        reveal(Seq::filter);
    }
}

proof fn lemma_contains(s: Seq<char>, c: char)
    ensures
        s.contains(c) <==> occurrences(s, c) > 0,
    decreases s.len(),
{
    if s.len() > 0 {
        let short = s.drop_last();
        lemma_contains(short, c);
        if s.contains(c) && s.last() != c {
            let i = choose|i: int| 0 <= i < s.len() && s[i] == c;
            assert(short[i] == c);
        }
        if short.contains(c) {
            let i = choose|i: int| 0 <= i < short.len() && short[i] == c;
            assert(s[i] == c);
        }
        if s.last() == c {
            assert(s[s.len() - 1] == c);
        }
    }
}

proof fn lemma_fine_starts_before(texts: Seq<Seq<char>>, node: NodeView, m: int)
    requires
        fine_tree(texts, node, m),
    ensures
        starts_before(node, m),
    decreases node,
{
    assert forall|i: int| 0 <= i < node.children.len() implies starts_before(
        #[trigger] node.children[i],
        m,
    ) by {
        lemma_fine_starts_before(texts, node.children[i], m);
    }
}

proof fn lemma_fine_later(texts: Seq<Seq<char>>, node: NodeView, m: int)
    requires
        fine_tree(texts, node, m),
    ensures
        fine_tree(texts, node, m + 1),
    decreases node,
{
    assert forall|i: int| 0 <= i < node.children.len() implies fine_tree(
        texts,
        #[trigger] node.children[i],
        m + 1,
    ) by {
        lemma_fine_later(texts, node.children[i], m);
    }
}

proof fn lemma_none_in_node(node: NodeView, m: int, p: spec_fn(Heading) -> bool)
    requires
        starts_before(node, m),
        forall|h: Heading| #[trigger] p(h) ==> h.start_line >= m,
    ensures
        nodes_where(node, p) == 0,
    decreases node, 1nat, 0nat,
{
    assert(heading(node).start_line < m);
    lemma_none_in_nodes(node.children, m, p);
}

proof fn lemma_none_in_nodes(nodes: Seq<NodeView>, m: int, p: spec_fn(Heading) -> bool)
    requires
        all_start_before(nodes, m),
        forall|h: Heading| #[trigger] p(h) ==> h.start_line >= m,
    ensures
        all_nodes_where(nodes, p) == 0,
    decreases nodes, 0nat, nodes.len(),
{
    if nodes.len() > 0 {
        let short = nodes.drop_last();
        assert forall|i: int| 0 <= i < short.len() implies starts_before(
            #[trigger] short[i],
            m,
        ) by {
            assert(starts_before(nodes[i], m));
        }
        lemma_none_in_nodes(short, m, p);
        lemma_none_in_node(nodes[nodes.len() - 1], m, p);
    }
}

proof fn lemma_none_in_frames(stack: Seq<FrameView>, m: int, p: spec_fn(Heading) -> bool)
    requires
        forall|u: int|
            0 <= u < stack.len() ==> (#[trigger] stack[u]).start_line < m && all_start_before(
                stack[u].children,
                m,
            ),
        forall|h: Heading| #[trigger] p(h) ==> h.start_line >= m,
    ensures
        frames_where(stack, p) == 0,
    decreases stack.len(),
{
    if stack.len() > 0 {
        let short = stack.drop_last();
        assert forall|u: int| 0 <= u < short.len() implies (#[trigger] short[u]).start_line < m
            && all_start_before(short[u].children, m) by {
            assert(stack[u].start_line < m);
        }
        lemma_none_in_frames(short, m, p);
        let top = stack.last();
        assert(top == stack[stack.len() - 1]);
        assert(heading(top.closed_at(0)).start_line < m);
        lemma_none_in_nodes(top.children, m, p);
    }
}

/// What the innermost declaration holds of the lines behind its first is all that
/// there is of them.
proof fn lemma_top_holds(s: OutlineView, p: spec_fn(Heading) -> bool)
    requires
        s.stack.len() > 0,
        below_starts_before(s, s.stack.len() - 1),
        forall|h: Heading| #[trigger] p(h) ==> h.start_line > s.stack.last().start_line,
    ensures
        all_nodes_where(s.stack.last().children, p) == state_where(s, p),
{
    let top = s.stack.last();
    let m = top.start_line as int;
    let short = s.stack.drop_last();
    assert forall|u: int| 0 <= u < short.len() implies (#[trigger] short[u]).start_line < m
        && all_start_before(short[u].children, m) by {
        assert(s.stack[u].start_line < m);
    }
    lemma_none_in_nodes(s.root, m, p);
    lemma_none_in_frames(short, m, p);
    assert(!p(heading(top.closed_at(0))));
}

#[verifier::rlimit(50)]
proof fn lemma_attach(texts: Seq<Seq<char>>, s: OutlineView, node: NodeView, m: int)
    requires
        fine(texts, s, m),
        fine_tree(texts, node, m),
    ensures
        fine(texts, s.attach(node), m),
{
    let t = s.attach(node);
    let top = s.stack.len() - 1;
    if s.stack.len() > 0 {
        assert forall|u: int| 0 <= u < t.stack.len() implies fine_frame(
            texts,
            #[trigger] t.stack[u],
            m,
        ) by {
            assert(fine_frame(texts, s.stack[u], m));
        }
        assert forall|u: int| 0 <= u < t.stack.len() implies #[trigger] below_starts_before(
            t,
            u,
        ) by {
            assert(below_starts_before(s, u));
            assert forall|v: int| 0 <= v < u implies (#[trigger] t.stack[v]).start_line
                < t.stack[u].start_line && all_start_before(
                t.stack[v].children,
                t.stack[u].start_line as int,
            ) by {
                assert(t.stack[v] == s.stack[v]);
            }
        }
    }
}

/// The innermost declaration, closed on line `m`, which brings the depth back.
#[verifier::rlimit(50)]
proof fn lemma_top_is_fine(texts: Seq<Seq<char>>, s: OutlineView, m: int)
    requires
        0 <= m < texts.len() <= 0x1_0000_0000,
        s.stack.len() > 0,
        fine_frame(texts, s.stack.last(), m),
        below_starts_before(s, s.stack.len() - 1),
        all_counted(texts, s, m),
        brings_back(texts, s.stack.last().start_line as int, m),
    ensures
        fine_tree(texts, s.stack.last().closed_at(m as u32), m),
{
    let top = s.stack.last();
    let node = top.closed_at(m as u32);
    assert(holds_its_lines(texts, node)) by {
        assert forall|i: int| node.start_line < i < node.end_line && has_content(
            #[trigger] texts[i],
        ) implies all_nodes_where(node.children, is_node_of_line(texts, i)) == 1 by {
            let p = is_node_of_line(texts, i);
            assert(heading_on_line(texts, i) is Some);
            assert(state_where(s, p) == 1);
            lemma_top_holds(s, p);
        }
    }
    assert(all_start_before(node.children, m)) by {
        assert forall|i: int| 0 <= i < node.children.len() implies starts_before(
            #[trigger] node.children[i],
            m,
        ) by {
            lemma_fine_starts_before(texts, top.children[i], m);
        }
    }
    assert(ends_where_the_depth_is_back(texts, node));
    assert(its_lines_have_headings(texts, node));
}

proof fn lemma_below_is_fine(texts: Seq<Seq<char>>, s: OutlineView, m: int)
    requires
        fine(texts, s, m),
        s.stack.len() > 0,
    ensures
        fine(texts, OutlineView { stack: s.stack.drop_last(), ..s }, m),
{
    let below = OutlineView { stack: s.stack.drop_last(), ..s };
    assert forall|u: int| 0 <= u < below.stack.len() implies fine_frame(
        texts,
        #[trigger] below.stack[u],
        m,
    ) by {
        assert(fine_frame(texts, s.stack[u], m));
    }
    assert forall|u: int| 0 <= u < below.stack.len() implies #[trigger] below_starts_before(
        below,
        u,
    ) by {
        assert(below_starts_before(s, u));
        assert forall|v: int| 0 <= v < u implies (#[trigger] below.stack[v]).start_line
            < below.stack[u].start_line && all_start_before(
            below.stack[v].children,
            below.stack[u].start_line as int,
        ) by {
            assert(below.stack[v] == s.stack[v]);
        }
    }
}

#[verifier::rlimit(50)]
proof fn lemma_close_top(texts: Seq<Seq<char>>, s: OutlineView, m: int)
    requires
        0 <= m < texts.len() <= 0x1_0000_0000,
        fine(texts, s, m),
        all_counted(texts, s, m),
        s.stack.len() > 0,
        brings_back(texts, s.stack.last().start_line as int, m),
    ensures
        fine(texts, s.close_top(m as u32), m),
        all_counted(texts, s.close_top(m as u32), m),
{
    let end = m as u32;
    assert(fine_frame(texts, s.stack[s.stack.len() - 1], m));
    lemma_top_is_fine(texts, s, m);
    lemma_below_is_fine(texts, s, m);
    lemma_attach(
        texts,
        OutlineView { stack: s.stack.drop_last(), ..s },
        s.stack.last().closed_at(end),
        m,
    );
    assert forall|l: int|
        0 <= l < m && heading_on_line(texts, l) is Some && has_content(
            #[trigger] texts[l],
        ) implies state_where(s.close_top(end), is_node_of_line(texts, l)) == 1 by {
        lemma_closing_keeps_nodes(s, end, is_node_of_line(texts, l));
    }
}

#[verifier::rlimit(50)]
proof fn lemma_close_reached(texts: Seq<Seq<char>>, s: OutlineView, m: int)
    requires
        0 <= m < texts.len() <= 0x1_0000_0000,
        texts[m].len() > 0,
        s.depth == depth_behind(texts, m + 1),
        fine(texts, s, m),
        all_counted(texts, s, m),
    ensures
        ({
            let t = s.close_reached(m as u32);
            &&& fine(texts, t, m)
            &&& t.depth == s.depth
            &&& t.stack.len() > 0 ==> t.stack.last().close_depth < t.depth
        }),
    decreases s.stack.len(),
{
    if s.stack.len() > 0 {
        assert(fine_frame(texts, s.stack[s.stack.len() - 1], m));
        if s.stack.last().close_depth >= s.depth {
            lemma_close_top(texts, s, m);
            lemma_close_reached(texts, s.close_top(m as u32), m);
        }
    }
}

/// A declaration that line `m` did not close stays what it was, with one line more.
#[verifier::rlimit(50)]
proof fn lemma_frames_pass(texts: Seq<Seq<char>>, s: OutlineView, m: int)
    requires
        0 <= m < texts.len() <= 0x1_0000_0000,
        fine(texts, s, m),
        texts[m].len() > 0 ==> s.stack.len() > 0 ==> s.stack.last().close_depth < depth_behind(
            texts,
            m + 1,
        ),
        s.stack.len() > 0 && has_content(texts[m]) ==> heading_on_line(texts, m) is Some,
    ensures
        fine(texts, s, m + 1),
{
    assert forall|i: int| 0 <= i < s.root.len() implies fine_tree(
        texts,
        #[trigger] s.root[i],
        m + 1,
    ) by {
        lemma_fine_later(texts, s.root[i], m);
    }
    assert forall|t: int| 0 <= t < s.stack.len() implies fine_frame(
        texts,
        #[trigger] s.stack[t],
        m + 1,
    ) by {
        let f = s.stack[t];
        let i = f.start_line as int;
        assert(fine_frame(texts, f, m));
        assert forall|j: int| i < j < m + 1 && #[trigger] brings_back(texts, i, j) implies
            waits_between(texts, i, j) by {
            if j == m {
                let top = s.stack.len() - 1;
                assert(fine_frame(texts, s.stack[top], m));
                assert(below_starts_before(s, top));
                let k = s.stack[top].start_line as int;
                assert(t != top);
                assert(i < k < m);
                assert(depth_behind(texts, k) < depth_behind(texts, m + 1));
            }
        }
        assert forall|c: int| 0 <= c < f.children.len() implies fine_tree(
            texts,
            #[trigger] f.children[c],
            m + 1,
        ) by {
            lemma_fine_later(texts, f.children[c], m);
        }
    }
}

proof fn lemma_leaf_is_fine(texts: Seq<Seq<char>>, node: NodeView, m: int)
    requires
        !block_type(node.node_type),
        node.children.len() == 0,
        node.start_line == m,
        node.end_line < texts.len(),
    ensures
        fine_tree(texts, node, m + 1),
{
}

proof fn lemma_content(text: Seq<char>)
    ensures
        has_content(text) <==> text.len() > 0 && (declaration(text) is Some || worth_a_node(
            statement_text(text),
        )),
{
    only_braces_are_worth_no_node(statement_text(text));
}

#[verifier::rlimit(50)]
proof fn lemma_step(texts: Seq<Seq<char>>, m: int)
    requires
        0 <= m < texts.len() <= 0x1_0000_0000,
        fine(texts, after_lines(texts, m), m),
        all_counted(texts, after_lines(texts, m), m),
    ensures
        fine(texts, after_lines(texts, m + 1), m + 1),
{
    let s = after_lines(texts, m);
    let text = texts[m];
    let line = m as u32;
    lemma_depth(texts, m);
    lemma_content(text);
    if text.len() == 0 {
        lemma_frames_pass(texts, s, m);
    } else {
        let counted = OutlineView {
            depth: s.depth + occurrences(text, '{') - occurrences(text, '}'),
            ..s
        };
        let moved = s.count_braces(text, line);
        every_place_is_counted(text, '{');
        every_place_is_counted(text, '}');
        assert(counted.depth == depth_behind(texts, m + 1));
        assert(fine(texts, counted, m)) by {
            assert forall|t: int| 0 <= t < counted.stack.len() implies
                #[trigger] below_starts_before(counted, t) by {
                assert(below_starts_before(s, t));
            }
        }
        assert(all_counted(texts, counted, m)) by {
            assert forall|l: int|
                0 <= l < m && heading_on_line(texts, l) is Some && has_content(
                    #[trigger] texts[l],
                ) implies state_where(counted, is_node_of_line(texts, l)) == 1 by {
                assert(state_where(s, is_node_of_line(texts, l)) == 1);
            }
        }
        lemma_close_reached(texts, counted, m);
        lemma_frames_pass(texts, moved, m);
        lemma_type_names();
        match declaration(text) {
            Some(Declaration::Newtype) => {
                let name = name_behind(text, Declaration::Newtype.keyword());
                let node = leaf_view(
                    moved.next_id(),
                    Declaration::Newtype.keyword(),
                    name,
                    line,
                );
                lemma_leaf_is_fine(texts, node, m);
                lemma_attach(texts, moved, node, m + 1);
            },
            Some(kind) => {
                lemma_declare(texts, moved, s.depth, kind, m);
            },
            None => {
                let node = leaf_view(
                    moved.next_id(),
                    "qs_statement"@,
                    statement_text(text),
                    line,
                );
                lemma_leaf_is_fine(texts, node, m);
                lemma_attach(texts, moved, node, m + 1);
            },
        }
    }
}

#[verifier::rlimit(50)]
proof fn lemma_declare(
    texts: Seq<Seq<char>>,
    moved: OutlineView,
    before: int,
    kind: Declaration,
    m: int,
)
    requires
        0 <= m < texts.len() <= 0x1_0000_0000,
        texts[m].len() > 0,
        declaration(texts[m]) == Some(kind),
        kind != Declaration::Newtype,
        before == depth_behind(texts, m),
        moved.depth == depth_behind(texts, m + 1),
        fine(texts, moved, m),
        fine(texts, moved, m + 1),
    ensures
        ({
            let opened = moved.open_block(
                kind,
                name_behind(texts[m], kind.keyword()),
                m as u32,
                before,
            );
            let result = if occurrences(texts[m], '{') > 0 && opened.depth <= before {
                opened.close_top(m as u32)
            } else {
                opened
            };
            fine(texts, result, m + 1)
        }),
{
    let line = m as u32;
    let opened = moved.open_block(kind, name_behind(texts[m], kind.keyword()), line, before);
    let frame = opened.stack.last();
    lemma_type_names();
    lemma_contains(texts[m], '{');
    assert(opens_block(texts, m));
    if occurrences(texts[m], '{') > 0 && opened.depth <= before {
        let node = frame.closed_at(line);
        assert(brings_back(texts, m, m));
        assert(fine_tree(texts, node, m + 1));
        let below = OutlineView { stack: opened.stack.drop_last(), ..opened };
        assert(below.stack == moved.stack);
        assert(fine(texts, below, m + 1)) by {
            assert forall|t: int| 0 <= t < below.stack.len() implies
                #[trigger] below_starts_before(below, t) by {
                assert(below_starts_before(moved, t));
            }
        }
        lemma_attach(texts, below, node, m + 1);
    } else {
        assert forall|t: int| 0 <= t < opened.stack.len() implies fine_frame(
            texts,
            #[trigger] opened.stack[t],
            m + 1,
        ) by {
            if t < moved.stack.len() {
                assert(fine_frame(texts, moved.stack[t], m + 1));
            }
        }
        assert forall|t: int| 0 <= t < opened.stack.len() implies #[trigger] below_starts_before(
            opened,
            t,
        ) by {
            if t < moved.stack.len() {
                assert(below_starts_before(moved, t));
                assert forall|u: int| 0 <= u < t implies (#[trigger] opened.stack[u]).start_line
                    < opened.stack[t].start_line && all_start_before(
                    opened.stack[u].children,
                    opened.stack[t].start_line as int,
                ) by {
                    assert(opened.stack[u] == moved.stack[u]);
                }
            } else {
                assert forall|i: int| 0 <= i < moved.root.len() implies starts_before(
                    #[trigger] moved.root[i],
                    m,
                ) by {
                    lemma_fine_starts_before(texts, moved.root[i], m);
                }
                assert forall|u: int| 0 <= u < t implies (#[trigger] opened.stack[u]).start_line
                    < m && all_start_before(opened.stack[u].children, m) by {
                    let f = moved.stack[u];
                    assert(opened.stack[u] == f);
                    assert(fine_frame(texts, f, m));
                    assert forall|i: int| 0 <= i < f.children.len() implies starts_before(
                        #[trigger] f.children[i],
                        m,
                    ) by {
                        lemma_fine_starts_before(texts, f.children[i], m);
                    }
                }
            }
        }
    }
}

proof fn lemma_all_counted(texts: Seq<Seq<char>>, m: int)
    requires
        0 <= m <= texts.len() <= 0x1_0000_0000,
    ensures
        all_counted(texts, after_lines(texts, m), m),
{
    assert forall|l: int|
        0 <= l < m && heading_on_line(texts, l) is Some && has_content(
            #[trigger] texts[l],
        ) implies state_where(after_lines(texts, m), is_node_of_line(texts, l)) == 1 by {
        let p = is_node_of_line(texts, l);
        lemma_lines_are_counted(texts, p, m);
        lemma_one_line(texts, p, l, m);
        let h = heading_on_line(texts, l).unwrap();
        assert(p(h));
    }
}

proof fn lemma_lines(texts: Seq<Seq<char>>, m: int)
    requires
        0 <= m <= texts.len() <= 0x1_0000_0000,
    ensures
        fine(texts, after_lines(texts, m), m),
    decreases m,
{
    if m > 0 {
        lemma_lines(texts, m - 1);
        lemma_all_counted(texts, m - 1);
        lemma_step(texts, m - 1);
    }
}

proof fn lemma_lines_have_nodes(texts: Seq<Seq<char>>, node: NodeView)
    requires
        texts.len() <= 0x1_0000_0000,
        its_lines_have_headings(texts, node),
        node.end_line < texts.len(),
    ensures
        its_lines_have_nodes(texts, node),
{
    if block_type(node.node_type) {
        assert forall|i: int| node.start_line < i < node.end_line && has_content(
            #[trigger] texts[i],
        ) implies all_nodes_where(outline(texts).children, is_node_of_line(texts, i)) == 1 by {
            let p = is_node_of_line(texts, i);
            let h = heading_on_line(texts, i).unwrap();
            nodes_are_those_of_the_lines(texts, p);
            lemma_one_line(texts, p, i, texts.len() as int);
            assert(p(h));
        }
    }
}

#[verifier::rlimit(50)]
proof fn lemma_every_node(texts: Seq<Seq<char>>, node: NodeView, m: int)
    requires
        fine_tree(texts, node, m),
    ensures
        every_node(node, |n: NodeView| ends_where_the_depth_is_back(texts, n)),
        every_node(node, |n: NodeView| holds_its_lines(texts, n)),
        every_node(node, |n: NodeView| ends_behind_its_body(texts, n)),
        texts.len() <= 0x1_0000_0000 ==> every_node(
            node,
            |n: NodeView| its_lines_have_nodes(texts, n),
        ),
    decreases node,
{
    let p = |n: NodeView| ends_where_the_depth_is_back(texts, n);
    let q = |n: NodeView| holds_its_lines(texts, n);
    let r = |n: NodeView| its_lines_have_nodes(texts, n);
    let b = |n: NodeView| ends_behind_its_body(texts, n);
    if texts.len() <= 0x1_0000_0000 {
        lemma_lines_have_nodes(texts, node);
    }
    if block_type(node.node_type) {
        let end = node.end_line as int;
        assert forall|i: int| 0 <= i < node.children.len() implies every_node(
            #[trigger] node.children[i],
            |n: NodeView| n.start_line < node.end_line,
        ) by {
            lemma_starts(node.children[i], end);
            assert((|n: NodeView| n.start_line < end) =~= (|n: NodeView|
                n.start_line < node.end_line));
        }
    }
    assert(ends_behind_its_body(texts, node));
    assert forall|i: int| 0 <= i < node.children.len() implies every_node(
        #[trigger] node.children[i],
        p,
    ) && every_node(node.children[i], q) && every_node(node.children[i], b) && (texts.len()
        <= 0x1_0000_0000 ==> every_node(node.children[i], r)) by {
        lemma_every_node(texts, node.children[i], m);
    }
}

/// Every declaration with a body ends on the first line that brings the brace depth
/// back to where it was before the declaration, and on the last line where none
/// does. The source has no more lines than line numbers can tell apart.
pub proof fn declarations_end_where_the_depth_is_back(texts: Seq<Seq<char>>)
    requires
        texts.len() <= 0x1_0000_0000,
    ensures
        forall|i: int|
            0 <= i < outline(texts).children.len() ==> every_node(
                #[trigger] outline(texts).children[i],
                |n: NodeView| ends_where_the_depth_is_back(texts, n),
            ),
{
    let n = texts.len() as int;
    let s = after_lines(texts, n);
    let tree = outline(texts);
    let p = |n: NodeView| ends_where_the_depth_is_back(texts, n);
    lemma_lines(texts, n);
    assert forall|i: int| 0 <= i < tree.children.len() implies every_node(
        #[trigger] tree.children[i],
        p,
    ) by {
        if i < s.root.len() {
            assert(tree.children[i] == s.root[i]);
            lemma_every_node(texts, tree.children[i], n);
        } else {
            let f = s.stack[s.stack.len() - 1 - (i - s.root.len())];
            let node = tree.children[i];
            assert(node == f.closed_at(last_line(n)));
            assert(fine_frame(texts, f, n));
            assert(ends_where_the_depth_is_back(texts, node));
            assert forall|c: int| 0 <= c < node.children.len() implies every_node(
                #[trigger] node.children[c],
                p,
            ) by {
                lemma_every_node(texts, f.children[c], n);
            }
        }
    }
}

/// The node of every line between the first and the last line of a declaration
/// stands below it, with the type and the label that the line gives it. This holds
/// of every declaration that was closed: those below another, and the first ones at
/// the top level. The source has no more lines than line numbers can tell apart.
pub proof fn bodies_hold_their_lines(texts: Seq<Seq<char>>)
    requires
        texts.len() <= 0x1_0000_0000,
    ensures
        forall|i: int|
            0 <= i < closed_at_top_level(texts) ==> every_node(
                #[trigger] outline(texts).children[i],
                |n: NodeView| holds_its_lines(texts, n),
            ),
        forall|i: int, c: int|
            #![trigger outline(texts).children[i].children[c]]
            0 <= i < outline(texts).children.len() && 0 <= c < outline(
                texts,
            ).children[i].children.len() ==> every_node(
                outline(texts).children[i].children[c],
                |n: NodeView| holds_its_lines(texts, n),
            ),
{
    let n = texts.len() as int;
    let s = after_lines(texts, n);
    let tree = outline(texts);
    let q = |n: NodeView| holds_its_lines(texts, n);
    lemma_lines(texts, n);
    assert forall|i: int| 0 <= i < s.root.len() implies every_node(
        #[trigger] tree.children[i],
        q,
    ) by {
        assert(tree.children[i] == s.root[i]);
        lemma_every_node(texts, tree.children[i], n);
    }
    assert forall|i: int, c: int|
        #![trigger tree.children[i].children[c]]
        0 <= i < tree.children.len() && 0 <= c < tree.children[i].children.len() implies every_node(
        tree.children[i].children[c],
        q,
    ) by {
        if i < s.root.len() {
            assert(tree.children[i] == s.root[i]);
            assert(fine_tree(texts, tree.children[i], n));
            lemma_every_node(texts, tree.children[i].children[c], n);
        } else {
            let f = s.stack[s.stack.len() - 1 - (i - s.root.len())];
            assert(tree.children[i] == f.closed_at(last_line(n)));
            assert(fine_frame(texts, f, n));
            lemma_every_node(texts, f.children[c], n);
        }
    }
}

/// A closed declaration ends on a line that brings the depth back, and all that
/// stands below it starts before that line: the closing line itself belongs outside.
/// The source has no more lines than line numbers can tell apart.
pub proof fn closing_lines_stand_outside(texts: Seq<Seq<char>>)
    requires
        texts.len() <= 0x1_0000_0000,
    ensures
        forall|i: int|
            0 <= i < closed_at_top_level(texts) ==> every_node(
                #[trigger] outline(texts).children[i],
                |n: NodeView| ends_behind_its_body(texts, n),
            ),
        forall|i: int, c: int|
            #![trigger outline(texts).children[i].children[c]]
            0 <= i < outline(texts).children.len() && 0 <= c < outline(
                texts,
            ).children[i].children.len() ==> every_node(
                outline(texts).children[i].children[c],
                |n: NodeView| ends_behind_its_body(texts, n),
            ),
{
    let n = texts.len() as int;
    let s = after_lines(texts, n);
    let tree = outline(texts);
    let q = |n: NodeView| ends_behind_its_body(texts, n);
    lemma_lines(texts, n);
    assert forall|i: int| 0 <= i < s.root.len() implies every_node(
        #[trigger] tree.children[i],
        q,
    ) by {
        assert(tree.children[i] == s.root[i]);
        lemma_every_node(texts, tree.children[i], n);
    }
    assert forall|i: int, c: int|
        #![trigger tree.children[i].children[c]]
        0 <= i < tree.children.len() && 0 <= c < tree.children[i].children.len() implies every_node(
        tree.children[i].children[c],
        q,
    ) by {
        if i < s.root.len() {
            assert(tree.children[i] == s.root[i]);
            assert(fine_tree(texts, tree.children[i], n));
            lemma_every_node(texts, tree.children[i].children[c], n);
        } else {
            let f = s.stack[s.stack.len() - 1 - (i - s.root.len())];
            assert(tree.children[i] == f.closed_at(last_line(n)));
            assert(fine_frame(texts, f, n));
            lemma_every_node(texts, f.children[c], n);
        }
    }
}

/// Every line with content between the first and the last line of a declaration has
/// its node in the outline, also where the source leaves the declaration open. The
/// source has no more lines than line numbers can tell apart.
pub proof fn lines_within_declarations_have_nodes(texts: Seq<Seq<char>>)
    requires
        texts.len() <= 0x1_0000_0000,
    ensures
        forall|i: int|
            0 <= i < outline(texts).children.len() ==> every_node(
                #[trigger] outline(texts).children[i],
                |n: NodeView| its_lines_have_nodes(texts, n),
            ),
{
    let n = texts.len() as int;
    let s = after_lines(texts, n);
    let tree = outline(texts);
    let r = |n: NodeView| its_lines_have_nodes(texts, n);
    lemma_lines(texts, n);
    assert forall|i: int| 0 <= i < tree.children.len() implies every_node(
        #[trigger] tree.children[i],
        r,
    ) by {
        if i < s.root.len() {
            assert(tree.children[i] == s.root[i]);
            lemma_every_node(texts, tree.children[i], n);
        } else {
            let f = s.stack[s.stack.len() - 1 - (i - s.root.len())];
            let node = tree.children[i];
            assert(node == f.closed_at(last_line(n)));
            assert(fine_frame(texts, f, n));
            lemma_lines_have_nodes(texts, node);
            assert forall|c: int| 0 <= c < node.children.len() implies every_node(
                #[trigger] node.children[c],
                r,
            ) by {
                lemma_every_node(texts, f.children[c], n);
            }
        }
    }
}

proof fn lemma_starts(node: NodeView, m: int)
    requires
        starts_before(node, m),
    ensures
        every_node(node, |n: NodeView| n.start_line < m),
    decreases node,
{
    let p = |n: NodeView| n.start_line < m;
    assert forall|i: int| 0 <= i < node.children.len() implies every_node(
        #[trigger] node.children[i],
        p,
    ) by {
        lemma_starts(node.children[i], m);
    }
}

/// The declarations that the source leaves open stand at the top level behind the
/// closed ones, innermost first: all of a later one, and all of the closed ones,
/// starts before an earlier one starts. They end on the last line. The source has
/// no more lines than line numbers can tell apart.
pub proof fn open_declarations_come_innermost_first(texts: Seq<Seq<char>>, i: int, j: int)
    requires
        texts.len() <= 0x1_0000_0000,
        closed_at_top_level(texts) <= i < outline(texts).children.len(),
        0 <= j < outline(texts).children.len(),
        j > i || j < closed_at_top_level(texts),
    ensures
        every_node(
            outline(texts).children[j],
            |n: NodeView| n.start_line < outline(texts).children[i].start_line,
        ),
        outline(texts).children[i].end_line == texts.len() - 1,
        block_type(outline(texts).children[i].node_type),
{
    let n = texts.len() as int;
    let s = after_lines(texts, n);
    let tree = outline(texts);
    let t = s.stack.len() - 1 - (i - s.root.len());
    lemma_lines(texts, n);
    let f = s.stack[t];
    let m = f.start_line as int;
    assert(tree.children[i] == f.closed_at(last_line(n)));
    assert(fine_frame(texts, f, n));
    assert(below_starts_before(s, t));
    if j < s.root.len() {
        assert(tree.children[j] == s.root[j]);
        lemma_starts(s.root[j], m);
    } else {
        let u = s.stack.len() - 1 - (j - s.root.len());
        let g = s.stack[u];
        let node = tree.children[j];
        assert(node == g.closed_at(last_line(n)));
        assert(g.start_line < m);
        assert(starts_before(node, m)) by {
            assert forall|c: int| 0 <= c < node.children.len() implies starts_before(
                #[trigger] node.children[c],
                m,
            ) by {
                assert(starts_before(g.children[c], m));
            }
        }
        lemma_starts(node, m);
    }
    assert(every_node(tree.children[j], |n: NodeView| n.start_line < m));
    assert((|n: NodeView| n.start_line < m) =~= (|n: NodeView|
        n.start_line < tree.children[i].start_line));
}

/// What stands at the top level before anything is open: declarations, of which all
/// but the namespaces have the id `0.0`.
spec fn top_fine(s: OutlineView) -> bool {
    &&& forall|i: int|
        0 <= i < s.root.len() ==> (#[trigger] s.root[i]).node_type != "qs_statement"@ && (
        s.root[i].node_type == "namespace"@ || s.root[i].id == child_id("0"@, 0))
    &&& forall|t: int| 0 <= t < s.stack.len() ==> (#[trigger] s.stack[t]).node_type
        != "qs_statement"@
    &&& s.stack.len() > 0 ==> s.stack[0].node_type == "namespace"@ || s.stack[0].id == child_id(
        "0"@,
        0,
    )
}

proof fn lemma_top_close(s: OutlineView, end: u32)
    requires
        top_fine(s),
        s.stack.len() > 0,
    ensures
        top_fine(s.close_top(end)),
{
    let below = OutlineView { stack: s.stack.drop_last(), ..s };
    let t = s.close_top(end);
    let top = s.stack[s.stack.len() - 1];
    assert(top.node_type != "qs_statement"@);
    assert forall|u: int| 0 <= u < t.stack.len() implies (#[trigger] t.stack[u]).node_type
        != "qs_statement"@ by {
        assert(t.stack[u].node_type == s.stack[u].node_type);
    }
    if s.stack.len() > 1 {
        assert(t.stack[0].node_type == s.stack[0].node_type && t.stack[0].id == s.stack[0].id);
    }
}

proof fn lemma_top_close_reached(s: OutlineView, end: u32)
    requires
        top_fine(s),
    ensures
        top_fine(s.close_reached(end)),
    decreases s.stack.len(),
{
    if s.stack.len() > 0 && s.stack.last().close_depth >= s.depth {
        lemma_top_close(s, end);
        lemma_top_close_reached(s.close_top(end), end);
    }
}

#[verifier::rlimit(50)]
proof fn lemma_top_lines(texts: Seq<Seq<char>>, n: int)
    ensures
        top_fine(after_lines(texts, n)),
    decreases n,
{
    if n > 0 {
        let s = after_lines(texts, n - 1);
        let text = texts[n - 1];
        let line = (n - 1) as u32;
        lemma_top_lines(texts, n - 1);
        lemma_type_names();
        let t = s.step(text, line);
        if text.len() > 0 {
            let counted = OutlineView {
                depth: s.depth + occurrences(text, '{') - occurrences(text, '}'),
                ..s
            };
            let moved = s.count_braces(text, line);
            lemma_top_close_reached(counted, line);
            match declaration(text) {
                Some(kind) => {
                    if kind != Declaration::Newtype {
                        let opened = moved.open_block(
                            kind,
                            name_behind(text, kind.keyword()),
                            line,
                            s.depth,
                        );
                        assert(block_type(kind.keyword()));
                        assert(top_fine(opened)) by {
                            assert forall|u: int| 0 <= u < opened.stack.len() implies (
                            #[trigger] opened.stack[u]).node_type != "qs_statement"@ by {
                                if u < moved.stack.len() {
                                    assert(opened.stack[u] == moved.stack[u]);
                                }
                            }
                            if moved.stack.len() > 0 {
                                assert(opened.stack[0] == moved.stack[0]);
                            }
                        }
                        lemma_top_close(opened, line);
                    } else {
                        if moved.stack.len() == 0 {
                            assert(t.root.drop_last() == moved.root);
                        }
                        lemma_top_attach(moved, t);
                    }
                },
                None => {
                    if worth_a_node(statement_text(text)) && moved.stack.len() > 0 {
                        lemma_top_attach(moved, t);
                    }
                },
            }
        }
    }
}

proof fn lemma_top_attach(s: OutlineView, t: OutlineView)
    requires
        top_fine(s),
        s.stack.len() == t.stack.len(),
        forall|u: int|
            0 <= u < s.stack.len() ==> (#[trigger] t.stack[u]).node_type == s.stack[u].node_type
                && t.stack[u].id == s.stack[u].id,
        s.stack.len() > 0 ==> t.root == s.root,
        s.stack.len() == 0 ==> t.root.len() == s.root.len() + 1 && t.root.drop_last() == s.root
            && t.root.last().node_type != "qs_statement"@ && t.root.last().id == child_id("0"@, 0),
    ensures
        top_fine(t),
{
    assert forall|i: int| 0 <= i < t.root.len() implies (#[trigger] t.root[i]).node_type
        != "qs_statement"@ && (t.root[i].node_type == "namespace"@ || t.root[i].id == child_id(
        "0"@,
        0,
    )) by {
        if s.stack.len() == 0 && i < s.root.len() {
            assert(t.root.drop_last()[i] == s.root[i]);
        }
    }
    assert forall|u: int| 0 <= u < t.stack.len() implies (#[trigger] t.stack[u]).node_type
        != "qs_statement"@ by {
        assert(s.stack[u].node_type != "qs_statement"@);
    }
}

/// Statements stand in bodies only: none stands at the top level.
pub proof fn statements_stand_in_bodies(texts: Seq<Seq<char>>, i: int)
    requires
        0 <= i < outline(texts).children.len(),
    ensures
        outline(texts).children[i].node_type != "qs_statement"@,
{
    let n = texts.len() as int;
    let s = after_lines(texts, n);
    lemma_top_lines(texts, n);
    if i < s.root.len() {
        assert(outline(texts).children[i] == s.root[i]);
    } else {
        let f = s.stack[s.stack.len() - 1 - (i - s.root.len())];
        assert(outline(texts).children[i] == f.closed_at(last_line(n)));
    }
}

/// A closed declaration at the top level has the id `0.0`, unless it is a namespace.
pub proof fn top_level_ids(texts: Seq<Seq<char>>, i: int)
    requires
        0 <= i < closed_at_top_level(texts),
    ensures
        outline(texts).children[i].node_type == "namespace"@ || outline(texts).children[i].id
            == "0.0"@,
{
    let n = texts.len() as int;
    lemma_top_lines(texts, n);
    assert(outline(texts).children[i] == after_lines(texts, n).root[i]);
    assert(child_id("0"@, 0) == "0.0"@) by {
        reveal_strlit("0");
        reveal_strlit("0.0");
        assert(decimal(0) == seq!['0']);
    }
}

} // verus!
