//! Parsing of a source into its outline.

use crate::lowercase::fold;
use crate::name::{cut_name, name_behind};
use crate::node::{block_node, leaf, node_views, NodeView, SemanticNode};
use crate::outline::{
    after_lines, brace, code_text, declaration, frame_views, outline, push_to, worth_a_node,
    Declaration, OutlineView, QsFrame,
};
use crate::text::{
    chars_of, copy_text, count_char, find, found, lemma_found_is_first, lemma_line_len_bound,
    lemma_piece_by_index, lemma_piece_of_piece, lemma_trimmed_is_piece, line_len, lines_of,
    make_child_id, piece_of, same_text, split_first_word, split_lines, string_of, texts, trim,
    trim_end_matches, trimmed, without_carriage_return,
};
use vstd::prelude::*;
use vstd::slice::slice_subrange;
use vstd::utf8::is_ascii_chars;

verus! {

/// The code on each line of a source.
pub open spec fn code_lines(source: Seq<char>) -> Seq<Seq<char>> {
    lines_of(source).map_values(|l: Seq<char>| code_text(l))
}

/// How many characters stand on the lines.
pub open spec fn total_len(lines: Seq<Seq<char>>) -> nat
    decreases lines.len(),
{
    if lines.len() == 0 {
        0
    } else {
        total_len(lines.drop_last()) + lines.last().len()
    }
}

proof fn lemma_code_is_piece(line: Seq<char>)
    ensures
        piece_of(code_text(line), line),
{
    let t = trimmed(line);
    lemma_trimmed_is_piece(line);
    if let Some(p) = found(t, "//"@) {
        lemma_found_is_first(t, "//"@);
        lemma_piece_by_index(t, 0, p);
        lemma_trimmed_is_piece(t.take(p));
        lemma_piece_of_piece(code_text(line), t.take(p), t);
        lemma_piece_of_piece(code_text(line), t, line);
    }
}

proof fn lemma_total_len_cons(first: Seq<char>, rest: Seq<Seq<char>>)
    ensures
        total_len(seq![first] + rest) == first.len() + total_len(rest),
    decreases rest.len(),
{
    let all = seq![first] + rest;
    if rest.len() == 0 {
        assert(all.drop_last() == rest);
        assert(total_len(all.drop_last()) == 0);
    } else {
        lemma_total_len_cons(first, rest.drop_last());
        assert(all.drop_last() == seq![first] + rest.drop_last());
    }
}

/// The lines hold no more characters than the source.
proof fn lemma_code_fits(source: Seq<char>)
    ensures
        total_len(code_lines(source)) <= source.len(),
    decreases source.len(),
{
    lemma_line_len_bound(source);
    if source.len() > 0 {
        let n = line_len(source) as int;
        if n < source.len() {
            let first = without_carriage_return(source.take(n));
            let rest = source.skip(n + 1);
            lemma_code_fits(rest);
            lemma_code_is_piece(first);
            assert(code_lines(source) == seq![code_text(first)] + code_lines(rest));
            lemma_total_len_cons(code_text(first), code_lines(rest));
        } else {
            let none = Seq::<Seq<char>>::empty();
            lemma_code_is_piece(source);
            assert(code_lines(source) == seq![code_text(source)] + none);
            lemma_total_len_cons(code_text(source), none);
            assert(total_len(none) == 0);
        }
    } else {
        assert(code_lines(source) == Seq::<Seq<char>>::empty());
    }
}

proof fn lemma_total_len_monotone(lines: Seq<Seq<char>>, n: int)
    requires
        0 <= n <= lines.len(),
    ensures
        total_len(lines.take(n)) <= total_len(lines),
    decreases lines.len(),
{
    if n < lines.len() {
        lemma_total_len_monotone(lines.drop_last(), n);
        assert(lines.take(n) == lines.drop_last().take(n));
    } else {
        assert(lines.take(n) == lines);
    }
}

proof fn lemma_keywords_are_ascii(kind: Declaration)
    ensures
        is_ascii_chars(kind.keyword()),
{
    reveal_strlit("namespace");
    reveal_strlit("operation");
    reveal_strlit("function");
    reveal_strlit("newtype");
}

/// An outline that is being built.
pub(crate) struct Outline {
    pub root: Vec<SemanticNode>,
    pub stack: Vec<QsFrame>,
    pub namespaces: usize,
    pub depth: i128,
}

impl View for Outline {
    type V = OutlineView;

    closed spec fn view(&self) -> OutlineView {
        OutlineView {
            root: node_views(self.root@),
            stack: frame_views(self.stack@),
            namespaces: self.namespaces as nat,
            depth: self.depth as int,
        }
    }
}

impl Outline {
    fn new() -> (outline: Outline)
        ensures
            outline@ == OutlineView::start(),
    {
        let outline = Outline { root: Vec::new(), stack: Vec::new(), namespaces: 0, depth: 0 };
        assert(outline@.root == OutlineView::start().root);
        assert(outline@.stack == OutlineView::start().stack);
        outline
    }

    fn attach(&mut self, node: SemanticNode)
        ensures
            final(self)@ == old(self)@.attach(node@),
    {
        push_to(&mut self.stack, &mut self.root, node);
        assert(self@.root == old(self)@.attach(node@).root);
        assert(self@.stack == old(self)@.attach(node@).stack);
    }

    fn close_top(&mut self, end: u32)
        requires
            old(self)@.stack.len() > 0,
        ensures
            final(self)@ == old(self)@.close_top(end),
    {
        let frame = self.stack.pop().unwrap();
        assert(frame_views(self.stack@) == old(self)@.stack.drop_last());
        self.attach(frame.close(end));
    }

    fn close_reached(&mut self, end: u32)
        ensures
            final(self)@ == old(self)@.close_reached(end),
            final(self).depth == old(self).depth,
            final(self).namespaces == old(self).namespaces,
    {
        while self.stack.len() > 0 && self.stack[self.stack.len() - 1].close_depth >= self.depth
            invariant
                self@.close_reached(end) == old(self)@.close_reached(end),
                self.depth == old(self).depth,
                self.namespaces == old(self).namespaces,
            decreases self@.stack.len(),
        {
            self.close_top(end);
        }
    }

    fn next_id(&self) -> (id: String)
        ensures
            id@ == self@.next_id(),
    {
        let n: usize = self.stack.len();
        if n == 0 {
            make_child_id("0", 0)
        } else {
            make_child_id(self.stack[n - 1].id.as_str(), self.stack[n - 1].children.len())
        }
    }

    fn open_block(&mut self, kind: Declaration, label: String, line: u32, close_depth: i128)
        requires
            old(self).namespaces < usize::MAX,
        ensures
            final(self)@ == old(self)@.open_block(kind, label@, line, close_depth as int),
    {
        let id = if kind == Declaration::Namespace {
            let id = make_child_id("0", self.namespaces);
            self.namespaces += 1;
            id
        } else {
            self.next_id()
        };
        let frame = QsFrame {
            id,
            node_type: kind.as_str(),
            label,
            start_line: line,
            close_depth,
            children: Vec::new(),
        };
        assert(frame@.children == Seq::<NodeView>::empty());
        self.stack.push(frame);
        assert(frame_views(self.stack@) == old(self)@.stack.push(frame@));
    }

    fn add_leaf(&mut self, node_type: &str, label: &str, line: u32)
        ensures
            final(self)@ == old(self)@.add_leaf(node_type@, label@, line),
    {
        let id = self.next_id();
        self.attach(leaf(id.as_str(), node_type, label, line));
    }

    /// Reads one line.
    fn step(&mut self, text: &[char], line: u32)
        requires
            old(self).namespaces < usize::MAX,
            i128::MIN / 2 <= old(self).depth <= i128::MAX / 2,
        ensures
            final(self)@ == old(self)@.step(text@, line),
            old(self).namespaces <= final(self).namespaces <= old(self).namespaces + 1,
            -text@.len() <= final(self).depth - old(self).depth <= text@.len(),
    {
        if text.len() == 0 {
            return;
        }
        let before: i128 = self.depth;
        let opens: usize = count_char(text, '{');
        let closes: usize = count_char(text, '}');
        self.depth = self.depth + opens as i128 - closes as i128;
        self.close_reached(line);
        match declaration_of(text) {
            Some(Declaration::Newtype) => {
                let name = declared_name_of(text, Declaration::Newtype);
                self.add_leaf("newtype", name.as_str(), line);
            },
            Some(kind) => {
                let name = declared_name_of(text, kind);
                self.open_block(kind, name, line, before);
                if opens > 0 && self.depth <= before {
                    self.close_top(line);
                }
            },
            None => {
                let stmt = trim(trim_end_matches(text, ';'));
                if is_worth_a_node(stmt) && self.stack.len() > 0 {
                    let label = string_of(stmt);
                    self.add_leaf("qs_statement", label.as_str(), line);
                }
            },
        }
    }

    /// Closes what is still open and gives the nodes at the top level.
    fn drain(self, end: u32) -> (root: Vec<SemanticNode>)
        ensures
            node_views(root@) == self@.drained(end),
    {
        let mut root = self.root;
        let mut stack = self.stack;
        let ghost all = self@.stack;
        assert(all.take(all.len() as int) == all);
        assert(self@.root + Seq::<NodeView>::empty() == self@.root);
        while stack.len() > 0
            invariant
                all == self@.stack,
                stack@.len() <= all.len(),
                frame_views(stack@) == all.take(stack@.len() as int),
                node_views(root@) == self@.root + Seq::new(
                    (all.len() - stack@.len()) as nat,
                    |i: int| all[all.len() - 1 - i].closed_at(end),
                ),
            decreases stack@.len(),
        {
            let ghost before = node_views(root@);
            let ghost n = stack@.len();
            assert(frame_views(stack@)[n - 1] == all[n - 1]);
            let frame = stack.pop().unwrap();
            let node = frame.close(end);
            root.push(node);
            proof {
                assert(frame@ == all[n - 1]);
                assert(node_views(root@) == before.push(node@));
                assert(frame_views(stack@) == all.take(n - 1));
            }
        }
        root
    }
}

/// Cuts the comment and the whitespace around the code off a line.
fn code_of(line: &[char]) -> (code: &[char])
    ensures
        code@ == code_text(line@),
{
    let t = trim(line);
    let slashes = chars_of("//");
    match find(t, &slashes) {
        Some(p) => {
            proof {
                lemma_found_is_first(t@, slashes@);
            }
            trim(slice_subrange(t, 0, p))
        },
        None => t,
    }
}

/// Decides [`declaration`].
fn declaration_of(text: &[char]) -> (kind: Option<Declaration>)
    ensures
        kind == declaration(text@),
{
    let (first, rest) = split_first_word(text);
    let word = if same_text(&fold(first), &chars_of("internal")) {
        let (second, _) = split_first_word(rest);
        fold(second)
    } else {
        fold(first)
    };
    if same_text(&word, &chars_of(Declaration::Namespace.as_str())) {
        Some(Declaration::Namespace)
    } else if same_text(&word, &chars_of(Declaration::Operation.as_str())) {
        Some(Declaration::Operation)
    } else if same_text(&word, &chars_of(Declaration::Function.as_str())) {
        Some(Declaration::Function)
    } else if same_text(&word, &chars_of(Declaration::Newtype.as_str())) {
        Some(Declaration::Newtype)
    } else {
        None
    }
}

/// The name that a declaration of the given kind declares.
fn declared_name_of(text: &[char], kind: Declaration) -> (name: String)
    ensures
        name@ == name_behind(text@, kind.keyword()),
{
    proof {
        lemma_keywords_are_ascii(kind);
    }
    cut_name(text, &chars_of(kind.as_str()))
}

/// Decides [`worth_a_node`].
fn is_worth_a_node(stmt: &[char]) -> (b: bool)
    ensures
        b == worth_a_node(stmt@),
{
    for i in 0..stmt.len()
        invariant
            forall|j: int| 0 <= j < i ==> brace(#[trigger] stmt@[j]),
    {
        if stmt[i] != '{' && stmt[i] != '}' {
            assert(!brace(stmt@[i as int]));
            return true;
        }
    }
    false
}

/// Reads the code off the lines of a source.
fn read_code_lines(source: &str) -> (lines: Vec<Vec<char>>)
    ensures
        texts(lines@) == code_lines(source@),
        total_len(texts(lines@)) <= usize::MAX,
{
    let chars = chars_of(source);
    let raw = split_lines(&chars);
    let mut lines: Vec<Vec<char>> = Vec::new();
    for i in 0..raw.len()
        invariant
            texts(raw@) == lines_of(source@),
            texts(lines@) == code_lines(source@).take(i as int),
    {
        assert(texts(raw@)[i as int] == raw@[i as int]@);
        let ghost before = texts(lines@);
        let code = copy_text(code_of(&raw[i]));
        lines.push(code);
        assert(texts(lines@) == before.push(code@));
        assert(code_lines(source@).take(i + 1) == before.push(code@));
    }
    assert(code_lines(source@).take(raw@.len() as int) == code_lines(source@));
    proof {
        lemma_code_fits(source@);
        assert(chars.len() == source@.len());
    }
    lines
}

/// Builds the outline from the code on the lines.
fn outline_lines(lines: &Vec<Vec<char>>) -> (tree: SemanticNode)
    requires
        total_len(texts(lines@)) <= usize::MAX,
    ensures
        tree@ == outline(texts(lines@)),
{
    let ghost all = texts(lines@);
    let n: usize = lines.len();
    let mut state = Outline::new();
    assert(all.take(0) == Seq::<Seq<char>>::empty());
    for i in 0..n
        invariant
            n == lines@.len(),
            all == texts(lines@),
            total_len(all) <= usize::MAX,
            state@ == after_lines(all, i as int),
            state.namespaces <= i,
            -total_len(all.take(i as int)) <= state.depth <= total_len(all.take(i as int)),
    {
        proof {
            assert(all[i as int] == lines@[i as int]@);
            lemma_total_len_monotone(all, i as int);
            assert(all.take(i + 1).drop_last() == all.take(i as int));
        }
        state.step(&lines[i], i as u32);
    }
    let end: u32 = if n == 0 {
        0
    } else {
        (n - 1) as u32
    };
    let root = state.drain(end);
    block_node("0", "compilation_unit", "compilation_unit", 0, end, root)
}

/// Parses a Q# source into its outline.
pub fn parse_qsharp(source: &str) -> (tree: SemanticNode)
    ensures
        tree@ == outline(code_lines(source@)),
{
    outline_lines(&read_code_lines(source))
}

} // verus!
