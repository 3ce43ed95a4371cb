//! Syntax trees, as a preorder list of their nodes.
//!
//! Parsing is tree-sitter's work. What the detectors read of a tree — node kinds,
//! nesting, places, the text behind a name — is held here in plain values: each
//! node with its depth, in the order a reader of the source meets them. The nodes
//! below a node are those that follow it until the next one that is no deeper.

use tree_sitter::Node;
use vstd::prelude::*;
use vstd::string::*;

use crate::lang::{Grammar, Language};
use crate::sort::views;
use crate::text::same_text;

verus! {

/// The fields that grammars name a definition through.
pub const NAME_FIELDS: [&'static str; 3] = ["name", "declarator", "type"];

/// What a syntax node holds.
#[verifier::ext_equal]
pub struct NodeView {
    /// How deep the node lies; the root lies at zero.
    pub depth: nat,
    /// The node kind.
    pub kind: Seq<char>,
    /// Whether the grammar gives the node a name of its own.
    pub named: bool,
    /// Whether there is a syntax error in the node.
    pub has_error: bool,
    /// The row it starts on, from zero.
    pub start_row: nat,
    /// The row it ends on, from zero.
    pub end_row: nat,
    /// Its source text.
    pub text: Seq<char>,
    /// The text of its child under each of the name fields.
    pub names: Seq<Option<Seq<char>>>,
}

/// One node of a syntax tree.
#[derive(Debug)]
pub struct SyntaxNode {
    /// How deep the node lies; the root lies at zero.
    pub depth: u32,
    /// The node kind.
    pub kind: String,
    /// Whether the grammar gives the node a name of its own, as opposed to a
    /// keyword, punctuation or an operator.
    pub named: bool,
    /// Whether there is a syntax error in the node or below it.
    pub has_error: bool,
    /// The row it starts on, from zero.
    pub start_row: usize,
    /// The row it ends on, from zero.
    pub end_row: usize,
    /// Its source text.
    pub text: String,
    /// The text of its child under each of [`NAME_FIELDS`], where it has one.
    pub names: Vec<Option<String>>,
}

impl View for SyntaxNode {
    type V = NodeView;

    open spec fn view(&self) -> NodeView {
        NodeView {
            depth: self.depth as nat,
            kind: self.kind@,
            named: self.named,
            has_error: self.has_error,
            start_row: self.start_row as nat,
            end_row: self.end_row as nat,
            text: self.text@,
            names: Seq::new(
                self.names@.len(),
                |i: int|
                    match self.names@[i] {
                        Some(t) => Some(t@),
                        None => None,
                    },
            ),
        }
    }
}

// ----------------------------------------------------------------------- parsing

/// A tree-sitter parser.
#[verifier::external_type_specification]
#[verifier::external_body]
pub struct ExParser(tree_sitter::Parser);

/// The grammar installed in a parser, if one is.
pub uninterp spec fn installed_grammar(parser: tree_sitter::Parser) -> Option<Grammar>;

/// `tree_sitter::Parser::new` and `set_language`, with the `LANGUAGE` constant of
/// the crate that holds the grammar: a parser with that grammar installed. Every
/// grammar linked here is of a version this tree-sitter accepts.
#[verifier::external_body]
fn new_parser(g: Grammar) -> (parser: tree_sitter::Parser)
    ensures
        installed_grammar(parser) == Some(g),
{
    let language = match g {
        Grammar::C => tree_sitter_c::LANGUAGE, Grammar::Cpp => tree_sitter_cpp::LANGUAGE,
        Grammar::CSharp => tree_sitter_c_sharp::LANGUAGE, Grammar::Go => tree_sitter_go::LANGUAGE,
        Grammar::Java => tree_sitter_java::LANGUAGE, Grammar::Php => tree_sitter_php::LANGUAGE_PHP,
        Grammar::JavaScript => tree_sitter_javascript::LANGUAGE, Grammar::Python => tree_sitter_python::LANGUAGE,
        Grammar::Ruby => tree_sitter_ruby::LANGUAGE, Grammar::Rust => tree_sitter_rust::LANGUAGE,
        Grammar::Tsx => tree_sitter_typescript::LANGUAGE_TSX,
        Grammar::TypeScript => tree_sitter_typescript::LANGUAGE_TYPESCRIPT,
    };
    let mut parser = tree_sitter::Parser::new();
    parser.set_language(&language.into()).expect("every linked grammar fits the parser");
    parser
}

/// The tree a grammar gives a text, as a preorder list of its nodes, each with the
/// text of its children under some fields.
pub uninterp spec fn parsed_nodes(
    g: Grammar,
    fields: Seq<Seq<char>>,
    text: Seq<char>,
) -> Seq<NodeView>;

/// `tree_sitter::Parser::parse`, and a walk over the tree it returns by
/// `TreeCursor`: every node in preorder, with what `Node` says of it. The tree is
/// determined by the grammar and the text. With a grammar installed, and no timeout
/// set, there always is one.
#[verifier::external_body]
fn parse_nodes(parser: &mut tree_sitter::Parser, fields: [&str; 3], text: &str) -> (nodes: Vec<
    SyntaxNode,
>)
    requires
        installed_grammar(*old(parser)) is Some,
    ensures
        installed_grammar(*final(parser)) == installed_grammar(*old(parser)),
        views(nodes@) == parsed_nodes(
            installed_grammar(*old(parser)).unwrap(),
            views(fields@),
            text@,
        ),
{
    let text_of = |n: Node| n.utf8_text(text.as_bytes()).unwrap_or_default().to_string();
    let tree = parser.parse(text, None).unwrap();
    let mut nodes = vec![];
    let mut cursor = tree.walk();
    loop {
        let n = cursor.node();
        nodes.push(SyntaxNode {
            depth: cursor.depth(), kind: n.kind().to_string(), named: n.is_named(), has_error: n.has_error(),
            start_row: n.start_position().row, end_row: n.end_position().row, text: text_of(n),
            names: fields.map(|f| n.child_by_field_name(f).map(text_of)).into() });
        if !cursor.goto_first_child() {
            while !cursor.goto_next_sibling() { if !cursor.goto_parent() { return nodes } }
        }
    }
}

/// The syntax tree of a text in a language.
pub open spec fn syntax_of(g: Grammar, text: Seq<char>) -> Seq<NodeView> {
    parsed_nodes(g, views(NAME_FIELDS@), text)
}

/// Parse a text.
pub fn parse(language: &Language, text: &str) -> (nodes: Vec<SyntaxNode>)
    ensures
        views(nodes@) == syntax_of(language@.grammar, text@),
{
    let mut parser = new_parser(language.grammar());
    parse_nodes(&mut parser, NAME_FIELDS, text)
}

// -------------------------------------------------------------------- navigation

/// The first place from `from` on, up to `hi`, of a node no deeper than `depth`.
pub open spec fn next_no_deeper(nodes: Seq<NodeView>, depth: nat, from: int, hi: int) -> int
    decreases hi - from,
{
    if from >= hi || nodes[from].depth <= depth {
        from
    } else {
        next_no_deeper(nodes, depth, from + 1, hi)
    }
}

/// One past the last node below the node at `i`, within a list that ends at `hi`.
pub open spec fn subtree_end(nodes: Seq<NodeView>, i: int, hi: int) -> int {
    next_no_deeper(nodes, nodes[i].depth, i + 1, hi)
}

/// A subtree ends where it says.
pub proof fn lemma_next_no_deeper(nodes: Seq<NodeView>, depth: nat, from: int, hi: int)
    requires
        from <= hi,
    ensures
        from <= next_no_deeper(nodes, depth, from, hi) <= hi,
        forall|k: int|
            from <= k < next_no_deeper(nodes, depth, from, hi) ==> #[trigger] nodes[k].depth > depth,
    decreases hi - from,
{
    if from < hi && nodes[from].depth > depth {
        lemma_next_no_deeper(nodes, depth, from + 1, hi);
    }
}

/// Find where the subtree of a node ends.
pub fn end_of_subtree(nodes: &[SyntaxNode], i: usize, hi: usize) -> (e: usize)
    requires
        i < hi <= nodes@.len(),
    ensures
        e == subtree_end(views(nodes@), i as int, hi as int),
        i < e <= hi,
{
    let ghost all = views(nodes@);
    let depth: u32 = nodes[i].depth;
    let mut e: usize = i + 1;
    while e < hi && nodes[e].depth > depth
        invariant
            i < e <= hi <= nodes@.len(),
            all == views(nodes@),
            depth == all[i as int].depth,
            subtree_end(all, i as int, hi as int) == next_no_deeper(
                all,
                depth as nat,
                e as int,
                hi as int,
            ),
        decreases hi - e,
    {
        assert(all[e as int].depth == nodes@[e as int].depth);
        e += 1;
    }
    assert(e < hi ==> all[e as int].depth == nodes@[e as int].depth);
    e
}

/// Where a name field stands among [`NAME_FIELDS`].
pub open spec fn field_place(field: Seq<char>) -> int {
    if field == NAME_FIELDS@[0]@ {
        0
    } else if field == NAME_FIELDS@[1]@ {
        1
    } else if field == NAME_FIELDS@[2]@ {
        2
    } else {
        3
    }
}

/// The text of a node's child under a field.
pub open spec fn field_text(node: NodeView, field: Seq<char>) -> Option<Seq<char>> {
    if field_place(field) < 3 && field_place(field) < node.names.len() {
        node.names[field_place(field)]
    } else {
        None
    }
}

/// The text of a node's child under a field, where it has one.
pub fn text_under<'a>(node: &'a SyntaxNode, field: &str) -> (t: Option<&'a String>)
    ensures
        t is None <==> field_text(node@, field@) is None,
        t matches Some(s) ==> field_text(node@, field@) == Some(s@),
{
    let fields = NAME_FIELDS;
    let place: usize = if same_text(field, fields[0]) {
        0
    } else if same_text(field, fields[1]) {
        1
    } else if same_text(field, fields[2]) {
        2
    } else {
        return None;
    };
    assert(place == field_place(field@));
    if place < node.names.len() {
        match &node.names[place] {
            Some(s) => Some(s),
            None => None,
        }
    } else {
        None
    }
}

/// The line of a row: rows count from zero, lines from one. The last row there can
/// be stays the last line.
pub open spec fn line_of(row: nat) -> nat {
    if row < usize::MAX {
        row + 1
    } else {
        usize::MAX as nat
    }
}

/// The line of a row.
pub fn line(row: usize) -> (n: usize)
    ensures
        n == line_of(row as nat),
{
    row.saturating_add(1)
}

} // verus!
