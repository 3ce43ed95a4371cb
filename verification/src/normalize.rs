//! Turning syntax into a normalized token stream.
//!
//! Normalization is what makes a *renamed* copy of a function still look like a
//! copy. It performs two abstractions, both deliberately aggressive:
//!
//! - **Blind rename.** Every identifier becomes one placeholder. `interest`,
//!   `rate`, and `x` are all `ID`.
//! - **Literal abstraction.** Every literal becomes a type tag. `0.05` and
//!   `0.055` are both `NUM`: the same rule copied with a tweaked constant is
//!   exactly the duplication worth finding.
//!
//! Structure — node kinds, nesting, operators, arity — survives untouched.
//! [`lemma_names_and_values_do_not_matter`] states both.
//!
//! # Why every structural node gets a closing token
//!
//! A bare preorder walk is ambiguous: `X(Y, Z)` and `X(Y(Z))` both linearize to
//! `X Y Z`. Emitting [`NODE_END`] when a structural node closes makes the
//! encoding a balanced-parenthesis serialization, which is unique per tree:
//! [`lemma_encoding_is_unique`].
//!
//! # This module owns the descent
//!
//! [`placed_tokens`] is the walk that applies [`Language::role`] to every node.
//! [`normalize`] is that walk with the lines dropped, and [`identifiers`] descends
//! by the same rules.

use vstd::prelude::*;
use vstd::string::*;

use crate::extract::lies_under;
use crate::lang::{
    Language, LanguageView, LiteralTag, Role, IDENTIFIER_PLACEHOLDER, OPERATOR_TOKENS,
};
use crate::names::{name_set, ordered};
use crate::sort::views;
use crate::syntax::{
    end_of_subtree, lemma_next_no_deeper, line, line_of, next_no_deeper, subtree_end, NodeView,
    SyntaxNode,
};

verus! {

/// Token emitted when a structural node's children are exhausted.
///
/// Chosen so no grammar can produce it as a node kind: `#` opens a comment in
/// most languages, and no operator table contains it.
pub const NODE_END: &'static str = "#END";

/// What a placed token holds.
#[verifier::ext_equal]
pub struct PlacedView {
    /// The normalized token name.
    pub name: Seq<char>,
    /// The source line it came from.
    pub line: nat,
}

/// A normalized token plus the 1-based source line it came from.
///
/// An identifier or literal is placed at its own start line; a structural node at
/// *its* start line; its closing [`NODE_END`] at the line the node ends on, so a
/// block that closes deep inside a multi-line construct reports the line it truly
/// closes on.
#[derive(Debug, PartialEq, Eq)]
pub struct PlacedToken {
    /// The normalized token name — see the module docs.
    pub name: String,
    /// 1-based source line the token originated from.
    pub line: usize,
}

impl View for PlacedToken {
    type V = PlacedView;

    open spec fn view(&self) -> PlacedView {
        PlacedView { name: self.name@, line: self.line as nat }
    }
}

impl Clone for PlacedToken {
    fn clone(&self) -> (t: Self)
        ensures
            t@ == self@,
    {
        PlacedToken { name: self.name.clone(), line: self.line }
    }
}

// ------------------------------------------------------------------------ the walk

/// The tokens of a single node, given those of its children.
pub open spec fn node_tokens(
    node: NodeView,
    language: LanguageView,
    children: Seq<PlacedView>,
) -> Seq<PlacedView> {
    let start = line_of(node.start_row);
    match language.role(node.kind, node.named) {
        Role::Ignored => Seq::empty(),
        Role::Identifier => seq![PlacedView { name: IDENTIFIER_PLACEHOLDER@, line: start }],
        Role::Literal(tag) => seq![PlacedView { name: tag.token(), line: start }],
        Role::Structure => seq![PlacedView { name: node.kind, line: start }] + children + seq![
            PlacedView { name: NODE_END@, line: line_of(node.end_row) },
        ],
    }
}

/// The tokens of the subtrees from `lo` to `hi`, one after the other.
pub open spec fn placed_in(
    nodes: Seq<NodeView>,
    language: LanguageView,
    lo: int,
    hi: int,
) -> Seq<PlacedView>
    decreases hi - lo,
{
    if lo >= hi {
        Seq::empty()
    } else {
        proof {
            lemma_next_no_deeper(nodes, nodes[lo].depth, lo + 1, hi);
        }
        let end = subtree_end(nodes, lo, hi);
        node_tokens(nodes[lo], language, placed_in(nodes, language, lo + 1, end)) + placed_in(
            nodes,
            language,
            end,
            hi,
        )
    }
}

/// The tokens of the subtree at `i`.
pub open spec fn placed_at(
    nodes: Seq<NodeView>,
    language: LanguageView,
    i: int,
) -> Seq<PlacedView> {
    placed_in(nodes, language, i, subtree_end(nodes, i, nodes.len() as int))
}

/// The names of a list of tokens.
pub open spec fn token_names(tokens: Seq<PlacedView>) -> Seq<Seq<char>> {
    Seq::new(tokens.len(), |i: int| tokens[i].name)
}

/// The identifiers a walk meets, in order.
pub open spec fn identifiers_in(
    nodes: Seq<NodeView>,
    language: LanguageView,
    lo: int,
    hi: int,
) -> Seq<Seq<char>>
    decreases hi - lo,
{
    if lo >= hi {
        Seq::empty()
    } else {
        proof {
            lemma_next_no_deeper(nodes, nodes[lo].depth, lo + 1, hi);
        }
        let end = subtree_end(nodes, lo, hi);
        (match language.role(nodes[lo].kind, nodes[lo].named) {
            Role::Identifier => seq![nodes[lo].text],
            Role::Structure => identifiers_in(nodes, language, lo + 1, end),
            _ => Seq::empty(),
        }) + identifiers_in(nodes, language, end, hi)
    }
}

/// The identifiers of the subtree at `i`.
pub open spec fn identifiers_at(
    nodes: Seq<NodeView>,
    language: LanguageView,
    i: int,
) -> Seq<Seq<char>> {
    identifiers_in(nodes, language, i, subtree_end(nodes, i, nodes.len() as int))
}

/// How many nodes from `lo` to `hi` are named.
pub open spec fn named_between(nodes: Seq<NodeView>, lo: int, hi: int) -> nat
    decreases hi - lo,
{
    if lo >= hi {
        0
    } else {
        named_between(nodes, lo, hi - 1) + if nodes[hi - 1].named {
            1nat
        } else {
            0
        }
    }
}

/// How many nodes of the subtree at `i` are named.
pub open spec fn node_count_at(nodes: Seq<NodeView>, i: int) -> nat {
    named_between(nodes, i, subtree_end(nodes, i, nodes.len() as int))
}

fn placed(name: &str, line: usize) -> (t: PlacedToken)
    ensures
        t@ == (PlacedView { name: name@, line: line as nat }),
{
    PlacedToken { name: name.to_owned(), line }
}

fn push_placed(
    nodes: &[SyntaxNode],
    lo: usize,
    hi: usize,
    language: &Language,
    tokens: &mut Vec<PlacedToken>,
)
    requires
        lo <= hi <= nodes@.len(),
    ensures
        views(final(tokens)@) == views(old(tokens)@) + placed_in(
            views(nodes@),
            language@,
            lo as int,
            hi as int,
        ),
    decreases hi - lo,
{
    let ghost all = views(nodes@);
    let ghost before = views(tokens@);
    let ghost goal = placed_in(all, language@, lo as int, hi as int);
    let mut i: usize = lo;
    while i < hi
        invariant
            lo <= i <= hi <= nodes@.len(),
            all == views(nodes@),
            views(tokens@) + placed_in(all, language@, i as int, hi as int) == before + goal,
        decreases hi - i,
    {
        let end: usize = end_of_subtree(nodes, i, hi);
        let node = &nodes[i];
        let ghost mark = views(tokens@);
        let ghost inner = placed_in(all, language@, i + 1, end as int);
        let ghost own = node_tokens(all[i as int], language@, inner);
        match language.role(node.kind.as_str(), node.named) {
            Role::Ignored => {
                assert(views(tokens@) =~= mark + own);
            },
            Role::Identifier => {
                tokens.push(placed(IDENTIFIER_PLACEHOLDER, line(node.start_row)));
                assert(views(tokens@) =~= mark + own);
            },
            Role::Literal(tag) => {
                tokens.push(placed(tag.as_token(), line(node.start_row)));
                assert(views(tokens@) =~= mark + own);
            },
            Role::Structure => {
                tokens.push(placed(node.kind.as_str(), line(node.start_row)));
                let ghost opened = views(tokens@);
                assert(opened =~= mark.push(
                    PlacedView { name: all[i as int].kind, line: line_of(all[i as int].start_row) },
                ));
                push_placed(nodes, i + 1, end, language, tokens);
                tokens.push(placed(NODE_END, line(node.end_row)));
                assert(views(tokens@) =~= (opened + inner).push(
                    PlacedView { name: NODE_END@, line: line_of(all[i as int].end_row) },
                ));
                assert(views(tokens@) =~= mark + own);
            },
        }
        proof {
            let rest = placed_in(all, language@, end as int, hi as int);
            assert(placed_in(all, language@, i as int, hi as int) == own + rest);
            assert(mark + (own + rest) =~= (mark + own) + rest);
        }
        i = end;
    }
    assert(views(tokens@) + Seq::empty() =~= views(tokens@));
}

/// Linearize a syntax subtree into normalized tokens, each carrying the
/// 1-based source line it came from.
pub fn placed_tokens(nodes: &[SyntaxNode], i: usize, language: &Language) -> (tokens: Vec<
    PlacedToken,
>)
    requires
        i < nodes@.len(),
    ensures
        views(tokens@) == placed_at(views(nodes@), language@, i as int),
{
    let mut tokens: Vec<PlacedToken> = Vec::new();
    let end: usize = end_of_subtree(nodes, i, nodes.len());
    push_placed(nodes, i, end, language, &mut tokens);
    assert(views(tokens@) =~= placed_at(views(nodes@), language@, i as int));
    tokens
}

/// Linearize a syntax subtree into normalized token names, in preorder.
///
/// Identifier and literal nodes are leaves: they emit one token and are not
/// descended into, so that a string's quotes and contents cannot leak its value
/// into the stream. This is [`placed_tokens`] with the line numbers dropped.
pub fn normalize(nodes: &[SyntaxNode], i: usize, language: &Language) -> (names: Vec<String>)
    requires
        i < nodes@.len(),
    ensures
        views(names@) == token_names(placed_at(views(nodes@), language@, i as int)),
{
    let tokens = placed_tokens(nodes, i, language);
    let mut names: Vec<String> = Vec::new();
    let ghost goal = token_names(views(tokens@));
    let mut k: usize = 0;
    while k < tokens.len()
        invariant
            k <= tokens@.len(),
            goal == token_names(views(tokens@)),
            views(names@) == goal.take(k as int),
        decreases tokens.len() - k,
    {
        let ghost before = views(names@);
        names.push(tokens[k].name.clone());
        assert(views(names@) =~= before.push(goal[k as int]));
        k += 1;
        assert(views(names@) =~= goal.take(k as int));
    }
    assert(views(names@) =~= goal);
    names
}

fn push_identifiers(
    nodes: &[SyntaxNode],
    lo: usize,
    hi: usize,
    language: &Language,
    out: &mut Vec<String>,
)
    requires
        lo <= hi <= nodes@.len(),
    ensures
        views(final(out)@) == views(old(out)@) + identifiers_in(
            views(nodes@),
            language@,
            lo as int,
            hi as int,
        ),
    decreases hi - lo,
{
    let ghost all = views(nodes@);
    let ghost before = views(out@);
    let ghost goal = identifiers_in(all, language@, lo as int, hi as int);
    let mut i: usize = lo;
    while i < hi
        invariant
            lo <= i <= hi <= nodes@.len(),
            all == views(nodes@),
            views(out@) + identifiers_in(all, language@, i as int, hi as int) == before + goal,
        decreases hi - i,
    {
        let end: usize = end_of_subtree(nodes, i, hi);
        let node = &nodes[i];
        let ghost mark = views(out@);
        let ghost rest = identifiers_in(all, language@, end as int, hi as int);
        match language.role(node.kind.as_str(), node.named) {
            Role::Identifier => {
                out.push(node.text.clone());
                assert(views(out@) =~= mark + seq![all[i as int].text]);
                assert(mark + (seq![all[i as int].text] + rest) =~= views(out@) + rest);
            },
            Role::Structure => {
                push_identifiers(nodes, i + 1, end, language, out);
                let ghost inner = identifiers_in(all, language@, i + 1, end as int);
                assert(mark + (inner + rest) =~= views(out@) + rest);
            },
            Role::Literal(_) | Role::Ignored => {
                assert(mark + (Seq::empty() + rest) =~= mark + rest);
            },
        }
        i = end;
    }
    assert(views(out@) + Seq::empty() =~= views(out@));
}

/// Every distinct identifier's un-renamed *text* in a subtree, in alphabetical
/// order.
///
/// Same descent rules as [`placed_tokens`], different payload: where
/// normalization blind-renames every identifier to one placeholder,
/// [`crate::vocab`] needs the actual name a human chose.
pub fn identifiers(nodes: &[SyntaxNode], i: usize, language: &Language) -> (set: Vec<String>)
    requires
        i < nodes@.len(),
    ensures
        ordered(views(set@)),
        forall|x: Seq<char>|
            #[trigger] views(set@).contains(x) <==> identifiers_at(
                views(nodes@),
                language@,
                i as int,
            ).contains(x),
{
    let mut out: Vec<String> = Vec::new();
    let end: usize = end_of_subtree(nodes, i, nodes.len());
    push_identifiers(nodes, i, end, language, &mut out);
    assert(views(out@) =~= identifiers_at(views(nodes@), language@, i as int));
    name_set(out)
}

/// Count the named syntax nodes in a subtree, its root among them.
///
/// This is the size measure the `min_nodes` threshold applies to. Named nodes
/// are counted rather than normalized tokens because the number is meant to
/// answer "how much code is this", and should not shift when the normalizer's
/// encoding changes.
pub fn count_nodes(nodes: &[SyntaxNode], i: usize) -> (n: usize)
    requires
        i < nodes@.len(),
    ensures
        n == node_count_at(views(nodes@), i as int),
{
    let ghost all = views(nodes@);
    let end: usize = end_of_subtree(nodes, i, nodes.len());
    let mut n: usize = 0;
    let mut k: usize = i;
    while k < end
        invariant
            i <= k <= end <= nodes@.len(),
            all == views(nodes@),
            n == named_between(all, i as int, k as int),
            n <= k - i,
        decreases end - k,
    {
        assert(all[k as int].named == nodes@[k as int].named);
        if nodes[k].named {
            n += 1;
        }
        k += 1;
    }
    n
}

// ---------------------------------------------------------------------------- laws

/// The nodes of `a` from `lo` to `hi` have the shape of those of `b` that stand `shift`
/// places further on and `up` levels higher: node for node the same kind, whatever
/// their text and place.
pub open spec fn same_shape(
    a: Seq<NodeView>,
    b: Seq<NodeView>,
    lo: int,
    hi: int,
    shift: int,
    up: int,
) -> bool {
    forall|k: int|
        lo <= k < hi ==> (#[trigger] a[k]).depth == b[k + shift].depth + up && a[k].kind == b[k
            + shift].kind && a[k].named == b[k + shift].named
}

/// The subtrees at `i` in `a` and at `j` in `b` have the same shape.
pub open spec fn same_code(a: Seq<NodeView>, i: int, b: Seq<NodeView>, j: int) -> bool {
    &&& 0 <= i < a.len()
    &&& 0 <= j < b.len()
    &&& subtree_end(a, i, a.len() as int) - i == subtree_end(b, j, b.len() as int) - j
    &&& same_shape(
        a,
        b,
        i,
        subtree_end(a, i, a.len() as int),
        j - i,
        a[i].depth - b[j].depth,
    )
}

proof fn lemma_same_ends(
    a: Seq<NodeView>,
    b: Seq<NodeView>,
    x: int,
    from: int,
    hi: int,
    shift: int,
    up: int,
)
    requires
        same_shape(a, b, x, hi, shift, up),
        x < from <= hi,
    ensures
        next_no_deeper(a, a[x].depth, from, hi) + shift == next_no_deeper(
            b,
            b[x + shift].depth,
            from + shift,
            hi + shift,
        ),
    decreases hi - from,
{
    assert(a[x].depth == b[x + shift].depth + up);
    if from < hi {
        assert(a[from].depth == b[from + shift].depth + up);
        if a[from].depth > a[x].depth {
            lemma_same_ends(a, b, x, from + 1, hi, shift, up);
        }
    }
}

proof fn lemma_same_names(
    a: Seq<NodeView>,
    b: Seq<NodeView>,
    language: LanguageView,
    lo: int,
    hi: int,
    shift: int,
    up: int,
)
    requires
        same_shape(a, b, lo, hi, shift, up),
        lo <= hi,
    ensures
        token_names(placed_in(a, language, lo, hi)) == token_names(
            placed_in(b, language, lo + shift, hi + shift),
        ),
        named_between(a, lo, hi) == named_between(b, lo + shift, hi + shift),
    decreases hi - lo,
{
    if lo < hi {
        lemma_next_no_deeper(a, a[lo].depth, lo + 1, hi);
        lemma_same_ends(a, b, lo, lo + 1, hi, shift, up);
        let end = subtree_end(a, lo, hi);
        assert(a[lo].kind == b[lo + shift].kind && a[lo].named == b[lo + shift].named);
        lemma_same_names(a, b, language, lo + 1, end, shift, up);
        lemma_same_names(a, b, language, end, hi, shift, up);
        lemma_same_count(a, b, lo, hi, shift, up);
        let (ia, ib) = (
            placed_in(a, language, lo + 1, end),
            placed_in(b, language, lo + 1 + shift, end + shift),
        );
        let (ra, rb) = (
            placed_in(a, language, end, hi),
            placed_in(b, language, end + shift, hi + shift),
        );
        lemma_node_names(a[lo], b[lo + shift], language, ia, ib);
        lemma_names_of_concat(node_tokens(a[lo], language, ia), ra);
        lemma_names_of_concat(node_tokens(b[lo + shift], language, ib), rb);
    }
}

/// What a node contributes depends on its kind and on what its children contribute.
proof fn lemma_node_names(
    a: NodeView,
    b: NodeView,
    language: LanguageView,
    ia: Seq<PlacedView>,
    ib: Seq<PlacedView>,
)
    requires
        a.kind == b.kind,
        a.named == b.named,
        language.role(a.kind, a.named) is Structure ==> token_names(ia) == token_names(ib),
    ensures
        token_names(node_tokens(a, language, ia)) == token_names(node_tokens(b, language, ib)),
{
    let (oa, ob) = (node_tokens(a, language, ia), node_tokens(b, language, ib));
    if language.role(a.kind, a.named) is Structure {
        assert(ia.len() == token_names(ia).len() && ib.len() == token_names(ib).len());
        assert forall|k: int| 0 <= k < oa.len() implies oa[k].name == ob[k].name by {
            if 1 <= k <= ia.len() {
                assert(token_names(ia)[k - 1] == token_names(ib)[k - 1]);
            }
        }
    }
    assert(token_names(oa) =~= token_names(ob));
}

proof fn lemma_same_count(
    a: Seq<NodeView>,
    b: Seq<NodeView>,
    lo: int,
    hi: int,
    shift: int,
    up: int,
)
    requires
        same_shape(a, b, lo, hi, shift, up),
        lo <= hi,
    ensures
        named_between(a, lo, hi) == named_between(b, lo + shift, hi + shift),
    decreases hi - lo,
{
    if lo < hi {
        lemma_same_count(a, b, lo, hi - 1, shift, up);
        assert(a[hi - 1].named == b[hi - 1 + shift].named);
    }
}

/// Renaming identifiers, changing the values of literals and moving code, within its
/// file or to another, leaves its token stream and its size as they are: both depend
/// on the shape of its tree alone.
pub proof fn lemma_names_and_values_do_not_matter(
    a: Seq<NodeView>,
    i: int,
    b: Seq<NodeView>,
    j: int,
    language: LanguageView,
)
    requires
        same_code(a, i, b, j),
    ensures
        token_names(placed_at(a, language, i)) == token_names(placed_at(b, language, j)),
        node_count_at(a, i) == node_count_at(b, j),
{
    lemma_next_no_deeper(a, a[i].depth, i + 1, a.len() as int);
    lemma_same_names(
        a,
        b,
        language,
        i,
        subtree_end(a, i, a.len() as int),
        j - i,
        a[i].depth - b[j].depth,
    );
}

proof fn lemma_names_of_concat(x: Seq<PlacedView>, y: Seq<PlacedView>)
    ensures
        token_names(x + y) == token_names(x) + token_names(y),
{
    assert(token_names(x + y) =~= token_names(x) + token_names(y));
}

/// A tree without its nodes from `x` to `y`.
pub open spec fn without_nodes(nodes: Seq<NodeView>, x: int, y: int) -> Seq<NodeView> {
    nodes.take(x) + nodes.skip(y)
}

/// Where the nodes begin that lie in the subtree at `r` and contribute nothing: at the
/// node itself if it is ignored, and behind it if it is an identifier or a literal.
spec fn silent_from(nodes: Seq<NodeView>, language: LanguageView, r: int) -> int {
    if language.role(nodes[r].kind, nodes[r].named) is Ignored {
        r
    } else {
        r + 1
    }
}

proof fn lemma_end_is(nodes: Seq<NodeView>, depth: nat, from: int, hi: int, e: int)
    requires
        from <= e <= hi,
        forall|k: int| from <= k < e ==> #[trigger] nodes[k].depth > depth,
        e < hi ==> nodes[e].depth <= depth,
    ensures
        next_no_deeper(nodes, depth, from, hi) == e,
    decreases e - from,
{
    if from < e {
        assert(nodes[from].depth > depth);
        lemma_end_is(nodes, depth, from + 1, hi, e);
    }
}

proof fn lemma_silent_nodes(
    nodes: Seq<NodeView>,
    language: LanguageView,
    lo: int,
    hi: int,
    r: int,
)
    requires
        0 <= lo <= r < hi <= nodes.len(),
        !(language.role(nodes[r].kind, nodes[r].named) is Structure),
    ensures
        ({
            let (x, y) = (silent_from(nodes, language, r), subtree_end(nodes, r, hi));
            token_names(placed_in(nodes, language, lo, hi)) == token_names(
                placed_in(without_nodes(nodes, x, y), language, lo, hi - (y - x)),
            )
        }),
    decreases hi - lo,
{
    let (x, y) = (silent_from(nodes, language, r), subtree_end(nodes, r, hi));
    let d = y - x;
    let c = without_nodes(nodes, x, y);
    lemma_next_no_deeper(nodes, nodes[r].depth, r + 1, hi);
    lemma_stops_at(nodes, nodes[r].depth, r + 1, hi);
    assert forall|k: int| 0 <= k < x implies #[trigger] c[k] == nodes[k] by {}
    assert forall|k: int| x <= k < c.len() implies #[trigger] c[k] == nodes[k + d] by {}
    if lo == r {
        assert(same_shape(c, nodes, x, hi - d, d, 0));
        lemma_same_names(c, nodes, language, x, hi - d, d, 0);
        if x == r {
            assert(placed_in(nodes, language, r, hi) =~= placed_in(nodes, language, y, hi));
        } else {
            lemma_end_is(c, c[r].depth, r + 1, hi - d, r + 1);
            let (ia, ib) = (placed_in(nodes, language, r + 1, y), placed_in(c, language, r + 1, r + 1));
            lemma_node_names(nodes[r], c[r], language, ia, ib);
            lemma_names_of_concat(
                node_tokens(nodes[r], language, ia),
                placed_in(nodes, language, y, hi),
            );
            lemma_names_of_concat(
                node_tokens(c[r], language, ib),
                placed_in(c, language, r + 1, hi - d),
            );
        }
    } else {
        let end = subtree_end(nodes, lo, hi);
        lemma_next_no_deeper(nodes, nodes[lo].depth, lo + 1, hi);
        lemma_stops_at(nodes, nodes[lo].depth, lo + 1, hi);
        let ia = placed_in(nodes, language, lo + 1, end);
        let ra = placed_in(nodes, language, end, hi);
        if end <= r {
            lemma_end_is(c, c[lo].depth, lo + 1, hi - d, end);
            assert(same_shape(c, nodes, lo + 1, end, 0, 0));
            lemma_same_names(c, nodes, language, lo + 1, end, 0, 0);
            lemma_silent_nodes(nodes, language, end, hi, r);
            let ib = placed_in(c, language, lo + 1, end);
            lemma_node_names(nodes[lo], c[lo], language, ia, ib);
            lemma_names_of_concat(node_tokens(nodes[lo], language, ia), ra);
            lemma_names_of_concat(
                node_tokens(c[lo], language, ib),
                placed_in(c, language, end, hi - d),
            );
        } else {
            assert(nodes[r].depth > nodes[lo].depth);
            if y > end {
                assert(nodes[end].depth > nodes[r].depth);
            }
            lemma_end_is(nodes, nodes[r].depth, r + 1, end, y);
            assert forall|k: int| lo + 1 <= k < end - d implies #[trigger] c[k].depth
                > c[lo].depth by {
                if k < x {
                    assert(nodes[k].depth > nodes[lo].depth);
                } else {
                    assert(nodes[k + d].depth > nodes[lo].depth);
                }
            }
            lemma_end_is(c, c[lo].depth, lo + 1, hi - d, end - d);
            lemma_silent_nodes(nodes, language, lo + 1, end, r);
            assert(same_shape(c, nodes, end - d, hi - d, d, 0));
            lemma_same_names(c, nodes, language, end - d, hi - d, d, 0);
            let ib = placed_in(c, language, lo + 1, end - d);
            lemma_node_names(nodes[lo], c[lo], language, ia, ib);
            lemma_names_of_concat(node_tokens(nodes[lo], language, ia), ra);
            lemma_names_of_concat(
                node_tokens(c[lo], language, ib),
                placed_in(c, language, end - d, hi - d),
            );
        }
    }
}

proof fn lemma_silent_nodes_at(nodes: Seq<NodeView>, language: LanguageView, i: int, r: int)
    requires
        0 <= i < r < subtree_end(nodes, i, nodes.len() as int),
        i < nodes.len(),
        !(language.role(nodes[r].kind, nodes[r].named) is Structure),
    ensures
        token_names(placed_at(nodes, language, i)) == token_names(
            placed_at(
                without_nodes(
                    nodes,
                    silent_from(nodes, language, r),
                    subtree_end(nodes, r, nodes.len() as int),
                ),
                language,
                i,
            ),
        ),
{
    let n = nodes.len() as int;
    let end = subtree_end(nodes, i, n);
    let (x, y) = (silent_from(nodes, language, r), subtree_end(nodes, r, n));
    let c = without_nodes(nodes, x, y);
    lemma_next_no_deeper(nodes, nodes[i].depth, i + 1, n);
    lemma_stops_at(nodes, nodes[i].depth, i + 1, n);
    lemma_next_no_deeper(nodes, nodes[r].depth, r + 1, n);
    lemma_stops_at(nodes, nodes[r].depth, r + 1, n);
    assert(nodes[r].depth > nodes[i].depth);
    if y > end {
        assert(nodes[end].depth > nodes[r].depth);
    }
    lemma_end_is(nodes, nodes[r].depth, r + 1, end, y);
    lemma_silent_nodes(nodes, language, i, end, r);
    let d = y - x;
    assert forall|k: int| i + 1 <= k < end - d implies #[trigger] c[k].depth > c[i].depth by {
        if k < x {
            assert(nodes[k].depth > nodes[i].depth);
        } else {
            assert(nodes[k + d].depth > nodes[i].depth);
        }
    }
    lemma_end_is(c, c[i].depth, i + 1, n - d, end - d);
}

/// What a language ignores: the kinds it says, comments chiefly, and what is unnamed
/// and no operator, such as brackets and commas.
pub proof fn lemma_comments_and_punctuation_are_ignored(
    language: LanguageView,
    kind: Seq<char>,
    named: bool,
)
    requires
        language.ignored_kinds.contains(kind) || (!named && !views(OPERATOR_TOKENS@).contains(kind)),
    ensures
        language.role(kind, named) is Ignored,
{
}

/// Comments and punctuation do not matter: code has the same token stream with an
/// ignored node, and all that lies below it, and without.
pub proof fn lemma_ignored_nodes_do_not_matter(
    nodes: Seq<NodeView>,
    language: LanguageView,
    i: int,
    r: int,
)
    requires
        0 <= i < r < subtree_end(nodes, i, nodes.len() as int),
        i < nodes.len(),
        language.role(nodes[r].kind, nodes[r].named) is Ignored,
    ensures
        token_names(placed_at(nodes, language, i)) == token_names(
            placed_at(
                without_nodes(nodes, r, subtree_end(nodes, r, nodes.len() as int)),
                language,
                i,
            ),
        ),
{
    lemma_silent_nodes_at(nodes, language, i, r);
}

/// What an identifier or a literal is made of does not matter: code has the same token
/// stream with the nodes below one and without.
pub proof fn lemma_parts_of_leaves_do_not_matter(
    nodes: Seq<NodeView>,
    language: LanguageView,
    i: int,
    r: int,
)
    requires
        0 <= i < r < subtree_end(nodes, i, nodes.len() as int),
        i < nodes.len(),
        language.role(nodes[r].kind, nodes[r].named) is Identifier || language.role(
            nodes[r].kind,
            nodes[r].named,
        ) is Literal,
    ensures
        token_names(placed_at(nodes, language, i)) == token_names(
            placed_at(
                without_nodes(nodes, r + 1, subtree_end(nodes, r, nodes.len() as int)),
                language,
                i,
            ),
        ),
{
    lemma_silent_nodes_at(nodes, language, i, r);
}

/// A nested node never counts more named nodes than one it is nested in.
pub proof fn lemma_nested_counts_no_more(nodes: Seq<NodeView>, outer: int, inner: int)
    requires
        0 <= outer <= inner < subtree_end(nodes, outer, nodes.len() as int),
        outer < nodes.len(),
    ensures
        node_count_at(nodes, inner) <= node_count_at(nodes, outer),
{
    let n = nodes.len() as int;
    let end = subtree_end(nodes, outer, n);
    lemma_next_no_deeper(nodes, nodes[outer].depth, outer + 1, n);
    lemma_next_no_deeper(nodes, nodes[inner].depth, inner + 1, n);
    let last = subtree_end(nodes, inner, n);
    if last > end {
        assert(end < n && inner + 1 <= end < last);
        lemma_stops_at(nodes, nodes[outer].depth, outer + 1, n);
        assert(nodes[end].depth > nodes[inner].depth);
        if inner > outer {
            assert(nodes[inner].depth > nodes[outer].depth);
        }
    }
    lemma_named_range(nodes, outer, inner, last, end);
}

proof fn lemma_stops_at(nodes: Seq<NodeView>, depth: nat, from: int, hi: int)
    requires
        from <= hi,
    ensures
        crate::syntax::next_no_deeper(nodes, depth, from, hi) < hi
            ==> nodes[crate::syntax::next_no_deeper(nodes, depth, from, hi)].depth <= depth,
    decreases hi - from,
{
    if from < hi && nodes[from].depth > depth {
        lemma_stops_at(nodes, depth, from + 1, hi);
    }
}

proof fn lemma_named_range(nodes: Seq<NodeView>, a: int, b: int, c: int, d: int)
    requires
        a <= b <= c <= d,
    ensures
        named_between(nodes, b, c) <= named_between(nodes, a, d),
    decreases d - a,
{
    if d > c {
        lemma_named_range(nodes, a, b, c, d - 1);
    } else if c > b {
        lemma_named_range(nodes, a, b, c - 1, d - 1);
    }
}

// ------------------------------------------------------------------------ uniqueness

/// A tree as normalization keeps it.
pub enum Shape {
    /// An identifier or a literal, by its token.
    Leaf(Seq<char>),
    /// A structural node, with what is below it.
    Branch(Seq<char>, Seq<Shape>),
}

/// The token stream of a list of trees.
pub open spec fn encode(trees: Seq<Shape>) -> Seq<Seq<char>>
    decreases trees,
{
    if trees.len() == 0 {
        Seq::empty()
    } else {
        (match trees[0] {
            Shape::Leaf(token) => seq![token],
            Shape::Branch(kind, below) => seq![kind] + encode(below) + seq![NODE_END@],
        }) + encode(trees.drop_first())
    }
}

/// The trees from `lo` to `hi`, as normalization keeps them.
pub open spec fn shapes_in(
    nodes: Seq<NodeView>,
    language: LanguageView,
    lo: int,
    hi: int,
) -> Seq<Shape>
    decreases hi - lo,
{
    if lo >= hi {
        Seq::empty()
    } else {
        proof {
            lemma_next_no_deeper(nodes, nodes[lo].depth, lo + 1, hi);
        }
        let end = subtree_end(nodes, lo, hi);
        (match language.role(nodes[lo].kind, nodes[lo].named) {
            Role::Ignored => Seq::empty(),
            Role::Identifier => seq![Shape::Leaf(IDENTIFIER_PLACEHOLDER@)],
            Role::Literal(tag) => seq![Shape::Leaf(tag.token())],
            Role::Structure => seq![
                Shape::Branch(nodes[lo].kind, shapes_in(nodes, language, lo + 1, end)),
            ],
        }) + shapes_in(nodes, language, end, hi)
    }
}

/// The token stream is the encoding of what normalization keeps.
pub proof fn lemma_stream_encodes_shape(
    nodes: Seq<NodeView>,
    language: LanguageView,
    lo: int,
    hi: int,
)
    ensures
        token_names(placed_in(nodes, language, lo, hi)) == encode(
            shapes_in(nodes, language, lo, hi),
        ),
    decreases hi - lo,
{
    if lo < hi {
        lemma_next_no_deeper(nodes, nodes[lo].depth, lo + 1, hi);
        let end = subtree_end(nodes, lo, hi);
        lemma_stream_encodes_shape(nodes, language, lo + 1, end);
        lemma_stream_encodes_shape(nodes, language, end, hi);
        let inner = placed_in(nodes, language, lo + 1, end);
        let own = node_tokens(nodes[lo], language, inner);
        let rest = placed_in(nodes, language, end, hi);
        lemma_names_of_concat(own, rest);
        let below = shapes_in(nodes, language, lo + 1, end);
        let others = shapes_in(nodes, language, end, hi);
        let all = shapes_in(nodes, language, lo, hi);
        match language.role(nodes[lo].kind, nodes[lo].named) {
            Role::Ignored => {
                assert(all =~= others);
                assert(token_names(own) + encode(others) =~= encode(others));
            },
            Role::Structure => {
                assert(all.drop_first() =~= others);
                assert(token_names(own) =~= seq![nodes[lo].kind] + token_names(inner) + seq![
                    NODE_END@,
                ]);
            },
            Role::Identifier => {
                assert(all.drop_first() =~= others);
                assert(token_names(own) =~= seq![IDENTIFIER_PLACEHOLDER@]);
            },
            Role::Literal(tag) => {
                assert(all.drop_first() =~= others);
                assert(token_names(own) =~= seq![tag.token()]);
            },
        }
    } else {
        assert(token_names(placed_in(nodes, language, lo, hi)) =~= Seq::empty());
    }
}

/// Only what normalization keeps matters: code that differs in nothing but comments,
/// punctuation, names, the values and the make-up of literals, and its place has the
/// same token stream.
pub proof fn lemma_only_what_is_kept_matters(
    a: Seq<NodeView>,
    i: int,
    b: Seq<NodeView>,
    j: int,
    language: LanguageView,
)
    requires
        shapes_in(a, language, i, subtree_end(a, i, a.len() as int)) == shapes_in(
            b,
            language,
            j,
            subtree_end(b, j, b.len() as int),
        ),
    ensures
        token_names(placed_at(a, language, i)) == token_names(placed_at(b, language, j)),
{
    lemma_stream_encodes_shape(a, language, i, subtree_end(a, i, a.len() as int));
    lemma_stream_encodes_shape(b, language, j, subtree_end(b, j, b.len() as int));
}

/// A token that stands for an identifier or a literal.
pub open spec fn leaf_token(token: Seq<char>) -> bool {
    token == IDENTIFIER_PLACEHOLDER@ || exists|tag: LiteralTag| token == #[trigger] tag.token()
}

/// No tree uses the closing token for anything else, nor a leaf's token for a
/// structural node.
pub open spec fn unambiguous(trees: Seq<Shape>) -> bool
    decreases trees,
{
    trees.len() == 0 || (unambiguous(trees.drop_first()) && (match trees[0] {
        Shape::Leaf(token) => leaf_token(token) && token != NODE_END@,
        Shape::Branch(kind, below) => !leaf_token(kind) && kind != NODE_END@ && unambiguous(below),
    }))
}

/// Nothing follows, or a closing token does.
spec fn closes(rest: Seq<Seq<char>>) -> bool {
    rest.len() == 0 || rest[0] == NODE_END@
}

proof fn lemma_first_token(trees: Seq<Shape>, rest: Seq<Seq<char>>)
    requires
        trees.len() > 0,
        unambiguous(trees),
    ensures
        (encode(trees) + rest).len() > 0,
        (encode(trees) + rest)[0] == (match trees[0] {
            Shape::Leaf(token) => token,
            Shape::Branch(kind, _) => kind,
        }),
        (encode(trees) + rest)[0] != NODE_END@,
{
}

proof fn lemma_decode(
    a: Seq<Shape>,
    b: Seq<Shape>,
    after_a: Seq<Seq<char>>,
    after_b: Seq<Seq<char>>,
)
    requires
        unambiguous(a),
        unambiguous(b),
        closes(after_a),
        closes(after_b),
        encode(a) + after_a == encode(b) + after_b,
    ensures
        a == b,
        after_a == after_b,
    decreases a,
{
    let stream = encode(a) + after_a;
    if a.len() == 0 {
        assert(stream =~= after_a);
        if b.len() > 0 {
            lemma_first_token(b, after_b);
        }
        assert(a =~= b);
        assert(encode(b) + after_b =~= after_b);
    } else {
        lemma_first_token(a, after_a);
        if b.len() == 0 {
            assert(encode(b) + after_b =~= after_b);
        } else {
            lemma_first_token(b, after_b);
            let (ra, rb) = (a.drop_first(), b.drop_first());
            match a[0] {
                Shape::Leaf(token) => {
                    assert(b[0] == Shape::Leaf(token));
                    assert(stream.drop_first() =~= encode(ra) + after_a);
                    assert(stream.drop_first() =~= encode(rb) + after_b);
                    lemma_decode(ra, rb, after_a, after_b);
                },
                Shape::Branch(kind, below_a) => {
                    match b[0] {
                        Shape::Leaf(_) => {},
                        Shape::Branch(_, below_b) => {
                            let ta = seq![NODE_END@] + encode(ra) + after_a;
                            let tb = seq![NODE_END@] + encode(rb) + after_b;
                            assert(stream.drop_first() =~= encode(below_a) + ta);
                            assert(stream.drop_first() =~= encode(below_b) + tb);
                            lemma_decode(below_a, below_b, ta, tb);
                            assert(ta.drop_first() =~= encode(ra) + after_a);
                            assert(tb.drop_first() =~= encode(rb) + after_b);
                            lemma_decode(ra, rb, after_a, after_b);
                        },
                    }
                },
            }
            assert(a =~= seq![a[0]] + ra);
            assert(b =~= seq![b[0]] + rb);
        }
    }
}

/// A token stream comes from one list of trees only: code of different shape never
/// normalizes to the same stream.
pub proof fn lemma_encoding_is_unique(a: Seq<Shape>, b: Seq<Shape>)
    requires
        unambiguous(a),
        unambiguous(b),
        encode(a) == encode(b),
    ensures
        a == b,
{
    assert(encode(a) + Seq::empty() =~= encode(a));
    assert(encode(b) + Seq::empty() =~= encode(b));
    lemma_decode(a, b, Seq::empty(), Seq::empty());
}

/// A token that opens a structural node.
pub open spec fn opening_token(token: Seq<char>) -> bool {
    !leaf_token(token) && token != NODE_END@
}

/// How many structural nodes a part of a stream opens and leaves open.
pub open spec fn left_open(tokens: Seq<Seq<char>>) -> int
    decreases tokens.len(),
{
    if tokens.len() == 0 {
        0
    } else {
        left_open(tokens.drop_last()) + if tokens.last() == NODE_END@ {
            -1int
        } else if opening_token(tokens.last()) {
            1
        } else {
            0
        }
    }
}

proof fn lemma_left_open_adds(a: Seq<Seq<char>>, b: Seq<Seq<char>>)
    ensures
        left_open(a + b) == left_open(a) + left_open(b),
    decreases b.len(),
{
    if b.len() == 0 {
        assert(a + b =~= a);
    } else {
        assert((a + b).drop_last() =~= a + b.drop_last());
        lemma_left_open_adds(a, b.drop_last());
    }
}

proof fn lemma_left_open_one(token: Seq<char>)
    ensures
        left_open(seq![token]) == (if token == NODE_END@ {
            -1int
        } else if opening_token(token) {
            1
        } else {
            0
        }),
{
    reveal_with_fuel(left_open, 2);
    assert(seq![token].drop_last() =~= Seq::empty());
}

/// A token stream is balanced: as many structural nodes are closed as are opened, and
/// none before it was opened.
pub proof fn lemma_streams_are_balanced(trees: Seq<Shape>, k: int)
    requires
        unambiguous(trees),
        0 <= k <= encode(trees).len(),
    ensures
        left_open(encode(trees)) == 0,
        left_open(encode(trees).take(k)) >= 0,
    decreases trees,
{
    let all = encode(trees);
    if trees.len() == 0 {
        assert(all.take(k) =~= Seq::empty());
    } else {
        let rest = encode(trees.drop_first());
        match trees[0] {
            Shape::Leaf(token) => {
                let first = seq![token];
                assert(all =~= first + rest);
                lemma_left_open_one(token);
                lemma_left_open_adds(first, rest);
                if k == 0 {
                    lemma_streams_are_balanced(trees.drop_first(), 0);
                    assert(all.take(0) =~= Seq::empty());
                } else {
                    lemma_streams_are_balanced(trees.drop_first(), k - 1);
                    assert(all.take(k) =~= first + rest.take(k - 1));
                    lemma_left_open_adds(first, rest.take(k - 1));
                }
            },
            Shape::Branch(kind, below) => {
                let (open, inner, close) = (seq![kind], encode(below), seq![NODE_END@]);
                let first = open + inner + close;
                assert(all =~= first + rest);
                lemma_left_open_one(kind);
                lemma_left_open_one(NODE_END@);
                lemma_streams_are_balanced(below, 0);
                lemma_left_open_adds(open, inner);
                lemma_left_open_adds(open + inner, close);
                lemma_left_open_adds(first, rest);
                if k == 0 {
                    lemma_streams_are_balanced(trees.drop_first(), 0);
                    assert(all.take(0) =~= Seq::empty());
                } else if k <= 1 + inner.len() {
                    lemma_streams_are_balanced(trees.drop_first(), 0);
                    lemma_streams_are_balanced(below, k - 1);
                    assert(all.take(k) =~= open + inner.take(k - 1));
                    lemma_left_open_adds(open, inner.take(k - 1));
                } else {
                    let m = k - first.len();
                    lemma_streams_are_balanced(trees.drop_first(), m);
                    assert(all.take(k) =~= first + rest.take(m));
                    lemma_left_open_adds(first, rest.take(m));
                }
            },
        }
    }
}

/// No structural kind from `lo` to `hi` is spelled as one of the tokens that stand for
/// identifiers, literals and the ends of nodes.
pub open spec fn plain_kinds(nodes: Seq<NodeView>, language: LanguageView, lo: int, hi: int) -> bool {
    forall|r: int|
        lo <= r < hi && language.role((#[trigger] nodes[r]).kind, nodes[r].named) is Structure
            ==> opening_token(nodes[r].kind)
}

proof fn lemma_plain_kinds_are_unambiguous(
    nodes: Seq<NodeView>,
    language: LanguageView,
    lo: int,
    hi: int,
)
    requires
        plain_kinds(nodes, language, lo, hi),
    ensures
        unambiguous(shapes_in(nodes, language, lo, hi)),
    decreases hi - lo,
{
    if lo < hi {
        lemma_next_no_deeper(nodes, nodes[lo].depth, lo + 1, hi);
        let end = subtree_end(nodes, lo, hi);
        lemma_plain_kinds_are_unambiguous(nodes, language, lo + 1, end);
        lemma_plain_kinds_are_unambiguous(nodes, language, end, hi);
        let others = shapes_in(nodes, language, end, hi);
        let all = shapes_in(nodes, language, lo, hi);
        match language.role(nodes[lo].kind, nodes[lo].named) {
            Role::Ignored => {
                assert(all =~= others);
            },
            Role::Structure => {
                assert(all.drop_first() =~= others);
            },
            Role::Identifier => {
                assert(all.drop_first() =~= others);
                reveal_strlit("ID");
                reveal_strlit("#END");
                assert(IDENTIFIER_PLACEHOLDER@.len() != NODE_END@.len());
            },
            Role::Literal(tag) => {
                assert(all.drop_first() =~= others);
                reveal_strlit("NUM");
                reveal_strlit("STR");
                reveal_strlit("BOOL");
                reveal_strlit("NIL");
                reveal_strlit("LIT");
                reveal_strlit("#END");
                assert(tag.token()[0] != NODE_END@[0]);
            },
        }
    }
}

/// The token stream of code is balanced: every structural node is closed, and none
/// before it was opened.
pub proof fn lemma_every_node_is_closed(
    nodes: Seq<NodeView>,
    language: LanguageView,
    i: int,
    k: int,
)
    requires
        plain_kinds(nodes, language, i, subtree_end(nodes, i, nodes.len() as int)),
        0 <= k <= placed_at(nodes, language, i).len(),
    ensures
        left_open(token_names(placed_at(nodes, language, i))) == 0,
        left_open(token_names(placed_at(nodes, language, i)).take(k)) >= 0,
{
    let end = subtree_end(nodes, i, nodes.len() as int);
    lemma_stream_encodes_shape(nodes, language, i, end);
    lemma_plain_kinds_are_unambiguous(nodes, language, i, end);
    lemma_streams_are_balanced(shapes_in(nodes, language, i, end), k);
}

/// Code of the same token stream is of the same shape: nesting and the order of
/// siblings are never confused.
pub proof fn lemma_only_the_same_shape_matches(
    a: Seq<NodeView>,
    i: int,
    b: Seq<NodeView>,
    j: int,
    language: LanguageView,
)
    requires
        plain_kinds(a, language, i, subtree_end(a, i, a.len() as int)),
        plain_kinds(b, language, j, subtree_end(b, j, b.len() as int)),
        token_names(placed_at(a, language, i)) == token_names(placed_at(b, language, j)),
    ensures
        shapes_in(a, language, i, subtree_end(a, i, a.len() as int)) == shapes_in(
            b,
            language,
            j,
            subtree_end(b, j, b.len() as int),
        ),
{
    let (e, f) = (subtree_end(a, i, a.len() as int), subtree_end(b, j, b.len() as int));
    lemma_stream_encodes_shape(a, language, i, e);
    lemma_stream_encodes_shape(b, language, j, f);
    lemma_plain_kinds_are_unambiguous(a, language, i, e);
    lemma_plain_kinds_are_unambiguous(b, language, j, f);
    lemma_encoding_is_unique(shapes_in(a, language, i, e), shapes_in(b, language, j, f));
}

/// An identifier is the placeholder and nothing else, and a literal is the token of
/// its kind and nothing else, whatever they are spelled as or made of.
pub proof fn lemma_a_leaf_is_one_token(nodes: Seq<NodeView>, language: LanguageView, i: int)
    requires
        0 <= i < nodes.len(),
    ensures
        language.role(nodes[i].kind, nodes[i].named) is Identifier ==> token_names(
            placed_at(nodes, language, i),
        ) == seq![IDENTIFIER_PLACEHOLDER@],
        language.role(nodes[i].kind, nodes[i].named) matches Role::Literal(tag) ==> token_names(
            placed_at(nodes, language, i),
        ) == seq![tag.token()],
{
    let n = nodes.len() as int;
    lemma_next_no_deeper(nodes, nodes[i].depth, i + 1, n);
    let end = subtree_end(nodes, i, n);
    lemma_end_is(nodes, nodes[i].depth, i + 1, end, end);
    let inner = placed_in(nodes, language, i + 1, end);
    assert(placed_in(nodes, language, end, end) =~= Seq::empty());
    assert(placed_at(nodes, language, i) =~= node_tokens(nodes[i], language, inner));
}

/// Which tokens a stream holds: the kinds of structural nodes, the tokens that stand
/// for identifiers and literals, and the ends of nodes.
pub proof fn lemma_what_a_stream_is_made_of(
    nodes: Seq<NodeView>,
    language: LanguageView,
    lo: int,
    hi: int,
    k: int,
)
    requires
        0 <= k < placed_in(nodes, language, lo, hi).len(),
    ensures
        ({
            let token = placed_in(nodes, language, lo, hi)[k].name;
            ||| token == NODE_END@
            ||| leaf_token(token)
            ||| exists|r: int|
                lo <= r < hi && language.role((#[trigger] nodes[r]).kind, nodes[r].named) is Structure
                    && nodes[r].kind == token
        }),
    decreases hi - lo,
{
    if lo < hi {
        lemma_next_no_deeper(nodes, nodes[lo].depth, lo + 1, hi);
        let end = subtree_end(nodes, lo, hi);
        let inner = placed_in(nodes, language, lo + 1, end);
        let own = node_tokens(nodes[lo], language, inner);
        if k >= own.len() {
            lemma_what_a_stream_is_made_of(nodes, language, end, hi, k - own.len());
        } else if language.role(nodes[lo].kind, nodes[lo].named) is Structure {
            if 1 <= k <= inner.len() {
                lemma_what_a_stream_is_made_of(nodes, language, lo + 1, end, k - 1);
            }
        }
    }
}

// ----------------------------------------------------------- what a stream amounts to

/// The walk from `lo` on meets the node at `r` and has something to say of it: the node
/// is not ignored, and it lies in nothing but structure.
pub open spec fn is_kept(nodes: Seq<NodeView>, language: LanguageView, lo: int, r: int) -> bool {
    &&& lo <= r
    &&& !(language.role(nodes[r].kind, nodes[r].named) is Ignored)
    &&& forall|x: int|
        lo <= x < r && #[trigger] lies_under(nodes, x, r) ==> language.role(
            nodes[x].kind,
            nodes[x].named,
        ) is Structure
}

/// What is said of a node first: the placeholder at its line where it is a name, its tag
/// where it is a literal, and its kind otherwise; and in the end, of structure, that it
/// ends, at its last line.
pub open spec fn says(t: PlacedView, node: NodeView, language: LanguageView, first: bool) -> bool {
    let row = if first {
        node.start_row
    } else {
        node.end_row
    };
    &&& t.line == (if row < usize::MAX {
        row + 1
    } else {
        usize::MAX as nat
    })
    &&& match language.role(node.kind, node.named) {
        Role::Ignored => false,
        Role::Identifier => first && t.name == "ID"@,
        Role::Literal(tag) => first && t.name == (match tag {
            LiteralTag::Number => "NUM"@,
            LiteralTag::String => "STR"@,
            LiteralTag::Boolean => "BOOL"@,
            LiteralTag::Nil => "NIL"@,
            LiteralTag::Other => "LIT"@,
        }),
        Role::Structure => if first {
            t.name == node.kind
        } else {
            t.name == "#END"@
        },
    }
}

/// What is said of a node comes in the order of the source: a node before those that
/// follow it, its end behind all that lies in it and before what follows that.
pub open spec fn comes_before(nodes: Seq<NodeView>, e: (int, bool), f: (int, bool)) -> bool {
    let (r, s) = (e.0, f.0);
    match (e.1, f.1) {
        (true, true) => r < s,
        (true, false) => r <= s || lies_under(nodes, s, r),
        (false, true) => r < s && !lies_under(nodes, r, s),
        (false, false) => (r < s && !lies_under(nodes, r, s)) || (s < r && lies_under(nodes, s, r)),
    }
}

/// `tokens` say of every node from `lo` to `hi` that is kept what there is to say of it,
/// in the order of the source, and nothing else. `at` says which node each is about, and
/// whether it is the first that is said of it.
pub open spec fn say_every_node(
    tokens: Seq<PlacedView>,
    nodes: Seq<NodeView>,
    language: LanguageView,
    lo: int,
    hi: int,
    at: Seq<(int, bool)>,
) -> bool {
    &&& at.len() == tokens.len()
    &&& forall|k: int|
        0 <= k < at.len() ==> lo <= (#[trigger] at[k]).0 < hi && is_kept(
            nodes,
            language,
            lo,
            at[k].0,
        ) && says(tokens[k], nodes[at[k].0], language, at[k].1)
    &&& forall|k: int, l: int|
        0 <= k < l < at.len() ==> comes_before(nodes, #[trigger] at[k], #[trigger] at[l])
    &&& forall|r: int|
        lo <= r < hi && #[trigger] is_kept(nodes, language, lo, r) ==> at.contains((r, true))
    &&& forall|r: int|
        lo <= r < hi && #[trigger] is_kept(nodes, language, lo, r) && language.role(
            nodes[r].kind,
            nodes[r].named,
        ) is Structure ==> at.contains((r, false))
}

proof fn lemma_apart(nodes: Seq<NodeView>, lo: int, end: int, x: int, s: int)
    requires
        0 <= lo <= x < end <= s < nodes.len(),
        nodes[end].depth <= nodes[lo].depth,
        forall|k: int| lo < k < end ==> #[trigger] nodes[k].depth > nodes[lo].depth,
    ensures
        !lies_under(nodes, x, s),
{
    if lies_under(nodes, x, s) {
        assert(nodes[end].depth > nodes[x].depth);
    }
}

proof fn lemma_kept_inside(nodes: Seq<NodeView>, language: LanguageView, lo: int, end: int, r: int)
    requires
        0 <= lo < r < end <= nodes.len(),
        forall|k: int| lo < k < end ==> #[trigger] nodes[k].depth > nodes[lo].depth,
    ensures
        is_kept(nodes, language, lo, r) <==> is_kept(nodes, language, lo + 1, r) && language.role(
            nodes[lo].kind,
            nodes[lo].named,
        ) is Structure,
        lies_under(nodes, lo, r),
{
    assert(lies_under(nodes, lo, r));
}

proof fn lemma_kept_behind(nodes: Seq<NodeView>, language: LanguageView, lo: int, end: int, s: int)
    requires
        0 <= lo < end <= s < nodes.len(),
        nodes[end].depth <= nodes[lo].depth,
        forall|k: int| lo < k < end ==> #[trigger] nodes[k].depth > nodes[lo].depth,
    ensures
        is_kept(nodes, language, lo, s) <==> is_kept(nodes, language, end, s),
{
    assert forall|x: int| lo <= x < end implies !#[trigger] lies_under(nodes, x, s) by {
        lemma_apart(nodes, lo, end, x, s);
    }
}

/// The walk over a part of a tree says of every node in it that is kept what there is to
/// say of it, in the order of the source, and nothing else.
proof fn lemma_walk_says_every_node(
    nodes: Seq<NodeView>,
    language: LanguageView,
    lo: int,
    hi: int,
) -> (at: Seq<(int, bool)>)
    requires
        0 <= lo <= hi <= nodes.len(),
    ensures
        say_every_node(placed_in(nodes, language, lo, hi), nodes, language, lo, hi, at),
    decreases hi - lo,
{
    if lo >= hi {
        Seq::empty()
    } else {
        lemma_next_no_deeper(nodes, nodes[lo].depth, lo + 1, hi);
        lemma_stops_at(nodes, nodes[lo].depth, lo + 1, hi);
        let end = subtree_end(nodes, lo, hi);
        let inner = lemma_walk_says_every_node(nodes, language, lo + 1, end);
        let behind = lemma_walk_says_every_node(nodes, language, end, hi);
        let role = language.role(nodes[lo].kind, nodes[lo].named);
        let own: Seq<(int, bool)> = match role {
            Role::Ignored => Seq::empty(),
            Role::Structure => seq![(lo, true)] + inner + seq![(lo, false)],
            _ => seq![(lo, true)],
        };
        let tokens = node_tokens(
            nodes[lo],
            language,
            placed_in(nodes, language, lo + 1, end),
        );
        let rest = placed_in(nodes, language, end, hi);
        let all = placed_in(nodes, language, lo, hi);
        let at = own + behind;
        assert(all == tokens + rest);
        assert(own.len() == tokens.len());
        assert forall|r: int| lo < r < end implies (#[trigger] is_kept(nodes, language, lo, r)
            <==> is_kept(nodes, language, lo + 1, r) && role is Structure) && lies_under(
            nodes,
            lo,
            r,
        ) by {
            lemma_kept_inside(nodes, language, lo, end, r);
        }
        assert forall|r: int| end <= r < hi implies (#[trigger] is_kept(nodes, language, lo, r)
            <==> is_kept(nodes, language, end, r)) by {
            lemma_kept_behind(nodes, language, lo, end, r);
        }
        assert forall|k: int| 0 <= k < own.len() implies lo <= (#[trigger] own[k]).0 < end && is_kept(
            nodes,
            language,
            lo,
            own[k].0,
        ) && says(tokens[k], nodes[own[k].0], language, own[k].1) by {
            if role is Structure && 1 <= k <= inner.len() {
                assert(own[k] == inner[k - 1]);
                assert(is_kept(nodes, language, lo + 1, inner[k - 1].0));
                assert(is_kept(nodes, language, lo, own[k].0));
            }
        }
        assert forall|k: int| 0 <= k < at.len() implies lo <= (#[trigger] at[k]).0 < hi && is_kept(
            nodes,
            language,
            lo,
            at[k].0,
        ) && says(all[k], nodes[at[k].0], language, at[k].1) by {
            if k < own.len() {
                assert(at[k] == own[k]);
            } else {
                assert(at[k] == behind[k - own.len()]);
                assert(is_kept(nodes, language, end, at[k].0));
            }
        }
        assert forall|k: int, l: int| 0 <= k < l < own.len() implies comes_before(
            nodes,
            #[trigger] own[k],
            #[trigger] own[l],
        ) by {
            if role is Structure {
                if 1 <= k <= inner.len() {
                    assert(own[k] == inner[k - 1]);
                    assert(lies_under(nodes, lo, inner[k - 1].0));
                }
                if 1 <= l <= inner.len() {
                    assert(own[l] == inner[l - 1]);
                }
            }
        }
        assert forall|k: int, l: int| 0 <= k < l < at.len() implies comes_before(
            nodes,
            #[trigger] at[k],
            #[trigger] at[l],
        ) by {
            if l < own.len() {
                assert(at[k] == own[k] && at[l] == own[l]);
            } else {
                assert(at[l] == behind[l - own.len()]);
                if k >= own.len() {
                    assert(at[k] == behind[k - own.len()]);
                } else {
                    assert(at[k] == own[k]);
                    lemma_apart(nodes, lo, end, at[k].0, at[l].0);
                }
            }
        }
        assert forall|r: int, first: bool|
            lo <= r < hi && is_kept(nodes, language, lo, r) && (first || language.role(
                nodes[r].kind,
                nodes[r].named,
            ) is Structure) implies #[trigger] at.contains((r, first)) by {
            if r == lo {
                if first {
                    assert(at[0] == (lo, true));
                } else {
                    assert(at[own.len() - 1] == (lo, false));
                }
            } else if r < end {
                assert(is_kept(nodes, language, lo + 1, r));
                assert(inner.contains((r, first)));
                let k = choose|k: int| 0 <= k < inner.len() && inner[k] == (r, first);
                assert(at[k + 1] == (r, first));
            } else {
                assert(is_kept(nodes, language, end, r));
                assert(behind.contains((r, first)));
                let k = choose|k: int| 0 <= k < behind.len() && behind[k] == (r, first);
                assert(at[own.len() + k] == (r, first));
            }
        }
        at
    }
}

/// The token stream of code says of every node of it what there is to say, in the order of
/// the source, and nothing else: the placeholder for a name, the tag for a literal, the
/// kind for anything else and that it ends, each at its line. Nothing is said of what is
/// ignored, nor of what lies in a name, a literal or something that is ignored.
pub proof fn lemma_a_stream_says_every_node(
    nodes: Seq<NodeView>,
    language: LanguageView,
    i: int,
) -> (at: Seq<(int, bool)>)
    requires
        0 <= i < nodes.len(),
    ensures
        say_every_node(
            placed_at(nodes, language, i),
            nodes,
            language,
            i,
            subtree_end(nodes, i, nodes.len() as int),
            at,
        ),
        forall|r: int|
            #![trigger lies_under(nodes, i, r)]
            lies_under(nodes, i, r) <==> i <= r < subtree_end(nodes, i, nodes.len() as int),
{
    let n = nodes.len() as int;
    lemma_next_no_deeper(nodes, nodes[i].depth, i + 1, n);
    lemma_stops_at(nodes, nodes[i].depth, i + 1, n);
    let end = subtree_end(nodes, i, n);
    assert forall|r: int|
        #![trigger lies_under(nodes, i, r)]
        lies_under(nodes, i, r) <==> i <= r < end by {
        if lies_under(nodes, i, r) && r >= end {
            assert(nodes[end].depth > nodes[i].depth);
        }
    }
    lemma_walk_says_every_node(nodes, language, i, end)
}

proof fn lemma_identifiers_met(
    nodes: Seq<NodeView>,
    language: LanguageView,
    lo: int,
    hi: int,
    x: Seq<char>,
)
    requires
        0 <= lo <= hi <= nodes.len(),
    ensures
        identifiers_in(nodes, language, lo, hi).contains(x) <==> exists|r: int|
            lo <= r < hi && #[trigger] is_kept(nodes, language, lo, r) && language.role(
                nodes[r].kind,
                nodes[r].named,
            ) is Identifier && nodes[r].text == x,
    decreases hi - lo,
{
    if lo < hi {
        lemma_next_no_deeper(nodes, nodes[lo].depth, lo + 1, hi);
        lemma_stops_at(nodes, nodes[lo].depth, lo + 1, hi);
        let end = subtree_end(nodes, lo, hi);
        lemma_identifiers_met(nodes, language, lo + 1, end, x);
        lemma_identifiers_met(nodes, language, end, hi, x);
        let role = language.role(nodes[lo].kind, nodes[lo].named);
        let inner = identifiers_in(nodes, language, lo + 1, end);
        let own = match role {
            Role::Identifier => seq![nodes[lo].text],
            Role::Structure => inner,
            _ => Seq::empty(),
        };
        let behind = identifiers_in(nodes, language, end, hi);
        let all = identifiers_in(nodes, language, lo, hi);
        assert(all == own + behind);
        assert forall|r: int| lo < r < end implies (#[trigger] is_kept(nodes, language, lo, r)
            <==> is_kept(nodes, language, lo + 1, r) && role is Structure) by {
            lemma_kept_inside(nodes, language, lo, end, r);
        }
        assert forall|r: int| end <= r < hi implies (#[trigger] is_kept(nodes, language, lo, r)
            <==> is_kept(nodes, language, end, r)) by {
            lemma_kept_behind(nodes, language, lo, end, r);
        }
        if all.contains(x) {
            let k = choose|k: int| 0 <= k < all.len() && all[k] == x;
            if k >= own.len() {
                assert(behind[k - own.len()] == x);
                let r = choose|r: int|
                    end <= r < hi && #[trigger] is_kept(nodes, language, end, r) && language.role(
                        nodes[r].kind,
                        nodes[r].named,
                    ) is Identifier && nodes[r].text == x;
                assert(is_kept(nodes, language, lo, r));
            } else if role is Structure {
                assert(inner[k] == x);
                let r = choose|r: int|
                    lo + 1 <= r < end && #[trigger] is_kept(nodes, language, lo + 1, r)
                        && language.role(nodes[r].kind, nodes[r].named) is Identifier
                        && nodes[r].text == x;
                assert(is_kept(nodes, language, lo, r));
            } else {
                assert(is_kept(nodes, language, lo, lo));
            }
        }
        if exists|r: int|
            lo <= r < hi && #[trigger] is_kept(nodes, language, lo, r) && language.role(
                nodes[r].kind,
                nodes[r].named,
            ) is Identifier && nodes[r].text == x {
            let r = choose|r: int|
                lo <= r < hi && #[trigger] is_kept(nodes, language, lo, r) && language.role(
                    nodes[r].kind,
                    nodes[r].named,
                ) is Identifier && nodes[r].text == x;
            if r == lo {
                assert(all[0] == x);
            } else if r < end {
                assert(is_kept(nodes, language, lo + 1, r));
                let k = choose|k: int| 0 <= k < inner.len() && inner[k] == x;
                assert(all[k] == x);
            } else {
                assert(is_kept(nodes, language, end, r));
                let k = choose|k: int| 0 <= k < behind.len() && behind[k] == x;
                assert(all[own.len() + k] == x);
            }
        }
    }
}

/// The identifiers of code are the texts of its names, all of them and no others: of
/// every node that is a name and lies in nothing but structure.
pub proof fn lemma_identifiers_are_the_names(
    nodes: Seq<NodeView>,
    language: LanguageView,
    i: int,
    x: Seq<char>,
)
    requires
        0 <= i < nodes.len(),
    ensures
        identifiers_at(nodes, language, i).contains(x) <==> exists|r: int|
            #![trigger lies_under(nodes, i, r)]
            lies_under(nodes, i, r) && is_kept(nodes, language, i, r) && language.role(
                nodes[r].kind,
                nodes[r].named,
            ) is Identifier && nodes[r].text == x,
{
    let at = lemma_a_stream_says_every_node(nodes, language, i);
    let n = nodes.len() as int;
    let end = subtree_end(nodes, i, n);
    lemma_next_no_deeper(nodes, nodes[i].depth, i + 1, n);
    lemma_identifiers_met(nodes, language, i, end, x);
    if identifiers_at(nodes, language, i).contains(x) {
        let r = choose|r: int|
            i <= r < end && #[trigger] is_kept(nodes, language, i, r) && language.role(
                nodes[r].kind,
                nodes[r].named,
            ) is Identifier && nodes[r].text == x;
        assert(lies_under(nodes, i, r));
    }
}

} // verus!
