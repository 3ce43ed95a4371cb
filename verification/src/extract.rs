//! Pulling comparable units — functions and methods — out of a source file.
//!
//! A *unit* is the granularity at which duplication is reported: one function,
//! with its normalized token stream, its location, and its size. Everything
//! downstream compares units, never files.
//!
//! # Nested units are extracted too, and also stay inside their parent
//!
//! A method inside a class is a unit; so is a closure inside that method. The
//! enclosing unit's stream still contains the nested one. That is deliberate:
//! two functions that both wrap the same helper are similar *because* of it.
//!
//! # Syntax errors are reported, never swallowed
//!
//! Parsing is error-tolerant: given nonsense it yields a tree containing `ERROR`
//! nodes rather than refusing. A file with one bad line still yields its other
//! functions, but this is also how a scan can quietly degrade to finding
//! nothing. So [`Extraction::had_syntax_errors`] carries the fact upward.

use vstd::prelude::*;
use vstd::string::*;

use crate::lang::{lookup, Language, LanguageView};
use crate::normalize::{
    count_nodes, named_between, node_count_at, normalize, placed_at, token_names,
};
use crate::sort::{
    in_order, lemma_filter_of_map, lemma_filter_of_sorted, lemma_map_of_sorted, lemma_sorted,
    lemma_sorted_holds, sort, sorted, views, Order,
};
use crate::syntax::{
    end_of_subtree, field_text, lemma_next_no_deeper, line, line_of, next_no_deeper, parse,
    subtree_end, syntax_of, text_under, NodeView, SyntaxNode,
};
use crate::text::{decimal, push_decimal};
use crate::token::{
    content_hash, id_of, ids_of, intern_all, lemma_ids_are_stable, lemma_interning_extends, Interner,
    StreamView, TokenStream,
};

verus! {

/// Separator between qualified-name segments, in every language.
///
/// Uniform on purpose: a reader scanning findings across a polyglot repository
/// should not have to switch between `::`, `.`, and `#` to parse them.
pub const QUALNAME_SEPARATOR: &'static str = ".";

/// A file that has been read, together with the language claiming it.
///
/// Every detector works from this rather than reading files itself, so a scan
/// touches the disk exactly once no matter how many detectors run over it.
#[derive(Debug)]
pub struct SourceFile {
    /// Path as the walker reported it.
    pub path: String,
    /// The language whose grammar parses this file.
    pub language: Language,
    /// Full contents of the file.
    pub text: String,
}

/// What a source file holds.
#[verifier::ext_equal]
pub struct SourceView {
    /// Path as the walker reported it.
    pub path: Seq<char>,
    /// The language whose grammar parses this file.
    pub language: LanguageView,
    /// Full contents of the file.
    pub text: Seq<char>,
}

impl View for SourceFile {
    type V = SourceView;

    open spec fn view(&self) -> SourceView {
        SourceView { path: self.path@, language: self.language@, text: self.text@ }
    }
}

impl Clone for SourceFile {
    fn clone(&self) -> (f: Self)
        ensures
            f@ == self@,
    {
        SourceFile {
            path: self.path.clone(),
            language: self.language.clone(),
            text: self.text.clone(),
        }
    }
}

/// What a unit holds.
#[verifier::ext_equal]
pub struct UnitView {
    /// File the unit was found in.
    pub path: Seq<char>,
    /// Dotted path to the unit within the file.
    pub qualname: Seq<char>,
    /// First line of the unit.
    pub start_line: nat,
    /// Last line of the unit.
    pub end_line: nat,
    /// Named syntax nodes in the unit.
    pub node_count: nat,
    /// The normalized token stream and its content hash.
    pub stream: StreamView,
}

/// One comparable piece of code.
#[derive(Debug, PartialEq, Eq)]
pub struct Unit {
    /// File the unit was found in, exactly as the walker reported it.
    pub path: String,
    /// Dotted path to the unit within the file, e.g. `Account.grow`.
    pub qualname: String,
    /// First line of the unit, 1-based.
    pub start_line: usize,
    /// Last line of the unit, 1-based, itself part of it.
    pub end_line: usize,
    /// Named syntax nodes in the unit, the measure `min_nodes` applies to.
    pub node_count: usize,
    /// The normalized token stream and its content hash.
    pub stream: TokenStream,
}

impl View for Unit {
    type V = UnitView;

    open spec fn view(&self) -> UnitView {
        UnitView {
            path: self.path@,
            qualname: self.qualname@,
            start_line: self.start_line as nat,
            end_line: self.end_line as nat,
            node_count: self.node_count as nat,
            stream: self.stream@,
        }
    }
}

impl Clone for Unit {
    fn clone(&self) -> (u: Self)
        ensures
            u@ == self@,
    {
        Unit {
            path: self.path.clone(),
            qualname: self.qualname.clone(),
            start_line: self.start_line,
            end_line: self.end_line,
            node_count: self.node_count,
            stream: self.stream.clone(),
        }
    }
}

/// Units in the order of their first lines, then of their last ones.
pub struct SourceOrder;

impl Order<Unit> for SourceOrder {
    open spec fn precedes(a: UnitView, b: UnitView) -> bool {
        a.start_line < b.start_line || (a.start_line == b.start_line && a.end_line <= b.end_line)
    }

    proof fn lemma_total(a: UnitView, b: UnitView) {
    }

    proof fn lemma_transitive(a: UnitView, b: UnitView, c: UnitView) {
    }

    fn may_precede(a: &Unit, b: &Unit) -> (r: bool) {
        a.start_line < b.start_line || (a.start_line == b.start_line && a.end_line <= b.end_line)
    }
}

/// What extracting one file produced.
#[derive(Debug, PartialEq, Eq)]
pub struct Extraction {
    /// Units at or above the size threshold, in source order.
    pub units: Vec<Unit>,
    /// Whether the grammar reported a syntax error anywhere in the file.
    ///
    /// Not an error in itself — the units that did parse are still returned —
    /// but a scan over a tree where this is often true is a scan that is not
    /// seeing the code, and the user needs to be told.
    pub had_syntax_errors: bool,
}

/// What an extraction holds.
#[verifier::ext_equal]
pub struct ExtractionView {
    /// The units, in source order.
    pub units: Seq<UnitView>,
    /// Whether the grammar reported a syntax error anywhere in the file.
    pub had_syntax_errors: bool,
}

impl View for Extraction {
    type V = ExtractionView;

    open spec fn view(&self) -> ExtractionView {
        ExtractionView {
            units: views(self.units@),
            had_syntax_errors: self.had_syntax_errors,
        }
    }
}

impl Clone for Extraction {
    fn clone(&self) -> (e: Self)
        ensures
            e@ == self@,
    {
        let mut units: Vec<Unit> = Vec::new();
        let mut k: usize = 0;
        while k < self.units.len()
            invariant
                k <= self.units@.len(),
                views(units@) == views(self.units@).take(k as int),
            decreases self.units.len() - k,
        {
            let ghost before = views(units@);
            units.push(self.units[k].clone());
            assert(views(units@) =~= before.push(self.units@[k as int]@));
            k += 1;
            assert(views(units@) =~= views(self.units@).take(k as int));
        }
        assert(views(units@) =~= views(self.units@));
        Extraction { units, had_syntax_errors: self.had_syntax_errors }
    }
}

// ------------------------------------------------------------------------- naming

/// Name given to a unit whose grammar node carries no name — a JavaScript
/// arrow function, say. The line number keeps it identifiable in a report.
pub open spec fn anonymous(line: nat) -> Seq<char> {
    "<anonymous@"@ + decimal(line) + ">"@
}

/// Name given to a unit whose grammar node carries no name.
pub fn anonymous_name(line: usize) -> (name: String)
    ensures
        name@ == anonymous(line as nat),
{
    let mut name = "<anonymous@".to_owned();
    push_decimal(&mut name, line as u128);
    name.append(">");
    name
}

/// A segment behind its prefix.
pub open spec fn joined(prefix: Seq<char>, segment: Seq<char>) -> Seq<char> {
    if prefix.len() == 0 {
        segment
    } else {
        prefix + QUALNAME_SEPARATOR@ + segment
    }
}

/// A segment behind its prefix, with the separator between them.
pub fn join(prefix: &str, segment: &str) -> (name: String)
    ensures
        name@ == joined(prefix@, segment@),
{
    if prefix.is_empty() {
        segment.to_owned()
    } else {
        let mut name = prefix.to_owned();
        name.append(QUALNAME_SEPARATOR);
        name.append(segment);
        name
    }
}

/// The name a node declares through a field, or the one an anonymous node gets.
pub open spec fn declared_name(node: NodeView, field: Seq<char>) -> Seq<char> {
    match field_text(node, field) {
        Some(name) => name,
        None => anonymous(line_of(node.start_row)),
    }
}

fn name_declared(node: &SyntaxNode, field: &str) -> (name: String)
    ensures
        name@ == declared_name(node@, field@),
{
    match text_under(node, field) {
        Some(name) => name.clone(),
        None => anonymous_name(line(node.start_row)),
    }
}

// ------------------------------------------------------------------------- finding

/// The qualified name of a unit node, if it is one and large enough.
pub open spec fn unit_here(
    nodes: Seq<NodeView>,
    language: LanguageView,
    prefix: Seq<char>,
    min_nodes: nat,
    i: int,
) -> Option<Seq<char>> {
    match lookup(language.unit_kinds, nodes[i].kind) {
        Some(field) => if node_count_at(nodes, i) >= min_nodes {
            Some(joined(prefix, declared_name(nodes[i], field)))
        } else {
            None
        },
        None => None,
    }
}

/// The unit a node is, if it is one and large enough.
pub open spec fn found_here(
    nodes: Seq<NodeView>,
    language: LanguageView,
    prefix: Seq<char>,
    min_nodes: nat,
    i: int,
) -> Seq<(int, Seq<char>)> {
    match unit_here(nodes, language, prefix, min_nodes, i) {
        Some(name) => seq![(i, name)],
        None => Seq::empty(),
    }
}

/// The prefix of the names below a node.
pub open spec fn prefix_below(
    nodes: Seq<NodeView>,
    language: LanguageView,
    prefix: Seq<char>,
    i: int,
) -> Seq<char> {
    match lookup(language.scope_kinds, nodes[i].kind) {
        Some(field) => joined(prefix, declared_name(nodes[i], field)),
        None => prefix,
    }
}

/// The unit nodes from `lo` to `hi`, each with its qualified name, an enclosing
/// one ahead of those nested in it.
pub open spec fn found_in(
    nodes: Seq<NodeView>,
    language: LanguageView,
    prefix: Seq<char>,
    min_nodes: nat,
    lo: int,
    hi: int,
) -> Seq<(int, Seq<char>)>
    decreases hi - lo,
{
    if lo >= hi {
        Seq::empty()
    } else {
        proof {
            lemma_next_no_deeper(nodes, nodes[lo].depth, lo + 1, hi);
        }
        let end = subtree_end(nodes, lo, hi);
        found_here(nodes, language, prefix, min_nodes, lo) + found_in(
            nodes,
            language,
            prefix_below(nodes, language, prefix, lo),
            min_nodes,
            lo + 1,
            end,
        ) + found_in(nodes, language, prefix, min_nodes, end, hi)
    }
}

/// The token names of the unit at a node.
pub open spec fn unit_names(
    nodes: Seq<NodeView>,
    language: LanguageView,
    i: int,
) -> Seq<Seq<char>> {
    token_names(placed_at(nodes, language, i))
}

/// The names an interner knows once the units found have been looked up in turn.
pub open spec fn known_after(
    nodes: Seq<NodeView>,
    language: LanguageView,
    known: Seq<Seq<char>>,
    found: Seq<(int, Seq<char>)>,
) -> Seq<Seq<char>>
    decreases found.len(),
{
    if found.len() == 0 {
        known
    } else {
        intern_all(
            known_after(nodes, language, known, found.drop_last()),
            unit_names(nodes, language, found.last().0),
        )
    }
}

/// The units found, their tokens looked up in turn.
pub open spec fn units_from(
    nodes: Seq<NodeView>,
    language: LanguageView,
    path: Seq<char>,
    known: Seq<Seq<char>>,
    found: Seq<(int, Seq<char>)>,
) -> Seq<UnitView>
    decreases found.len(),
{
    if found.len() == 0 {
        Seq::empty()
    } else {
        let (i, name) = found.last();
        let names = unit_names(nodes, language, i);
        units_from(nodes, language, path, known, found.drop_last()).push(
            UnitView {
                path,
                qualname: name,
                start_line: line_of(nodes[i].start_row),
                end_line: line_of(nodes[i].end_row),
                node_count: node_count_at(nodes, i),
                stream: StreamView {
                    tokens: ids_of(known_after(nodes, language, known, found), names),
                    hash: content_hash(names),
                },
            },
        )
    }
}

proof fn lemma_found_concat(
    nodes: Seq<NodeView>,
    language: LanguageView,
    path: Seq<char>,
    known: Seq<Seq<char>>,
    a: Seq<(int, Seq<char>)>,
    b: Seq<(int, Seq<char>)>,
)
    ensures
        known_after(nodes, language, known, a + b) == known_after(
            nodes,
            language,
            known_after(nodes, language, known, a),
            b,
        ),
        units_from(nodes, language, path, known, a + b) == units_from(
            nodes,
            language,
            path,
            known,
            a,
        ) + units_from(nodes, language, path, known_after(nodes, language, known, a), b),
    decreases b.len(),
{
    if b.len() == 0 {
        assert(a + b =~= a);
        assert(units_from(nodes, language, path, known, a) + Seq::empty() =~= units_from(
            nodes,
            language,
            path,
            known,
            a,
        ));
    } else {
        assert((a + b).drop_last() =~= a + b.drop_last());
        assert((a + b).last() == b.last());
        lemma_found_concat(nodes, language, path, known, a, b.drop_last());
        let after = known_after(nodes, language, known, a);
        assert(units_from(nodes, language, path, known, a + b) =~= units_from(
            nodes,
            language,
            path,
            known,
            a,
        ) + units_from(nodes, language, path, after, b));
    }
}

/// The unit nodes of a tree: those below its root.
pub open spec fn found_under_root(
    nodes: Seq<NodeView>,
    language: LanguageView,
    min_nodes: nat,
) -> Seq<(int, Seq<char>)> {
    if nodes.len() == 0 {
        Seq::empty()
    } else {
        found_in(
            nodes,
            language,
            Seq::empty(),
            min_nodes,
            1,
            subtree_end(nodes, 0, nodes.len() as int),
        )
    }
}

/// What extracting the units of a tree produces.
pub open spec fn extraction_of(
    nodes: Seq<NodeView>,
    language: LanguageView,
    path: Seq<char>,
    known: Seq<Seq<char>>,
    min_nodes: nat,
) -> ExtractionView {
    ExtractionView {
        units: sorted::<Unit, SourceOrder>(
            units_from(
                nodes,
                language,
                path,
                known,
                found_under_root(nodes, language, min_nodes),
            ),
        ),
        had_syntax_errors: nodes.len() > 0 && nodes[0].has_error,
    }
}

/// Borrow a list of texts.
pub(crate) fn borrowed<'a>(list: &'a Vec<String>) -> (r: Vec<&'a str>)
    ensures
        views(r@) == views(list@),
{
    let mut r: Vec<&'a str> = Vec::new();
    let mut i: usize = 0;
    while i < list.len()
        invariant
            i <= list@.len(),
            views(r@) == views(list@).take(i as int),
        decreases list.len() - i,
    {
        let ghost before = views(r@);
        r.push(list[i].as_str());
        assert(views(r@) =~= before.push(list@[i as int]@));
        i += 1;
        assert(views(r@) =~= views(list@).take(i as int));
    }
    assert(views(r@) =~= views(list@));
    r
}

/// An extractor bound to one language, reusable across files.
#[derive(Debug)]
pub struct Extractor {
    language: Language,
}

impl View for Extractor {
    type V = LanguageView;

    closed spec fn view(&self) -> LanguageView {
        self.language@
    }
}

impl Extractor {
    /// Build an extractor for a registered language.
    pub fn new(language: Language) -> (e: Self)
        ensures
            e@ == language@,
    {
        Extractor { language }
    }

    /// The language this extractor parses.
    pub fn language(&self) -> (l: &Language)
        ensures
            l@ == self@,
    {
        &self.language
    }

    /// Extract every unit of at least `min_nodes` named syntax nodes.
    pub fn extract(
        &mut self,
        source: &str,
        path: &str,
        min_nodes: usize,
        interner: &mut Interner,
    ) -> (e: Extraction)
        requires
            old(interner).wf(),
        ensures
            final(self)@ == old(self)@,
            final(interner).wf(),
            ({
                let nodes = syntax_of(old(self)@.grammar, source@);
                let found = found_under_root(nodes, old(self)@, min_nodes as nat);
                &&& final(interner)@ == known_after(
                    nodes,
                    old(self)@,
                    old(interner)@,
                    found,
                )
                &&& e@ == extraction_of(
                    nodes,
                    old(self)@,
                    path@,
                    old(interner)@,
                    min_nodes as nat,
                )
                &&& reports_every_unit(e@.units, nodes, old(self)@, path@, min_nodes as nat)
            }),
    {
        let nodes = parse(&self.language, source);
        self.extract_nodes(nodes.as_slice(), path, min_nodes, interner)
    }

    /// Extract every unit of at least `min_nodes` named syntax nodes from a tree
    /// already parsed.
    pub fn extract_nodes(
        &self,
        nodes: &[SyntaxNode],
        path: &str,
        min_nodes: usize,
        interner: &mut Interner,
    ) -> (e: Extraction)
        requires
            old(interner).wf(),
        ensures
            final(interner).wf(),
            ({
                let found = found_under_root(views(nodes@), self@, min_nodes as nat);
                &&& final(interner)@ == known_after(
                    views(nodes@),
                    self@,
                    old(interner)@,
                    found,
                )
                &&& e@ == extraction_of(
                    views(nodes@),
                    self@,
                    path@,
                    old(interner)@,
                    min_nodes as nat,
                )
                &&& reports_every_unit(e@.units, views(nodes@), self@, path@, min_nodes as nat)
            }),
    {
        let mut units: Vec<Unit> = Vec::new();
        let mut had_syntax_errors = false;
        if nodes.len() > 0 {
            had_syntax_errors = nodes[0].has_error;
            let end: usize = end_of_subtree(nodes, 0, nodes.len());
            assert(""@ =~= Seq::empty()) by {
                reveal_strlit("");
            }
            self.visit(nodes, 1, end, path, "", min_nodes, interner, &mut units);
        }
        proof {
            let found = found_under_root(views(nodes@), self@, min_nodes as nat);
            assert(views(units@) =~= units_from(
                views(nodes@),
                self@,
                path@,
                old(interner)@,
                found,
            ));
            lemma_every_unit_is_extracted(
                views(nodes@),
                self@,
                path@,
                old(interner)@,
                min_nodes as nat,
            );
        }
        let units = sort::<Unit, SourceOrder>(units);
        Extraction { units, had_syntax_errors }
    }

    /// Add the unit at a node, if it is one and large enough.
    fn take_unit(
        &self,
        nodes: &[SyntaxNode],
        i: usize,
        path: &str,
        prefix: &str,
        min_nodes: usize,
        interner: &mut Interner,
        units: &mut Vec<Unit>,
    )
        requires
            i < nodes@.len(),
            old(interner).wf(),
        ensures
            final(interner).wf(),
            ({
                let here = found_here(
                    views(nodes@),
                    self@,
                    prefix@,
                    min_nodes as nat,
                    i as int,
                );
                &&& final(interner)@ == known_after(views(nodes@), self@, old(interner)@, here)
                &&& views(final(units)@) == views(old(units)@) + units_from(
                    views(nodes@),
                    self@,
                    path@,
                    old(interner)@,
                    here,
                )
            }),
    {
        let node = &nodes[i];
        let ghost here = found_here(views(nodes@), self@, prefix@, min_nodes as nat, i as int);
        proof {
            assert(here.len() > 0 ==> here.drop_last() =~= Seq::empty());
            reveal_with_fuel(known_after, 2);
            reveal_with_fuel(units_from, 2);
        }
        if let Some(field) = self.language.unit_name_field(node.kind.as_str()) {
            let qualname = join(prefix, name_declared(node, field).as_str());
            let node_count: usize = count_nodes(nodes, i);
            if node_count >= min_nodes {
                let names = normalize(nodes, i, &self.language);
                let stream = TokenStream::intern(borrowed(&names).as_slice(), interner);
                let unit = Unit {
                    path: path.to_owned(),
                    qualname,
                    start_line: line(node.start_row),
                    end_line: line(node.end_row),
                    node_count,
                    stream,
                };
                units.push(unit);
            }
        }
        assert(views(units@) =~= views(old(units)@) + units_from(
            views(nodes@),
            self@,
            path@,
            old(interner)@,
            here,
        ));
    }

    fn visit(
        &self,
        nodes: &[SyntaxNode],
        lo: usize,
        hi: usize,
        path: &str,
        prefix: &str,
        min_nodes: usize,
        interner: &mut Interner,
        units: &mut Vec<Unit>,
    )
        requires
            lo <= hi <= nodes@.len(),
            old(interner).wf(),
        ensures
            final(interner).wf(),
            ({
                let found = found_in(
                    views(nodes@),
                    self@,
                    prefix@,
                    min_nodes as nat,
                    lo as int,
                    hi as int,
                );
                &&& final(interner)@ == known_after(
                    views(nodes@),
                    self@,
                    old(interner)@,
                    found,
                )
                &&& views(final(units)@) == views(old(units)@) + units_from(
                    views(nodes@),
                    self@,
                    path@,
                    old(interner)@,
                    found,
                )
            }),
        decreases hi - lo,
    {
        let ghost all = views(nodes@);
        let ghost language = self@;
        let ghost known = interner@;
        let ghost held = views(units@);
        let ghost want = min_nodes as nat;
        let ghost goal = found_in(all, language, prefix@, want, lo as int, hi as int);
        let ghost mut done: Seq<(int, Seq<char>)> = Seq::empty();
        let mut i: usize = lo;
        assert(done + goal =~= goal);
        assert(held + Seq::empty() =~= held);
        while i < hi
            invariant
                lo <= i <= hi <= nodes@.len(),
                all == views(nodes@),
                language == self@,
                want == min_nodes,
                interner.wf(),
                interner@ == known_after(all, language, known, done),
                views(units@) == held + units_from(all, language, path@, known, done),
                done + found_in(all, language, prefix@, want, i as int, hi as int) == goal,
            decreases hi - i,
        {
            let end: usize = end_of_subtree(nodes, i, hi);
            let node = &nodes[i];
            let kind = node.kind.as_str();
            let ghost here = found_here(all, language, prefix@, want, i as int);
            let ghost below = prefix_below(all, language, prefix@, i as int);
            let ghost inside = found_in(all, language, below, want, i + 1, end as int);
            let ghost behind = found_in(all, language, prefix@, want, end as int, hi as int);
            proof {
                assert(found_in(all, language, prefix@, want, i as int, hi as int) == here + inside
                    + behind);
            }
            self.take_unit(nodes, i, path, prefix, min_nodes, interner, units);
            proof {
                lemma_found_concat(all, language, path@, known, done, here);
                assert(views(units@) =~= held + units_from(
                    all,
                    language,
                    path@,
                    known,
                    done + here,
                ));
            }
            // A unit is normally also a scope, so a nested function reads as
            // `outer.inner`. Descent is unconditional, never gated on the size
            // filter.
            let nested = match self.language.scope_name_field(kind) {
                Some(field) => join(prefix, name_declared(node, field).as_str()),
                None => prefix.to_owned(),
            };
            self.visit(nodes, i + 1, end, path, nested.as_str(), min_nodes, interner, units);
            proof {
                lemma_found_concat(all, language, path@, known, done + here, inside);
                assert(views(units@) =~= held + units_from(
                    all,
                    language,
                    path@,
                    known,
                    done + here + inside,
                ));
                assert(done + (here + inside + behind) =~= (done + here + inside) + behind);
                done = done + here + inside;
            }
            i = end;
        }
        assert(done + Seq::empty() =~= done);
    }
}

// --------------------------------------------------------------------------- laws

/// The normalized body of a unit is this list of token names, all of them known.
pub open spec fn has_body(u: UnitView, names: Seq<Seq<char>>, known: Seq<Seq<char>>) -> bool {
    &&& u.stream == (StreamView { tokens: ids_of(known, names), hash: content_hash(names) })
    &&& forall|i: int| 0 <= i < names.len() ==> known.contains(#[trigger] names[i])
}

/// A unit keeps its body whatever is looked up later.
pub proof fn lemma_bodies_stay(
    u: UnitView,
    names: Seq<Seq<char>>,
    known: Seq<Seq<char>>,
    more: Seq<Seq<char>>,
)
    requires
        known.no_duplicates(),
        has_body(u, names, known),
    ensures
        intern_all(known, more).no_duplicates(),
        has_body(u, names, intern_all(known, more)),
{
    let after = intern_all(known, more);
    lemma_interning_extends(known, more);
    assert forall|i: int| 0 <= i < names.len() implies after.contains(#[trigger] names[i]) && id_of(
        after,
        names[i],
    ) == id_of(known, names[i]) by {
        lemma_ids_are_stable(known, more, names[i]);
    }
    assert(ids_of(after, names) =~= ids_of(known, names));
}

/// The body of every unit found is the token stream of its node, and what is found
/// later does not change it.
pub proof fn lemma_units_have_the_bodies_of_their_nodes(
    nodes: Seq<NodeView>,
    language: LanguageView,
    path: Seq<char>,
    known: Seq<Seq<char>>,
    found: Seq<(int, Seq<char>)>,
)
    requires
        known.no_duplicates(),
    ensures
        known_after(nodes, language, known, found).no_duplicates(),
        units_from(nodes, language, path, known, found).len() == found.len(),
        forall|k: int|
            0 <= k < found.len() ==> has_body(
                #[trigger] units_from(nodes, language, path, known, found)[k],
                unit_names(nodes, language, found[k].0),
                known_after(nodes, language, known, found),
            ),
        forall|u: UnitView, names: Seq<Seq<char>>| #[trigger]
            has_body(u, names, known) ==> has_body(
                u,
                names,
                known_after(nodes, language, known, found),
            ),
    decreases found.len(),
{
    if found.len() > 0 {
        let front = found.drop_last();
        let last = unit_names(nodes, language, found.last().0);
        let before = known_after(nodes, language, known, front);
        let after = known_after(nodes, language, known, found);
        let units = units_from(nodes, language, path, known, found);
        lemma_units_have_the_bodies_of_their_nodes(nodes, language, path, known, front);
        lemma_interning_extends(before, last);
        assert forall|k: int| 0 <= k < found.len() implies has_body(
            #[trigger] units[k],
            unit_names(nodes, language, found[k].0),
            after,
        ) by {
            if k < front.len() {
                assert(units[k] == units_from(nodes, language, path, known, front)[k]);
                assert(front[k] == found[k]);
                lemma_bodies_stay(
                    units[k],
                    unit_names(nodes, language, found[k].0),
                    before,
                    last,
                );
            }
        }
        assert forall|u: UnitView, names: Seq<Seq<char>>| #[trigger]
            has_body(u, names, known) implies has_body(u, names, after) by {
            assert(has_body(u, names, before));
            lemma_bodies_stay(u, names, before, last);
        }
    }
}

proof fn lemma_threshold_filters(
    nodes: Seq<NodeView>,
    language: LanguageView,
    prefix: Seq<char>,
    low: nat,
    high: nat,
    lo: int,
    hi: int,
)
    requires
        low <= high,
    ensures
        found_in(nodes, language, prefix, high, lo, hi) == found_in(
            nodes,
            language,
            prefix,
            low,
            lo,
            hi,
        ).filter(|f: (int, Seq<char>)| node_count_at(nodes, f.0) >= high),
    decreases hi - lo,
{
    let large = |f: (int, Seq<char>)| node_count_at(nodes, f.0) >= high;
    reveal(Seq::filter);
    if lo < hi {
        lemma_next_no_deeper(nodes, nodes[lo].depth, lo + 1, hi);
        let end = subtree_end(nodes, lo, hi);
        let below = prefix_below(nodes, language, prefix, lo);
        lemma_threshold_filters(nodes, language, below, low, high, lo + 1, end);
        lemma_threshold_filters(nodes, language, prefix, low, high, end, hi);
        let here = found_here(nodes, language, prefix, low, lo);
        let inside = found_in(nodes, language, below, low, lo + 1, end);
        let behind = found_in(nodes, language, prefix, low, end, hi);
        Seq::filter_distributes_over_add(here + inside, behind, large);
        Seq::filter_distributes_over_add(here, inside, large);
        assert(here.filter(large) =~= found_here(nodes, language, prefix, high, lo)) by {
            if here.len() > 0 {
                assert(here.drop_last() =~= Seq::empty());
                assert(here.drop_last().filter(large) =~= Seq::empty());
            }
        }
    } else {
        assert(Seq::<(int, Seq<char>)>::empty().filter(large) =~= Seq::empty());
    }
}

/// A unit without its token ids, which depend on what was looked up before.
pub open spec fn without_ids(u: UnitView) -> UnitView {
    UnitView { stream: StreamView { tokens: Seq::empty(), hash: u.stream.hash }, ..u }
}

spec fn bare_unit(
    nodes: Seq<NodeView>,
    language: LanguageView,
    path: Seq<char>,
    found: (int, Seq<char>),
) -> UnitView {
    let (i, name) = found;
    UnitView {
        path,
        qualname: name,
        start_line: line_of(nodes[i].start_row),
        end_line: line_of(nodes[i].end_row),
        node_count: node_count_at(nodes, i),
        stream: StreamView {
            tokens: Seq::empty(),
            hash: content_hash(unit_names(nodes, language, i)),
        },
    }
}

proof fn lemma_bare_units(
    nodes: Seq<NodeView>,
    language: LanguageView,
    path: Seq<char>,
    known: Seq<Seq<char>>,
    found: Seq<(int, Seq<char>)>,
)
    ensures
        units_from(nodes, language, path, known, found).map_values(|u: UnitView| without_ids(u))
            == found.map_values(|f: (int, Seq<char>)| bare_unit(nodes, language, path, f)),
    decreases found.len(),
{
    let bare = |f: (int, Seq<char>)| bare_unit(nodes, language, path, f);
    let strip = |u: UnitView| without_ids(u);
    if found.len() > 0 {
        let front = found.drop_last();
        lemma_bare_units(nodes, language, path, known, front);
        let (before, units) = (
            units_from(nodes, language, path, known, front),
            units_from(nodes, language, path, known, found),
        );
        assert(units.map_values(strip) =~= before.map_values(strip).push(strip(units.last())));
        assert(found.map_values(bare) =~= front.map_values(bare).push(bare(found.last())));
    } else {
        assert(Seq::<UnitView>::empty().map_values(strip) =~= found.map_values(bare));
    }
}

/// Raising the size threshold only drops the units below it: those that remain come in
/// the same order, in source order, with the same path, name, lines, size and content
/// hash, whatever names either scan knew before. Whether there was a syntax error does
/// not depend on the threshold.
pub proof fn lemma_raising_the_threshold_only_drops(
    nodes: Seq<NodeView>,
    language: LanguageView,
    path: Seq<char>,
    known: Seq<Seq<char>>,
    other: Seq<Seq<char>>,
    low: nat,
    high: nat,
)
    requires
        low <= high,
    ensures
        ({
            let all = extraction_of(nodes, language, path, known, low);
            let large = extraction_of(nodes, language, path, other, high);
            &&& large.units.map_values(|u: UnitView| without_ids(u)) == all.units.map_values(
                |u: UnitView| without_ids(u),
            ).filter(|u: UnitView| u.node_count >= high)
            &&& in_order::<Unit, SourceOrder>(all.units)
            &&& in_order::<Unit, SourceOrder>(large.units)
            &&& large.had_syntax_errors == all.had_syntax_errors
        }),
{
    let strip = |u: UnitView| without_ids(u);
    let bare = |f: (int, Seq<char>)| bare_unit(nodes, language, path, f);
    let large = |u: UnitView| u.node_count >= high;
    let counts = |f: (int, Seq<char>)| node_count_at(nodes, f.0) >= high;
    let through = |f: (int, Seq<char>)| large(bare(f));
    let (few, many) = (
        found_under_root(nodes, language, high),
        found_under_root(nodes, language, low),
    );
    if nodes.len() > 0 {
        lemma_threshold_filters(
            nodes,
            language,
            Seq::empty(),
            low,
            high,
            1,
            subtree_end(nodes, 0, nodes.len() as int),
        );
    } else {
        reveal(Seq::filter);
        assert(many.filter(counts) =~= few);
    }
    let (some, every) = (
        units_from(nodes, language, path, other, few),
        units_from(nodes, language, path, known, many),
    );
    lemma_sorted::<Unit, SourceOrder>(some);
    lemma_sorted::<Unit, SourceOrder>(every);
    lemma_map_of_sorted::<Unit, SourceOrder>(some, strip);
    lemma_map_of_sorted::<Unit, SourceOrder>(every, strip);
    lemma_bare_units(nodes, language, path, other, few);
    lemma_bare_units(nodes, language, path, known, many);
    lemma_filter_of_sorted::<Unit, SourceOrder>(every.map_values(strip), large);
    lemma_filter_of_map(many, bare, large);
    assert(through =~= counts);
}

// ----------------------------------------------------------- what the units amount to

/// The node at `r` is the one at `a`, or lies below it.
pub open spec fn lies_under(nodes: Seq<NodeView>, a: int, r: int) -> bool {
    0 <= a <= r < nodes.len() && forall|k: int|
        a < k <= r ==> (#[trigger] nodes[k]).depth > nodes[a].depth
}

/// The named nodes of the subtree at `i`.
pub open spec fn named_under(nodes: Seq<NodeView>, i: int) -> Set<int> {
    Set::new(|r: int| lies_under(nodes, i, r) && nodes[r].named)
}

/// The name that the first entry for the node's kind gives a node: the text of the child
/// it says, or that of a node without a name, which is its line.
pub open spec fn name_by(table: Seq<(Seq<char>, Seq<char>)>, node: NodeView) -> Option<Seq<char>> {
    match lookup(table, node.kind) {
        None => None,
        Some(field) => match field_text(node, field) {
            Some(name) => Some(name),
            None => Some("<anonymous@"@ + decimal(line_of(node.start_row)) + ">"@),
        },
    }
}

/// The names of the scopes among the nodes before `k`, but for the root, that the node at
/// `i` lies in, the outermost first.
pub open spec fn scopes_around(
    nodes: Seq<NodeView>,
    language: LanguageView,
    i: int,
    k: int,
) -> Seq<Seq<char>>
    decreases k,
{
    if k <= 1 {
        Seq::empty()
    } else {
        let before = scopes_around(nodes, language, i, k - 1);
        match name_by(language.scope_kinds, nodes[k - 1]) {
            Some(name) => if k - 1 < i && lies_under(nodes, k - 1, i) {
                before.push(name)
            } else {
                before
            },
            None => before,
        }
    }
}

/// Names with a dot between them; one that follows nothing stands for itself.
pub open spec fn with_dots(names: Seq<Seq<char>>) -> Seq<char>
    decreases names.len(),
{
    if names.len() == 0 {
        Seq::empty()
    } else {
        let before = with_dots(names.drop_last());
        if before.len() == 0 {
            names.last()
        } else {
            before + seq!['.'] + names.last()
        }
    }
}

/// A node forms a unit: its kind is one that does, it lies below the root, and it has as
/// many named nodes as are asked for.
pub open spec fn forms_unit(
    nodes: Seq<NodeView>,
    language: LanguageView,
    min_nodes: nat,
    i: int,
) -> bool {
    &&& 0 < i
    &&& lies_under(nodes, 0, i)
    &&& exists|k: int|
        0 <= k < language.unit_kinds.len() && (#[trigger] language.unit_kinds[k]).0
            == nodes[i].kind
    &&& named_under(nodes, i).len() >= min_nodes
}

/// `u` tells of the unit that the node at `i` forms: its file, its name behind those of
/// the scopes it lies in, its first and last line, how many named nodes it has, and the
/// hash of its normalized body.
pub open spec fn tells_node(
    u: UnitView,
    nodes: Seq<NodeView>,
    language: LanguageView,
    path: Seq<char>,
    i: int,
) -> bool {
    &&& u.path == path
    &&& name_by(language.unit_kinds, nodes[i]) is Some
    &&& u.qualname == with_dots(
        scopes_around(nodes, language, i, i).push(
            name_by(language.unit_kinds, nodes[i]).unwrap(),
        ),
    )
    &&& u.start_line == (if nodes[i].start_row < usize::MAX {
        nodes[i].start_row + 1
    } else {
        usize::MAX as nat
    })
    &&& u.end_line == (if nodes[i].end_row < usize::MAX {
        nodes[i].end_row + 1
    } else {
        usize::MAX as nat
    })
    &&& u.node_count == named_under(nodes, i).len()
    &&& u.stream.hash == content_hash(token_names(placed_at(nodes, language, i)))
}

/// `found` tells of every node that forms a unit, and of nothing else, each once. `at`
/// says which node each of them is.
pub open spec fn tells_every_unit(
    found: Seq<UnitView>,
    nodes: Seq<NodeView>,
    language: LanguageView,
    path: Seq<char>,
    min_nodes: nat,
    at: Seq<int>,
) -> bool {
    &&& at.len() == found.len()
    &&& forall|k: int|
        0 <= k < at.len() ==> forms_unit(nodes, language, min_nodes, #[trigger] at[k])
            && tells_node(found[k], nodes, language, path, at[k])
    &&& forall|k: int, l: int| 0 <= k < l < at.len() ==> #[trigger] at[k] != #[trigger] at[l]
    &&& forall|i: int| #[trigger]
        forms_unit(nodes, language, min_nodes, i) ==> at.contains(i)
}

/// `units` tell of every node that forms a unit, and of nothing else, in the order of
/// their first lines and then of their last.
pub open spec fn reports_every_unit(
    units: Seq<UnitView>,
    nodes: Seq<NodeView>,
    language: LanguageView,
    path: Seq<char>,
    min_nodes: nat,
) -> bool {
    &&& forall|i: int, j: int|
        0 <= i < j < units.len() ==> (#[trigger] units[i]).start_line < (
        #[trigger] units[j]).start_line || (units[i].start_line == units[j].start_line
            && units[i].end_line <= units[j].end_line)
    &&& exists|found: Seq<UnitView>, at: Seq<int>|
        {
            &&& #[trigger] tells_every_unit(found, nodes, language, path, min_nodes, at)
            &&& units.len() == found.len()
            &&& forall|u: UnitView| #[trigger] units.contains(u) <==> found.contains(u)
        }
}

proof fn lemma_subtree_is_what_lies_under(nodes: Seq<NodeView>, i: int, r: int)
    requires
        0 <= i < nodes.len(),
    ensures
        lies_under(nodes, i, r) <==> i <= r < subtree_end(nodes, i, nodes.len() as int),
{
    let n = nodes.len() as int;
    let end = subtree_end(nodes, i, n);
    lemma_next_no_deeper(nodes, nodes[i].depth, i + 1, n);
    lemma_stops(nodes, nodes[i].depth, i + 1, n);
    if lies_under(nodes, i, r) && r >= end {
        assert(nodes[end].depth > nodes[i].depth);
    }
}

proof fn lemma_stops(nodes: Seq<NodeView>, depth: nat, from: int, hi: int)
    requires
        from <= hi,
    ensures
        next_no_deeper(nodes, depth, from, hi) < hi ==> nodes[next_no_deeper(
            nodes,
            depth,
            from,
            hi,
        )].depth <= depth,
    decreases hi - from,
{
    if from < hi && nodes[from].depth > depth {
        lemma_stops(nodes, depth, from + 1, hi);
    }
}

proof fn lemma_named_are_counted(nodes: Seq<NodeView>, lo: int, hi: int)
    requires
        0 <= lo <= hi <= nodes.len(),
    ensures
        ({
            let s = Set::new(|r: int| lo <= r < hi && nodes[r].named);
            s.finite() && s.len() == named_between(nodes, lo, hi)
        }),
    decreases hi - lo,
{
    let s = Set::new(|r: int| lo <= r < hi && nodes[r].named);
    if lo < hi {
        lemma_named_are_counted(nodes, lo, hi - 1);
        let t = Set::new(|r: int| lo <= r < hi - 1 && nodes[r].named);
        if nodes[hi - 1].named {
            assert(s =~= t.insert(hi - 1));
        } else {
            assert(s =~= t);
        }
    } else {
        assert(s =~= Set::empty());
    }
}

proof fn lemma_node_count(nodes: Seq<NodeView>, i: int)
    requires
        0 <= i < nodes.len(),
    ensures
        node_count_at(nodes, i) == named_under(nodes, i).len(),
{
    let n = nodes.len() as int;
    let end = subtree_end(nodes, i, n);
    lemma_next_no_deeper(nodes, nodes[i].depth, i + 1, n);
    lemma_named_are_counted(nodes, i, end);
    assert forall|r: int| lies_under(nodes, i, r) <==> i <= r < end by {
        lemma_subtree_is_what_lies_under(nodes, i, r);
    }
    assert(named_under(nodes, i) =~= Set::new(|r: int| i <= r < end && nodes[r].named));
}

proof fn lemma_lookup_finds<B>(table: Seq<(Seq<char>, B)>, key: Seq<char>)
    ensures
        lookup(table, key) is Some <==> exists|k: int|
            0 <= k < table.len() && (#[trigger] table[k]).0 == key,
    decreases table.len(),
{
    if table.len() > 0 {
        let rest = table.drop_first();
        lemma_lookup_finds(rest, key);
        if table[0].0 != key {
            if lookup(rest, key) is Some {
                let k = choose|k: int| 0 <= k < rest.len() && (#[trigger] rest[k]).0 == key;
                assert(table[k + 1] == rest[k]);
            }
            if exists|k: int| 0 <= k < table.len() && (#[trigger] table[k]).0 == key {
                let k = choose|k: int| 0 <= k < table.len() && (#[trigger] table[k]).0 == key;
                assert(rest[k - 1] == table[k]);
            }
        }
    }
}

proof fn lemma_scopes_before(nodes: Seq<NodeView>, language: LanguageView, i: int, lo: int, k: int)
    requires
        1 <= lo <= k,
        forall|x: int| lo <= x < k ==> !(x < i && #[trigger] lies_under(nodes, x, i)),
    ensures
        scopes_around(nodes, language, i, k) == scopes_around(nodes, language, i, lo),
    decreases k - lo,
{
    if lo < k {
        assert(!(k - 1 < i && lies_under(nodes, k - 1, i)));
        lemma_scopes_before(nodes, language, i, lo, k - 1);
    }
}

proof fn lemma_with_dots(names: Seq<Seq<char>>, name: Seq<char>)
    ensures
        with_dots(names.push(name)) == joined(with_dots(names), name),
{
    assert(names.push(name).drop_last() =~= names);
    reveal_strlit(".");
    assert(QUALNAME_SEPARATOR@ =~= seq!['.']);
}

/// What is found among the subtrees from `lo` to `hi`, all of which lie in the same
/// scopes, are the nodes that form units, with their names.
proof fn lemma_found_forms_units(
    nodes: Seq<NodeView>,
    language: LanguageView,
    prefix: Seq<char>,
    min_nodes: nat,
    lo: int,
    hi: int,
    around: Seq<Seq<char>>,
)
    requires
        1 <= lo <= hi <= nodes.len(),
        prefix == with_dots(around),
        forall|i: int|
            lo <= i < hi ==> scopes_around(nodes, language, #[trigger] nodes_at(i), lo) == around,
    ensures
        ({
            let found = found_in(nodes, language, prefix, min_nodes, lo, hi);
            &&& forall|k: int|
                0 <= k < found.len() ==> lo <= (#[trigger] found[k]).0 < hi && (name_by(
                    language.unit_kinds,
                    nodes[found[k].0],
                ) matches Some(name) && found[k].1 == with_dots(
                    scopes_around(nodes, language, found[k].0, found[k].0).push(name),
                )) && named_under(nodes, found[k].0).len() >= min_nodes
            &&& forall|k: int, l: int|
                0 <= k < l < found.len() ==> (#[trigger] found[k]).0 < (#[trigger] found[l]).0
            &&& forall|i: int|
                lo <= i < hi && name_by(language.unit_kinds, #[trigger] nodes[i]) is Some
                    && named_under(nodes, i).len() >= min_nodes ==> exists|k: int|
                    0 <= k < found.len() && (#[trigger] found[k]).0 == i
        }),
    decreases hi - lo,
{
    if lo < hi {
        lemma_next_no_deeper(nodes, nodes[lo].depth, lo + 1, hi);
        lemma_stops(nodes, nodes[lo].depth, lo + 1, hi);
        let end = subtree_end(nodes, lo, hi);
        let below = prefix_below(nodes, language, prefix, lo);
        let inner = match name_by(language.scope_kinds, nodes[lo]) {
            Some(name) => around.push(name),
            None => around,
        };
        if let Some(name) = name_by(language.scope_kinds, nodes[lo]) {
            lemma_with_dots(around, name);
        }
        assert(below == with_dots(inner));
        assert forall|i: int| lo + 1 <= i < end implies scopes_around(
            nodes,
            language,
            #[trigger] nodes_at(i),
            lo + 1,
        ) == inner by {
            assert(scopes_around(nodes, language, nodes_at(i), lo) == around);
            assert(lies_under(nodes, lo, i));
        }
        assert forall|i: int| end <= i < hi implies scopes_around(
            nodes,
            language,
            #[trigger] nodes_at(i),
            end,
        ) == around by {
            assert(scopes_around(nodes, language, nodes_at(i), lo) == around);
            assert forall|x: int| lo <= x < end implies !(x < i && #[trigger] lies_under(
                nodes,
                x,
                i,
            )) by {
                if lies_under(nodes, x, i) {
                    assert(nodes[end].depth > nodes[x].depth);
                }
            }
            lemma_scopes_before(nodes, language, i, lo, end);
        }
        lemma_found_forms_units(nodes, language, below, min_nodes, lo + 1, end, inner);
        lemma_found_forms_units(nodes, language, prefix, min_nodes, end, hi, around);
        lemma_node_count(nodes, lo);
        assert(scopes_around(nodes, language, nodes_at(lo), lo) == around);
        if let Some(name) = name_by(language.unit_kinds, nodes[lo]) {
            lemma_with_dots(around, name);
        }
        let here = found_here(nodes, language, prefix, min_nodes, lo);
        let inside = found_in(nodes, language, below, min_nodes, lo + 1, end);
        let behind = found_in(nodes, language, prefix, min_nodes, end, hi);
        let found = found_in(nodes, language, prefix, min_nodes, lo, hi);
        assert(found == here + inside + behind);
        assert forall|i: int|
            lo <= i < hi && name_by(language.unit_kinds, #[trigger] nodes[i]) is Some
                && named_under(nodes, i).len() >= min_nodes implies exists|k: int|
            0 <= k < found.len() && (#[trigger] found[k]).0 == i by {
            if i == lo {
                assert(found[0].0 == i);
            } else if i < end {
                let k = choose|k: int| 0 <= k < inside.len() && (#[trigger] inside[k]).0 == i;
                assert(found[here.len() + k] == inside[k]);
            } else {
                let k = choose|k: int| 0 <= k < behind.len() && (#[trigger] behind[k]).0 == i;
                assert(found[here.len() + inside.len() + k] == behind[k]);
            }
        }
    }
}

/// A node's place, to speak of.
spec fn nodes_at(i: int) -> int {
    i
}

/// Every function of a tree is extracted, and nothing else: every node below the root
/// whose kind forms units and that has as many named nodes as are asked for is one unit,
/// named by the scopes it lies in and its own name, with its lines, its size and the
/// hash of its body; they come in source order. Whether there was a syntax error is what
/// the root says.
pub proof fn lemma_every_unit_is_extracted(
    nodes: Seq<NodeView>,
    language: LanguageView,
    path: Seq<char>,
    known: Seq<Seq<char>>,
    min_nodes: nat,
)
    ensures
        reports_every_unit(
            extraction_of(nodes, language, path, known, min_nodes).units,
            nodes,
            language,
            path,
            min_nodes,
        ),
        extraction_of(nodes, language, path, known, min_nodes).had_syntax_errors <==> nodes.len()
            > 0 && nodes[0].has_error,
{
    let hits = found_under_root(nodes, language, min_nodes);
    let found = units_from(nodes, language, path, known, hits);
    let units = sorted::<Unit, SourceOrder>(found);
    lemma_sorted::<Unit, SourceOrder>(found);
    assert forall|i: int, j: int| 0 <= i < j < units.len() implies (#[trigger] units[i]).start_line
        < (#[trigger] units[j]).start_line || (units[i].start_line == units[j].start_line
        && units[i].end_line <= units[j].end_line) by {
        assert(SourceOrder::precedes(units[i], units[j]));
    }
    assert forall|u: UnitView| #[trigger] units.contains(u) <==> found.contains(u) by {
        lemma_sorted_holds::<Unit, SourceOrder>(found, u);
    }
    let at = Seq::new(hits.len(), |k: int| hits[k].0);
    if nodes.len() > 0 {
        let end = subtree_end(nodes, 0, nodes.len() as int);
        lemma_next_no_deeper(nodes, nodes[0].depth, 1, nodes.len() as int);
        lemma_found_forms_units(nodes, language, Seq::empty(), min_nodes, 1, end, Seq::empty());
        assert forall|i: int| lies_under(nodes, 0, i) <==> 0 <= i < end by {
            lemma_subtree_is_what_lies_under(nodes, 0, i);
        }
    }
    lemma_units_of_found(nodes, language, path, known, hits);
    assert forall|k: int| 0 <= k < at.len() implies forms_unit(
        nodes,
        language,
        min_nodes,
        #[trigger] at[k],
    ) && tells_node(found[k], nodes, language, path, at[k]) by {
        let i = hits[k].0;
        lemma_lookup_finds(language.unit_kinds, nodes[i].kind);
        lemma_node_count(nodes, i);
    }
    assert forall|k: int, l: int| 0 <= k < l < at.len() implies #[trigger] at[k]
        != #[trigger] at[l] by {
        assert(hits[k].0 < hits[l].0);
    }
    assert forall|i: int| #[trigger] forms_unit(nodes, language, min_nodes, i) implies at.contains(
        i,
    ) by {
        lemma_lookup_finds(language.unit_kinds, nodes[i].kind);
        assert(name_by(language.unit_kinds, nodes[i]) is Some);
        let k = choose|k: int| 0 <= k < hits.len() && (#[trigger] hits[k]).0 == i;
        assert(at[k] == i);
    }
    assert(tells_every_unit(found, nodes, language, path, min_nodes, at));
}

proof fn lemma_units_of_found(
    nodes: Seq<NodeView>,
    language: LanguageView,
    path: Seq<char>,
    known: Seq<Seq<char>>,
    found: Seq<(int, Seq<char>)>,
)
    ensures
        ({
            let units = units_from(nodes, language, path, known, found);
            &&& units.len() == found.len()
            &&& forall|k: int|
                0 <= k < found.len() ==> {
                    let u = #[trigger] units[k];
                    let node = nodes[found[k].0];
                    &&& u.path == path
                    &&& u.qualname == found[k].1
                    &&& u.start_line == line_of(node.start_row)
                    &&& u.end_line == line_of(node.end_row)
                    &&& u.node_count == node_count_at(nodes, found[k].0)
                    &&& u.stream.hash == content_hash(
                        token_names(placed_at(nodes, language, found[k].0)),
                    )
                }
        }),
    decreases found.len(),
{
    if found.len() > 0 {
        lemma_units_of_found(nodes, language, path, known, found.drop_last());
        let (before, units) = (
            units_from(nodes, language, path, known, found.drop_last()),
            units_from(nodes, language, path, known, found),
        );
        assert forall|k: int| 0 <= k < found.len() - 1 implies units[k] == before[k] by {}
    }
}

} // verus!
