//! The language registry: which grammars are supported, and what their syntax
//! nodes mean for normalization.
//!
//! Everything language-specific lives here and in [`crate::languages`]. The
//! detectors above this layer never mention a language; they work on
//! [`crate::token::TokenStream`]s, which is why adding a language is a data
//! change rather than a code change.
//!
//! # What a language has to declare
//!
//! Normalization needs to know, for each syntax node, whether it is an
//! identifier (blind-renamed to one placeholder), a literal (abstracted to a
//! type tag), or structure (kept). Extraction additionally needs to know which
//! nodes are *units* — the functions and methods that get compared — and which
//! nodes contribute a segment to a qualified name.
//!
//! # Why keywords are dropped and operators are kept
//!
//! In a grammar, keywords are *anonymous* nodes: `if` is a child of
//! `if_statement`, `def` a child of `function_definition`. The parent's kind
//! already carries that information. Operators are different: `a + b` and
//! `a - b` are both `binary_operator` with two identifiers, and the *only* thing
//! distinguishing them is the anonymous `+` or `-`. So anonymous nodes are
//! dropped unless they appear in [`OPERATOR_TOKENS`].
//!
//! # A kind string can name two different nodes
//!
//! Several grammars reuse a literal's kind string as the anonymous token that
//! spells a type keyword. So [`Language::role`] only matches identifier and
//! literal kinds against *named* nodes.

use vstd::prelude::*;
use vstd::string::*;

use crate::languages::{
    c, c_tables, cpp, cpp_tables, csharp, csharp_tables, go, go_tables, java, java_tables,
    javascript, javascript_tables, php, php_tables, python, python_tables, ruby, ruby_tables,
    rust, rust_tables, tsx, tsx_tables, typescript, typescript_tables,
};
use crate::path::{extension, extension_of, joined, lemma_file_name_of_joined};
use crate::sort::views;
use crate::text::{ascii_lowercase, ascii_lowered, same_text};

verus! {

/// Placeholder emitted for every identifier, whatever it was called.
///
/// This is the "blind rename": two functions that differ only in their variable
/// names normalize to the same stream, which is what makes a renamed copy of a
/// function detectable as a copy.
pub const IDENTIFIER_PLACEHOLDER: &'static str = "ID";

/// Anonymous nodes kept as structure. Everything else anonymous is dropped.
///
/// Word-operators are among them: Python spells conjunction `and`, Ruby has `or`
/// and `not`, and losing them would make `a and b` equal to `a or b`.
pub const OPERATOR_TOKENS: [&'static str; 54] = [
    // arithmetic
    "+", "-", "*", "/", "%", "**", "//",
    // comparison
    "==", "!=", "<", ">", "<=", ">=", "<=>", "===", "!==",
    // logical
    "&&", "||", "!", "and", "or", "not",
    // membership and identity
    "in", "is",
    // bitwise
    "&", "|", "^", "~", "<<", ">>", ">>>",
    // assignment
    "=", "+=", "-=", "*=", "/=", "%=", "**=", "//=", "&=", "|=", "^=", "<<=", ">>=", "&&=",
    "||=",
    // null handling, ranges, spreads
    "??", "??=", "?.", "?", "..", "...", "..=", "=>",
];

/// What a syntax node contributes to a normalized token stream.
#[derive(Debug, Clone, Copy, PartialEq, Eq, Structural)]
pub enum Role {
    /// An identifier. Emitted as [`IDENTIFIER_PLACEHOLDER`]; not descended into.
    Identifier,
    /// A literal. Emitted as its type tag; not descended into, so that the
    /// internals of a string cannot leak the value.
    Literal(LiteralTag),
    /// Structure. Emitted as its own node kind, and descended into.
    Structure,
    /// Contributes nothing and is not descended into.
    Ignored,
}

/// The type of a literal, which is all that survives abstraction.
///
/// The *value* is deliberately discarded: a rate written `0.05` in one place
/// and `0.055` in another is the same logic duplicated.
#[derive(Debug, Clone, Copy, PartialEq, Eq, Structural)]
pub enum LiteralTag {
    /// Integer, float, or other numeric literal.
    Number,
    /// String or character literal.
    String,
    /// Boolean literal.
    Boolean,
    /// The language's null/nil/none literal.
    Nil,
    /// A literal that is none of the above.
    Other,
}

impl LiteralTag {
    /// The token emitted in place of the literal.
    pub open spec fn token(self) -> Seq<char> {
        match self {
            LiteralTag::Number => "NUM"@,
            LiteralTag::String => "STR"@,
            LiteralTag::Boolean => "BOOL"@,
            LiteralTag::Nil => "NIL"@,
            LiteralTag::Other => "LIT"@,
        }
    }

    /// The token emitted in place of the literal.
    pub fn as_token(self) -> (t: &'static str)
        ensures
            t@ == self.token(),
    {
        match self {
            LiteralTag::Number => "NUM",
            LiteralTag::String => "STR",
            LiteralTag::Boolean => "BOOL",
            LiteralTag::Nil => "NIL",
            LiteralTag::Other => "LIT",
        }
    }
}

/// A node kind paired with the field holding its name.
///
/// Most grammars name a definition through a `name` field, but not all: a Rust
/// `impl_item` carries its subject in `type`.
pub type NamedKind = (&'static str, &'static str);

/// Which grammar parses a language.
#[derive(Debug, Clone, Copy, PartialEq, Eq, Structural)]
pub enum Grammar {
    /// C.
    C,
    /// C++.
    Cpp,
    /// C#.
    CSharp,
    /// Go.
    Go,
    /// Java.
    Java,
    /// JavaScript.
    JavaScript,
    /// PHP.
    Php,
    /// Python.
    Python,
    /// Ruby.
    Ruby,
    /// Rust.
    Rust,
    /// TypeScript with JSX.
    Tsx,
    /// TypeScript.
    TypeScript,
}

/// What a language declares.
#[verifier::ext_equal]
pub struct LanguageView {
    /// Registry name.
    pub name: Seq<char>,
    /// The grammar.
    pub grammar: Grammar,
    /// File extensions, without the dot.
    pub extensions: Seq<Seq<char>>,
    /// Node kinds that form a comparable unit, with the field naming each.
    pub unit_kinds: Seq<(Seq<char>, Seq<char>)>,
    /// Node kinds contributing a segment to a qualified name.
    pub scope_kinds: Seq<(Seq<char>, Seq<char>)>,
    /// Node kinds whose text is an identifier.
    pub identifier_kinds: Seq<Seq<char>>,
    /// Node kinds that are literals, and the tag replacing them.
    pub literal_kinds: Seq<(Seq<char>, LiteralTag)>,
    /// Node kinds that contribute nothing.
    pub ignored_kinds: Seq<Seq<char>>,
}

/// A list of kinds, as text.
pub open spec fn kinds(s: Seq<&'static str>) -> Seq<Seq<char>> {
    views(s)
}

/// A list of kinds with their name fields, as text.
pub open spec fn pairs(s: Seq<NamedKind>) -> Seq<(Seq<char>, Seq<char>)> {
    Seq::new(s.len(), |i: int| (s[i].0@, s[i].1@))
}

/// A list of literal kinds with their tags, as text.
pub open spec fn tags(s: Seq<(&'static str, LiteralTag)>) -> Seq<(Seq<char>, LiteralTag)> {
    Seq::new(s.len(), |i: int| (s[i].0@, s[i].1))
}

/// What the first entry for `key` holds.
pub open spec fn lookup<B>(table: Seq<(Seq<char>, B)>, key: Seq<char>) -> Option<B>
    decreases table.len(),
{
    if table.len() == 0 {
        None
    } else if table[0].0 == key {
        Some(table[0].1)
    } else {
        lookup(table.drop_first(), key)
    }
}

impl LanguageView {
    /// What a node of some kind contributes.
    pub open spec fn role(self, kind: Seq<char>, named: bool) -> Role {
        if self.ignored_kinds.contains(kind) {
            Role::Ignored
        } else if named && self.identifier_kinds.contains(kind) {
            Role::Identifier
        } else if named && lookup(self.literal_kinds, kind) is Some {
            Role::Literal(lookup(self.literal_kinds, kind)->0)
        } else if named || views(OPERATOR_TOKENS@).contains(kind) {
            Role::Structure
        } else {
            Role::Ignored
        }
    }
}

/// A supported language: its grammar, plus what its node kinds mean.
#[derive(Debug)]
pub struct Language {
    /// Registry name, e.g. `"python"`.
    pub name: &'static str,
    /// File extensions, without the dot.
    pub extensions: Vec<&'static str>,
    /// The grammar that parses it.
    pub grammar: Grammar,
    /// Node kinds that form a comparable unit, with the field naming each.
    pub unit_kinds: Vec<NamedKind>,
    /// Node kinds contributing a segment to a qualified name, with their name
    /// field. Units are usually also scopes, so that a nested function reads as
    /// `outer.inner`.
    pub scope_kinds: Vec<NamedKind>,
    /// Node kinds whose text is an identifier.
    pub identifier_kinds: Vec<&'static str>,
    /// Node kinds that are literals, and the tag replacing them.
    pub literal_kinds: Vec<(&'static str, LiteralTag)>,
    /// Named node kinds that contribute nothing — comments, chiefly.
    pub ignored_kinds: Vec<&'static str>,
}

impl View for Language {
    type V = LanguageView;

    open spec fn view(&self) -> LanguageView {
        LanguageView {
            name: self.name@,
            grammar: self.grammar,
            extensions: kinds(self.extensions@),
            unit_kinds: pairs(self.unit_kinds@),
            scope_kinds: pairs(self.scope_kinds@),
            identifier_kinds: kinds(self.identifier_kinds@),
            literal_kinds: tags(self.literal_kinds@),
            ignored_kinds: kinds(self.ignored_kinds@),
        }
    }
}

/// A list with the same entries.
fn copied<T: Copy>(list: &Vec<T>) -> (r: Vec<T>)
    ensures
        r@ == list@,
{
    let mut r: Vec<T> = Vec::new();
    let mut i: usize = 0;
    while i < list.len()
        invariant
            i <= list@.len(),
            r@ == list@.take(i as int),
        decreases list.len() - i,
    {
        r.push(list[i]);
        i += 1;
        assert(r@ =~= list@.take(i as int));
    }
    assert(r@ =~= list@);
    r
}

/// Whether a text is in a list.
fn listed(list: &[&'static str], text: &str) -> (r: bool)
    ensures
        r == views(list@).contains(text@),
{
    let mut i: usize = 0;
    while i < list.len()
        invariant
            i <= list@.len(),
            forall|j: int| 0 <= j < i ==> #[trigger] list@[j]@ != text@,
        decreases list.len() - i,
    {
        if same_text(list[i], text) {
            assert(views(list@)[i as int] == text@);
            return true;
        }
        i += 1;
    }
    assert forall|j: int| 0 <= j < views(list@).len() implies views(list@)[j] != text@ by {
        assert(list@[j]@ != text@);
    }
    false
}

/// The field held by the first entry for a kind.
fn field_for(table: &[NamedKind], kind: &str) -> (f: Option<&'static str>)
    ensures
        f is None <==> lookup(pairs(table@), kind@) is None,
        f matches Some(t) ==> lookup(pairs(table@), kind@) == Some(t@),
{
    let ghost all = pairs(table@);
    let mut i: usize = 0;
    assert(all.skip(0) =~= all);
    while i < table.len()
        invariant
            i <= table@.len(),
            all == pairs(table@),
            lookup(all, kind@) == lookup(all.skip(i as int), kind@),
        decreases table.len() - i,
    {
        proof {
            assert(all.skip(i as int)[0] == all[i as int]);
            assert(all.skip(i as int).drop_first() =~= all.skip(i + 1));
        }
        if same_text(table[i].0, kind) {
            return Some(table[i].1);
        }
        i += 1;
    }
    None
}

/// The tag held by the first entry for a kind.
fn tag_for(table: &[(&'static str, LiteralTag)], kind: &str) -> (t: Option<LiteralTag>)
    ensures
        t == lookup(tags(table@), kind@),
{
    let ghost all = tags(table@);
    let mut i: usize = 0;
    assert(all.skip(0) =~= all);
    while i < table.len()
        invariant
            i <= table@.len(),
            all == tags(table@),
            lookup(all, kind@) == lookup(all.skip(i as int), kind@),
        decreases table.len() - i,
    {
        proof {
            assert(all.skip(i as int)[0] == all[i as int]);
            assert(all.skip(i as int).drop_first() =~= all.skip(i + 1));
        }
        if same_text(table[i].0, kind) {
            return Some(table[i].1);
        }
        i += 1;
    }
    None
}

impl Language {
    /// The grammar that parses this language.
    pub fn grammar(&self) -> (g: Grammar)
        ensures
            g == self@.grammar,
    {
        self.grammar
    }

    /// Classify a node kind.
    ///
    /// `named` distinguishes a grammar's named nodes from its anonymous ones
    /// (keywords, punctuation, operators).
    pub fn role(&self, kind: &str, named: bool) -> (r: Role)
        ensures
            r == self@.role(kind@, named),
    {
        if listed(self.ignored_kinds.as_slice(), kind) {
            return Role::Ignored;
        }
        if named && listed(self.identifier_kinds.as_slice(), kind) {
            return Role::Identifier;
        }
        if named {
            if let Some(tag) = tag_for(self.literal_kinds.as_slice(), kind) {
                return Role::Literal(tag);
            }
            return Role::Structure;
        }
        let operators = OPERATOR_TOKENS;
        if listed(operators.as_slice(), kind) {
            Role::Structure
        } else {
            Role::Ignored
        }
    }

    /// The name field for `kind` if it is a unit kind.
    pub fn unit_name_field(&self, kind: &str) -> (f: Option<&'static str>)
        ensures
            f is None <==> lookup(self@.unit_kinds, kind@) is None,
            f matches Some(t) ==> lookup(self@.unit_kinds, kind@) == Some(t@),
    {
        field_for(self.unit_kinds.as_slice(), kind)
    }

    /// The name field for `kind` if it contributes a qualified-name segment.
    pub fn scope_name_field(&self, kind: &str) -> (f: Option<&'static str>)
        ensures
            f is None <==> lookup(self@.scope_kinds, kind@) is None,
            f matches Some(t) ==> lookup(self@.scope_kinds, kind@) == Some(t@),
    {
        field_for(self.scope_kinds.as_slice(), kind)
    }

    /// Whether the language claims an extension.
    fn claims(&self, ext: &str) -> (r: bool)
        ensures
            r == self@.extensions.contains(ext@),
    {
        listed(self.extensions.as_slice(), ext)
    }
}

impl Clone for Language {
    fn clone(&self) -> (l: Self)
        ensures
            l@ == self@,
    {
        Language {
            name: self.name,
            extensions: copied(&self.extensions),
            grammar: self.grammar,
            unit_kinds: copied(&self.unit_kinds),
            scope_kinds: copied(&self.scope_kinds),
            identifier_kinds: copied(&self.identifier_kinds),
            literal_kinds: copied(&self.literal_kinds),
            ignored_kinds: copied(&self.ignored_kinds),
        }
    }
}

// ---------------------------------------------------------------------- registry

/// Every language the registry knows, ordered by name.
pub open spec fn registry() -> Seq<LanguageView> {
    seq![
        c_tables(), cpp_tables(), csharp_tables(), go_tables(), java_tables(),
        javascript_tables(), php_tables(), python_tables(), ruby_tables(), rust_tables(),
        tsx_tables(), typescript_tables(),
    ]
}

/// The first registered language of a name.
pub open spec fn named(list: Seq<LanguageView>, name: Seq<char>) -> Option<LanguageView>
    decreases list.len(),
{
    if list.len() == 0 {
        None
    } else if list[0].name == name {
        Some(list[0])
    } else {
        named(list.drop_first(), name)
    }
}

/// The first registered language claiming an extension.
pub open spec fn claiming(list: Seq<LanguageView>, ext: Seq<char>) -> Option<LanguageView>
    decreases list.len(),
{
    if list.len() == 0 {
        None
    } else if list[0].extensions.contains(ext) {
        Some(list[0])
    } else {
        claiming(list.drop_first(), ext)
    }
}

/// The language of a path, by its file's extension, whatever its case.
pub open spec fn language_of(path: Seq<char>) -> Option<LanguageView> {
    match extension_of(path) {
        None => None,
        Some(ext) => claiming(registry(), ascii_lowered(ext)),
    }
}

/// Every language the registry knows, ordered by name.
pub fn all() -> (list: Vec<Language>)
    ensures
        views(list@) == registry(),
{
    let list = vec![
        c(), cpp(), csharp(), go(), java(), javascript(), php(), python(), ruby(), rust(),
        tsx(), typescript(),
    ];
    assert(views(list@) =~= registry());
    list
}

/// Take one language out of a list.
fn pick(list: Vec<Language>, i: usize) -> (l: Language)
    requires
        i < list@.len(),
    ensures
        l@ == list@[i as int]@,
{
    list[i].clone()
}

/// Look a language up by registry name.
pub fn by_name(name: &str) -> (l: Option<Language>)
    ensures
        l is None <==> named(registry(), name@) is None,
        l matches Some(x) ==> named(registry(), name@) == Some(x@),
{
    let list = all();
    let ghost views_all = registry();
    let mut i: usize = 0;
    assert(views_all.skip(0) =~= views_all);
    while i < list.len()
        invariant
            i <= list@.len(),
            views_all == views(list@),
            views_all == registry(),
            named(registry(), name@) == named(views_all.skip(i as int), name@),
        decreases list.len() - i,
    {
        proof {
            assert(views_all.skip(i as int)[0] == views_all[i as int]);
            assert(views_all.skip(i as int).drop_first() =~= views_all.skip(i + 1));
        }
        if same_text(list[i].name, name) {
            return Some(pick(list, i));
        }
        i += 1;
    }
    None
}

/// The language for a path, by file extension.
///
/// Matching is case-insensitive, because `.PY` is still Python.
pub fn for_path(path: &str) -> (l: Option<Language>)
    ensures
        l is None <==> language_of(path@) is None,
        l matches Some(x) ==> language_of(path@) == Some(x@),
{
    let ext = match extension(path) {
        None => {
            return None;
        },
        Some(ext) => ascii_lowercase(ext.as_str()),
    };
    let list = all();
    let ghost views_all = registry();
    let mut i: usize = 0;
    assert(views_all.skip(0) =~= views_all);
    while i < list.len()
        invariant
            i <= list@.len(),
            views_all == views(list@),
            views_all == registry(),
            language_of(path@) == claiming(registry(), ext@),
            claiming(registry(), ext@) == claiming(views_all.skip(i as int), ext@),
        decreases list.len() - i,
    {
        proof {
            assert(views_all.skip(i as int)[0] == views_all[i as int]);
            assert(views_all.skip(i as int).drop_first() =~= views_all.skip(i + 1));
        }
        if list[i].claims(ext.as_str()) {
            return Some(pick(list, i));
        }
        i += 1;
    }
    None
}

/// Whether any registered language claims this path.
pub fn is_supported(path: &str) -> (r: bool)
    ensures
        r == language_of(path@) is Some,
{
    for_path(path).is_some()
}

/// A file is of the same language whatever directory it lies in.
pub proof fn lemma_language_of_joined(root: Seq<char>, rel: Seq<char>)
    requires
        !(rel.len() > 0 && rel[0] == '/'),
        language_of(rel) is Some,
    ensures
        language_of(joined(root, rel)) == language_of(rel),
{
    lemma_file_name_of_joined(root, rel);
}

} // verus!
