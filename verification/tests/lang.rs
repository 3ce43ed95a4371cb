//! The language registry.

use dupdelta::extract::Extractor;
use dupdelta::lang::{all, by_name, for_path, is_supported, Grammar, Language, LiteralTag, Role, OPERATOR_TOKENS};
use dupdelta::token::{ContentHash, Interner};

fn language(name: &str) -> Language {
    by_name(name).expect("language is registered")
}

/// The grammar that is linked for a language.
fn linked(grammar: Grammar) -> tree_sitter::Language {
    match grammar {
        Grammar::C => tree_sitter_c::LANGUAGE.into(),
        Grammar::Cpp => tree_sitter_cpp::LANGUAGE.into(),
        Grammar::CSharp => tree_sitter_c_sharp::LANGUAGE.into(),
        Grammar::Go => tree_sitter_go::LANGUAGE.into(),
        Grammar::Java => tree_sitter_java::LANGUAGE.into(),
        Grammar::Php => tree_sitter_php::LANGUAGE_PHP.into(),
        Grammar::JavaScript => tree_sitter_javascript::LANGUAGE.into(),
        Grammar::Python => tree_sitter_python::LANGUAGE.into(),
        Grammar::Ruby => tree_sitter_ruby::LANGUAGE.into(),
        Grammar::Rust => tree_sitter_rust::LANGUAGE.into(),
        Grammar::Tsx => tree_sitter_typescript::LANGUAGE_TSX.into(),
        Grammar::TypeScript => tree_sitter_typescript::LANGUAGE_TYPESCRIPT.into(),
    }
}

// ------------------------------------------------------------ LiteralTag

#[test]
fn every_literal_tag_has_a_distinct_token() {
    let tags =
        [LiteralTag::Number, LiteralTag::String, LiteralTag::Boolean, LiteralTag::Nil, LiteralTag::Other];
    let tokens: Vec<&str> = tags.iter().map(|t| t.as_token()).collect();
    let mut unique = tokens.clone();
    unique.sort_unstable();
    unique.dedup();
    assert_eq!(tokens.len(), unique.len());
    assert_eq!(tokens, vec!["NUM", "STR", "BOOL", "NIL", "LIT"]);
}

#[test]
fn literal_tag_is_copyable_and_debuggable() {
    let tag = LiteralTag::Number;
    let copy = tag;
    assert_eq!(tag, copy);
    assert!(format!("{tag:?}").contains("Number"));
}

// ------------------------------------------------------------------ Role

#[test]
fn role_is_copyable_and_debuggable() {
    let role = Role::Literal(LiteralTag::String);
    let copy = role;
    assert_eq!(role, copy);
    assert!(format!("{role:?}").contains("Literal"));
    assert_ne!(role, Role::Structure);
    assert_ne!(Role::Identifier, Role::Ignored);
}

// -------------------------------------------------------- classification

#[test]
fn an_identifier_kind_is_classified_as_an_identifier() {
    assert_eq!(language("python").role("identifier", true), Role::Identifier);
}

#[test]
fn literal_kinds_carry_their_type_tag() {
    let kinds = ["integer", "float", "string", "true", "none", "ellipsis"];
    let roles: Vec<Role> = kinds.iter().map(|k| language("python").role(k, true)).collect();
    assert_eq!(
        roles,
        vec![
            Role::Literal(LiteralTag::Number),
            Role::Literal(LiteralTag::Number),
            Role::Literal(LiteralTag::String),
            Role::Literal(LiteralTag::Boolean),
            Role::Literal(LiteralTag::Nil),
            Role::Literal(LiteralTag::Other),
        ]
    );
}

#[test]
fn an_unlisted_named_kind_is_structural() {
    assert_eq!(language("python").role("if_statement", true), Role::Structure);
}

#[test]
fn a_comment_is_ignored_even_though_it_is_a_named_node() {
    assert_eq!(language("python").role("comment", true), Role::Ignored);
}

#[test]
fn an_anonymous_operator_is_kept_as_structure() {
    // Losing these would make `a + b` and `a - b` identical.
    let roles: Vec<Role> = ["+", "-=", "**"].iter().map(|k| language("python").role(k, false)).collect();
    assert_eq!(roles, vec![Role::Structure; 3]);
}

#[test]
fn an_anonymous_word_operator_is_kept_as_structure() {
    // Python spells conjunction as a word; dropping it would make
    // `a and b` indistinguishable from `a or b`.
    let roles: Vec<Role> =
        ["and", "or", "not", "in", "is"].iter().map(|k| language("python").role(k, false)).collect();
    assert_eq!(roles, vec![Role::Structure; 5]);
}

#[test]
fn an_anonymous_keyword_is_ignored_because_its_parent_already_says_so() {
    let roles: Vec<Role> =
        ["def", "if", "return", "class", "await"].iter().map(|k| language("python").role(k, false)).collect();
    assert_eq!(roles, vec![Role::Ignored; 5]);
}

#[test]
fn anonymous_grouping_punctuation_is_ignored() {
    let punct = ["(", ")", "[", "]", "{", "}", ",", ":", ".", "@", "->"];
    let roles: Vec<Role> = punct.iter().map(|k| language("python").role(k, false)).collect();
    assert_eq!(roles, vec![Role::Ignored; punct.len()]);
}

#[test]
fn the_operator_table_has_no_duplicates() {
    let mut sorted = OPERATOR_TOKENS.to_vec();
    let len_with_dupes = sorted.len();
    sorted.sort_unstable();
    sorted.dedup();
    assert_eq!(sorted.len(), len_with_dupes);
}

// ------------------------------------------------------------ name fields

#[test]
fn a_unit_kind_reports_the_field_holding_its_name() {
    assert_eq!(language("python").unit_name_field("function_definition"), Some("name"));
    assert_eq!(language("python").unit_name_field("class_definition"), None);
}

#[test]
fn a_scope_kind_reports_the_field_holding_its_name() {
    assert_eq!(language("python").scope_name_field("class_definition"), Some("name"));
    assert_eq!(language("python").scope_name_field("function_definition"), Some("name"));
    assert_eq!(language("python").scope_name_field("if_statement"), None);
}

// --------------------------------------------------------------- registry

#[test]
fn the_registry_exposes_python_and_nothing_it_does_not_have() {
    assert_eq!(by_name("python").map(|l| l.name), Some("python"));
    assert!(by_name("cobol").is_none());
}

#[test]
fn a_path_resolves_to_a_language_by_extension() {
    assert_eq!(for_path("a/b/c.py").map(|l| l.name), Some("python"));
    assert_eq!(for_path("stubs.pyi").map(|l| l.name), Some("python"));
}

#[test]
fn extension_matching_ignores_case() {
    assert_eq!(for_path("SHOUTING.PY").map(|l| l.name), Some("python"));
}

#[test]
fn a_path_with_no_or_unknown_extension_resolves_to_nothing() {
    assert!(for_path("Makefile").is_none());
    assert!(for_path("notes.txt").is_none());
    assert!(!is_supported("notes.txt"));
    assert!(is_supported("x.py"));
}

#[test]
fn every_registered_language_builds_its_grammar_and_declares_kinds_it_really_has() {
    // A registry entry whose grammar fails to load, or that declares a node
    // kind the grammar has never heard of, is an entry that silently finds
    // nothing. That is the failure mode this whole project exists to
    // prevent, so it is checked for every language, not just new ones.
    let mut checks: Vec<(&str, bool, bool, bool, bool)> = Vec::new();
    for lang in all() {
        let grammar = linked(lang.grammar());
        let named_kind_known = |k: &&str| grammar.id_for_node_kind(k, true) != 0;
        checks.push((
            lang.name,
            !lang.extensions.is_empty(),
            !lang.unit_kinds.is_empty(),
            lang.unit_kinds.iter().map(|(k, _)| k).all(named_kind_known)
                && lang.scope_kinds.iter().map(|(k, _)| k).all(named_kind_known),
            lang.identifier_kinds.iter().all(named_kind_known)
                && lang.literal_kinds.iter().map(|(k, _)| k).all(named_kind_known)
                && lang.ignored_kinds.iter().all(named_kind_known),
        ));
    }
    let expected: Vec<_> = all().iter().map(|l| (l.name, true, true, true, true)).collect();
    assert_eq!(checks, expected);
}

#[test]
fn registry_names_and_extensions_are_unique_across_languages() {
    // Two languages claiming `.h` would make `for_path` order-dependent.
    let mut names: Vec<&str> = all().iter().map(|l| l.name).collect();
    let name_count = names.len();
    names.sort_unstable();
    names.dedup();
    assert_eq!(names.len(), name_count);

    let mut exts: Vec<&str> = all().iter().flat_map(|l| l.extensions.iter().copied()).collect();
    let ext_count = exts.len();
    exts.sort_unstable();
    exts.dedup();
    assert_eq!(exts.len(), ext_count);
}

#[test]
fn a_language_debugs_with_its_name() {
    assert!(format!("{:?}", language("python")).contains("python"));
}

// ------------------------------------------------------------- extraction
//
// These assert on the units the extractor actually produces.

/// Qualified names `Extractor` finds in `source`, in source order.
fn qualnames_of(name: &str, source: &str) -> Vec<String> {
    let mut interner = Interner::new();
    let lang = language(name);
    let path = format!("sample.{}", lang.extensions[0]);
    Extractor::new(lang)
        .extract(source, &path, 1, &mut interner)
        .units
        .into_iter()
        .map(|u| u.qualname)
        .collect()
}

/// Content hashes `Extractor` finds in `source`, in source order.
fn hashes_of(name: &str, source: &str) -> Vec<ContentHash> {
    let mut interner = Interner::new();
    let lang = language(name);
    let path = format!("sample.{}", lang.extensions[0]);
    Extractor::new(lang)
        .extract(source, &path, 1, &mut interner)
        .units
        .into_iter()
        .map(|u| u.stream.hash().clone())
        .collect()
}

// ---- C, C++, Go: kept as dedicated tests, not folded into the table
// below.
//
// C and C++ name a unit through a nested declarator rather than a `name`
// field (see the notes on `C` and `CPP`), so their qualnames carry a
// parameter list -- and, for C++, a trailing `const` -- instead of the
// plain `Type.method` every other language produces. Go's method
// receiver is a sibling field rather than an ancestor (see the note on
// `GO`), so a Go method's qualname is deliberately bare, never
// `Type.method`. Each of these is a documented, load-bearing exception;
// squeezing it into a generic table would either drop the assertion
// that makes the exception visible or bury its rationale under rows that
// do not need one.

#[test]
fn a_free_function_is_extracted_with_its_signature_as_its_name() {
    // C names a function through a nested `function_declarator`, not a
    // `name` field on `function_definition` itself (see the note on
    // `C`), so the qualname is the declarator's own text -- name and
    // parameter list together, not the bare name. `outer`/`inner` also
    // proves `scope_kinds` nests a GNU nested function under its
    // enclosing one.
    let source = "struct Point { int x; int y; };\n\nint square(int n) {\n    return n * n;\n}\n\nint outer() {\n    int inner() {\n        return 1;\n    }\n    return inner();\n}\n";
    assert_eq!(qualnames_of("c", source), vec!["square(int n)", "outer()", "outer().inner()"]);
}

#[test]
fn a_cpp_method_is_qualified_by_its_class() {
    // Same declarator quirk as C (see the note on `CPP`): `area`'s own
    // name segment includes its `const` qualifier.
    let source = "class Circle {\npublic:\n    double area() const {\n        return 3.14 * 2.0;\n    }\n};\n\nint add(int a, int b) {\n    return a + b;\n}\n";
    assert_eq!(qualnames_of("cpp", source), vec!["Circle.area() const", "add(int a, int b)"]);
}

#[test]
fn a_go_method_is_extracted_by_its_own_name_not_its_receiver_type() {
    // See the note on `GO`: `Area`'s receiver `Point` is a sibling
    // field, not an ancestor, so it cannot contribute a qualname
    // prefix -- this is the honest, tested consequence of that limit.
    let source = "package main\n\ntype Point struct {\n\tX int\n\tY int\n}\n\nfunc Add(a int, b int) int {\n\treturn a + b\n}\n\nfunc (p Point) Area() int {\n\treturn p.X * p.Y\n}\n";
    assert_eq!(qualnames_of("go", source), vec!["Add", "Area"]);
}

// ---- qualnames: table-driven across every language whose units follow
// the plain `Type.method` / bare-function pattern (C, C++, and Go are
// excluded -- see above).

#[test]
fn a_method_is_qualified_by_its_enclosing_type() {
    let cases: &[(&str, &str, &[&str])] = &[
        (
            "csharp",
            "class Circle {\n    public double Area() {\n        return 3.14 * 2.0;\n    }\n}\n\nclass Program {\n    static int Add(int a, int b) {\n        return a + b;\n    }\n}\n",
            &["Circle.Area", "Program.Add"],
        ),
        (
            "java",
            "class Circle {\n    Circle() {}\n    double area() {\n        return 3.14 * 2.0;\n    }\n}\n\nclass Main {\n    static int add(int a, int b) {\n        return a + b;\n    }\n}\n",
            &["Circle.Circle", "Circle.area", "Main.add"],
        ),
        (
            "php",
            "<?php\nclass Circle {\n    public function area() {\n        return 3.14 * 2.0;\n    }\n}\n\nfunction add($a, $b) {\n    return $a + $b;\n}\n",
            &["Circle.area", "add"],
        ),
        (
            "ruby",
            "class Circle\n  def area\n    3.14 * 2.0\n  end\nend\n\ndef add(a, b)\n  a + b\nend\n",
            &["Circle.area", "add"],
        ),
        (
            "rust",
            "struct Circle;\n\nimpl Circle {\n    fn area(&self) -> f64 {\n        3.14 * 2.0\n    }\n}\n\nfn add(a: i32, b: i32) -> i32 {\n    a + b\n}\n",
            &["Circle.area", "add"],
        ),
        (
            "typescript",
            "class Circle {\n  area(): number {\n    return 3.14 * 2;\n  }\n}\n\nfunction add(a: number, b: number): number {\n  return a + b;\n}\n",
            &["Circle.area", "add"],
        ),
        (
            "tsx",
            // Also proves JSX parses cleanly: `App`'s body returns a JSX element.
            "class Widget {\n  render(): number {\n    return 1;\n  }\n}\n\nfunction App() {\n  return <div>hi</div>;\n}\n",
            &["Widget.render", "App"],
        ),
    ];

    let got: Vec<(&str, Vec<String>)> =
        cases.iter().map(|(lang, source, _)| (*lang, qualnames_of(lang, source))).collect();
    let want: Vec<(&str, Vec<String>)> = cases
        .iter()
        .map(|(lang, _, expected)| (*lang, expected.iter().map(|s| s.to_string()).collect()))
        .collect();
    assert_eq!(got, want);
}

// ---- hashes: table-driven across every language with a hash-invariance
// test. Unlike the qualname table above, C, C++, and Go fit here without
// exception -- the quirks that keep them out of the qualname table only
// affect how a unit is *named*, not how its body hashes.

#[test]
fn functions_differing_only_in_names_share_a_hash_but_not_in_operator() {
    let cases: &[(&str, &str)] = &[
        (
            "c",
            "int add(int a, int b) { return a + b; }\nint sum(int x, int y) { return x + y; }\nint sub(int a, int b) { return a - b; }\n",
        ),
        (
            "cpp",
            "int add(int a, int b) { return a + b; }\nint sum(int x, int y) { return x + y; }\nint sub(int a, int b) { return a - b; }\n",
        ),
        (
            "csharp",
            "class C {\n    static int Add(int a, int b) { return a + b; }\n    static int Sum(int x, int y) { return x + y; }\n    static int Sub(int a, int b) { return a - b; }\n}\n",
        ),
        (
            "go",
            "package main\nfunc add(a int, b int) int { return a + b }\nfunc sum(x int, y int) int { return x + y }\nfunc sub(a int, b int) int { return a - b }\n",
        ),
        (
            "java",
            "class C {\n    static int add(int a, int b) { return a + b; }\n    static int sum(int x, int y) { return x + y; }\n    static int sub(int a, int b) { return a - b; }\n}\n",
        ),
        (
            "php",
            "<?php\nfunction add($a, $b) { return $a + $b; }\nfunction sum($x, $y) { return $x + $y; }\nfunction sub($a, $b) { return $a - $b; }\n",
        ),
        ("ruby", "def add(a, b)\n  a + b\nend\n\ndef sum(x, y)\n  x + y\nend\n\ndef sub(a, b)\n  a - b\nend\n"),
        (
            "rust",
            "fn add(a: i32, b: i32) -> i32 { a + b }\nfn sum(x: i32, y: i32) -> i32 { x + y }\nfn sub(a: i32, b: i32) -> i32 { a - b }\n",
        ),
        (
            "typescript",
            "function add(a: number, b: number): number { return a + b; }\nfunction sum(x: number, y: number): number { return x + y; }\nfunction sub(a: number, b: number): number { return a - b; }\n",
        ),
        (
            "tsx",
            "function add(a: number, b: number): number { return a + b; }\nfunction sum(x: number, y: number): number { return x + y; }\nfunction sub(a: number, b: number): number { return a - b; }\n",
        ),
    ];

    // (name, unit count, renamed copy hashes the same, different operator hashes differently)
    let got: Vec<(&str, usize, bool, bool)> = cases
        .iter()
        .map(|(lang, source)| {
            let hashes = hashes_of(lang, source);
            let renamed_matches = hashes.first().zip(hashes.get(1)).is_some_and(|(a, b)| a == b);
            let operator_differs = hashes.first().zip(hashes.get(2)).is_some_and(|(a, c)| a != c);
            (*lang, hashes.len(), renamed_matches, operator_differs)
        })
        .collect();
    let want: Vec<(&str, usize, bool, bool)> =
        cases.iter().map(|(lang, _)| (*lang, 3, true, true)).collect();
    assert_eq!(got, want);
}

// ---- TypeScript: kept separate
//
// Exercises the `named`-gated collision fix on `role`, a different
// scenario from the shared rename/operator shape in the table above, so
// it does not belong in either table.

#[test]
fn typescript_scalar_type_annotations_do_not_leak_into_the_hash() {
    // Pins the `named`-gated fix documented on `role`: TypeScript's
    // `predefined_type` wraps an anonymous child spelled `number` or
    // `string` -- exactly the strings `TS_LITERAL_KINDS` uses for the
    // numeric/string literal kinds. Without gating that match on
    // `named`, these two functions -- identical but for a return type
    // that is a keyword, not a value -- would hash differently.
    let source =
        "function f(a: number): number { return a; }\nfunction g(a: string): string { return a; }\n";
    let hashes = hashes_of("typescript", source);
    assert_eq!(hashes.len(), 2);
    assert_eq!(hashes[0], hashes[1]);
}

// ---------------------------------------------------------- cross-cutting

/// Every language name exercised by an extraction test.
const LANGUAGES_WITH_EXTRACTION_TESTS: &[&str] = &[
    "c",
    "cpp",
    "csharp",
    "go",
    "java",
    "javascript",
    "php",
    "python",
    "ruby",
    "rust",
    "tsx",
    "typescript",
];

#[test]
fn every_registered_language_has_a_dedicated_extraction_test() {
    assert_eq!(all().len(), 12);
    let mut registered: Vec<&str> = all().iter().map(|l| l.name).collect();
    registered.sort_unstable();
    let mut tested: Vec<&str> = LANGUAGES_WITH_EXTRACTION_TESTS.to_vec();
    tested.sort_unstable();
    assert_eq!(registered, tested);
}
