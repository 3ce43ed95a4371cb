//! Extraction of units from source.

use dupdelta::extract::{anonymous_name, join, Extractor, SourceFile, Unit, QUALNAME_SEPARATOR};
use dupdelta::lang::by_name;
use dupdelta::token::Interner;

/// Every unit a Python source string yields, at the most permissive threshold.
fn units_of(source: &str) -> Vec<Unit> {
    let mut interner = Interner::new();
    python().extract(source, "sample.py", 1, &mut interner).units
}

fn python() -> Extractor {
    Extractor::new(by_name("python").expect("python is registered"))
}

fn javascript() -> Extractor {
    Extractor::new(by_name("javascript").expect("javascript is registered"))
}

/// Qualified names a language's extractor finds in a source string.
fn js_qualnames(source: &str) -> Vec<String> {
    let mut interner = Interner::new();
    javascript()
        .extract(source, "sample.js", 1, &mut interner)
        .units
        .into_iter()
        .map(|u| u.qualname)
        .collect()
}

/// Extract from Python source with a permissive size threshold.
fn qualnames(source: &str) -> Vec<String> {
    units_of(source).into_iter().map(|u| u.qualname).collect()
}

// ------------------------------------------------------------- extraction

#[test]
fn a_module_level_function_is_extracted_with_its_name() {
    assert_eq!(qualnames("def total(a):\n    return a\n"), vec!["total"]);
}

#[test]
fn a_file_with_no_functions_yields_no_units() {
    // A legitimate zero: the file parsed fine and simply has no functions.
    assert!(units_of("x = 1\ny = 2\n").is_empty());
}

#[test]
fn a_method_is_qualified_by_its_class() {
    assert_eq!(
        qualnames("class Account:\n    def grow(self):\n        return 1\n"),
        vec!["Account.grow"]
    );
}

#[test]
fn a_nested_function_is_qualified_by_its_enclosing_function() {
    let source = "def outer():\n    def inner():\n        return 1\n    return inner\n";
    assert_eq!(qualnames(source), vec!["outer", "outer.inner"]);
}

#[test]
fn deeply_nested_scopes_accumulate_every_segment() {
    let source =
        "class A:\n    class B:\n        def f(self):\n            def g():\n                return 1\n";
    assert_eq!(qualnames(source), vec!["A.B.f", "A.B.f.g"]);
}

#[test]
fn units_are_returned_in_source_order() {
    let source = "def b():\n    return 1\n\ndef a():\n    return 2\n";
    assert_eq!(qualnames(source), vec!["b", "a"]);
}

#[test]
fn a_unit_records_its_one_based_inclusive_line_span() {
    // Line 1 is blank, so the function occupies lines 2 through 3.
    let units = units_of("\ndef f():\n    return 1\n");
    assert_eq!(units.iter().map(|u| (u.start_line, u.end_line)).collect::<Vec<_>>(), vec![(2, 3)]);
}

#[test]
fn a_unit_records_the_file_it_came_from() {
    let mut interner = Interner::new();
    let extraction =
        python().extract("def f():\n    return 1\n", "a/b/c.py", 1, &mut interner);
    assert_eq!(extraction.units[0].path, "a/b/c.py".to_string());
}

// ------------------------------------------------------------- size filter

#[test]
fn units_below_the_size_threshold_are_not_reported() {
    let mut interner = Interner::new();
    let source = "def tiny():\n    pass\n";
    let permissive = python().extract(source, "s.py", 1, &mut interner).units.len();
    let strict = python().extract(source, "s.py", 1000, &mut interner).units.len();
    assert_eq!((permissive, strict), (1, 0));
}

#[test]
fn an_enclosing_unit_never_counts_fewer_nodes_than_one_nested_in_it() {
    // This is what makes the size filter safe: raising `min_nodes` can
    // never drop a wrapper while keeping the function inside it, so no
    // finding can hide behind a thin outer function. It holds because a
    // nested unit is a subtree of its parent -- assert it rather than
    // assume it, since the filter's correctness rests on it.
    let source = "def wrapper():\n    def real(a, b, c):\n        total = a + b * c\n        if total > a:\n            total = total - c\n        return total\n";
    let units = units_of(source);
    let by_name: Vec<(&str, usize)> = units.iter().map(|u| (u.qualname.as_str(), u.node_count)).collect();
    assert_eq!(by_name.len(), 2);
    assert_eq!(by_name[0].0, "wrapper");
    assert_eq!(by_name[1].0, "wrapper.real");
    assert!(by_name[0].1 >= by_name[1].1);
}

#[test]
fn raising_the_threshold_drops_units_from_the_smallest_upward() {
    let source = "def small():\n    return 1\n\ndef larger(a, b, c):\n    total = a + b * c\n    if total > a:\n        total = total - c\n    return total\n";
    let mut interner = Interner::new();
    let kept: Vec<Vec<String>> = [1usize, 12, 1000]
        .iter()
        .map(|min| {
            python()
                .extract(source, "s.py", *min, &mut interner)
                .units
                .into_iter()
                .map(|u| u.qualname)
                .collect()
        })
        .collect();
    assert_eq!(
        kept,
        vec![
            vec!["small".to_string(), "larger".to_string()],
            vec!["larger".to_string()],
            Vec::<String>::new(),
        ]
    );
}

#[test]
fn what_a_higher_threshold_keeps_is_as_the_lower_one_found_it() {
    let source = "class C:\n    def f(self, a):\n        def g(b):\n            return b\n        return a + g(a)\n\ndef h():\n    pass\n\ndef !!! (\n";
    let mut low_names = Interner::new();
    let all = python().extract(source, "s.py", 1, &mut low_names);
    let record = |u: &Unit| {
        (u.path.clone(), u.qualname.clone(), u.start_line, u.end_line, u.node_count, u.stream.hash().clone())
    };
    assert!(all.units.len() >= 3);
    for high in 1..=1 + all.units.iter().map(|u| u.node_count).max().unwrap() {
        let mut other_names = Interner::new();
        other_names.intern("known before");
        let large = python().extract(source, "s.py", high, &mut other_names);
        let kept: Vec<_> = all.units.iter().filter(|u| u.node_count >= high).map(record).collect();
        assert_eq!(large.units.iter().map(record).collect::<Vec<_>>(), kept);
        assert_eq!(large.had_syntax_errors, all.had_syntax_errors);
    }
}

#[test]
fn node_count_reflects_the_size_of_the_unit() {
    let units = units_of("def f():\n    return 1\n\ndef g(a, b):\n    return a + b * 2\n");
    let counts: Vec<bool> = units.windows(2).map(|w| w[0].node_count < w[1].node_count).collect();
    assert_eq!(counts, vec![true]);
}

// ------------------------------------------------------------- normalizing

#[test]
fn two_functions_differing_only_in_names_share_a_content_hash() {
    // The property the delta engine rests on: identity follows content, not
    // naming or location.
    let units = units_of(
        "def total(rate, years):\n    return rate * years\n\ndef compute(x, n):\n    return x * n\n",
    );
    assert_eq!(units[0].stream.hash(), units[1].stream.hash());
}

#[test]
fn two_functions_with_different_logic_do_not_share_a_content_hash() {
    let units = units_of("def f(a, b):\n    return a + b\n\ndef g(a, b):\n    return a - b\n");
    assert_ne!(units[0].stream.hash(), units[1].stream.hash());
}

#[test]
fn a_content_hash_does_not_depend_on_the_file_or_the_name() {
    let mut one = Interner::new();
    let mut two = Interner::new();
    let body = "def f(a):\n    return a * 2\n";
    let renamed = "def entirely_different(z):\n    return z * 9\n";
    let a = python().extract(body, "x/one.py", 1, &mut one);
    let b = python().extract(renamed, "y/two.py", 1, &mut two);
    assert_eq!(a.units[0].stream.hash(), b.units[0].stream.hash());
}

// ---------------------------------------------------------- syntax errors

#[test]
fn a_clean_file_reports_no_syntax_errors() {
    let mut interner = Interner::new();
    let extraction = python().extract("def f():\n    return 1\n", "s.py", 1, &mut interner);
    assert!(!extraction.had_syntax_errors);
}

#[test]
fn a_broken_file_reports_syntax_errors_and_still_yields_what_parsed() {
    // Silence here is the dangerous outcome: a scan that parses nothing and
    // reports "no duplication" looks exactly like a clean tree.
    let mut interner = Interner::new();
    let source = "def good(a):\n    return a\n\ndef !!! broken(\n";
    let extraction = python().extract(source, "s.py", 1, &mut interner);
    assert!(extraction.had_syntax_errors);
    assert!(extraction.units.iter().any(|u| u.qualname == "good"));
}

// --------------------------------------------------- more than one language

#[test]
fn a_javascript_method_is_qualified_by_its_class() {
    let source = "class Account {\n  grow(years) { return this.balance * years; }\n}\n";
    assert_eq!(js_qualnames(source), vec!["Account.grow"]);
}

#[test]
fn an_arrow_function_has_no_name_of_its_own_and_is_identified_by_its_line() {
    // No grammar field can name an arrow function. Rather than drop the
    // unit -- which would make a whole idiom of modern JavaScript invisible
    // to the detector -- it is reported at its line, under the variable it
    // was assigned to.
    let source = "const add = (x, y) => {\n  return x + y;\n};\n";
    assert_eq!(js_qualnames(source), vec!["add.<anonymous@1>"]);
}

#[test]
fn an_anonymous_function_expression_is_also_reported() {
    let source = "const f = function (q) {\n  return q;\n};\n";
    assert_eq!(js_qualnames(source), vec!["f.<anonymous@1>"]);
}

#[test]
fn a_named_function_expression_uses_its_own_name() {
    let source = "const f = function inner(q) {\n  return q;\n};\n";
    assert_eq!(js_qualnames(source), vec!["f.inner"]);
}

#[test]
fn a_renamed_copy_is_detected_across_a_second_language_too() {
    // The blind rename is a property of normalization, not of one grammar.
    let mut interner = Interner::new();
    let a = javascript().extract(
        "function total(rate, years) { return rate * years; }\n",
        "a.js",
        1,
        &mut interner,
    );
    let b = javascript().extract(
        "function compute(x, n) { return x * n; }\n",
        "b.js",
        1,
        &mut interner,
    );
    assert_eq!(a.units[0].stream.hash(), b.units[0].stream.hash());
}

#[test]
fn the_same_logic_in_two_languages_does_not_share_a_hash() {
    // Node kinds are grammar-specific, so cross-language identity is not
    // claimed. Asserted so nobody later reads equality into it.
    let mut interner = Interner::new();
    let py = python().extract("def f(a, b):\n    return a + b\n", "x.py", 1, &mut interner);
    let js =
        javascript().extract("function f(a, b) { return a + b; }\n", "x.js", 1, &mut interner);
    assert_ne!(py.units[0].stream.hash(), js.units[0].stream.hash());
}

#[test]
fn a_source_file_carries_its_path_language_and_text() {
    let file = SourceFile {
        path: "a.py".to_string(),
        language: by_name("python").expect("python is registered"),
        text: "x = 1\n".to_string(),
    };
    let copy = file.clone();
    assert_eq!((copy.path, copy.language.name, copy.text), (file.path, "python", file.text));
}

#[test]
fn join_omits_the_separator_at_the_top_level() {
    assert_eq!(join("", "f"), "f");
    assert_eq!(join("A", "f"), format!("A{QUALNAME_SEPARATOR}f"));
}

#[test]
fn an_unnamed_unit_is_identified_by_its_line() {
    assert_eq!(anonymous_name(42), "<anonymous@42>");
}

// ------------------------------------------------------------ plumbing

#[test]
fn an_extractor_reports_and_debugs_its_language() {
    let extractor = python();
    assert_eq!(extractor.language().name, "python");
    assert!(format!("{extractor:?}").contains("python"));
}

#[test]
fn units_and_extractions_clone_compare_and_debug() {
    let mut interner = Interner::new();
    let extraction = python().extract("def f():\n    return 1\n", "s.py", 1, &mut interner);
    let copy = extraction.clone();
    assert_eq!(extraction, copy);
    assert!(format!("{extraction:?}").contains("Extraction"));
    assert!(format!("{:?}", extraction.units[0]).contains("qualname"));
}
