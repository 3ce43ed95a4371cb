//! Normalization of syntax trees into token streams.

use dupdelta::lang::{by_name, IDENTIFIER_PLACEHOLDER, OPERATOR_TOKENS};
use dupdelta::normalize::{count_nodes, normalize, placed_tokens, PlacedToken, NODE_END};
use dupdelta::syntax::{end_of_subtree, parse};

/// Tokens the normalizer produces for a whole Python file.
fn tokens_of(source: &str) -> Vec<String> {
    let language = by_name("python").expect("python is registered");
    let nodes = parse(&language, source);
    normalize(&nodes, 0, &language)
}

fn named_node_count(source: &str) -> usize {
    let language = by_name("python").expect("python is registered");
    let nodes = parse(&language, source);
    count_nodes(&nodes, 0)
}

const LITERAL_TAGS: &[&str] = &["NUM", "STR", "BOOL", "NIL", "LIT"];

// ----------------------------------------------------------- blind rename

#[test]
fn functions_differing_only_in_identifiers_normalize_identically() {
    let a = tokens_of("def total(rate, years):\n    return rate * years\n");
    let b = tokens_of("def compute(x, n):\n    return x * n\n");
    assert_eq!(a, b);
}

#[test]
fn every_identifier_collapses_to_one_placeholder() {
    let tokens = tokens_of("alpha = beta\n");
    let placeholders = tokens.iter().filter(|t| t.as_str() == IDENTIFIER_PLACEHOLDER).count();
    assert_eq!(placeholders, 2);
}

// ----------------------------------------------------- literal abstraction

#[test]
fn numeric_literals_of_different_values_normalize_identically() {
    // The whole point: the same rule copied with a tweaked constant is the
    // duplication worth finding.
    assert_eq!(tokens_of("r = 0.05\n"), tokens_of("r = 0.055\n"));
    assert_eq!(tokens_of("n = 1\n"), tokens_of("n = 999999\n"));
}

#[test]
fn a_literal_is_a_leaf_so_its_contents_cannot_leak() {
    // A Python string is a node with string_start/string_content/string_end
    // children. Descending into it would put the text into the stream.
    let short = tokens_of("s = 'a'\n");
    let long = tokens_of("s = 'a much longer piece of text'\n");
    assert_eq!(short, long);
    assert!(short.contains(&"STR".to_string()));
}

#[test]
fn literals_of_different_types_stay_distinguishable() {
    let sources = ["n = 1", "s = 'x'", "b = True", "v = None"];
    let tags: Vec<Vec<String>> = sources
        .iter()
        .map(|src| tokens_of(src).into_iter().filter(|t| LITERAL_TAGS.contains(&t.as_str())).collect())
        .collect();
    assert_eq!(tags, vec![vec!["NUM"], vec!["STR"], vec!["BOOL"], vec!["NIL"]]);
}

// -------------------------------------------------- structure is preserved

#[test]
fn different_operators_produce_different_streams() {
    assert_ne!(tokens_of("c = a + b\n"), tokens_of("c = a - b\n"));
}

#[test]
fn different_word_operators_produce_different_streams() {
    assert_ne!(tokens_of("c = a and b\n"), tokens_of("c = a or b\n"));
}

#[test]
fn different_control_flow_produces_different_streams() {
    assert_ne!(tokens_of("if c:\n    f()\n"), tokens_of("while c:\n    f()\n"));
}

#[test]
fn call_arity_is_preserved() {
    assert_ne!(tokens_of("f(a)\n"), tokens_of("f(a, b)\n"));
}

#[test]
fn comments_contribute_nothing() {
    assert_eq!(tokens_of("x = 1\n"), tokens_of("# an explanation\nx = 1  # trailing\n"));
}

#[test]
fn keywords_contribute_nothing_beyond_their_parent_node_kind() {
    // `async def` and `def` differ only by an anonymous keyword; the parent
    // is `function_definition` either way, so the streams match.
    assert_eq!(tokens_of("def f():\n    pass\n"), tokens_of("async def f():\n    pass\n"));
}

#[test]
fn a_comment_or_a_bracket_leaves_the_stream_as_it_is() {
    let language = by_name("python").expect("python is registered");
    let source = "def f(a, b):  # first\n    # second\n    return (a, [b, 'text'])\n";
    let whole = normalize(&parse(&language, source), 0, &language);
    let nodes = parse(&language, source);
    let silent: Vec<usize> = (1..nodes.len())
        .filter(|&r| nodes[r].kind == "comment" || (!nodes[r].named && !OPERATOR_TOKENS.contains(&nodes[r].kind.as_str())))
        .collect();
    assert!(silent.iter().any(|&r| nodes[r].kind == "comment") && silent.iter().any(|&r| nodes[r].kind == "["));
    for r in silent {
        let end = end_of_subtree(&nodes, r, nodes.len());
        let mut left = parse(&language, source);
        left.drain(r..end);
        assert_eq!(normalize(&left, 0, &language), whole);
    }
}

#[test]
fn the_parts_of_a_literal_leave_the_stream_as_it_is() {
    let language = by_name("python").expect("python is registered");
    let mut nodes = parse(&language, "s = 'text'\n");
    let whole = normalize(&nodes, 0, &language);
    let string = nodes.iter().position(|n| n.kind == "string").expect("a string");
    let end = end_of_subtree(&nodes, string, nodes.len());
    assert!(end > string + 1);
    nodes.drain(string + 1..end);
    assert_eq!(normalize(&nodes, 0, &language), whole);
}

// ------------------------------------------------------ encoding soundness

#[test]
fn nesting_and_sibling_order_are_distinguishable() {
    // The ambiguity a bare preorder walk would have: `X(Y, Z)` versus
    // `X(Y(Z))`. Without the closing token these collide, and two
    // structurally different functions get reported as a perfect clone.
    assert_ne!(tokens_of("f(a, g)\n"), tokens_of("f(a(g))\n"));
}

#[test]
fn every_structural_node_is_closed_exactly_once() {
    // Balanced-parenthesis property: the stream must never close a node it
    // did not open, and must close every node it opened.
    let tokens = tokens_of("def f(a):\n    if a:\n        return [1, 2]\n    return None\n");
    let mut depth: i64 = 0;
    let mut deepest_underflow = 0i64;
    for token in &tokens {
        if token == NODE_END {
            depth -= 1;
        } else if token != IDENTIFIER_PLACEHOLDER && !LITERAL_TAGS.contains(&token.as_str()) {
            depth += 1;
        }
        deepest_underflow = deepest_underflow.min(depth);
    }
    assert_eq!((depth, deepest_underflow), (0, 0));
}

#[test]
fn an_empty_source_normalizes_to_just_the_root() {
    assert_eq!(tokens_of(""), vec!["module".to_string(), NODE_END.to_string()]);
}

#[test]
fn source_that_fails_to_parse_still_yields_a_stream() {
    // tree-sitter is error-tolerant and produces ERROR nodes rather than
    // refusing. Normalization must not panic on them; whether a file had
    // syntax errors is reported separately, by the extractor.
    assert!(!tokens_of("def (:::\n").is_empty());
}

// ------------------------------------------------------------- count_nodes

#[test]
fn node_count_grows_with_the_amount_of_code() {
    let small = named_node_count("x = 1\n");
    let large = named_node_count("def f(a, b):\n    return a + b * 2\n");
    assert!(large > small);
}

#[test]
fn node_count_of_an_empty_file_counts_only_the_root() {
    assert_eq!(named_node_count(""), 1);
}

#[test]
fn node_count_ignores_anonymous_nodes() {
    // `(a)` adds two anonymous parentheses plus one named
    // parenthesized_expression around the same identifier.
    assert_eq!(named_node_count("(a)\n") - named_node_count("a\n"), 1);
}

// ------------------------------------------------- single descent, pinned

/// The full [`PlacedToken`] stream for a whole source file in the named
/// language.
fn placed_tokens_of(language_name: &str, source: &str) -> Vec<PlacedToken> {
    let language = by_name(language_name).expect("language is registered");
    let nodes = parse(&language, source);
    placed_tokens(&nodes, 0, &language)
}

#[test]
fn normalize_matches_placed_tokens_with_lines_dropped() {
    // Checked in two unrelated grammars so it cannot pass by coincidentally
    // matching one language's node shapes.
    let python = "def total(rate, years):\n    if rate > 0:\n        return rate * years\n    return 0\n";
    let javascript = "function total(rate, years) {\n  if (rate > 0) {\n    return rate * years;\n  }\n  return 0;\n}\n";

    let via_normalize: Vec<Vec<String>> = [("python", python), ("javascript", javascript)]
        .iter()
        .map(|&(l, s)| tokens_of_lang(l, s))
        .collect();
    let via_placed_tokens: Vec<Vec<String>> = [("python", python), ("javascript", javascript)]
        .iter()
        .map(|&(l, s)| placed_tokens_of(l, s).into_iter().map(|t| t.name).collect())
        .collect();

    assert_eq!(via_normalize, via_placed_tokens);
}

/// [`normalize`] for an arbitrary language, not just Python -- [`tokens_of`]
/// stays Python-only because most tests above only care about one grammar.
fn tokens_of_lang(language_name: &str, source: &str) -> Vec<String> {
    let language = by_name(language_name).expect("language is registered");
    let nodes = parse(&language, source);
    normalize(&nodes, 0, &language)
}
