//! Vocabulary overlap between files.

use std::collections::BTreeSet;

use dupdelta::extract::SourceFile;
use dupdelta::lang::{all, by_name};
use dupdelta::ratio::Ratio;
use dupdelta::vocab::{
    find_vocab_pairs, inbound_imports, looks_like_import, normalize_token, plausible_names, tokenize_line, vocabulary,
    Noise, VocabOptions,
};

/// A score as a float.
fn float(score: Ratio) -> f64 {
    score.num as f64 / score.den as f64
}

/// A float as a score.
fn score(value: f64) -> Ratio {
    Ratio::from_decimal(&format!("{value}")).expect("a number of at least zero")
}

fn python_file(path: &str, source: &str) -> SourceFile {
    SourceFile {
        path: path.to_string(),
        language: by_name("python").expect("python is registered"),
        text: source.to_string(),
    }
}

fn javascript_file(path: &str, source: &str) -> SourceFile {
    SourceFile {
        path: path.to_string(),
        language: by_name("javascript").expect("javascript is registered"),
        text: source.to_string(),
    }
}

fn no_noise() -> Vec<Noise> {
    Vec::new()
}

fn noise_of(language: &str, names: Vec<String>) -> Vec<Noise> {
    vec![Noise { language: language.to_string(), names }]
}

/// The vocabulary of a file, which is listed in order.
fn names_of(file: &SourceFile, noise: &Vec<Noise>) -> BTreeSet<String> {
    let names = vocabulary(file, noise);
    assert!(names.windows(2).all(|w| w[0] < w[1]));
    names.into_iter().collect()
}

fn default_options() -> VocabOptions {
    VocabOptions { min_overlap: score(0.0), min_vocabulary: 0, noise: no_noise(), sample_size: 10 }
}

// -------------------------------------------------------------- vocabulary

#[test]
fn vocabulary_collects_every_distinct_identifier_in_the_file() {
    let file =
        python_file("a.py", "def alpha(beta):\n    gamma = beta\n    delta = gamma\n    return delta\n");
    let names = names_of(&file, &no_noise());
    let expected: BTreeSet<String> =
        ["alpha", "beta", "gamma", "delta"].iter().map(|s| s.to_string()).collect();
    assert_eq!(names, expected);
}

#[test]
fn vocabulary_excludes_configured_noise_for_the_files_language() {
    let file = python_file("a.py", "def alpha(beta):\n    return beta\n");
    let noise = noise_of("python", vec!["beta".to_string()]);
    let names = names_of(&file, &noise);
    assert_eq!(names, BTreeSet::from(["alpha".to_string()]));
}

#[test]
fn vocabulary_does_not_exclude_noise_configured_for_a_different_language() {
    let file = python_file("a.py", "def alpha(beta):\n    return beta\n");
    let noise = noise_of("javascript", vec!["alpha".to_string(), "beta".to_string()]);
    let names = names_of(&file, &noise);
    assert_eq!(names, BTreeSet::from(["alpha".to_string(), "beta".to_string()]));
}

#[test]
fn files_sharing_only_control_flow_keywords_have_no_vocabulary_overlap() {
    // Both files use `if`/`return`, but a keyword's parent node kind
    // already carries that meaning -- it is never emitted as an
    // identifier, so it cannot inflate overlap between unrelated files.
    let a = python_file("a.py", "def f(x):\n    if x:\n        return x\n    return x\n");
    let b = python_file("b.py", "def g(y):\n    if y:\n        return y\n    return y\n");
    let shared: BTreeSet<String> =
        names_of(&a, &no_noise()).intersection(&names_of(&b, &no_noise())).cloned().collect();
    assert!(shared.is_empty());
}

// ------------------------------------------------------- overlap formula

#[test]
fn overlap_of_a_small_file_wholly_absorbed_into_a_big_one_is_one() {
    // Same names, `a` is a strict subset of `b`'s vocabulary.
    let small = python_file("small.py", "def alpha(beta):\n    return beta\n");
    let big = python_file(
        "big.py",
        "def alpha(beta):\n    gamma = beta\n    delta = gamma\n    epsilon = delta\n    return epsilon\n",
    );
    let options = VocabOptions { min_overlap: score(0.5), ..default_options() };
    let pairs = find_vocab_pairs(&[small, big], &options);
    assert_eq!(pairs.len(), 1);
    assert_eq!(float(pairs[0].overlap), 1.0);
}

#[test]
fn the_union_based_formula_would_have_hidden_the_wholly_absorbed_case() {
    // Pinning the argument for "overlap over the smaller set, not the
    // union": with the same two files as above, a union-denominator
    // formula scores this pair far below what the actual absorption
    // deserves, which is exactly the case this detector must not miss.
    let small = names_of(&python_file("small.py", "def alpha(beta):\n    return beta\n"), &no_noise());
    let big = names_of(
        &python_file(
            "big.py",
            "def alpha(beta):\n    gamma = beta\n    delta = gamma\n    epsilon = delta\n    return epsilon\n",
        ),
        &no_noise(),
    );
    let shared = small.intersection(&big).count();
    let smaller_overlap = shared as f64 / small.len().min(big.len()) as f64;
    let union_len = small.union(&big).count();
    let union_overlap = shared as f64 / union_len as f64;
    assert_eq!(smaller_overlap, 1.0);
    assert!(union_overlap < 0.5);
}

// ------------------------------------------------------------ min_vocabulary

#[test]
fn min_vocabulary_excludes_trivially_small_files_before_pairing() {
    // A 3-identifier file would otherwise score 1.0 against everything
    // that happens to use those same three names.
    let big1 =
        python_file("big1.py", "def a(b):\n    c = b\n    d = c\n    e = d\n    f = e\n    return f\n");
    // `tiny` sits between the two big files so this one file list
    // exercises both the outer-loop skip (`tiny` as `i`, against `big2`)
    // and the inner-loop skip (`tiny` as `j`, against `big1`).
    let tiny = python_file("tiny.py", "def a(b):\n    return b\n");
    assert_eq!(names_of(&tiny, &no_noise()).len(), 2);
    let big2 =
        python_file("big2.py", "def a(b):\n    c = b\n    d = c\n    e = d\n    g = e\n    return g\n");
    let options = VocabOptions { min_overlap: score(0.0), min_vocabulary: 3, ..default_options() };
    let pairs = find_vocab_pairs(&[big1, tiny, big2], &options);
    assert!(pairs.iter().all(|p| !p.a.contains("tiny") && !p.b.contains("tiny")));
}

#[test]
fn plausible_names_falls_back_to_the_whole_path_when_there_is_no_extension() {
    let file = python_file("no_extension_module", "x = 1\n");
    let (stem, dotted) = plausible_names(&file.path);
    assert_eq!((stem.as_str(), dotted.as_str()), ("no_extension_module", "no_extension_module"));
}

// ----------------------------------------------------------- inbound_imports

#[test]
fn inbound_imports_counts_a_file_referenced_by_its_stem() {
    let target = python_file("helpers.py", "def helper():\n    return 1\n");
    let caller = python_file("main.py", "import helpers\n\nhelpers.helper()\n");
    let counts = inbound_imports(&[target, caller]);
    assert_eq!(counts, vec![1, 0]);
}

#[test]
fn inbound_imports_counts_a_file_referenced_by_its_dotted_path() {
    let target = python_file("pkg/helpers.py", "def helper():\n    return 1\n");
    let caller = python_file("main.py", "from pkg.helpers import helper\n\nhelper()\n");
    let counts = inbound_imports(&[target, caller]);
    assert_eq!(counts, vec![1, 0]);
}

#[test]
fn inbound_imports_recognizes_a_javascript_require_call() {
    let target = javascript_file("bar.js", "module.exports = function bar() {};\n");
    let caller = javascript_file("main.js", "const bar = require('./bar');\nbar();\n");
    let counts = inbound_imports(&[target, caller]);
    assert_eq!(counts, vec![1, 0]);
}

#[test]
fn inbound_imports_is_zero_for_an_entry_point_nothing_imports() {
    // The false positive to keep in view: a CLI entry point has no
    // inbound imports and is not dead code. Nothing here labels it dead
    // -- this only pins that the count really does read zero, so a
    // reader downstream does not mistake a future change in that number
    // for proof either way.
    let entry_point = python_file("main.py", "def main():\n    return 0\n\nmain()\n");
    let helper = python_file("helpers.py", "def helper():\n    return 1\n");
    let counts = inbound_imports(&[entry_point, helper]);
    assert_eq!(counts, vec![0, 0]);
}

// ------------------------------------------------------------- zero_inbound

#[test]
fn zero_inbound_is_true_when_either_side_has_zero_inbound_imports() {
    let overlap_source = "def alpha(beta):\n    gamma = beta\n    return gamma\n";
    let imported = python_file("imported.py", overlap_source);
    let caller_of_imported = python_file("caller.py", "import imported\n\nimported.alpha(1)\n");
    let orphan = python_file("orphan.py", overlap_source);

    let options = VocabOptions { min_overlap: score(0.9), ..default_options() };
    let pairs = find_vocab_pairs(&[imported, caller_of_imported, orphan], &options);

    // "imported.py" (has an inbound import) vs "orphan.py" (has none):
    // one zero side is enough to flag the pair.
    let flagged: Vec<bool> = pairs
        .iter()
        .filter(|p| p.a.contains("orphan") || p.b.contains("orphan"))
        .map(|p| p.zero_inbound)
        .collect();
    assert!(!flagged.is_empty());
    assert_eq!(flagged, vec![true; flagged.len()]);
}

// ------------------------------------------------------------------ ordering

#[test]
fn pairs_sort_by_zero_inbound_then_descending_overlap_then_key() {
    let a = python_file("a.py", "def n1(n2):\n    n3 = n2\n    return n3\n");
    let b = python_file("b.py", "def n1(n2):\n    n3 = n2\n    m1 = n3\n    return m1\n");
    let c = python_file("c.py", "def n1(n2):\n    return n2\n");
    let caller = python_file("caller.py", "import a\nimport c\n\na.n1(1)\nc.n1(1)\n");

    let options = VocabOptions { min_overlap: score(0.5), ..default_options() };
    let pairs = find_vocab_pairs(&[a, b, c, caller], &options);

    let zero_inbound_flags: Vec<bool> = pairs.iter().map(|p| p.zero_inbound).collect();
    let is_sorted_desc = zero_inbound_flags.windows(2).all(|w| w[0] >= w[1]);
    assert!(is_sorted_desc);

    // Within each zero_inbound group, overlap is non-increasing.
    let overlap_within_groups: Vec<bool> = pairs
        .windows(2)
        .filter(|w| w[0].zero_inbound == w[1].zero_inbound)
        .map(|w| w[1].overlap.at_most(&w[0].overlap))
        .collect();
    assert_eq!(overlap_within_groups, vec![true; overlap_within_groups.len()]);
}

#[test]
fn repeated_runs_produce_identical_output() {
    let make_files = || {
        vec![
            python_file("a.py", "def n1(n2):\n    n3 = n2\n    return n3\n"),
            python_file("b.py", "def n1(n2):\n    n3 = n2\n    return n3\n"),
            python_file("c.py", "def m1(m2):\n    m3 = m2\n    return m3\n"),
        ]
    };
    let options = VocabOptions { min_overlap: score(0.1), ..default_options() };
    let first = find_vocab_pairs(&make_files(), &options);
    let second = find_vocab_pairs(&make_files(), &options);
    assert_eq!(first, second);
}

// ---------------------------------------------------------------- sampling

#[test]
fn sample_shared_holds_up_to_sample_size_sorted_names() {
    let a =
        python_file("a.py", "def alpha(beta, gamma, delta):\n    epsilon = alpha\n    return epsilon\n");
    let b =
        python_file("b.py", "def alpha(beta, gamma, delta):\n    epsilon = alpha\n    return epsilon\n");
    let options = VocabOptions { min_overlap: score(0.5), sample_size: 3, ..default_options() };
    let pairs = find_vocab_pairs(&[a, b], &options);
    assert_eq!(pairs.len(), 1);
    assert_eq!(pairs[0].sample_shared.len(), 3);
    let mut sorted = pairs[0].sample_shared.clone();
    sorted.sort();
    assert_eq!(pairs[0].sample_shared, sorted);
}

// --------------------------------------------------------------- boundaries

#[test]
fn a_pair_exactly_at_min_overlap_is_reported_and_a_lower_one_is_not() {
    let a =
        python_file("a.py", "def alpha(beta):\n    gamma = beta\n    delta = gamma\n    return delta\n");
    // Shares alpha, beta with `a` (2 of 4) -- overlap exactly 0.5.
    let at_threshold = python_file(
        "at_threshold.py",
        "def epsilon(alpha):\n    beta = alpha\n    zeta = beta\n    return zeta\n",
    );
    // Shares only alpha with `a` (1 of 4) -- overlap 0.25, below 0.5.
    let below_threshold =
        python_file("below_threshold.py", "def alpha(m1):\n    m2 = m1\n    m3 = m2\n    return m3\n");

    let options = VocabOptions { min_overlap: score(0.5), ..default_options() };
    let pairs = find_vocab_pairs(&[a, at_threshold, below_threshold], &options);

    let paths: BTreeSet<(String, String)> = pairs.iter().map(|p| p.key()).collect();
    assert!(paths.contains(&("a.py".to_string(), "at_threshold.py".to_string())));
    assert!(!paths.contains(&("a.py".to_string(), "below_threshold.py".to_string())));
}

#[test]
fn an_empty_file_list_produces_no_pairs_without_panicking() {
    assert!(find_vocab_pairs(&[], &default_options()).is_empty());
}

#[test]
fn a_single_file_produces_no_pairs_without_panicking() {
    let only = python_file("a.py", "def alpha(beta):\n    return beta\n");
    assert!(find_vocab_pairs(&[only], &default_options()).is_empty());
}

#[test]
fn a_file_with_an_empty_vocabulary_does_not_cause_a_divide_by_zero() {
    // A file with no identifiers at all -- everything in it is noise.
    let empty = python_file("empty.py", "def alpha():\n    return 1\n");
    let noise = noise_of("python", vec!["alpha".to_string()]);
    assert!(names_of(&empty, &noise).is_empty());

    let other = python_file("other.py", "def alpha():\n    return 1\n");
    let options = VocabOptions { min_overlap: score(0.0), min_vocabulary: 0, noise, sample_size: 5 };
    assert!(find_vocab_pairs(&[empty, other], &options).is_empty());
}

// ------------------------------------------------------------------ plumbing

#[test]
fn vocab_options_is_cloneable_and_debuggable() {
    let options = default_options();
    let copy = options.clone();
    assert!(format!("{copy:?}").contains("min_overlap"));
}

#[test]
fn a_file_path_is_used_verbatim_as_the_pairs_identity() {
    let a = python_file("dir/a.py", "def alpha(beta):\n    gamma = beta\n    return gamma\n");
    let b = python_file("dir/b.py", "def alpha(beta):\n    gamma = beta\n    return gamma\n");
    let pairs = find_vocab_pairs(&[a, b], &VocabOptions { min_overlap: score(0.5), ..default_options() });
    assert_eq!((pairs[0].a.as_str(), pairs[0].b.as_str()), ("dir/a.py", "dir/b.py"));
}

#[test]
fn tokenize_and_normalize_strip_relative_prefixes_and_known_extensions() {
    assert_eq!(tokenize_line("from pkg.mod import thing"), vec!["from", "pkg.mod", "import", "thing"]);
    assert_eq!(normalize_token("../pkg/mod.py", &all()).0, "pkg/mod");
    assert_eq!(normalize_token("../pkg/mod.py", &all()).1, "pkg.mod");
    assert_eq!(normalize_token("/abs/mod", &all()).0, "abs/mod");
}

#[test]
fn looks_like_import_recognizes_every_keyword_and_call_form() {
    let lines = [
        "import os",
        "from a import b",
        "require(\"x\")",
        "use crate::x;",
        "include <stdio.h>",
        "const x = import(\"y\")",
        "    import os",
    ];
    assert!(lines.iter().all(|l| looks_like_import(l)));
    assert!(!looks_like_import("x = 1"));
}
