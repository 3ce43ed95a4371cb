//! Repeated blocks.

use std::collections::{BTreeSet, HashMap};

use dupdelta::blocks::{find_blocks, find_pairs, placed_tokens, rolling_hashes, windows_match, BlockOptions};
use dupdelta::extract::SourceFile;
use dupdelta::lang::by_name;
use dupdelta::normalize::PlacedToken;
use dupdelta::report::{BlockPair, BlockRef};
use dupdelta::token::ContentHash;

/// Where a run stands.
fn block_ref(path: &str, tokens: &[PlacedToken], start: usize, length: usize) -> BlockRef {
    BlockRef {
        file: path.replace('\\', "/"),
        start_line: tokens[start].line,
        end_line: tokens[start + length - 1].line,
    }
}

fn python_file(path: &str, text: &str) -> SourceFile {
    SourceFile {
        path: path.to_string(),
        language: by_name("python").expect("python is registered"),
        text: text.to_string(),
    }
}

fn js_file(path: &str, text: &str) -> SourceFile {
    SourceFile {
        path: path.to_string(),
        language: by_name("javascript").expect("javascript is registered"),
        text: text.to_string(),
    }
}

fn opts(min_tokens: usize) -> BlockOptions {
    BlockOptions { min_tokens }
}

fn find(files: Vec<SourceFile>, min_tokens: usize) -> Vec<BlockPair> {
    find_blocks(&files, &opts(min_tokens))
}

fn pair_is(pair: &BlockPair, x: &str, y: &str) -> bool {
    (pair.a.file == x && pair.b.file == y) || (pair.a.file == y && pair.b.file == x)
}

/// The biggest block connecting files `x` and `y`. Results are sorted by
/// descending token count, so this is also the *first* match -- which
/// matters here because a low `min_tokens` can additionally surface
/// small, uninteresting shared idioms (e.g. two `if` conditions that
/// happen to both compare with `>`) alongside the fragment a test is
/// actually about.
fn biggest<'a>(blocks: &'a [BlockPair], x: &str, y: &str) -> &'a BlockPair {
    blocks.iter().find(|p| pair_is(p, x, y)).expect("no block found for the given file pair")
}

/// Three-statement fragment used across most fixtures below: an
/// assignment with a nested arithmetic expression, a method call, and an
/// `if` guarding a boolean assignment. Each of the three has a shape
/// found nowhere else in these fixtures, which is deliberate --
/// normalization abstracts identifiers and literal values away, so two
/// *different* simple statements (say, two plain-binary-operator
/// assignments differing only by which operator they use) would still
/// share nearly all of their normalized tokens and pollute a test with
/// unrelated matches.
fn alpha() -> SourceFile {
    python_file(
        "alpha.py",
        "def alpha(n):\n    result = base * rate + offset\n    values.append(result)\n    if result > threshold:\n        flagged = True\n    return result\n",
    )
}

fn beta() -> SourceFile {
    python_file(
        "beta.py",
        "def beta(x, y, z):\n    log(x, y, z)\n    result = base * rate + offset\n    values.append(result)\n    if result > threshold:\n        flagged = True\n    print(result)\n",
    )
}

#[test]
fn a_fragment_repeated_inside_two_differently_shaped_functions_is_found() {
    let blocks = find(vec![alpha(), beta()], 15);

    let found = biggest(&blocks, "alpha.py", "beta.py");
    assert!(found.tokens > 20);
}

#[test]
fn the_whole_shared_fragment_produces_one_finding_not_many_overlapping_ones() {
    // min_tokens well below the true run length is what makes every
    // interior offset of the run seed its own (wrong) match if left
    // unfiltered -- see the module docs.
    let full = find(vec![alpha(), beta()], 1);
    let longest = biggest(&full, "alpha.py", "beta.py").tokens;
    assert!(longest > 20);

    let at_fifteen = find(vec![alpha(), beta()], 15);
    let matching_ab: Vec<usize> =
        at_fifteen.iter().filter(|p| pair_is(p, "alpha.py", "beta.py")).map(|p| p.tokens).collect();
    assert_eq!(matching_ab, vec![longest]);
}

fn gamma() -> SourceFile {
    python_file(
        "gamma.py",
        "def gamma(items):\n    total = 0\n    for item in items:\n        if item > 0:\n            total = total + item\n    return total\n",
    )
}

fn delta() -> SourceFile {
    python_file(
        "delta.py",
        "def delta(items, bonus):\n    extra = bonus * 2\n    total = 0\n    for item in items:\n        if item > 0:\n            total = total + item\n    print(total, extra)\n",
    )
}

#[test]
fn different_fragments_never_share_a_hash() {
    let blocks = find(vec![alpha(), beta(), gamma(), delta()], 15);

    let ab = biggest(&blocks, "alpha.py", "beta.py");
    let gd = biggest(&blocks, "gamma.py", "delta.py");
    assert_ne!(ab.hash, gd.hash);
}

fn epsilon() -> SourceFile {
    python_file(
        "epsilon.py",
        "def epsilon(q):\n    if q:\n        pass\n    result = base * rate + offset\n    values.append(result)\n    if result > threshold:\n        flagged = True\n    yield result\n",
    )
}

#[test]
fn the_same_fragment_in_a_different_file_pair_hashes_the_same() {
    let blocks = find(vec![alpha(), beta(), epsilon()], 15);

    let ab = biggest(&blocks, "alpha.py", "beta.py");
    let ae = biggest(&blocks, "alpha.py", "epsilon.py");
    assert_eq!(ab.hash, ae.hash);
}

#[test]
fn a_repeat_inside_a_single_file_is_found_without_duplicating_itself() {
    let both = python_file(
        "both.py",
        "def one(n):\n    result = base * rate + offset\n    values.append(result)\n    if result > threshold:\n        flagged = True\n    return result\n\ndef two(x, y, z):\n    log(x, y, z)\n    result = base * rate + offset\n    values.append(result)\n    if result > threshold:\n        flagged = True\n    print(result)\n",
    );

    let blocks = find(vec![both], 15);

    let found = biggest(&blocks, "both.py", "both.py");
    assert!(found.tokens > 20);
    assert_ne!(found.a.start_line, found.b.start_line);
}

#[test]
fn a_run_of_exactly_min_tokens_is_reported_but_one_shorter_is_not() {
    let full = find(vec![alpha(), beta()], 1);
    let longest = biggest(&full, "alpha.py", "beta.py").tokens;

    let at_boundary = find(vec![alpha(), beta()], longest);
    let one_more = find(vec![alpha(), beta()], longest + 1);

    let has_full_match = |blocks: &[BlockPair]| {
        blocks.iter().any(|p| pair_is(p, "alpha.py", "beta.py") && p.tokens == longest)
    };
    let found = (has_full_match(&at_boundary), has_full_match(&one_more));
    assert_eq!(found, (true, false));
}

#[test]
fn a_blind_renamed_copy_is_still_one_duplicate() {
    let zeta = python_file(
        "zeta.py",
        "def zeta(n):\n    result = base * rate + offset\n    values.append(result)\n    if result > threshold:\n        flagged = True\n    return result\n",
    );
    // Same shape as `alpha`/`beta`'s fragment, every identifier renamed.
    let eta = python_file(
        "eta.py",
        "def eta(x, y, z):\n    log(x, y, z)\n    outcome = m * k + shift\n    bucket.append(outcome)\n    if outcome > limit:\n        hit = True\n    print(outcome)\n",
    );

    let full = find(vec![alpha(), beta()], 1);
    let longest = biggest(&full, "alpha.py", "beta.py").tokens;

    let blocks = find(vec![zeta, eta], 15);
    assert_eq!(biggest(&blocks, "zeta.py", "eta.py").tokens, longest);
}

#[test]
fn output_is_deterministic_and_sorted_by_descending_tokens() {
    let files = vec![alpha(), beta(), gamma(), delta()];
    let first = find_blocks(&files, &opts(15));
    let second = find_blocks(&files, &opts(15));

    assert_eq!(first, second);
    assert!(first.len() >= 2);
    assert!(first.windows(2).all(|w| w[0].tokens >= w[1].tokens));
}

#[test]
fn empty_input_produces_no_findings() {
    assert_eq!(find_blocks(&[], &opts(5)), Vec::new());
}

#[test]
fn a_single_file_with_no_internal_repeat_produces_no_findings() {
    assert_eq!(find(vec![alpha()], 15), Vec::new());
}

#[test]
fn a_min_tokens_above_every_files_length_produces_no_findings() {
    assert_eq!(find(vec![alpha(), beta()], 10_000), Vec::new());
}

#[test]
fn block_ref_lines_are_one_based_inclusive_and_file_uses_forward_slashes() {
    let one = js_file(
        "src/nested/one.js",
        "function one(n) {\n  let result = base * rate + offset;\n  values.push(result);\n  if (result > threshold) {\n    flagged = true;\n  }\n  return result;\n}\n",
    );
    // A path containing a literal backslash -- on this platform that is
    // just an ordinary filename character, which is exactly why the
    // conversion cannot be left to `Path` alone and must replace it by
    // hand.
    let two = js_file(
        "win\\pkg\\two.js",
        "function two(x, y, z) {\n  log(x, y, z);\n  let result = base * rate + offset;\n  values.push(result);\n  if (result > threshold) {\n    flagged = true;\n  }\n  console.log(result);\n}\n",
    );

    let blocks = find(vec![one, two], 15);

    let found = biggest(&blocks, "src/nested/one.js", "win/pkg/two.js");
    assert_eq!(
        (found.a.file.as_str(), found.a.start_line, found.a.end_line),
        ("src/nested/one.js", 2, 6)
    );
    assert_eq!((found.b.file.as_str(), found.b.start_line, found.b.end_line), ("win/pkg/two.js", 3, 7));
}

// ------------------------------------------------------- anchor pairing

/// One occurrence of the shared fragment: no prefix and an identical
/// (parameterless) signature in every file, so every occurrence's
/// backward context is byte-identical up to the very start of the file --
/// only the suffix, which sits *after* the fragment and so cannot affect
/// which occurrences a backward extension groups together, tells them
/// apart. That is deliberate: giving occurrences merely *different*
/// prefixes (tried first) still lets pairs of non-anchor occurrences
/// share a coincidentally-identical tail -- every prefix closes with at
/// least one `#END`, itself the same token regardless of what it closes
/// -- which seeds *extra* anchor groups among the non-anchor occurrences
/// themselves. Identical prefixes side-step that: there is nothing for
/// two non-anchor occurrences to coincidentally share that the anchor
/// does not *also* share, so the whole group -- anchor included -- stays
/// one bucket, not several.
fn repeated_occurrence(path: &str, suffix: &str) -> SourceFile {
    python_file(
        path,
        &format!(
            "def f():\n    result = base * rate + offset\n    values.append(result)\n    if result > threshold:\n        flagged = True\n    {suffix}\n"
        ),
    )
}

#[test]
fn a_fragment_repeated_n_times_yields_n_minus_one_findings_covering_every_occurrence() {
    // Five occurrences of the same fragment -- a complete graph would
    // report `5 * 4 / 2 = 10` pairs; anchored pairing reports `5 - 1 = 4`.
    // Suffixes are mutually distinct statement kinds so a forward
    // extension cannot run past the fragment into another match.
    let file_names = ["site_a.py", "site_b.py", "site_c.py", "site_d.py", "site_e.py"];
    let suffixes = ["return result", "print(result)", "yield result", "assert result", "pass"];
    let files: Vec<SourceFile> =
        file_names.iter().zip(suffixes).map(|(path, suffix)| repeated_occurrence(path, suffix)).collect();
    let occurrence_count = files.len();

    let blocks = find(files, 15);

    assert_eq!(blocks.len(), occurrence_count - 1);

    let covered: BTreeSet<&str> =
        blocks.iter().flat_map(|p| [p.a.file.as_str(), p.b.file.as_str()]).collect();
    let expected: BTreeSet<&str> = file_names.into_iter().collect();
    assert_eq!(covered, expected);
}

// ------------------------------------------------------- prefilter perf

/// The same findings, computed naively: hashes every window with
/// [`ContentHash::of`] -- the real, cryptographic hash, recomputed from
/// scratch each time -- instead of a rolling integer one, and compares
/// token *names* directly instead of interned ids. Everything else
/// (left-maximal anchor, forward extension, final sort) is identical, so
/// any disagreement between the two proves the prefilter dropped or
/// invented a finding, not that the two implementations disagree about
/// what counts as a match.
fn naive_find_blocks(files: &[SourceFile], options: &BlockOptions) -> Vec<BlockPair> {
    let min_tokens = options.min_tokens;
    let streams: Vec<Vec<PlacedToken>> = files.iter().map(placed_tokens).collect();

    let mut buckets: HashMap<ContentHash, Vec<(usize, usize)>> = HashMap::new();
    for (file_index, tokens) in streams.iter().enumerate() {
        if tokens.len() < min_tokens {
            continue;
        }
        for start in 0..=(tokens.len() - min_tokens) {
            let names: Vec<&str> =
                tokens[start..start + min_tokens].iter().map(|t| t.name.as_str()).collect();
            buckets.entry(ContentHash::of(&names)).or_default().push((file_index, start));
        }
    }

    let mut pairs = Vec::new();
    for occurrences in buckets.values_mut() {
        // Same anchoring rule as `find_pairs`, arrived at independently:
        // one occurrence group is one fact, not one finding per pair of
        // its locations, so only the earliest occurrence (by `(file,
        // start)`, sorted explicitly so this is not incidental) is
        // paired against every other one.
        occurrences.sort_unstable();
        let (fa, sa) = occurrences[0];
        for &(fb, sb) in &occurrences[1..] {
            let a = &streams[fa];
            let b = &streams[fb];
            let left_maximal = sa == 0 || sb == 0 || a[sa - 1].name != b[sb - 1].name;
            if !left_maximal {
                continue;
            }
            let mut length = min_tokens;
            while sa + length < a.len()
                && sb + length < b.len()
                && a[sa + length].name == b[sb + length].name
            {
                length += 1;
            }
            let names: Vec<&str> = a[sa..sa + length].iter().map(|t| t.name.as_str()).collect();
            pairs.push(BlockPair {
                a: block_ref(&files[fa].path, a, sa, length),
                b: block_ref(&files[fb].path, b, sb, length),
                tokens: length,
                hash: ContentHash::of(&names),
            });
        }
    }

    pairs.sort_by_key(|p| {
        (
            std::cmp::Reverse(p.tokens),
            p.hash.clone(),
            p.a.file.clone(),
            p.a.start_line,
            p.a.end_line,
            p.b.file.clone(),
            p.b.start_line,
            p.b.end_line,
        )
    });
    pairs
}

#[test]
fn the_rolling_hash_prefilter_matches_a_naive_all_windows_reference() {
    let corpus = vec![alpha(), beta(), gamma(), delta(), epsilon()];
    let thresholds = [1usize, 8, 20, 200];

    let fast: Vec<Vec<BlockPair>> = thresholds.iter().map(|&m| find(corpus.clone(), m)).collect();
    let naive: Vec<Vec<BlockPair>> =
        thresholds.iter().map(|&m| naive_find_blocks(&corpus, &opts(m))).collect();

    assert!(fast.iter().any(|blocks| !blocks.is_empty()));
    assert_eq!(fast, naive);
}

#[test]
fn a_sixty_four_bit_hash_collision_is_rejected_by_the_confirmation_step() {
    // ROLLING_BASE is round(2^64 / phi), so its continued fraction is the
    // golden ratio's -- all 1s -- and Fibonacci numbers are exactly its
    // best small-denominator rational approximations. That gives an
    // honest, constructive (not simulated) 64-bit collision: fib(47) is
    // the largest Fibonacci number under 2^32, and multiplying it by
    // ROLLING_BASE lands within 2^32 of an exact multiple of 2^64 --
    // close enough that a second, all-zero window reaches the identical
    // wrapped hash. Verified by direct computation below, not asserted
    // on faith.
    let fib_47 = 2_971_215_073u32;
    let offset = 50_920_843u32;
    let window_a: &[u32] = &[fib_47, offset];
    let window_b: &[u32] = &[0, 0];
    assert_ne!(window_a, window_b);

    let hash_a = rolling_hashes(window_a, 2);
    let hash_b = rolling_hashes(window_b, 2);
    assert_eq!(hash_a, hash_b);

    // The confirmation step must still reject this pair despite the
    // colliding rolling hash: a 64-bit collision must never produce a
    // false finding.
    assert!(!windows_match(window_a, 0, window_b, 0, 2));
}

#[test]
fn a_sixty_four_bit_hash_collision_produces_no_finding_through_find_pairs() {
    // The test above proves the confirmation primitive rejects a
    // collision in isolation. This one drives the actual matching code
    // `find_blocks` runs -- `find_pairs`, working on ids and streams
    // exactly as it receives them from a real scan -- so the rejection is
    // proven on the real code path, not just the primitive it is built
    // from. The ids are fabricated deliberately: reaching id `2_971_215_073`
    // through the real interner would need billions of distinct
    // previously-unseen token names in one file, which is not a
    // reachable test fixture.
    let fib_47 = 2_971_215_073u32;
    let offset = 50_920_843u32;
    assert_eq!(rolling_hashes(&[fib_47, offset], 2), rolling_hashes(&[0, 0], 2));

    let files = vec![python_file("colliding_a.py", ""), python_file("colliding_b.py", "")];
    // Genuinely different token names on each side -- if the confirmation
    // step failed to reject the collision, these would still be reported
    // as a match, which is exactly the false finding this guards against.
    let streams = vec![
        vec![
            PlacedToken { name: "alpha_token".to_string(), line: 1 },
            PlacedToken { name: "beta_token".to_string(), line: 1 },
        ],
        vec![
            PlacedToken { name: "gamma_token".to_string(), line: 1 },
            PlacedToken { name: "delta_token".to_string(), line: 1 },
        ],
    ];
    let ids = vec![vec![fib_47, offset], vec![0u32, 0u32]];

    assert_eq!(find_pairs(&files, &streams, &ids, 2), Vec::new());
}

// ------------------------------------------------------------ plumbing

#[test]
fn block_options_and_placed_token_clone_and_debug() {
    let options = BlockOptions { min_tokens: 5 };
    let debug = format!("{options:?}").contains("min_tokens");
    assert_eq!((options.clone().min_tokens, debug), (5, true));

    let token = PlacedToken { name: "ID".to_string(), line: 3 };
    let debug_token = format!("{token:?}").contains("PlacedToken");
    assert_eq!((token.clone(), debug_token), (token, true));
}

#[test]
fn placed_tokens_records_a_line_per_token() {
    // module, expression_statement, assignment, ID, "=", #END("="), NUM,
    // #END(assignment), #END(expression_statement), #END(module) -- the
    // trailing newline puts the file's last line at row 1 (line 2), which
    // is where the module's own closing token lands.
    let file = python_file("s.py", "x = 1\n");
    let placed = placed_tokens(&file);
    let names: Vec<&str> = placed.iter().map(|t| t.name.as_str()).collect();
    let lines: Vec<usize> = placed.iter().map(|t| t.line).collect();
    assert_eq!(
        (names, lines),
        (
            vec![
                "module",
                "expression_statement",
                "assignment",
                "ID",
                "=",
                "#END",
                "NUM",
                "#END",
                "#END",
                "#END"
            ],
            vec![1, 1, 1, 1, 1, 1, 1, 1, 1, 2],
        )
    );
}
