//! Ratcliff–Obershelp similarity and its bounds.

use dupdelta::ratio::Ratio;
use dupdelta::similarity::{matching_blocks, quick_ratio, ratio, real_quick_ratio, Match, Matcher};

/// A score as a float, for comparison with what is written down.
fn float(score: Ratio) -> f64 {
    score.num as f64 / score.den as f64
}

/// Round to 12 decimals, so that whole lists of scores can be compared.
fn round12(x: f64) -> f64 {
    (x * 1e12).round() / 1e12
}

/// The definition, computed naively: no pruning, no scratch reuse.
fn reference_ratio(a: &[u32], b: &[u32]) -> f64 {
    fn longest(
        a: &[u32],
        b: &[u32],
        alo: usize,
        ahi: usize,
        blo: usize,
        bhi: usize,
    ) -> (usize, usize, usize) {
        let (mut bi, mut bj, mut bs) = (alo, blo, 0usize);
        for i in alo..ahi {
            for j in blo..bhi {
                let mut k = 0;
                while i + k < ahi && j + k < bhi && a[i + k] == b[j + k] {
                    k += 1;
                }
                if k > bs {
                    bi = i;
                    bj = j;
                    bs = k;
                }
            }
        }
        (bi, bj, bs)
    }
    fn total(a: &[u32], b: &[u32], alo: usize, ahi: usize, blo: usize, bhi: usize) -> usize {
        let (i, j, k) = longest(a, b, alo, ahi, blo, bhi);
        if k == 0 {
            return 0;
        }
        k + total(a, b, alo, i, blo, j) + total(a, b, i + k, ahi, j + k, bhi)
    }
    let t = a.len() + b.len();
    if t == 0 {
        return 1.0;
    }
    2.0 * total(a, b, 0, a.len(), 0, b.len()) as f64 / t as f64
}

// -------------------------------------------------------- real_quick_ratio

#[test]
fn real_quick_ratio_of_two_empty_sequences_is_one() {
    assert_eq!(float(real_quick_ratio(0, 0)), 1.0);
}

#[test]
fn real_quick_ratio_of_equal_lengths_is_one() {
    assert_eq!(float(real_quick_ratio(4, 4)), 1.0);
}

#[test]
fn real_quick_ratio_falls_with_length_mismatch() {
    assert_eq!(float(real_quick_ratio(1, 3)), 0.5);
}

// ------------------------------------------------------------- quick_ratio

#[test]
fn quick_ratio_of_two_empty_sequences_is_one() {
    assert_eq!(float(quick_ratio(&[], &[])), 1.0);
}

#[test]
fn quick_ratio_ignores_order() {
    assert_eq!(float(quick_ratio(&[1, 2, 3], &[3, 2, 1])), 1.0);
}

#[test]
fn quick_ratio_respects_multiplicity() {
    // One `1` on the right can only be matched once, however many are left.
    assert_eq!(float(quick_ratio(&[1, 1, 1], &[1])), 2.0 * 1.0 / 4.0);
}

#[test]
fn quick_ratio_is_zero_when_nothing_is_shared() {
    assert_eq!(float(quick_ratio(&[1, 2], &[3, 4])), 0.0);
}

// ------------------------------------------------------------------- ratio

#[test]
fn ratio_of_two_empty_sequences_is_one() {
    assert_eq!(float(ratio(&[], &[])), 1.0);
}

#[test]
fn ratio_of_an_empty_and_a_nonempty_sequence_is_zero() {
    assert_eq!(float(ratio(&[], &[1, 2])), 0.0);
}

#[test]
fn ratio_of_identical_sequences_is_one() {
    assert_eq!(float(ratio(&[1, 2, 3, 4], &[1, 2, 3, 4])), 1.0);
}

#[test]
fn ratio_of_disjoint_sequences_is_zero() {
    assert_eq!(float(ratio(&[1, 2, 3], &[4, 5, 6])), 0.0);
}

#[test]
fn ratio_penalises_reordering_that_the_multiset_bound_cannot_see() {
    // Same tokens, same multiplicities, blocks swapped. `quick_ratio` is
    // order-blind and calls this a perfect match; the real ratio must not,
    // because "the same statements in a different order" is not the same
    // code. This gap is precisely why quick_ratio is only ever a prune.
    let a = [1u32, 2, 3, 4, 5, 6];
    let b = [4u32, 5, 6, 1, 2, 3];
    assert_eq!(float(quick_ratio(&a, &b)), 1.0);
    assert_eq!(float(ratio(&a, &b)), 0.5);
}

#[test]
fn ratio_matches_the_reference_implementation_on_assorted_inputs() {
    let cases: &[(&[u32], &[u32])] = &[
        (&[1, 2, 3], &[1, 2, 3]),
        (&[1, 2, 3], &[1, 3, 2]),
        (&[1, 1, 1, 1], &[1, 1]),
        (&[1, 2, 3, 4, 5], &[3, 4, 5, 1, 2]),
        (&[5, 4, 3, 2, 1], &[1, 2, 3, 4, 5]),
        (&[1, 2, 2, 1, 2], &[2, 1, 2, 2, 1]),
        (&[7], &[7, 7, 7]),
        (&[1, 2, 3, 4], &[]),
        (&[], &[]),
    ];
    let got: Vec<f64> = cases.iter().map(|(a, b)| round12(float(ratio(a, b)))).collect();
    let want: Vec<f64> = cases.iter().map(|(a, b)| round12(reference_ratio(a, b))).collect();
    assert_eq!(got, want);
}

#[test]
fn ratio_is_symmetric() {
    let a = &[1u32, 2, 3, 4, 2, 1];
    let b = &[2u32, 1, 3, 4, 1, 2];
    assert!((float(ratio(a, b)) - float(ratio(b, a))).abs() < 1e-12);
}

// ------------------------------------------------------- prune soundness

#[test]
fn both_upper_bounds_are_never_below_the_real_ratio() {
    // The load-bearing property: a pair pruned by a bound could never have
    // passed the real threshold. Violating this silently loses findings.
    let sequences: &[&[u32]] = &[
        &[],
        &[1],
        &[1, 2],
        &[2, 1],
        &[1, 1, 2, 2],
        &[1, 2, 1, 2, 1],
        &[3, 3, 3],
        &[1, 2, 3, 4, 5, 6],
        &[6, 5, 4, 3, 2, 1],
    ];
    // One triple per ordered pair, in a deterministic order: on failure the
    // index of the offending triple identifies the pair.
    let mut bounds_hold: Vec<(bool, bool, bool)> = Vec::new();
    for a in sequences {
        for b in sequences {
            let real = float(ratio(a, b));
            let quick = float(quick_ratio(a, b));
            let real_quick = float(real_quick_ratio(a.len(), b.len()));
            bounds_hold.push((
                quick >= real - 1e-12,
                real_quick >= real - 1e-12,
                real_quick >= quick - 1e-12,
            ));
        }
    }
    assert_eq!(bounds_hold.len(), sequences.len() * sequences.len());
    assert_eq!(bounds_hold, vec![(true, true, true); bounds_hold.len()]);
}

// --------------------------------------------------------- matching_blocks

#[test]
fn matching_blocks_reports_position_in_both_sequences() {
    let blocks = matching_blocks(&[9, 9, 1, 2], &[1, 2, 8]);
    assert_eq!(blocks, vec![Match { a: 2, b: 0, size: 2 }]);
}

#[test]
fn matching_blocks_reports_a_fully_shared_sequence_as_one_run() {
    let blocks = matching_blocks(&[1, 2, 3, 4], &[1, 2, 3, 4]);
    assert_eq!(blocks, vec![Match { a: 0, b: 0, size: 4 }]);
}

#[test]
fn matching_blocks_never_returns_runs_that_abut_in_both() {
    // Pins the argument in `Matcher::matching_blocks`' docs, which is what
    // licenses the absence of a merge pass. If this ever fails, the merge
    // pass has to come back -- `ratio` would still be right, but callers
    // reading blocks would see one run reported as two.
    let sequences: &[&[u32]] = &[
        &[1, 2, 3, 4, 5, 6],
        &[1, 2, 9, 3, 4],
        &[1, 1, 2, 2, 1, 1],
        &[4, 5, 1, 2, 3],
        &[1, 2, 3, 1, 2, 3, 1],
        &[7, 7, 7, 7],
    ];
    let mut abuts_in_both: Vec<bool> = Vec::new();
    for a in sequences {
        for b in sequences {
            for pair in matching_blocks(a, b).windows(2) {
                let (l, r) = (pair[0], pair[1]);
                abuts_in_both.push(l.a + l.size == r.a && l.b + l.size == r.b);
            }
        }
    }
    // Guards against a vacuous pass: the corpus must actually produce
    // multi-block results for the property to mean anything.
    assert!(!abuts_in_both.is_empty());
    assert_eq!(abuts_in_both, vec![false; abuts_in_both.len()]);
}

#[test]
fn matching_blocks_keeps_runs_that_abut_in_only_one_sequence_separate() {
    let blocks = matching_blocks(&[1, 2, 3], &[1, 9, 2, 3]);
    assert_eq!(blocks, vec![Match { a: 0, b: 0, size: 1 }, Match { a: 1, b: 2, size: 2 }]);
}

#[test]
fn matching_blocks_is_empty_when_nothing_matches() {
    assert!(matching_blocks(&[1], &[2]).is_empty());
}

#[test]
fn matching_blocks_recurses_into_both_sides_of_the_longest_run() {
    // `5,6,7` is longest; `1` lies left of it and `9` right, so both
    // recursive branches must fire.
    let blocks = matching_blocks(&[1, 4, 5, 6, 7, 8, 9], &[1, 3, 5, 6, 7, 2, 9]);
    assert_eq!(
        blocks,
        vec![Match { a: 0, b: 0, size: 1 }, Match { a: 2, b: 2, size: 3 }, Match { a: 6, b: 6, size: 1 },]
    );
}

/// Blocks, moved by `a` and `b`.
fn moved(blocks: Vec<Match>, a: usize, b: usize) -> Vec<Match> {
    blocks.into_iter().map(|m| Match { a: m.a + a, b: m.b + b, size: m.size }).collect()
}

#[test]
fn the_blocks_around_the_longest_run_are_those_of_what_lies_on_either_side() {
    let sequences: &[(&[u32], &[u32])] = &[
        (&[1, 4, 5, 6, 7, 8, 9], &[1, 3, 5, 6, 7, 2, 9]),
        (&[1, 2, 9, 1, 2, 3, 4, 1, 2], &[1, 2, 3, 9, 1, 2]),
        (&[3, 1, 1, 2, 2, 1], &[1, 1, 2, 3, 2, 1, 3]),
    ];
    for &(a, b) in sequences {
        let blocks = matching_blocks(a, b);
        let size = blocks.iter().map(|m| m.size).max().expect("something matches");
        // The first of the longest runs, in the order of `a` and then of `b`.
        let longest = *blocks.iter().find(|m| m.size == size).unwrap();
        let (i, j, k) = (longest.a, longest.b, longest.size);
        let mut around = matching_blocks(&a[..i], &b[..j]);
        around.push(longest);
        around.extend(moved(matching_blocks(&a[i + k..], &b[j + k..]), i + k, j + k));
        assert_eq!(blocks, around);
    }
}

#[test]
fn matching_blocks_ties_resolve_to_the_earliest_run() {
    let blocks = matching_blocks(&[1, 2, 9, 1, 2], &[1, 2]);
    assert_eq!(blocks, vec![Match { a: 0, b: 0, size: 2 }]);
}

#[test]
fn match_is_copyable_and_debuggable() {
    let m = Match { a: 1, b: 2, size: 3 };
    let copy = m;
    assert_eq!(m, copy);
    assert!(format!("{m:?}").contains("size"));
}

// ----------------------------------------------------------------- Matcher

#[test]
fn matcher_exposes_the_indexed_sequence() {
    let b = [1u32, 2];
    assert_eq!(Matcher::new(&b).b(), &b);
}

#[test]
fn matcher_reuse_gives_the_same_answers_as_the_free_functions() {
    let b = [1u32, 2, 3, 2, 1];
    let m = Matcher::new(&b);
    for a in [&[1u32, 2, 3][..], &[3, 2, 1][..], &[9][..], &[][..]] {
        assert_eq!(float(m.ratio(a)), float(ratio(a, &b)));
        assert_eq!(float(m.quick_ratio(a)), float(quick_ratio(a, &b)));
        assert_eq!(float(m.real_quick_ratio(a)), float(real_quick_ratio(a.len(), b.len())));
        assert_eq!(m.matching_blocks(a), matching_blocks(a, &b));
    }
}

#[test]
fn matcher_scratch_is_correct_when_reused_across_many_comparisons() {
    // Row buffers are reused across recursion steps and across calls; a
    // stale entry would inflate a later run's length. Compare a batch
    // against the reference to prove no leakage between calls.
    let b = [1u32, 2, 3, 1, 2, 3, 1];
    let m = Matcher::new(&b);
    let cases: &[&[u32]] =
        &[&[1, 2, 3, 1, 2, 3, 1], &[3, 1, 2], &[1, 1, 1, 1], &[2, 3, 1, 2], &[9, 9, 9]];
    let reused: Vec<f64> = cases.iter().map(|a| round12(float(m.ratio(a)))).collect();
    let expected: Vec<f64> = cases.iter().map(|a| round12(reference_ratio(a, &b))).collect();
    assert_eq!(reused, expected);
}

#[test]
fn matcher_skips_occurrences_outside_the_current_window() {
    // Forces both the `j < b_lo` continue and the `j >= b_hi` break inside
    // find_longest_match: token 1 occurs at both ends of `b`, while the
    // recursion narrows the window to the middle.
    let a = [1u32, 5, 6, 7, 1];
    let b = [1u32, 8, 5, 6, 7, 8, 1];
    assert!((float(ratio(&a, &b)) - reference_ratio(&a, &b)).abs() < 1e-12);
}
