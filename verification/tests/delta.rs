//! What a change introduced.

use dupdelta::delta::{Delta, DeltaOptions, VocabChange, VocabFinding};
use dupdelta::ratio::Ratio;
use dupdelta::report::{BlockPair, BlockRef, ClonePair, Report, UnitRef, VocabPair};
use dupdelta::token::ContentHash;

/// A score as a float.
fn float(score: Ratio) -> f64 {
    score.num as f64 / score.den as f64
}

/// A float as a score.
fn score(value: f64) -> Ratio {
    Ratio::from_decimal(&format!("{value}")).expect("a number of at least zero")
}

// -------------------------------------------------------------- fixtures

fn unit(file: &str, qualname: &str, token: &str, start_line: usize, end_line: usize) -> UnitRef {
    UnitRef {
        file: file.to_string(),
        qualname: qualname.to_string(),
        start_line,
        end_line,
        hash: ContentHash::of(&[token]),
    }
}

fn clone_pair(similarity: f64, a: UnitRef, b: UnitRef) -> ClonePair {
    ClonePair { similarity: score(similarity), a, b }
}

fn vocab_pair(a: &str, b: &str, overlap: f64, zero_inbound: bool) -> VocabPair {
    VocabPair {
        a: a.to_string(),
        b: b.to_string(),
        overlap: score(overlap),
        shared: 12,
        a_vocabulary: 40,
        b_vocabulary: 30,
        a_inbound_imports: if zero_inbound { 0 } else { 3 },
        b_inbound_imports: 3,
        zero_inbound,
        sample_shared: vec!["rate".to_string()],
    }
}

fn block_ref(file: &str, start_line: usize, end_line: usize) -> BlockRef {
    BlockRef { file: file.to_string(), start_line, end_line }
}

fn block_pair(token: &str, tokens: usize, a: BlockRef, b: BlockRef) -> BlockPair {
    BlockPair { a, b, tokens, hash: ContentHash::of(&[token]) }
}

fn options() -> DeltaOptions {
    DeltaOptions { min_similarity: score(0.0), worsened_delta: score(0.05), max_findings: None }
}

fn report(clones: Vec<ClonePair>, vocab: Vec<VocabPair>, blocks: Vec<BlockPair>) -> Report {
    Report { clones, vocab, blocks, ..Report::default() }
}

// ------------------------------------------------------------ clones

#[test]
fn a_clone_pair_absent_from_base_is_new() {
    let head = report(
        vec![clone_pair(0.9, unit("a.py", "f", "f", 1, 5), unit("b.py", "g", "g", 1, 5))],
        vec![],
        vec![],
    );
    let base = Report::default();
    let delta = Delta::compute(&head, &base, &options());
    assert_eq!(delta.new_clones.len(), 1);
}

#[test]
fn a_clone_pair_that_moved_files_and_lines_stays_silent() {
    // Same content hashes, different files and line numbers: this is
    // exactly what content-hash identity is for.
    let base_pair = clone_pair(0.9, unit("old_a.py", "f", "f", 1, 5), unit("old_b.py", "g", "g", 10, 20));
    let head_pair = clone_pair(
        0.9,
        unit("new_a.py", "f_renamed", "f", 100, 104),
        unit("new_b.py", "g_renamed", "g", 200, 210),
    );
    let head = report(vec![head_pair], vec![], vec![]);
    let base = report(vec![base_pair], vec![], vec![]);
    let delta = Delta::compute(&head, &base, &options());
    assert!(delta.new_clones.is_empty());
}

#[test]
fn a_clone_pair_below_min_similarity_is_not_reported_even_when_new() {
    let head = report(
        vec![clone_pair(0.5, unit("a.py", "f", "f", 1, 5), unit("b.py", "g", "g", 1, 5))],
        vec![],
        vec![],
    );
    let base = Report::default();
    let opts = DeltaOptions { min_similarity: score(0.8), ..options() };
    let delta = Delta::compute(&head, &base, &opts);
    assert!(delta.new_clones.is_empty());
}

#[test]
fn a_clone_pair_at_exactly_min_similarity_is_reported() {
    let head = report(
        vec![clone_pair(0.8, unit("a.py", "f", "f", 1, 5), unit("b.py", "g", "g", 1, 5))],
        vec![],
        vec![],
    );
    let base = Report::default();
    let opts = DeltaOptions { min_similarity: score(0.8), ..options() };
    let delta = Delta::compute(&head, &base, &opts);
    assert_eq!(delta.new_clones.len(), 1);
}

// ---------------------------------------------------------- vocab

#[test]
fn a_vocab_pair_absent_from_base_is_new() {
    let head = report(vec![], vec![vocab_pair("a.py", "b.py", 0.4, false)], vec![]);
    let base = Report::default();
    let delta = Delta::compute(&head, &base, &options());
    assert_eq!(
        delta.vocab,
        vec![VocabFinding { change: VocabChange::New, pair: vocab_pair("a.py", "b.py", 0.4, false) }]
    );
}

#[test]
fn a_vocab_pair_that_lost_its_last_importer_became_unreferenced() {
    let base_pair = vocab_pair("a.py", "b.py", 0.4, false);
    let head_pair = vocab_pair("a.py", "b.py", 0.4, true);
    let head = report(vec![], vec![head_pair.clone()], vec![]);
    let base = report(vec![], vec![base_pair], vec![]);
    let delta = Delta::compute(&head, &base, &options());
    assert_eq!(
        delta.vocab,
        vec![VocabFinding { change: VocabChange::BecameUnreferenced, pair: head_pair }]
    );
}

#[test]
fn a_vocab_pair_that_was_already_unreferenced_is_not_reported_again() {
    let base_pair = vocab_pair("a.py", "b.py", 0.4, true);
    let head_pair = vocab_pair("a.py", "b.py", 0.4, true);
    let head = report(vec![], vec![head_pair], vec![]);
    let base = report(vec![], vec![base_pair], vec![]);
    let delta = Delta::compute(&head, &base, &options());
    assert!(delta.vocab.is_empty());
}

#[test]
fn a_vocab_overlap_growth_of_exactly_worsened_delta_is_noise() {
    let base_pair = vocab_pair("a.py", "b.py", 0.40, false);
    let head_pair = vocab_pair("a.py", "b.py", 0.45, false); // +0.05, equals worsened_delta
    let head = report(vec![], vec![head_pair], vec![]);
    let base = report(vec![], vec![base_pair], vec![]);
    let delta = Delta::compute(&head, &base, &options());
    assert!(delta.vocab.is_empty());
}

#[test]
fn a_vocab_overlap_growth_beyond_worsened_delta_is_worsened() {
    let base_pair = vocab_pair("a.py", "b.py", 0.40, false);
    let head_pair = vocab_pair("a.py", "b.py", 0.46, false); // +0.06 > worsened_delta
    let head = report(vec![], vec![head_pair.clone()], vec![]);
    let base = report(vec![], vec![base_pair], vec![]);
    let delta = Delta::compute(&head, &base, &options());
    assert_eq!(
        delta.vocab,
        vec![VocabFinding { change: VocabChange::Worsened { from: score(0.40), to: score(0.46) }, pair: head_pair }]
    );
}

#[test]
fn an_unchanged_vocab_pair_is_silent() {
    let pair = vocab_pair("a.py", "b.py", 0.4, false);
    let head = report(vec![], vec![pair.clone()], vec![]);
    let base = report(vec![], vec![pair], vec![]);
    let delta = Delta::compute(&head, &base, &options());
    assert!(delta.vocab.is_empty());
}

// ---------------------------------------------------------- blocks

#[test]
fn a_block_pair_absent_from_base_is_new() {
    let head = report(
        vec![],
        vec![],
        vec![block_pair("frag", 50, block_ref("a.py", 1, 5), block_ref("b.py", 10, 14))],
    );
    let base = Report::default();
    let delta = Delta::compute(&head, &base, &options());
    assert_eq!(delta.new_blocks.len(), 1);
}

#[test]
fn a_block_pair_that_moved_lines_stays_silent() {
    let base_pair = block_pair("frag", 50, block_ref("a.py", 1, 5), block_ref("b.py", 10, 14));
    let head_pair = block_pair("frag", 50, block_ref("a.py", 100, 104), block_ref("b.py", 200, 204));
    let head = report(vec![], vec![], vec![head_pair]);
    let base = report(vec![], vec![], vec![base_pair]);
    let delta = Delta::compute(&head, &base, &options());
    assert!(delta.new_blocks.is_empty());
}

#[test]
fn a_block_pair_that_moved_to_another_file_stays_silent() {
    let of = |file: &str| block_pair("frag", 50, block_ref("a.py", 1, 5), block_ref(file, 10, 14));
    let base = report(vec![], vec![], vec![of("b.py")]);
    let head = report(vec![], vec![], vec![of("c.py")]);
    assert_ne!(head.blocks[0].key(), base.blocks[0].key());
    let delta = Delta::compute(&head, &base, &options());
    assert!(delta.new_blocks.is_empty());
    // Both files moved, and the sides changed places.
    let moved = block_pair("frag", 50, block_ref("z.py", 3, 7), block_ref("y.py", 1, 5));
    let head = report(vec![], vec![], vec![moved]);
    assert!(Delta::compute(&head, &base, &options()).new_blocks.is_empty());
}

#[test]
fn another_fragment_between_the_same_files_is_new() {
    let of = |token: &str| block_pair(token, 50, block_ref("a.py", 1, 5), block_ref("b.py", 10, 14));
    let base = report(vec![], vec![], vec![of("frag")]);
    let head = report(vec![], vec![], vec![of("frag"), of("other")]);
    let delta = Delta::compute(&head, &base, &options());
    assert_eq!(delta.new_blocks, vec![of("other")]);
}

// ------------------------------------------------------------ cap

fn three_clones() -> Vec<ClonePair> {
    vec![
        clone_pair(0.99, unit("a.py", "f1", "f1", 1, 5), unit("b.py", "g1", "g1", 1, 5)),
        clone_pair(0.95, unit("a.py", "f2", "f2", 1, 5), unit("b.py", "g2", "g2", 1, 5)),
        clone_pair(0.90, unit("a.py", "f3", "f3", 1, 5), unit("b.py", "g3", "g3", 1, 5)),
    ]
}

#[test]
fn max_findings_none_reports_everything() {
    let head = report(three_clones(), vec![], vec![]);
    let delta =
        Delta::compute(&head, &Report::default(), &DeltaOptions { max_findings: None, ..options() });
    assert_eq!(delta.new_clones.len(), 3);
}

#[test]
fn max_findings_some_zero_reports_nothing() {
    let head = report(three_clones(), vec![], vec![]);
    let delta =
        Delta::compute(&head, &Report::default(), &DeltaOptions { max_findings: Some(0), ..options() });
    assert!(delta.new_clones.is_empty());
}

#[test]
fn max_findings_truncation_keeps_the_strongest_findings() {
    // Deliberately unsorted input: compute() must sort before truncating.
    let mut clones = three_clones();
    clones.reverse();
    let head = report(clones, vec![], vec![]);
    let delta =
        Delta::compute(&head, &Report::default(), &DeltaOptions { max_findings: Some(2), ..options() });
    let similarities: Vec<f64> = delta.new_clones.iter().map(|c| float(c.similarity)).collect();
    assert_eq!(similarities, vec![0.99, 0.95]);
}

// -------------------------------------------------------------- empty

#[test]
fn identical_reports_produce_an_empty_delta() {
    let head = report(
        three_clones(),
        vec![vocab_pair("a.py", "b.py", 0.4, false)],
        vec![block_pair("frag", 50, block_ref("a.py", 1, 5), block_ref("b.py", 10, 14))],
    );
    let base = head.clone();
    let delta = Delta::compute(&head, &base, &options());
    assert!(delta.is_empty());
    assert_eq!(delta.finding_count(), 0);
}

#[test]
fn an_empty_deltas_summary_says_so_in_words() {
    let delta = Delta::compute(&Report::default(), &Report::default(), &options());
    assert!(delta.summary().render().contains("No new duplication vs the merge-base."));
}

// ------------------------------------------------------- removals

#[test]
fn a_finding_present_only_in_base_is_not_reported() {
    let head = Report::default();
    let base = report(
        three_clones(),
        vec![vocab_pair("a.py", "b.py", 0.4, false)],
        vec![block_pair("frag", 50, block_ref("a.py", 1, 5), block_ref("b.py", 10, 14))],
    );
    let delta = Delta::compute(&head, &base, &options());
    assert!(delta.is_empty());
}

// ----------------------------------------------------------- annotate

#[test]
fn a_new_clone_pair_annotates_both_sides_with_similarity_and_the_other_location() {
    let pair = clone_pair(0.87, unit("a.py", "f", "f", 3, 9), unit("b.py", "g", "g", 40, 46));
    let delta = Delta { new_clones: vec![pair], vocab: vec![], new_blocks: vec![] };
    let annotations = delta.annotations();
    assert_eq!(annotations.len(), 2);
    assert_eq!(annotations[0].file, "a.py");
    assert_eq!(annotations[0].start_line, Some(3));
    assert!(annotations[0].message.contains("87%"));
    assert!(annotations[0].message.contains("b.py:40-46"));
    assert_eq!(annotations[1].file, "b.py");
    assert_eq!(annotations[1].start_line, Some(40));
    assert!(annotations[1].message.contains("a.py:3-9"));
}

#[test]
fn a_new_block_pair_annotates_both_sides_with_token_count_and_the_other_location() {
    let pair = block_pair("frag", 64, block_ref("a.py", 3, 9), block_ref("b.py", 40, 46));
    let delta = Delta { new_clones: vec![], vocab: vec![], new_blocks: vec![pair] };
    let annotations = delta.annotations();
    assert_eq!(annotations.len(), 2);
    assert_eq!(annotations[0].file, "a.py");
    assert!(annotations[0].message.contains("64 normalized tokens"));
    assert!(annotations[0].message.contains("b.py:40-46"));
    assert_eq!(annotations[1].file, "b.py");
    assert!(annotations[1].message.contains("a.py:3-9"));
}

#[test]
fn a_vocab_finding_annotates_the_a_side_with_the_b_files_location() {
    let finding =
        VocabFinding { change: VocabChange::New, pair: vocab_pair("a.py", "b.py", 0.42, false) };
    let delta = Delta { new_clones: vec![], vocab: vec![finding], new_blocks: vec![] };
    let annotations = delta.annotations();
    assert_eq!(annotations.len(), 1);
    assert_eq!(annotations[0].file, "a.py");
    assert_eq!(annotations[0].start_line, None);
    assert!(annotations[0].message.contains("b.py"));
    assert!(annotations[0].message.contains("42%"));
}

#[test]
fn vocab_annotation_messages_differ_by_change_reason() {
    let unreferenced = VocabFinding {
        change: VocabChange::BecameUnreferenced,
        pair: vocab_pair("a.py", "b.py", 0.5, true),
    };
    let worsened = VocabFinding {
        change: VocabChange::Worsened { from: score(0.3), to: score(0.5) },
        pair: vocab_pair("a.py", "b.py", 0.5, false),
    };
    let delta = Delta { new_clones: vec![], vocab: vec![unreferenced, worsened], new_blocks: vec![] };
    let annotations = delta.annotations();
    assert!(annotations[0].message.contains("inbound imports"));
    assert!(annotations[1].message.contains("30%"));
    assert!(annotations[1].message.contains("50%"));
}

#[test]
fn annotations_are_empty_when_the_delta_is_empty() {
    assert!(Delta::default().annotations().is_empty());
}

// ------------------------------------------------------------- summary

#[test]
fn summary_renders_a_table_per_non_empty_category_and_omits_empty_ones() {
    let delta = Delta {
        new_clones: vec![clone_pair(0.9, unit("a.py", "f", "f", 1, 5), unit("b.py", "g", "g", 1, 5))],
        vocab: vec![],
        new_blocks: vec![],
    };
    let rendered = delta.summary().render();
    assert!(rendered.contains("New clone pairs"));
    assert!(!rendered.contains("Vocabulary findings"));
    assert!(!rendered.contains("New duplicated blocks"));
}

#[test]
fn summary_advises_extracting_or_leaving_the_duplication_and_blocks_nothing() {
    let delta = Delta {
        new_clones: vec![clone_pair(0.9, unit("a.py", "f", "f", 1, 5), unit("b.py", "g", "g", 1, 5))],
        vocab: vec![],
        new_blocks: vec![],
    };
    let rendered = delta.summary().render();
    assert!(rendered.contains("extract"));
    assert!(rendered.contains("leave it"));
}

#[test]
fn summary_vocab_table_labels_became_unreferenced_and_worsened_reasons() {
    let delta = Delta {
        new_clones: vec![],
        vocab: vec![
            VocabFinding {
                change: VocabChange::BecameUnreferenced,
                pair: vocab_pair("a.py", "b.py", 0.5, true),
            },
            VocabFinding {
                change: VocabChange::Worsened { from: score(0.3), to: score(0.5) },
                pair: vocab_pair("c.py", "d.py", 0.5, false),
            },
        ],
        new_blocks: vec![],
    };
    let rendered = delta.summary().render();
    assert!(!rendered.contains("New clone pairs"));
    assert!(rendered.contains("became unreferenced"));
    assert!(rendered.contains("worsened"));
}

#[test]
fn summary_with_all_three_categories_renders_all_three_tables() {
    let delta = Delta {
        new_clones: vec![clone_pair(0.9, unit("a.py", "f", "f", 1, 5), unit("b.py", "g", "g", 1, 5))],
        vocab: vec![VocabFinding {
            change: VocabChange::New,
            pair: vocab_pair("a.py", "b.py", 0.4, false),
        }],
        new_blocks: vec![block_pair("frag", 50, block_ref("a.py", 1, 5), block_ref("b.py", 10, 14))],
    };
    let rendered = delta.summary().render();
    assert!(rendered.contains("New clone pairs"));
    assert!(rendered.contains("Vocabulary findings"));
    assert!(rendered.contains("New duplicated blocks"));
}

// ------------------------------------------------------------------ plumbing

#[test]
fn finding_count_totals_all_three_categories() {
    let delta = Delta {
        new_clones: vec![clone_pair(0.9, unit("a.py", "f", "f", 1, 5), unit("b.py", "g", "g", 1, 5))],
        vocab: vec![VocabFinding {
            change: VocabChange::New,
            pair: vocab_pair("a.py", "b.py", 0.4, false),
        }],
        new_blocks: vec![block_pair("frag", 50, block_ref("a.py", 1, 5), block_ref("b.py", 10, 14))],
    };
    assert_eq!(delta.finding_count(), 3);
}

#[test]
fn delta_and_vocab_types_clone_compare_and_debug() {
    let delta = Delta {
        new_clones: vec![],
        vocab: vec![VocabFinding {
            change: VocabChange::Worsened { from: score(0.1), to: score(0.2) },
            pair: vocab_pair("a.py", "b.py", 0.2, false),
        }],
        new_blocks: vec![],
    };
    assert_eq!(delta.clone(), delta);
    assert!(format!("{delta:?}").contains("Delta"));
    assert!(format!("{:?}", delta.vocab[0].change).contains("Worsened"));
    assert_eq!(VocabChange::New, VocabChange::New);
    assert_ne!(VocabChange::New, VocabChange::BecameUnreferenced);
}

#[test]
fn a_default_delta_is_empty() {
    assert!(Delta::default().is_empty());
}

#[test]
fn delta_options_are_cloneable_and_debuggable() {
    let opts = options();
    let cloned = opts.clone();
    assert!(format!("{cloned:?}").contains("min_similarity"));
}
