//! Reports: identities, order, and what is refused.

use dupdelta::ratio::Ratio;
use dupdelta::report::{
    BlockPair, BlockRef, ClonePair, Report, ReportError, UnitRef, VocabPair, REPORT_VERSION,
};
use dupdelta::token::ContentHash;

/// A score as a float.
fn float(score: Ratio) -> f64 {
    score.num as f64 / score.den as f64
}

/// A float as a score.
fn score(value: f64) -> Ratio {
    Ratio::from_decimal(&format!("{value}")).expect("a number of at least zero")
}

// -------------------------------------------------------------- fixtures

fn unit(file: &str, name: &str, token: &str) -> UnitRef {
    UnitRef {
        file: file.to_string(),
        qualname: name.to_string(),
        start_line: 1,
        end_line: 9,
        hash: ContentHash::of(&[token]),
    }
}

fn clone_pair(similarity: f64, a: &str, b: &str) -> ClonePair {
    ClonePair { similarity: score(similarity), a: unit("a.py", a, a), b: unit("b.py", b, b) }
}

fn vocab_pair(a: &str, b: &str, overlap: f64) -> VocabPair {
    VocabPair {
        a: a.to_string(),
        b: b.to_string(),
        overlap: score(overlap),
        shared: 12,
        a_vocabulary: 40,
        b_vocabulary: 30,
        a_inbound_imports: 0,
        b_inbound_imports: 3,
        zero_inbound: true,
        sample_shared: vec!["rate".to_string()],
    }
}

fn block_pair(file_a: &str, file_b: &str, tokens: usize) -> BlockPair {
    BlockPair {
        a: BlockRef { file: file_a.to_string(), start_line: 3, end_line: 9 },
        b: BlockRef { file: file_b.to_string(), start_line: 40, end_line: 46 },
        tokens,
        hash: ContentHash::of(&["fragment"]),
    }
}

// -------------------------------------------------------- pair identities

#[test]
fn a_clone_pair_has_the_same_key_whichever_side_is_listed_first() {
    // Swapping the sides between two scans must not make an unchanged pair
    // look new.
    let forward = clone_pair(0.9, "x", "y");
    let reversed = ClonePair { similarity: score(0.9), a: forward.b.clone(), b: forward.a.clone() };
    assert_eq!(forward.key(), reversed.key());
}

#[test]
fn clone_pair_keys_distinguish_different_content() {
    assert_ne!(clone_pair(0.9, "x", "y").key(), clone_pair(0.9, "x", "z").key());
}

#[test]
fn a_vocab_pair_has_the_same_key_whichever_side_is_listed_first() {
    assert_eq!(vocab_pair("a.py", "b.py", 0.4).key(), vocab_pair("b.py", "a.py", 0.4).key());
}

#[test]
fn a_block_pair_key_combines_the_fragment_with_both_files() {
    let forward = block_pair("a.py", "b.py", 50);
    assert_eq!(forward.key(), block_pair("b.py", "a.py", 50).key());
    // The same fragment in a different pair of files is a different finding.
    assert_ne!(forward.key(), block_pair("a.py", "c.py", 50).key());
}

// ----------------------------------------------------------------- sorting

#[test]
fn clones_sort_by_descending_similarity() {
    let mut report = Report {
        clones: vec![clone_pair(0.86, "a", "b"), clone_pair(0.99, "c", "d"), clone_pair(0.9, "e", "f")],
        ..Report::default()
    };
    report.sort();
    assert_eq!(report.clones.iter().map(|c| float(c.similarity)).collect::<Vec<_>>(), vec![0.99, 0.9, 0.86]);
}

#[test]
fn vocab_pairs_sort_by_descending_overlap() {
    let mut report =
        Report { vocab: vec![vocab_pair("a", "b", 0.3), vocab_pair("c", "d", 0.7)], ..Report::default() };
    report.sort();
    assert_eq!(report.vocab.iter().map(|v| float(v.overlap)).collect::<Vec<_>>(), vec![0.7, 0.3]);
}

#[test]
fn blocks_sort_by_descending_token_count() {
    let mut report =
        Report { blocks: vec![block_pair("a", "b", 30), block_pair("c", "d", 90)], ..Report::default() };
    report.sort();
    assert_eq!(report.blocks.iter().map(|b| b.tokens).collect::<Vec<_>>(), vec![90, 30]);
}

#[test]
fn equal_scores_break_their_tie_deterministically() {
    // Two scans of identical trees must produce byte-identical reports.
    let build = || Report {
        clones: vec![clone_pair(0.9, "z", "y"), clone_pair(0.9, "a", "b")],
        blocks: vec![block_pair("m", "n", 10), block_pair("c", "d", 10)],
        ..Report::default()
    };
    let mut first = build();
    let mut second = build();
    second.clones.reverse();
    second.blocks.reverse();
    first.sort();
    second.sort();
    assert_eq!(first, second);
}

#[test]
fn sorting_deduplicates_and_orders_the_syntax_error_list() {
    let mut report = Report {
        files_with_syntax_errors: vec!["z.py".into(), "a.py".into(), "z.py".into()],
        ..Report::default()
    };
    report.sort();
    assert_eq!(report.files_with_syntax_errors, vec!["a.py".to_string(), "z.py".to_string()]);
}

// ------------------------------------------------------------- accounting

#[test]
fn finding_count_totals_all_three_detectors() {
    let report = Report {
        clones: vec![clone_pair(0.9, "a", "b")],
        vocab: vec![vocab_pair("a", "b", 0.4), vocab_pair("c", "d", 0.4)],
        blocks: vec![block_pair("a", "b", 50)],
        ..Report::default()
    };
    assert_eq!(report.finding_count(), 4);
}

#[test]
fn an_empty_report_declares_the_current_version_and_no_findings() {
    let report = Report::default();
    assert_eq!((report.version, report.finding_count()), (REPORT_VERSION, 0));
}

// ----------------------------------------------------- refusing bad input

#[test]
fn a_report_from_an_unknown_format_version_is_refused() {
    // Reading it optimistically would produce a silently wrong delta.
    let newer = Report { version: REPORT_VERSION + 1, ..Report::default() };
    let error = Report::accept(Ok(newer), None).unwrap_err();
    assert!(matches!(error, ReportError::UnsupportedVersion { .. }));
    assert!(error.to_string().contains(&(REPORT_VERSION + 1).to_string()));
}

#[test]
fn malformed_json_is_refused_and_names_the_file_when_there_is_one() {
    let cause = || Err("key must be a string".to_string());
    let from_file = Report::accept(cause(), Some("bad.json".to_string())).unwrap_err().to_string();
    let from_text = Report::accept(cause(), None).unwrap_err().to_string();
    assert!(from_file.contains("bad.json"));
    assert!(!from_text.contains("bad.json"));
    assert!(from_text.contains("malformed report"));
    assert!(from_text.contains("key must be a string"));
}

#[test]
fn reading_a_missing_report_names_the_path() {
    let error = ReportError::Io {
        path: "/nonexistent/dupdelta/report.json".to_string(),
        source: "No such file".to_string(),
    };
    assert_eq!(
        error.to_string(),
        "could not access report /nonexistent/dupdelta/report.json: No such file"
    );
}

#[test]
fn a_report_of_this_version_is_accepted_as_it_is() {
    let report = Report { files_scanned: 3, ..Report::default() };
    assert_eq!(Report::accept(Ok(report.clone()), None).unwrap(), report);
}

// --------------------------------------------------------------- plumbing

#[test]
fn report_types_clone_compare_and_debug() {
    let report = Report {
        clones: vec![clone_pair(0.9, "a", "b")],
        vocab: vec![vocab_pair("a", "b", 0.3)],
        blocks: vec![block_pair("a", "b", 20)],
        ..Report::default()
    };
    assert_eq!(report.clone(), report);
    assert!(format!("{report:?}").contains("Report"));
    assert!(format!("{:?}", report.clones[0]).contains("similarity"));
    assert!(format!("{:?}", report.vocab[0]).contains("overlap"));
    assert!(format!("{:?}", report.blocks[0]).contains("tokens"));
    assert!(format!("{:?}", report.clones[0].a).contains("qualname"));
    assert!(format!("{:?}", report.blocks[0].a).contains("start_line"));
}
