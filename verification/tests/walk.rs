//! Which files a scan looks at.

use dupdelta::path::{join, strip_prefix};
use dupdelta::walk::{discover, discover_supported, excluded, within_limit, RootState, Step, WalkError, WalkOptions};

fn options(roots: Vec<String>) -> WalkOptions {
    WalkOptions { roots, ..WalkOptions::default() }
}

fn py_files(path: &str) -> bool {
    path.ends_with(".py")
}

fn file(path: &str) -> Step {
    Step::Met { path: path.to_string(), is_file: true, bytes: None }
}

fn sized(path: &str, bytes: u64) -> Step {
    Step::Met { path: path.to_string(), is_file: true, bytes: Some(bytes) }
}

fn directory(path: &str) -> Step {
    Step::Met { path: path.to_string(), is_file: false, bytes: None }
}

// ------------------------------------------------------------------ defaults

#[test]
fn default_options_respect_gitignore_and_do_not_follow_symlinks() {
    let opts = WalkOptions::default();
    assert!(format!("{opts:?}").contains("respect_gitignore: true"));
    assert!(opts.respect_gitignore);
    assert!(!opts.follow_symlinks);
    assert_eq!(opts.max_file_bytes, None);
    assert!(opts.roots.is_empty());
    assert!(opts.excludes.is_empty());
}

// -------------------------------------------------------------- missing root

#[test]
fn a_root_that_does_not_exist_is_an_error_not_an_empty_result() {
    let missing = "/tree/does-not-exist".to_string();
    let result = discover(&options(vec![missing.clone()]), &[RootState::Missing], py_files);
    let is_missing_root = matches!(result, Err(WalkError::MissingRoot(p)) if p == missing);
    assert!(is_missing_root);
}

#[test]
fn a_root_that_cannot_be_read_is_an_io_error() {
    let steps = vec![Step::Failed { path: Some("/tree".to_string()), source: "denied".to_string() }];
    let result = discover(&options(vec!["/tree".to_string()]), &[RootState::Directory(steps)], py_files);
    let is_io_error = matches!(result, Err(WalkError::Io { .. }));
    assert!(is_io_error);
}

#[test]
fn a_root_whose_own_existence_check_is_denied_is_an_io_error() {
    let states = [RootState::Denied("denied".to_string())];
    let result = discover(&options(vec!["/locked/child".to_string()]), &states, py_files);
    let is_io_error = matches!(result, Err(WalkError::Io { path, source }) if path == "/locked/child" && source == "denied");
    assert!(is_io_error);
}

#[test]
fn a_failure_without_a_path_of_its_own_is_put_down_to_the_root() {
    let steps = vec![file("/tree/a.py"), Step::Failed { path: None, source: "loop".to_string() }, file("/tree/b.py")];
    let result = discover(&options(vec!["/tree".to_string()]), &[RootState::Directory(steps)], py_files);
    let is_io_error = matches!(result, Err(WalkError::Io { path, source }) if path == "/tree" && source == "loop");
    assert!(is_io_error);
}

#[test]
fn the_first_failure_is_the_one_reported() {
    let roots = vec!["/a".to_string(), "/b".to_string(), "/c".to_string()];
    let states = [RootState::File(3), RootState::Missing, RootState::Denied("denied".to_string())];
    let result = discover(&options(roots), &states, py_files);
    assert!(matches!(result, Err(WalkError::MissingRoot(p)) if p == "/b"));
}

// ------------------------------------------------------------------ file root

#[test]
fn a_file_root_is_included_directly_without_being_walked() {
    let root = "/tree/solo.py".to_string();
    let files = discover(&options(vec![root.clone()]), &[RootState::File(6)], py_files).unwrap();
    assert_eq!(files, vec![root]);
}

#[test]
fn a_file_root_rejected_by_accept_yields_no_files() {
    let files = discover(&options(vec!["/tree/solo.txt".to_string()]), &[RootState::File(11)], py_files).unwrap();
    assert!(files.is_empty());
}

// --------------------------------------------------- sorted / deduplicated

#[test]
fn overlapping_roots_yield_each_file_once_sorted() {
    let roots = vec!["/tree".to_string(), "/tree/pkg".to_string()];
    let states = [
        RootState::Directory(vec![directory("/tree/pkg"), file("/tree/pkg/b.py"), file("/tree/pkg/a.py")]),
        RootState::Directory(vec![file("/tree/pkg/a.py"), file("/tree/pkg//b.py")]),
    ];
    let files = discover(&options(roots), &states, py_files).unwrap();
    assert_eq!(files, vec!["/tree/pkg/a.py".to_string(), "/tree/pkg/b.py".to_string()]);
}

#[test]
fn files_are_ordered_by_their_components() {
    // A directory's files stand before a file whose name its name begins,
    // though a dot comes before a slash.
    let steps = vec![file("t/a.py"), file("t/a/z.py"), file("../x.py"), file("t/B.py"), file("/abs.py"), file("./c.py")];
    let files = discover(&options(vec!["t".to_string()]), &[RootState::Directory(steps)], py_files).unwrap();
    assert_eq!(files, vec!["/abs.py", "./c.py", "../x.py", "t/B.py", "t/a/z.py", "t/a.py"]);
}

#[test]
fn the_same_files_are_listed_alike_under_every_root_and_in_every_order() {
    let relative = ["a/z.py", "a.py", "b/c.py", "B.py"];
    let expected = vec!["B.py", "a/z.py", "a.py", "b/c.py"];
    for (root, met) in [("/x", [0, 1, 2, 3]), ("deep/a.b", [3, 1, 0, 2]), ("/", [2, 3, 1, 0])] {
        let steps: Vec<Step> = met.iter().map(|&i| file(&join(root, relative[i]))).collect();
        let files = discover(&options(vec![root.to_string()]), &[RootState::Directory(steps)], py_files).unwrap();
        let rel: Vec<String> = files.iter().map(|f| strip_prefix(f, root).expect("below the root")).collect();
        assert_eq!(rel, expected);
    }
}

// ------------------------------------------------------------------ excludes

#[test]
fn excludes_also_filter_individual_files() {
    let mut opts = options(vec!["/tree/keep.py".to_string(), "/tree/generated.py".to_string()]);
    opts.excludes = vec!["generated".to_string()];
    let files = discover(&opts, &[RootState::File(1), RootState::File(1)], py_files).unwrap();
    assert_eq!(files, vec!["/tree/keep.py".to_string()]);
}

#[test]
fn an_excluded_file_that_was_met_is_not_listed() {
    let mut opts = options(vec!["/tree".to_string()]);
    opts.excludes = vec!["/vendor/".to_string()];
    let steps = vec![file("/tree/keep.py"), file("/tree/vendor/deep/skip.py"), directory("/tree/vendor")];
    let files = discover(&opts, &[RootState::Directory(steps)], py_files).unwrap();
    assert_eq!(files, vec!["/tree/keep.py".to_string()]);
}

#[test]
fn a_path_is_excluded_by_any_pattern_it_contains() {
    let patterns = ["/vendor/".to_string(), "generated".to_string()];
    assert!(excluded("/tree/vendor/a.py", &patterns));
    assert!(excluded("/tree/generated.py", &patterns));
    assert!(!excluded("/tree/vendored.py", &patterns));
    assert!(!excluded("/tree/a.py", &[]));
}

// ------------------------------------------------------------- max_file_bytes

#[test]
fn max_file_bytes_skips_files_over_the_limit() {
    let mut opts = options(vec!["/tree".to_string()]);
    opts.max_file_bytes = Some(3);
    let steps = vec![sized("/tree/small.py", 2), sized("/tree/big.py", 10), sized("/tree/exact.py", 3)];
    let files = discover(&opts, &[RootState::Directory(steps)], py_files).unwrap();
    assert_eq!(files, vec!["/tree/exact.py".to_string(), "/tree/small.py".to_string()]);
}

#[test]
fn max_file_bytes_boundary_is_inclusive() {
    assert_eq!([within_limit(4, Some(5)), within_limit(5, Some(5)), within_limit(6, Some(5))], [true, true, false]);
    assert!(within_limit(u64::MAX, None));
}

#[test]
fn max_file_bytes_applies_to_a_file_root_too() {
    let mut opts = options(vec!["/tree/big.py".to_string()]);
    opts.max_file_bytes = Some(3);
    let files = discover(&opts, &[RootState::File(10)], py_files).unwrap();
    assert!(files.is_empty());
}

#[test]
fn max_file_bytes_none_skips_nothing() {
    let files = discover(&options(vec!["/tree/big.py".to_string()]), &[RootState::File(10)], py_files).unwrap();
    assert_eq!(files, vec!["/tree/big.py".to_string()]);
}

// ------------------------------------------------------------------- accept

#[test]
fn accept_rejecting_everything_is_an_empty_result_not_an_error() {
    let states = [RootState::Directory(vec![file("/tree/a.py"), file("/tree/b.py")])];
    let files = discover(&options(vec!["/tree".to_string()]), &states, |_| false).unwrap();
    assert!(files.is_empty());
}

#[test]
fn files_of_known_languages_are_supported() {
    let states = [RootState::Directory(vec![file("/t/notes.txt"), file("/t/b.RS"), file("/t/a.py"), directory("/t/d.py")])];
    let files = discover_supported(&options(vec!["/t".to_string()]), &states).unwrap();
    assert_eq!(files, vec!["/t/a.py".to_string(), "/t/b.RS".to_string()]);
}

// ------------------------------------------------------------------- errors

#[test]
fn walk_error_display_and_source() {
    let missing = WalkError::MissingRoot("/nowhere".to_string());
    let io = WalkError::Io { path: "/nowhere/child".to_string(), source: "denied".to_string() };

    let displays: Vec<String> = vec![missing.to_string(), io.to_string()];
    assert_eq!(
        displays,
        vec![
            "walk root does not exist: /nowhere".to_string(),
            "failed to read /nowhere/child: denied".to_string(),
        ]
    );

    assert!(format!("{missing:?}").contains("MissingRoot"));
}
