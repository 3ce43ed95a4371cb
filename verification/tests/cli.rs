//! What the commands decide and compute.

use dupdelta::cli::{
    base_as_given, base_worktree_name, default_scan_root, delta_options, emit, language_lines, paths_in_tree,
    repo_relative_paths, report_path, resolve_base, scan_files, scan_tree, source_file, walk_options, Action, BaseStep,
    CliError, GivenPath, OutputArgs, ReadFile,
};
use dupdelta::config::{Config, ConfigError};
use dupdelta::delta::Delta;
use dupdelta::git::GitError;
use dupdelta::lang::all;
use dupdelta::path::join;
use dupdelta::report::{Report, ReportError};
use dupdelta::walk::{discover_supported, RootState, Step, WalkError};

/// Two functions that are the same logic under different names.
const TWINS: &str = "\
def total(rate, years, base):
    running = base
    for step in range(years):
        running = running * (1 + rate)
        if running > base:
            running = running - 1
    return running

def compute(pct, count, start):
    acc = start
    for i in range(count):
        acc = acc * (1 + pct)
        if acc > start:
            acc = acc - 1
    return acc
";

/// A writer that always fails.
struct FailingWriter;

impl std::io::Write for FailingWriter {
    fn write(&mut self, _buf: &[u8]) -> std::io::Result<usize> {
        Err(std::io::Error::other("destination refuses writes"))
    }

    fn flush(&mut self) -> std::io::Result<()> {
        Ok(())
    }
}

fn read(path: &str, text: &str) -> ReadFile {
    ReadFile { path: path.to_string(), text: text.to_string() }
}

fn scan(root: &str, files: Vec<ReadFile>) -> Report {
    scan_tree(root, files, &Config::default())
}

fn output() -> OutputArgs {
    OutputArgs { github_annotations: false, summary: None, findings_out: None }
}

fn given(path: &str) -> GivenPath {
    GivenPath { given: path.to_string(), canonical: path.to_string() }
}

fn unknown_revision() -> GitError {
    GitError::CommandFailed {
        args: vec!["rev-parse".to_string(), "nosuch".to_string()],
        status: Some(128),
        stderr: "fatal: ambiguous argument 'nosuch'\n".to_string(),
    }
}

#[test]
fn a_failing_writer_still_reports_flush_as_succeeding() {
    assert!(std::io::Write::flush(&mut FailingWriter).is_ok());
}

// ---------------------------------------------------------------- report_path

#[test]
fn a_report_path_is_relative_to_the_scanned_root() {
    assert_eq!(report_path("/tree/src/a.py", "/tree"), "src/a.py");
}

#[test]
fn a_path_outside_the_root_is_left_alone_rather_than_mangled() {
    assert_eq!(report_path("/other/a.py", "/tree"), "/other/a.py");
    assert_eq!(report_path("/treetop/a.py", "/tree"), "/treetop/a.py");
}

#[test]
fn a_report_path_does_not_depend_on_how_the_root_is_written() {
    assert_eq!(report_path("./pkg/a.py", "."), "pkg/a.py");
    assert_eq!(report_path("/tree//src/a.py", "/tree/"), "src/a.py");
    assert_eq!(report_path("/tree/./src/a.py", "/tree/."), "src/a.py");
    assert_eq!(report_path("/a.py", "/"), "a.py");
    assert_eq!(report_path("/tree/win\\a.py", "/tree"), "win/a.py");
    assert_eq!(report_path("/tree", "/tree"), "");
}

#[test]
fn the_same_relative_path_reads_the_same_from_two_roots() {
    let relative = ["src/a.py".to_string(), "./b/c.py".to_string(), "d".to_string()];
    let roots = ["/work/tree", "/tmp/base/", ".", "/"];
    let recorded: Vec<Vec<String>> = roots
        .iter()
        .map(|root| paths_in_tree(root, &relative).iter().map(|p| report_path(p, root)).collect())
        .collect();
    assert_eq!(recorded, vec![vec!["src/a.py", "b/c.py", "d"]; 4]);
}

// ------------------------------------------------------------------ languages

#[test]
fn the_languages_command_lists_every_registered_language() {
    let lines = language_lines();
    assert_eq!(lines.len(), all().len());
    assert!(lines.contains(&"python       py pyi".to_string()));
}

// ----------------------------------------------------------------------- scan

#[test]
fn scan_writes_a_report_naming_paths_relative_to_the_root() {
    let report = scan("/tree", vec![read("/tree/pkg/twins.py", TWINS)]);
    assert_eq!(report.files_scanned, 1);
    assert!(!report.clones.is_empty());
    assert!(report.clones.iter().all(|c| c.a.file == "pkg/twins.py"));
}

#[test]
fn scan_finds_a_renamed_copy_of_a_function() {
    let report = scan("/tree", vec![read("/tree/twins.py", TWINS)]);
    let names: Vec<(String, String)> =
        report.clones.iter().map(|c| (c.a.qualname.clone(), c.b.qualname.clone())).collect();
    assert_eq!(names, vec![("total".to_string(), "compute".to_string())]);
}

#[test]
fn scan_narrows_to_the_given_paths_while_still_naming_them_from_the_root() {
    let options = walk_options("/tree", &["/tree/kept".to_string()], &Config::default(), &[]);
    assert_eq!(options.roots, vec!["/tree/kept".to_string()]);
    let report = scan("/tree", vec![read("/tree/kept/a.py", TWINS)]);
    assert_eq!(report.files_scanned, 1);
    assert!(report.clones.iter().all(|c| c.a.file.starts_with("kept/")));
}

#[test]
fn scan_honours_an_extra_exclude() {
    let mut config = Config::default();
    config.excludes = vec!["/target/".to_string()];
    let options = walk_options("/tree", &[], &config, &["/vendor/".to_string()]);
    assert_eq!(options.roots, vec!["/tree".to_string()]);
    assert_eq!(options.excludes, vec!["/target/".to_string(), "/vendor/".to_string()]);
    assert!(options.respect_gitignore && !options.follow_symlinks && options.max_file_bytes.is_none());
}

#[test]
fn scan_reports_a_file_it_could_not_parse_rather_than_dropping_it() {
    let report = scan("/tree", vec![read("/tree/broken.py", "def good(a):\n    return a\n\ndef !!! broken(\n")]);
    assert_eq!(report.files_with_syntax_errors, vec!["broken.py".to_string()]);
}

#[test]
fn a_file_is_read_as_the_language_its_name_says() {
    let file = source_file("/tree/a.py", "/tree", "x = 1\n".to_string()).expect("python is registered");
    assert_eq!((file.path.as_str(), file.language.name, file.text.as_str()), ("a.py", "python", "x = 1\n"));
    assert!(source_file("/tree/notes.txt", "/tree", String::new()).is_none());
}

#[test]
fn an_explicit_config_file_is_used() {
    let mut config = Config::default();
    config.function.min_nodes = 9999;
    let report = scan_tree("/tree", vec![read("/tree/twins.py", TWINS)], &config);
    // min_nodes of 9999 excludes every unit, so nothing can pair.
    assert_eq!((report.units_considered, report.clones.len()), (0, 0));
}

/// A file that mentions the names from `from` up to `to`.
fn names(from: usize, to: usize) -> String {
    (from..to).map(|i| format!("word{i} = 0\n")).collect()
}

#[test]
fn the_report_lists_pairs_with_a_side_nothing_imports_first() {
    let files = vec![
        read("/tree/a.py", &names(0, 20)),
        read("/tree/b.py", &names(0, 20)),
        read("/tree/caller.py", "import a\nimport b\n"),
        read("/tree/orphan.py", &names(8, 28)),
    ];
    let mut report = scan("/tree", files);
    let listed = |report: &Report| -> Vec<(String, String, bool, u64)> {
        report.vocab.iter().map(|p| (p.a.clone(), p.b.clone(), p.zero_inbound, p.overlap.percent() as u64)).collect()
    };
    let pair = |a: &str, b: &str, zero: bool, percent: u64| (a.to_string(), b.to_string(), zero, percent);
    // The pair of files that are both imported comes last, though it overlaps most.
    assert_eq!(
        listed(&report),
        vec![
            pair("a.py", "orphan.py", true, 60),
            pair("b.py", "orphan.py", true, 60),
            pair("a.py", "b.py", false, 100),
        ]
    );
    // Sorting a report goes by overlap alone.
    report.sort();
    assert_eq!(listed(&report)[0], pair("a.py", "b.py", false, 100));
}

#[test]
fn a_tree_has_the_same_report_wherever_it_lies_and_however_it_is_met() {
    let tree: [(&str, &str); 4] = [
        ("pkg/twins.py", TWINS),
        ("pkg.py", "def !!! broken(\n"),
        ("pkg/deep/more.py", TWINS),
        ("a.js", "function f(x) { return x + 1; }\n"),
    ];
    let mut reports: Vec<Report> = Vec::new();
    for (root, met) in [("/head", [0, 1, 2, 3]), ("/tmp/a.b/base/", [3, 2, 1, 0]), (".", [2, 0, 3, 1])] {
        let steps: Vec<Step> = met
            .iter()
            .map(|&i| Step::Met { path: join(root, tree[i].0), is_file: true, bytes: None })
            .collect();
        let options = walk_options(root, &[], &Config::default(), &[]);
        let listed = discover_supported(&options, &[RootState::Directory(steps)]).expect("every file is met");
        let files: Vec<ReadFile> = listed
            .iter()
            .map(|path| {
                let text = tree.iter().find(|(rel, _)| join(root, rel) == *path).expect("a file of the tree").1;
                read(path, text)
            })
            .collect();
        reports.push(scan(root, files));
    }
    assert_eq!(reports[0].files_scanned, 4);
    assert_eq!(reports[0].files_with_syntax_errors, vec!["pkg.py".to_string()]);
    assert!(reports[0].clones.iter().any(|c| c.a.file == "pkg/deep/more.py"));
    assert_eq!(reports[1], reports[0]);
    assert_eq!(reports[2], reports[0]);
}

#[test]
fn an_empty_tree_gives_an_empty_report() {
    assert_eq!(scan_files(&[], &Config::default()), Report::default());
}

// ----------------------------------------------------------------------- diff

#[test]
fn diff_reports_only_what_the_head_report_added() {
    // The same tree scanned twice, from two directories: nothing was added.
    let base = scan("/base", vec![read("/base/twins.py", TWINS)]);
    let head = scan("/head", vec![read("/head/twins.py", TWINS)]);
    assert_eq!(head, base);
    let delta = Delta::compute(&head, &base, &delta_options(&Config::default()));
    assert_eq!(delta.finding_count(), 0);
    assert!(delta.summary().render().contains("No new duplication"));
}

#[test]
fn diff_reports_a_pair_the_head_tree_introduced() {
    let base = scan("/base", vec![read("/base/a.py", "def total(rate, years, base):\n    return rate\n")]);
    let head = scan("/head", vec![read("/head/a.py", TWINS)]);
    let delta = Delta::compute(&head, &base, &delta_options(&Config::default()));
    assert!(delta.finding_count() > 0);
}

#[test]
fn ci_is_silent_when_a_branch_adds_no_duplication() {
    // The pre-existing duplicate is in the merge-base, so it stays silent,
    // though its file was renamed, its lines moved and its names changed.
    let base = scan("/base", vec![read("/base/a.py", TWINS)]);
    let moved = format!("value = 1\n\n{}", TWINS.replace("running", "balance").replace("acc", "sum"));
    let head = scan("/head", vec![read("/head/note.py", "value = 1\n"), read("/head/pkg/b.py", &moved)]);
    let delta = Delta::compute(&head, &base, &delta_options(&Config::default()));
    assert_eq!(head.clones.len(), 1);
    assert!(delta.new_clones.is_empty());
}

#[test]
fn a_known_pair_stays_silent_when_it_is_moved_renamed_and_shifted() {
    let first = "\
def total(rate, years, base):
    running = base
    for step in range(years):
        running = running * (1 + rate)
        if running > base:
            running = running - 1
    return running
";
    let moved = "\
# A remark.

def grow(pct, count, start):
    acc = start
    for i in range(count):
        acc = acc * (2 + pct)
        if acc > start:
            acc = acc - 3
    return acc
";
    let base = scan("/base", vec![read("/base/a.py", TWINS)]);
    assert_eq!(base.clones.len(), 1);
    // Whichever of the two comes first in the head tree.
    for (one, other) in [("b.py", "pkg/c.py"), ("z.py", "pkg/c.py")] {
        let head = scan(
            "/head",
            vec![read(&format!("/head/{one}"), moved), read(&format!("/head/{other}"), first)],
        );
        assert_eq!(head.clones.len(), 1);
        let delta = Delta::compute(&head, &base, &delta_options(&Config::default()));
        assert_eq!(delta.new_clones.len(), 0);
    }
}

#[test]
fn a_known_block_stays_silent_when_its_file_is_moved() {
    let lines = "    x = a + b * 2\n    if x > a:\n        x = x - 1\n    y = [x, a, b]\n";
    let one = format!("def one(a, b):\n    log(a)\n{lines}    return y\n");
    let other = format!("def other(a, b):\n{lines}    while y:\n        y.pop()\n");
    let mut config = Config::default();
    config.blocks.min_tokens = 20;
    let tree = |root: &str, moved: &str| {
        let files = vec![read(&format!("{root}/a.py"), &one), read(&format!("{root}/{moved}"), &other)];
        scan_tree(root, files, &config)
    };
    let base = tree("/base", "b.py");
    let head = tree("/head", "pkg/c.py");
    assert_eq!((base.blocks.len(), head.blocks.len()), (1, 1));
    assert_eq!(head.blocks[0].b.file, "pkg/c.py");
    let delta = Delta::compute(&head, &base, &delta_options(&config));
    assert!(delta.new_blocks.is_empty());
    let without = Delta::compute(&head, &Report::default(), &delta_options(&config));
    assert_eq!(without.new_blocks.len(), 1);
}

#[test]
fn a_changed_body_makes_a_new_pair() {
    let changed = TWINS.replace("running = running - 1", "running = running - base - 1");
    let base = scan("/base", vec![read("/base/a.py", TWINS)]);
    let head = scan("/head", vec![read("/head/a.py", &changed)]);
    let delta = Delta::compute(&head, &base, &delta_options(&Config::default()));
    assert_eq!(delta.new_clones.len(), 1);
    assert!(delta.new_clones[0].similarity.percent() < 100);
}

#[test]
fn a_verbatim_copy_of_an_existing_function_is_new() {
    // Both sides' bodies stood in the base tree, but as one function.
    let one = &TWINS[..TWINS.find("\ndef compute").expect("two functions")];
    let base = scan("/base", vec![read("/base/a.py", one)]);
    let head = scan("/head", vec![read("/head/a.py", one), read("/head/b.py", one)]);
    let delta = Delta::compute(&head, &base, &delta_options(&Config::default()));
    assert_eq!(delta.new_clones.len(), 1);
}

// -------------------------------------------------------------------- outputs

#[test]
fn annotations_and_a_summary_and_a_count_all_reach_their_destinations() {
    let base = scan("/base", vec![read("/base/a.py", "def total(rate, years, base):\n    return rate\n")]);
    let head = scan("/head", vec![read("/head/a.py", TWINS)]);
    let delta = Delta::compute(&head, &base, &delta_options(&Config::default()));
    let args = OutputArgs {
        github_annotations: true,
        summary: Some("summary.md".to_string()),
        findings_out: Some("findings.txt".to_string()),
    };
    let actions = emit(&delta, &args);
    let printed: Vec<&String> =
        actions.iter().filter_map(|a| if let Action::Print(text) = a { Some(text) } else { None }).collect();
    assert_eq!(printed.len(), delta.annotations().len());
    assert!(printed.iter().all(|line| line.starts_with("::warning file=") && line.ends_with('\n')));
    assert!(actions.iter().any(|a| matches!(a, Action::Append { path, text } if path == "summary.md" && text.contains("|"))));
    let count = delta.finding_count().to_string();
    assert!(matches!(&actions[actions.len() - 1], Action::Write { path, text } if path == "findings.txt" && *text == count));
}

#[test]
fn without_annotations_the_digest_is_printed() {
    let delta = Delta::default();
    let actions = emit(&delta, &output());
    assert_eq!(actions.len(), 1);
    assert!(matches!(&actions[0], Action::Print(text) if *text == delta.summary().render()));
}

// --------------------------------------------------------------- ci internals

#[test]
fn default_scan_root_falls_back_to_the_current_directory_when_no_path_was_given() {
    assert_eq!(default_scan_root(&[]), ".");
}

#[test]
fn default_scan_root_uses_the_first_given_path() {
    assert_eq!(default_scan_root(&["a".to_string(), "b".to_string()]), "a");
}

#[test]
fn a_relative_path_is_kept_relative_rather_than_resolved_against_the_repository() {
    let relative = repo_relative_paths(&[given("src/a.py")], "/repo").expect("stays relative");
    assert_eq!(relative, vec!["src/a.py".to_string()]);
}

#[test]
fn a_root_that_cannot_be_canonicalized_is_used_as_given() {
    let root = "/nonexistent/dupdelta/repo-root";
    let relative = repo_relative_paths(&[given("a.py")], root).expect("relative path needs no root");
    assert_eq!(relative, vec!["a.py".to_string()]);
}

#[test]
fn an_absolute_path_that_cannot_be_canonicalized_is_refused_rather_than_guessed_at() {
    let result = repo_relative_paths(&[given("/nonexistent/dupdelta/does-not-exist")], "/repo");
    assert!(format!("{:?}", result.expect_err("must fail")).contains("PathOutsideRepository"));
}

#[test]
fn an_absolute_path_inside_the_repository_is_relativized() {
    let linked = GivenPath { given: "/link/src".to_string(), canonical: "/repo/src".to_string() };
    let relative = repo_relative_paths(&[linked, given("/repo")], "/repo").expect("both inside");
    assert_eq!(relative, vec!["src".to_string(), String::new()]);
    assert_eq!(paths_in_tree("/tmp/base", &relative), vec!["/tmp/base/src".to_string(), "/tmp/base/".to_string()]);
}

#[test]
fn ci_refuses_a_path_outside_the_repository() {
    let result = repo_relative_paths(&[given("/repo/a"), given("/outside"), given("/elsewhere")], "/repo");
    let error = result.expect_err("a path outside the repository must be refused");
    assert_eq!(
        error.to_string(),
        "/outside is outside the repository at /repo; `ci` can only scan paths within it"
    );
}

#[test]
fn the_worktree_of_the_merge_base_is_named_after_the_process_and_the_repository() {
    assert_eq!(base_worktree_name(4711, "/work/repo/"), "dupdelta-base-4711-repo");
    assert_eq!(base_worktree_name(1, "/"), "dupdelta-base-1-");
}

#[test]
fn an_unresolvable_base_falls_back_to_its_remote_tracking_ref() {
    let step = base_as_given("main", Err(unknown_revision()));
    let (revision, source) = match step {
        BaseStep::TryInstead { revision, source } => (revision, source),
        BaseStep::Resolved(_) => panic!("the base does not resolve"),
    };
    assert_eq!(revision, "origin/main");
    let (commit, note) = resolve_base("main", source, Ok("0123".to_string())).expect("the fallback resolves");
    assert_eq!(commit, "0123");
    assert_eq!(note, "dupdelta: note: base 'main' does not resolve; using remote-tracking ref 'origin/main'");
}

#[test]
fn a_base_that_resolves_is_used_as_given() {
    assert!(matches!(base_as_given("main", Ok("0123".to_string())), BaseStep::Resolved(c) if c == "0123"));
}

#[test]
fn ci_with_an_unresolvable_base_revision_stops_the_run() {
    let error = resolve_base("nosuch", unknown_revision(), Err(unknown_revision())).expect_err("must fail");
    assert!(error.to_string().contains("could not resolve the base revision 'nosuch'"));
    assert!(error.to_string().contains("origin/nosuch"));
    assert!(error.to_string().contains("ambiguous argument"));
}

// --------------------------------------------------------------------- errors

#[test]
fn every_error_variant_displays_and_exposes_its_cause() {
    let io = CliError::Io { path: "/some/file".to_string(), source: "denied".to_string() };
    let walk: CliError = WalkError::MissingRoot("/nonexistent/x".to_string()).into();
    let report: CliError =
        ReportError::Io { path: "/nonexistent/r.json".to_string(), source: "missing".to_string() }.into();
    let config: CliError =
        ConfigError::Io { path: "/nonexistent/c.toml".to_string(), source: "missing".to_string() }.into();
    let git: CliError = GitError::NotARepository("/nonexistent/repo".to_string()).into();
    let path_outside = CliError::PathOutsideRepository {
        path: "/scan/outside/a.py".to_string(),
        root: "/scan/repo".to_string(),
    };

    let messages: Vec<String> = [&io, &walk, &report, &config, &git, &path_outside].iter().map(|e| e.to_string()).collect();
    assert_eq!(
        messages,
        vec![
            "could not access /some/file: denied",
            "walk root does not exist: /nonexistent/x",
            "could not access report /nonexistent/r.json: missing",
            "reading /nonexistent/c.toml: missing",
            "no git repository at or above /nonexistent/repo",
            "/scan/outside/a.py is outside the repository at /scan/repo; `ci` can only scan paths within it",
        ]
    );
    assert!(format!("{io:?}").contains("Io"));
}
