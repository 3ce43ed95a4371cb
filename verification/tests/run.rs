//! Whole commands, run against a world that is kept in memory.

use dupdelta::cli::{base_worktree_name, Action, CliError, GivenPath, OutputArgs, ReadFile};
use dupdelta::config::{Config, ConfigError, Threshold};
use dupdelta::git::Outcome;
use dupdelta::lang::all;
use dupdelta::report::{Report, ReportError};
use dupdelta::run::{CiJob, Cli, Command, Event, Request, Stage, Step};
use dupdelta::walk::{discover_supported, RootState, Step as Entry, WalkOptions};

/// Two functions that are the same logic under different names.
const TWINS: &str = "\
def total(rate, years, base):
    running = base
    for step in range(years):
        running = running * (1 + rate)
        if running > base:
            running = running - 1
    return running

def compute(pct, count, start):
    acc = start
    for i in range(count):
        acc = acc * (1 + pct)
        if acc > start:
            acc = acc - 1
    return acc
";

const SINGLE: &str = "def total(rate, years, base):\n    return rate\n";

/// Everything a command can ask of.
#[derive(Default)]
struct World {
    files: Vec<(String, String)>,
    unreadable: Vec<String>,
    configs: Vec<(String, Config)>,
    malformed: Vec<String>,
    reports: Vec<(String, Report)>,
    refuses_stdout: bool,
    stdout: String,
    appended: Vec<(String, String)>,
    written: Vec<(String, String)>,
    /// What `git rev-parse` and `git merge-base` know, by their last arguments.
    known: Vec<(String, String)>,
    /// The tree as of the merge-base, by relative path.
    base: Vec<(String, String)>,
    leftover: bool,
    add_fails: bool,
    remove_fails: bool,
    ran: Vec<String>,
    notes: Vec<String>,
}

fn refused(path: &str) -> bool {
    path.starts_with("/nonexistent/")
}

fn failed(stderr: &str) -> Outcome {
    Outcome::Finished { status: Some(128), stdout: String::new(), stderr: stderr.to_string() }
}

fn printed(stdout: &str) -> Outcome {
    Outcome::Finished { status: Some(0), stdout: format!("{stdout}\n"), stderr: String::new() }
}

impl World {
    fn with(files: &[(&str, &str)]) -> World {
        World {
            files: files.iter().map(|(p, t)| (p.to_string(), t.to_string())).collect(),
            ..World::default()
        }
    }

    /// A repository at `/repo` with a branch checked out and `main` behind it.
    fn repository(head: &[(&str, &str)], base: &[(&str, &str)]) -> World {
        let mut world = World::with(head);
        world.base = base.iter().map(|(p, t)| (p.to_string(), t.to_string())).collect();
        for (asked, told) in [
            ("--show-toplevel", "/repo"),
            ("HEAD", "aaaa"),
            ("main", "bbbb"),
            ("bbbb aaaa", "cccc"),
        ] {
            world.known.push((asked.to_string(), told.to_string()));
        }
        world
    }

    fn forget(mut self, asked: &str) -> World {
        self.known.retain(|(a, _)| a != asked);
        self
    }

    fn knows(mut self, asked: &str, told: &str) -> World {
        self.known.push((asked.to_string(), told.to_string()));
        self
    }

    fn git(&mut self, args: Vec<String>) -> Outcome {
        let line = args.join(" ");
        self.ran.push(line.clone());
        if line == "worktree prune" {
            return printed("");
        }
        if let Some(path) = line.strip_prefix("worktree remove --force ") {
            if self.remove_fails || !self.files.iter().any(|(p, _)| p.starts_with(path)) {
                return failed("not a working tree");
            }
            let inside = format!("{path}/");
            self.files.retain(|(p, _)| !p.starts_with(&inside));
            return printed("");
        }
        if let Some(rest) = line.strip_prefix("worktree add --detach ") {
            if self.add_fails {
                return failed("already exists");
            }
            let path = rest.split(' ').next().unwrap();
            for (relative, text) in &self.base {
                self.files.push((format!("{path}/{relative}"), text.clone()));
            }
            return printed("");
        }
        let plain = line.replace("^{commit}", "");
        let asked = self.known.iter().find(|(a, _)| plain.ends_with(&format!(" {a}")));
        match asked {
            Some((_, told)) => printed(told),
            None => failed("fatal: no"),
        }
    }

    fn discover(&self, options: WalkOptions) -> Result<Vec<ReadFile>, CliError> {
        let mut states = Vec::new();
        for root in &options.roots {
            if self.files.iter().any(|(p, _)| p == root) {
                states.push(RootState::File(1));
                continue;
            }
            let inside = format!("{}/", root.trim_end_matches('/'));
            let met: Vec<Entry> = self
                .files
                .iter()
                .filter(|(p, _)| p.starts_with(&inside))
                .map(|(p, _)| Entry::Met { path: p.clone(), is_file: true, bytes: None })
                .collect();
            states.push(if met.is_empty() { RootState::Missing } else { RootState::Directory(met) });
        }
        let mut read = Vec::new();
        for path in discover_supported(&options, &states).map_err(CliError::Walk)? {
            if self.unreadable.contains(&path) {
                return Err(CliError::Io { path, source: "permission denied".to_string() });
            }
            let text = self.files.iter().find(|(p, _)| *p == path).unwrap().1.clone();
            read.push(ReadFile { path, text });
        }
        Ok(read)
    }

    fn print(&mut self, text: &str) -> Result<(), CliError> {
        if self.refuses_stdout {
            return Err(CliError::Io {
                path: "<stdout>".to_string(),
                source: "destination refuses writes".to_string(),
            });
        }
        self.stdout.push_str(text);
        Ok(())
    }

    fn act(&mut self, actions: Vec<Action>) -> Result<(), CliError> {
        for action in actions {
            match action {
                Action::Print(text) => self.print(&text)?,
                Action::Append { path, text } => {
                    if refused(&path) {
                        return Err(CliError::Io { path, source: "no such directory".to_string() });
                    }
                    self.appended.push((path, text));
                }
                Action::Write { path, text } => {
                    if refused(&path) {
                        return Err(CliError::Io { path, source: "no such directory".to_string() });
                    }
                    self.written.push((path, text));
                }
            }
        }
        Ok(())
    }

    fn is_file(&self, path: &str) -> bool {
        self.malformed.iter().any(|p| p == path) || self.configs.iter().any(|(p, _)| p == path)
    }

    fn configuration(&self, explicit: Option<String>, start: String) -> Result<Config, ConfigError> {
        let path = match Config::locate(explicit, &start, |p| self.is_file(p)) {
            Some(path) => path,
            None => return Ok(Config::default()),
        };
        if self.malformed.contains(&path) {
            return Err(ConfigError::Parse { path: Some(path), source: "unknown field".to_string() });
        }
        match self.configs.iter().find(|(p, _)| *p == path) {
            Some((_, config)) => Ok(config.clone()),
            None => Err(ConfigError::Io { path, source: "no such file".to_string() }),
        }
    }

    fn serve(&mut self, request: Request) -> Event {
        match request {
            Request::Config { explicit, start } => Event::Config(self.configuration(explicit, start)),
            Request::Files(options) => Event::Files(self.discover(options)),
            Request::ReadReport(path) => Event::Report(match self.reports.iter().find(|(p, _)| *p == path) {
                Some((_, report)) => Ok(report.clone()),
                None => Err(ReportError::Io { path, source: "no such file".to_string() }),
            }),
            Request::WriteReport { path: Some(path), report } => Event::Written(if refused(&path) {
                Err(CliError::Report(ReportError::Io { path, source: "no such directory".to_string() }))
            } else {
                self.reports.push((path, report));
                Ok(())
            }),
            Request::WriteReport { path: None, report } => {
                let printed = self.print(&format!("{report:?}"));
                if printed.is_ok() {
                    self.reports.push(("<stdout>".to_string(), report));
                }
                Event::Written(printed)
            }
            Request::Act(actions) => Event::Written(self.act(actions)),
            Request::Git { dir, args } => {
                assert!(!dir.is_empty());
                if refused(&dir) {
                    return Event::Git(Outcome::NotStarted("no such directory".to_string()));
                }
                Event::Git(self.git(args))
            }
            Request::NotedGit { note, dir, args } => {
                assert_eq!(dir, "/repo");
                self.notes.push(note);
                Event::Git(self.git(args))
            }
            Request::Resolve { paths, root } => Event::Resolved {
                paths: paths.into_iter().map(|p| GivenPath { canonical: p.clone(), given: p }).collect(),
                root,
            },
            Request::Place(root) => Event::Place {
                path: format!("/tmp/{}", base_worktree_name(7, &root)),
                exists: self.leftover,
            },
        }
    }

    fn run(&mut self, command: Command) -> Result<usize, CliError> {
        let mut step = Cli { command }.run();
        loop {
            match step {
                Step::Finished(result) => return result,
                Step::Ask(request, stage) => step = stage.next(self.serve(request)),
            }
        }
    }

    fn report(&self, path: &str) -> &Report {
        &self.reports.iter().find(|(p, _)| p == path).expect("report was written").1
    }
}

fn scan(root: &str, out: Option<&str>) -> Command {
    Command::Scan {
        paths: vec![],
        root: root.to_string(),
        out: out.map(str::to_string),
        excludes: vec![],
        config: None,
    }
}

fn output() -> OutputArgs {
    OutputArgs { github_annotations: false, summary: None, findings_out: None }
}

fn diff(head: &str, base: &str, output: OutputArgs) -> Command {
    Command::Diff { head: head.to_string(), base: base.to_string(), output, config: None }
}

fn job(base: &str, paths: &[&str]) -> CiJob {
    CiJob {
        base: base.to_string(),
        paths: paths.iter().map(|p| p.to_string()).collect(),
        report: None,
        excludes: vec![],
        output: output(),
    }
}

fn ci(base: &str, paths: &[&str]) -> Command {
    Command::Ci { job: job(base, paths), config: None }
}

/// A world with two empty reports in it.
fn two_empty_reports() -> World {
    let mut world = World::default();
    world.reports.push(("head.json".to_string(), Report::default()));
    world.reports.push(("base.json".to_string(), Report::default()));
    world
}

/// A world with the reports of a tree with twins and of one without.
fn twins_were_added() -> World {
    let mut world = World::with(&[("/base/a.py", SINGLE), ("/head/a.py", TWINS)]);
    world.run(scan("/base", Some("base.json"))).expect("scan succeeds");
    world.run(scan("/head", Some("head.json"))).expect("scan succeeds");
    world
}

fn debug(result: Result<usize, CliError>) -> String {
    format!("{:?}", result.expect_err("must fail"))
}

// ------------------------------------------------------------------ languages

#[test]
fn languages_prints_a_line_for_each_language_and_finds_nothing() {
    let mut world = World::default();
    assert_eq!(world.run(Command::Languages).expect("succeeds"), 0);
    assert_eq!(world.stdout.lines().count(), all().len());
    assert!(world.stdout.contains("python"));
}

#[test]
fn languages_stops_rather_than_silently_dropping_lines_when_stdout_refuses_writes() {
    let mut world = World { refuses_stdout: true, ..World::default() };
    assert!(debug(world.run(Command::Languages)).contains("Io"));
}

// ----------------------------------------------------------------------- scan

#[test]
fn scan_counts_what_it_found_and_writes_the_report_where_asked() {
    let mut world = World::with(&[("/tree/pkg/twins.py", TWINS)]);
    let count = world.run(scan("/tree", Some("/out/report.json"))).expect("scan succeeds");
    let report = world.report("/out/report.json");
    assert_eq!(count, report.finding_count());
    assert!(count > 0);
    assert_eq!(report.files_scanned, 1);
    assert!(report.clones.iter().all(|c| c.a.file == "pkg/twins.py"));
}

#[test]
fn scan_without_an_output_path_writes_the_report_to_stdout() {
    let mut world = World::with(&[("/tree/a.py", "x = 1\n")]);
    assert_eq!(world.run(scan("/tree", None)).expect("succeeds"), 0);
    assert_eq!(world.report("<stdout>").files_scanned, 1);
}

#[test]
fn scan_stops_rather_than_silently_dropping_the_report_when_stdout_refuses_writes() {
    let mut world = World::with(&[("/tree/a.py", "x = 1\n")]);
    world.refuses_stdout = true;
    assert!(debug(world.run(scan("/tree", None))).contains("Io"));
}

#[test]
fn scan_writing_its_report_to_an_unwritable_destination_is_an_error() {
    let mut world = World::with(&[("/tree/a.py", "x = 1\n")]);
    let result = world.run(scan("/tree", Some("/nonexistent/dupdelta/report.json")));
    assert!(debug(result).contains("Report"));
}

#[test]
fn scan_looks_only_at_the_given_paths_and_honours_its_excludes() {
    let mut world = World::with(&[
        ("/tree/kept/a.py", TWINS),
        ("/tree/kept/vendor/c.py", TWINS),
        ("/tree/skipped/b.py", TWINS),
    ]);
    world
        .run(Command::Scan {
            paths: vec!["/tree/kept".to_string()],
            root: "/tree".to_string(),
            out: Some("r.json".to_string()),
            excludes: vec!["/vendor/".to_string()],
            config: None,
        })
        .expect("scan succeeds");
    let report = world.report("r.json");
    assert_eq!(report.files_scanned, 1);
    assert!(report.clones.iter().all(|c| c.a.file.starts_with("kept/")));
}

#[test]
fn scanning_a_root_that_does_not_exist_is_an_error_not_an_empty_report() {
    // A scan that quietly examines nothing and reports no duplication would be the
    // worst answer of all.
    let result = World::default().run(scan("/nonexistent/dupdelta/tree", None));
    assert!(debug(result).contains("Walk"));
}

#[test]
fn scan_reports_a_file_it_could_not_read_rather_than_dropping_it() {
    let mut world = World::with(&[("/tree/unreadable.py", "value = 1\n")]);
    world.unreadable.push("/tree/unreadable.py".to_string());
    assert!(debug(world.run(scan("/tree", None))).contains("Io"));
}

// ----------------------------------------------------------------------- diff

#[test]
fn diff_counts_a_pair_that_was_introduced() {
    let mut world = twins_were_added();
    assert!(world.run(diff("head.json", "base.json", output())).expect("diff succeeds") > 0);
    assert_eq!(world.run(diff("head.json", "head.json", output())).expect("diff succeeds"), 0);
    assert!(world.stdout.contains("No new duplication"));
}

#[test]
fn diff_of_a_missing_report_fails_rather_than_comparing_against_nothing() {
    let result = World::default().run(diff("/nonexistent/h.json", "/nonexistent/b.json", output()));
    assert!(debug(result).contains("Report"));
}

#[test]
fn diff_of_only_a_missing_base_report_fails_after_the_head_report_reads_fine() {
    let mut world = World::default();
    world.reports.push(("head.json".to_string(), Report::default()));
    let result = world.run(diff("head.json", "/nonexistent/dupdelta/base.json", output()));
    assert!(debug(result).contains("Report"));
}

#[test]
fn diff_stops_rather_than_using_the_default_config_when_an_explicit_one_is_invalid() {
    let mut world = World::default();
    world.malformed.push("bad.toml".to_string());
    let result = world.run(Command::Diff {
        head: "/nonexistent/h.json".to_string(),
        base: "/nonexistent/b.json".to_string(),
        output: output(),
        config: Some("bad.toml".to_string()),
    });
    assert!(debug(result).contains("Config"));
}

// -------------------------------------------------------------------- outputs

#[test]
fn every_output_that_was_asked_for_is_written() {
    let mut world = twins_were_added();
    let count = world
        .run(diff(
            "head.json",
            "base.json",
            OutputArgs {
                github_annotations: true,
                summary: Some("summary.md".to_string()),
                findings_out: Some("findings.txt".to_string()),
            },
        ))
        .expect("diff succeeds");
    assert!(world.stdout.contains("::warning file="));
    assert_eq!(world.appended.len(), 1);
    assert!(world.appended[0].1.contains('|'));
    assert_eq!(world.written, vec![("findings.txt".to_string(), count.to_string())]);
}

#[test]
fn an_annotation_stops_rather_than_silently_dropping_itself_when_stdout_refuses_writes() {
    let mut world = twins_were_added();
    world.refuses_stdout = true;
    let output = OutputArgs { github_annotations: true, summary: None, findings_out: None };
    assert!(debug(world.run(diff("head.json", "base.json", output))).contains("Io"));
}

#[test]
fn the_rendered_summary_stops_rather_than_silently_dropping_itself_when_stdout_refuses_writes() {
    let mut world = two_empty_reports();
    world.refuses_stdout = true;
    assert!(debug(world.run(diff("head.json", "base.json", output()))).contains("Io"));
}

#[test]
fn an_unwritable_summary_or_count_destination_is_an_error() {
    let bad = "/nonexistent/dupdelta/out";
    let mut world = two_empty_reports();
    let summary_failed = world
        .run(diff("head.json", "base.json", OutputArgs { summary: Some(bad.to_string()), ..output() }))
        .is_err();
    let findings_failed = world
        .run(diff("head.json", "base.json", OutputArgs { findings_out: Some(bad.to_string()), ..output() }))
        .is_err();
    assert_eq!([summary_failed, findings_failed], [true, true]);
}

// --------------------------------------------------------------------- config

#[test]
fn a_discovered_config_file_is_used() {
    let mut world = World::with(&[("/tree/twins.py", TWINS)]);
    let mut config = Config::default();
    config.function.min_nodes = 9999;
    world.configs.push(("/tree/.dupdelta.toml".to_string(), config));
    world.run(scan("/tree", Some("r.json"))).expect("scan succeeds");
    assert_eq!(world.report("r.json").units_considered, 0);
}

#[test]
fn a_discovered_config_file_that_is_invalid_stops_the_run() {
    let mut world = World::with(&[("/tree/twins.py", TWINS)]);
    world.malformed.push("/tree/.dupdelta.toml".to_string());
    assert!(debug(world.run(scan("/tree", None))).contains("Config"));
}

#[test]
fn an_invalid_config_file_stops_the_run() {
    let mut world = World::with(&[("/tree/twins.py", TWINS)]);
    world.malformed.push("bad.toml".to_string());
    let result = world.run(Command::Scan {
        paths: vec![],
        root: "/tree".to_string(),
        out: None,
        excludes: vec![],
        config: Some("bad.toml".to_string()),
    });
    assert!(debug(result).contains("Config"));
}

#[test]
fn a_value_out_of_range_stops_the_run() {
    let mut world = World::with(&[("/tree/twins.py", TWINS)]);
    let mut config = Config::default();
    config.function.min_similarity = Threshold::of("1.5");
    world.configs.push(("/tree/.dupdelta.toml".to_string(), config));
    assert!(debug(world.run(scan("/tree", None))).contains("Invalid"));
}

// ------------------------------------------------------------------------- ci

#[test]
fn ci_compares_the_working_tree_against_its_merge_base() {
    let mut world = World::repository(&[("/repo/a.py", TWINS)], &[("a.py", SINGLE)]);
    let mut job = job("main", &["/repo"]);
    job.report = Some("head.json".to_string());
    job.output.findings_out = Some("findings.txt".to_string());
    let count = world.run(Command::Ci { job, config: None }).expect("ci succeeds");
    assert!(count > 0);
    assert_eq!(world.report("head.json").files_scanned, 1);
    assert_eq!(world.written, vec![("findings.txt".to_string(), count.to_string())]);
    assert_eq!(
        world.ran,
        vec![
            "rev-parse --show-toplevel",
            "rev-parse HEAD^{commit}",
            "rev-parse main^{commit}",
            "merge-base bbbb aaaa",
            "worktree add --detach /tmp/dupdelta-base-7-repo cccc",
            "worktree remove --force /tmp/dupdelta-base-7-repo",
        ]
    );
}

#[test]
fn ci_says_nothing_of_what_the_merge_base_already_has() {
    let mut world = World::repository(
        &[("/repo/a.py", TWINS), ("/repo/note.py", "value = 1\n")],
        &[("a.py", TWINS)],
    );
    assert_eq!(world.run(ci("main", &["/repo"])).expect("ci succeeds"), 0);
    assert!(world.stdout.contains("No new duplication"));
}

#[test]
fn ci_outside_a_repository_fails_rather_than_scanning_one_tree() {
    let result = World::default().run(ci("main", &["/nonexistent/dupdelta/tree"]));
    assert!(debug(result).contains("Git"));
}

#[test]
fn ci_in_a_directory_that_is_no_repository_says_so() {
    let result = World::with(&[("/plain/a.py", TWINS)]).run(ci("main", &["/plain"]));
    assert!(debug(result).contains("NotARepository(\"/plain\")"));
}

#[test]
fn ci_uses_the_remote_tracking_ref_of_a_base_without_a_branch_and_says_so() {
    let mut world =
        World::repository(&[("/repo/a.py", "value = 1\n"), ("/repo/b.py", "value = 2\n")], &[("a.py", "value = 1\n")])
            .forget("main")
            .knows("origin/main", "bbbb");
    assert_eq!(world.run(ci("main", &["/repo"])).expect("ci succeeds"), 0);
    assert!(world.stdout.contains("No new duplication"));
    assert_eq!(
        world.notes,
        vec!["dupdelta: note: base 'main' does not resolve; using remote-tracking ref 'origin/main'"]
    );
}

#[test]
fn ci_stops_at_a_path_outside_the_repository_before_it_scans() {
    let mut world = World::repository(&[("/repo/a.py", "value = 1\n"), ("/other/b.py", "value = 2\n")], &[]);
    let error = world.run(ci("main", &["/repo", "/other"])).expect_err("must be refused");
    assert!(error.to_string().contains("outside the repository"));
    assert!(!world.ran.iter().any(|line| line.starts_with("worktree")));
}

#[test]
fn ci_with_an_invalid_config_file_stops_the_run() {
    let mut world = World::repository(&[("/repo/a.py", "value = 1\n")], &[("a.py", "value = 1\n")]);
    world.malformed.push("bad.toml".to_string());
    let result = world.run(Command::Ci { job: job("main", &["/repo"]), config: Some("bad.toml".to_string()) });
    assert!(debug(result).contains("Config"));
}

#[test]
fn ci_on_a_repository_with_no_commits_cannot_resolve_head() {
    let mut world = World::repository(&[], &[]).forget("HEAD").forget("main");
    assert!(debug(world.run(ci("main", &["/repo"]))).contains("Git"));
}

#[test]
fn ci_names_both_refs_of_a_base_that_resolves_nowhere() {
    let mut world = World::repository(&[("/repo/a.py", "value = 1\n")], &[]);
    let error = world.run(ci("nosuch", &["/repo"])).expect_err("must fail");
    assert!(error.to_string().contains("could not resolve the base revision 'nosuch'"));
    assert!(error.to_string().contains("origin/nosuch"));
}

#[test]
fn ci_between_unrelated_histories_has_no_merge_base() {
    let mut world = World::repository(&[("/repo/a.py", "value = 1\n")], &[]).knows("unrelated", "dddd");
    assert!(debug(world.run(ci("unrelated", &["/repo"]))).contains("Git"));
}

#[test]
fn ci_scanning_a_path_that_does_not_exist_in_the_head_tree_is_an_error() {
    let mut world = World::repository(&[("/repo/a.py", "value = 1\n")], &[("a.py", "value = 1\n")]);
    assert!(debug(world.run(ci("main", &["/repo", "/repo/missing"]))).contains("Walk"));
}

#[test]
fn ci_writing_its_head_report_to_an_unwritable_destination_is_an_error() {
    let mut world = World::repository(&[("/repo/a.py", "value = 1\n")], &[("a.py", "value = 1\n")]);
    let mut job = job("main", &["/repo"]);
    job.report = Some("/nonexistent/dupdelta/head.json".to_string());
    assert!(debug(world.run(Command::Ci { job, config: None })).contains("Report"));
}

#[test]
fn ci_refuses_a_stale_non_worktree_directory_occupying_the_merge_base_checkout_path() {
    let mut world = World::repository(&[("/repo/a.py", "value = 1\n")], &[("a.py", "value = 1\n")]);
    world.leftover = true;
    world.add_fails = true;
    assert!(debug(world.run(ci("main", &["/repo"]))).contains("Git"));
    // Clearing it was tried, and did not have to succeed.
    assert_eq!(
        world.ran[4..],
        [
            "worktree remove --force /tmp/dupdelta-base-7-repo",
            "worktree prune",
            "worktree add --detach /tmp/dupdelta-base-7-repo cccc",
        ]
    );
}

#[test]
fn ci_clears_a_leftover_worktree_first() {
    let mut world = World::repository(&[("/repo/a.py", "value = 1\n")], &[("a.py", "value = 1\n")]);
    world.leftover = true;
    assert_eq!(world.run(ci("main", &["/repo"])).expect("ci succeeds"), 0);
    assert_eq!(world.ran.iter().filter(|line| line.starts_with("worktree")).count(), 4);
}

#[test]
fn ci_scanning_a_path_missing_from_the_merge_base_tree_is_an_error() {
    let mut world = World::repository(
        &[("/repo/a.py", "value = 1\n"), ("/repo/newdir/b.py", "value = 2\n")],
        &[("a.py", "value = 1\n")],
    );
    assert!(debug(world.run(ci("main", &["/repo/newdir"]))).contains("Walk"));
    // The worktree does not stay behind.
    assert_eq!(world.ran.last().unwrap(), "worktree remove --force /tmp/dupdelta-base-7-repo");
    assert!(!world.files.iter().any(|(p, _)| p.starts_with("/tmp/")));
}

#[test]
fn a_worktree_that_cannot_be_removed_stops_the_run_after_a_second_try() {
    let mut world = World::repository(&[("/repo/a.py", "value = 1\n")], &[("a.py", "value = 1\n")]);
    world.remove_fails = true;
    assert!(debug(world.run(ci("main", &["/repo"]))).contains("not a working tree"));
    let removals = world.ran.iter().filter(|line| line.starts_with("worktree remove")).count();
    assert_eq!(removals, 2);
    assert_eq!(world.stdout, "");
}

// ---------------------------------------------------------------------- steps

#[test]
fn the_last_stage_ends_with_its_count() {
    let step = Stage::Last { count: 3 }.next(Event::Written(Ok(())));
    assert!(matches!(step, Step::Finished(Ok(3))));
}

#[test]
fn what_comes_of_clearing_up_does_not_change_the_error() {
    for outcome in [printed(""), failed("no"), Outcome::NotStarted("no".to_string())] {
        let error = CliError::Io { path: "a.py".to_string(), source: "gone".to_string() };
        let step = Stage::CiAbandon(error).next(Event::Git(outcome));
        match step {
            Step::Finished(Err(e)) => assert!(e.to_string().contains("a.py")),
            other => panic!("{other:?}"),
        }
    }
}
