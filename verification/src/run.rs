//! Running a command, one step at a time.
//!
//! A command alternates between deciding and asking: which configuration, which
//! files, what `git` says. Every decision is taken here. What has to be asked of the
//! world is handed out as a [`Request`], together with the [`Stage`] the command has
//! reached; the answer comes back as an [`Event`], and [`Stage::next`] says what
//! follows from it.
//!
//! A request that fails stops the command with that failure. There are two
//! exceptions: a base revision that does not resolve is looked for among the
//! remote-tracking branches first, and clearing a leftover worktree may fail, since
//! there may be none. A worktree that was added is removed before the command stops.

use vstd::pervasive::unreached;
use vstd::prelude::*;
use vstd::string::*;

use crate::cli::{
    base_as_given, default_scan_root, delta_options, emission, emit, findings_of, first_outside,
    found_in_files, is_scan_report, language_line, language_lines, lemma_every_channel_is_served,
    options_of, paths_in_tree, repo_relative_paths, resolve_base, scan_tree, serves_every_channel,
    sources_of, tracking_name, walk_options, within_repository, Action, ActionView, BaseStep,
    CliError, GivenPath, OutputArgs, ReadFile,
};
use crate::config::{lemma_a_valid_configuration_is_in_range, Config, ConfigError, ConfigView};
use crate::delta::{
    delta_of, lemma_the_delta_tells_what_is_new, tells_what_is_new, Delta, DeltaOptions, DeltaView,
};
use crate::git::{
    add_words, answer, command_views, discover_words, merge_base_words, prune_words, remove_words,
    resolve_words, GitError, GitErrorView, Outcome, Repo, Worktree,
};
use crate::lang::{registry, LanguageView};
use crate::path::joined;
use crate::report::{cloned_all, sum_of_three, Report, ReportError, ReportView};
use crate::sort::views;
use crate::text::without_space;
use crate::walk::WalkOptions;

verus! {

// ----------------------------------------------------------------------- commands

/// What was asked for on the command line.
#[derive(Debug)]
pub enum Command {
    /// Scan a tree and write a report.
    Scan {
        /// Paths to scan. Defaults to the whole tree under `root`.
        paths: Vec<String>,
        /// Tree root that recorded paths are made relative to.
        root: String,
        /// Where to write the report. Defaults to standard output.
        out: Option<String>,
        /// Extra path substrings to skip, on top of the configured excludes.
        excludes: Vec<String>,
        /// Configuration file. Defaults to discovery by walking up.
        config: Option<String>,
    },
    /// Compare two reports and report what the first one added.
    Diff {
        /// Report for the tree under scrutiny.
        head: String,
        /// Report for the tree to compare against.
        base: String,
        /// How findings are rendered.
        output: OutputArgs,
        /// Configuration file. Defaults to discovery by walking up.
        config: Option<String>,
    },
    /// Scan the working tree and its merge-base, and report the difference.
    Ci {
        /// What to compare, and how.
        job: CiJob,
        /// Configuration file. Defaults to discovery by walking up.
        config: Option<String>,
    },
    /// List the languages this build can parse.
    Languages,
}

/// What `ci` compares, and how.
#[derive(Debug)]
pub struct CiJob {
    /// Revision to compare against.
    pub base: String,
    /// Paths to scan. Defaults to the repository root.
    pub paths: Vec<String>,
    /// Also write the head tree's full report here.
    pub report: Option<String>,
    /// Extra path substrings to skip.
    pub excludes: Vec<String>,
    /// How findings are rendered.
    pub output: OutputArgs,
}

/// A command line.
#[derive(Debug)]
pub struct Cli {
    /// The command.
    pub command: Command,
}

// ---------------------------------------------------------------------- exchanges

/// Something to ask of the world.
#[derive(Debug)]
pub enum Request {
    /// The configuration in the file that [`Config::locate`] finds, or the default one
    /// where it finds none.
    Config {
        /// The file that was asked for.
        explicit: Option<String>,
        /// Where to look for one otherwise, on upwards.
        start: String,
    },
    /// The files of a tree.
    Files(WalkOptions),
    /// A report in a file.
    ReadReport(String),
    /// Write a report to a file, or print it.
    WriteReport {
        /// The file, if it is to be one.
        path: Option<String>,
        /// The report.
        report: Report,
    },
    /// Write some texts, in order.
    Act(Vec<Action>),
    /// Run `git`.
    Git {
        /// The directory to run it in.
        dir: String,
        /// Its arguments.
        args: Vec<String>,
    },
    /// Run `git`, having left a note on standard error.
    NotedGit {
        /// The note.
        note: String,
        /// The directory to run it in.
        dir: String,
        /// Its arguments.
        args: Vec<String>,
    },
    /// Where paths, and a repository's root, lead, with symlinks and `..` resolved.
    Resolve {
        /// The paths.
        paths: Vec<String>,
        /// The root.
        root: String,
    },
    /// A place among temporary files to check the merge-base of the repository with
    /// this root out into.
    Place(String),
}

/// What came of a request.
#[derive(Debug)]
pub enum Event {
    /// A configuration.
    Config(Result<Config, ConfigError>),
    /// The files of a tree.
    Files(Result<Vec<ReadFile>, CliError>),
    /// A report.
    Report(Result<Report, ReportError>),
    /// Writing went through, or did not.
    Written(Result<(), CliError>),
    /// How running `git` went.
    Git(Outcome),
    /// Where paths and a root lead.
    Resolved {
        /// The paths, each with where it leads.
        paths: Vec<GivenPath>,
        /// The root.
        root: String,
    },
    /// A place among temporary files.
    Place {
        /// The place.
        path: String,
        /// Whether there is something there.
        exists: bool,
    },
}

/// An event is of the kind that a request is answered by.
pub open spec fn answers(request: Request, event: Event) -> bool {
    match request {
        Request::Config { .. } => event is Config,
        Request::Files(_) => event is Files,
        Request::ReadReport(_) => event is Report,
        Request::WriteReport { .. } => event is Written,
        Request::Act(_) => event is Written,
        Request::Git { .. } => event is Git,
        Request::NotedGit { .. } => event is Git,
        Request::Resolve { .. } => event is Resolved,
        Request::Place(_) => event is Place,
    }
}

// ------------------------------------------------------------------------- stages

/// What `ci` knows once it has its configuration.
#[derive(Debug)]
pub struct Task {
    /// What to compare, and how.
    pub job: CiJob,
    /// The repository.
    pub repo: Repo,
    /// The configuration.
    pub config: Config,
}

/// How far a command has come.
#[derive(Debug)]
pub enum Stage {
    /// `scan`, waiting for the configuration.
    ScanConfig {
        /// Paths to scan.
        paths: Vec<String>,
        /// The tree's root.
        root: String,
        /// Where to write the report.
        out: Option<String>,
        /// Extra path substrings to skip.
        excludes: Vec<String>,
    },
    /// `scan`, waiting for the files.
    ScanFiles {
        /// The tree's root.
        root: String,
        /// Where to write the report.
        out: Option<String>,
        /// The configuration.
        config: Config,
    },
    /// `diff`, waiting for the configuration.
    DiffConfig {
        /// The head report's file.
        head: String,
        /// The base report's file.
        base: String,
        /// How findings are rendered.
        output: OutputArgs,
    },
    /// `diff`, waiting for the head report.
    DiffHead {
        /// The base report's file.
        base: String,
        /// How findings are rendered.
        output: OutputArgs,
        /// What counts as new.
        options: DeltaOptions,
    },
    /// `diff`, waiting for the base report.
    DiffBase {
        /// The head report.
        head: Report,
        /// How findings are rendered.
        output: OutputArgs,
        /// What counts as new.
        options: DeltaOptions,
    },
    /// `ci`, waiting for the repository.
    CiRepo {
        /// What to compare, and how.
        job: CiJob,
        /// Where the repository is looked for.
        start: String,
        /// Configuration file.
        config: Option<String>,
    },
    /// `ci`, waiting for the configuration.
    CiConfig {
        /// What to compare, and how.
        job: CiJob,
        /// The repository.
        repo: Repo,
    },
    /// `ci`, waiting for the commit that is checked out.
    CiHead(Task),
    /// `ci`, waiting for the base commit.
    CiBase {
        /// What is known.
        task: Task,
        /// The commit that is checked out.
        head: String,
    },
    /// `ci`, waiting for the base commit under its remote-tracking name.
    CiFallback {
        /// What is known.
        task: Task,
        /// The commit that is checked out.
        head: String,
        /// git's failure for the base as given.
        source: GitError,
    },
    /// `ci`, waiting for the merge-base.
    CiMergeBase {
        /// What is known.
        task: Task,
        /// The base commit.
        base: String,
        /// The commit that is checked out.
        head: String,
    },
    /// `ci`, waiting to hear where the paths lead.
    CiPaths {
        /// What is known.
        task: Task,
        /// The merge-base.
        merge_base: String,
    },
    /// `ci`, waiting for the files of the working tree.
    CiHeadFiles {
        /// What is known.
        task: Task,
        /// The merge-base.
        merge_base: String,
        /// The paths to scan, relative to either tree's root.
        relative: Vec<String>,
    },
    /// `ci`, waiting for the head report to be written.
    CiHeadReport {
        /// What is known.
        task: Task,
        /// The merge-base.
        merge_base: String,
        /// The paths to scan, relative to either tree's root.
        relative: Vec<String>,
        /// The head report.
        head: Report,
    },
    /// `ci`, waiting for a place to check the merge-base out into.
    CiPlace {
        /// What is known.
        task: Task,
        /// The merge-base.
        merge_base: String,
        /// The paths to scan, relative to either tree's root.
        relative: Vec<String>,
        /// The head report.
        head: Report,
    },
    /// `ci`, checking the merge-base out.
    CiCheckout {
        /// What is known.
        task: Task,
        /// The merge-base.
        merge_base: String,
        /// The paths to scan, relative to either tree's root.
        relative: Vec<String>,
        /// The head report.
        head: Report,
        /// Where the merge-base is checked out into.
        path: String,
        /// The commands still to be run, the next one last.
        rest: Vec<Vec<String>>,
    },
    /// `ci`, waiting for the files of the merge-base.
    CiBaseFiles {
        /// What is known.
        task: Task,
        /// The head report.
        head: Report,
        /// The worktree of the merge-base.
        worktree: Worktree,
    },
    /// `ci`, waiting for the worktree to be removed.
    CiRemove {
        /// What is known.
        task: Task,
        /// The head report.
        head: Report,
        /// The base report.
        base: Report,
        /// The worktree of the merge-base.
        worktree: Worktree,
    },
    /// `ci`, clearing up after a failure.
    CiAbandon(CliError),
    /// Everything is decided; the last texts are being written.
    Last {
        /// The number of findings.
        count: usize,
    },
}

/// What follows.
#[derive(Debug)]
pub enum Step {
    /// Ask something of the world, and go on from a stage with the answer.
    Ask(Request, Stage),
    /// The command is over: the number of findings, which is *not* an exit status —
    /// this tool warns and never fails a build — or what stopped it.
    Finished(Result<usize, CliError>),
}

/// An event is of the kind that a stage waits for.
pub open spec fn fits(stage: Stage, event: Event) -> bool {
    match stage {
        Stage::ScanConfig { .. } => event is Config,
        Stage::ScanFiles { .. } => event is Files,
        Stage::DiffConfig { .. } => event is Config,
        Stage::DiffHead { .. } => event is Report,
        Stage::DiffBase { .. } => event is Report,
        Stage::CiRepo { .. } => event is Git,
        Stage::CiConfig { .. } => event is Config,
        Stage::CiHead(_) => event is Git,
        Stage::CiBase { .. } => event is Git,
        Stage::CiFallback { .. } => event is Git,
        Stage::CiMergeBase { .. } => event is Git,
        Stage::CiPaths { .. } => event is Resolved,
        Stage::CiHeadFiles { .. } => event is Files,
        Stage::CiHeadReport { .. } => event is Written,
        Stage::CiPlace { .. } => event is Place,
        Stage::CiCheckout { .. } => event is Git,
        Stage::CiBaseFiles { .. } => event is Files,
        Stage::CiRemove { .. } => event is Git,
        Stage::CiAbandon(_) => event is Git,
        Stage::Last { .. } => event is Written,
    }
}

/// A stage works with a configuration that is valid.
pub open spec fn sound(stage: Stage) -> bool {
    match stage {
        Stage::ScanFiles { root, out, config } => config@.valid(),
        Stage::CiHead(task) => task.config@.valid(),
        Stage::CiBase { task, head } => task.config@.valid(),
        Stage::CiFallback { task, head, source } => task.config@.valid(),
        Stage::CiMergeBase { task, base, head } => task.config@.valid(),
        Stage::CiPaths { task, merge_base } => task.config@.valid(),
        Stage::CiHeadFiles { task, merge_base, relative } => task.config@.valid(),
        Stage::CiHeadReport { task, merge_base, relative, head } => task.config@.valid(),
        Stage::CiPlace { task, merge_base, relative, head } => task.config@.valid(),
        Stage::CiCheckout { task, merge_base, relative, head, path, rest } => task.config@.valid(),
        Stage::CiBaseFiles { task, head, worktree } => task.config@.valid(),
        Stage::CiRemove { task, head, base, worktree } => task.config@.valid(),
        _ => true,
    }
}

/// A step can be gone on from: whatever its request is answered by is what its stage
/// waits for.
pub open spec fn proper(step: Step) -> bool {
    match step {
        Step::Ask(request, stage) => {
            &&& sound(stage)
            &&& forall|event: Event| #[trigger] answers(request, event) ==> fits(stage, event)
        },
        Step::Finished(_) => true,
    }
}

// --------------------------------------------------------------- what follows what

/// A step that stops with an error.
pub open spec fn stops(step: Step, e: CliError) -> bool {
    step == Step::Finished(Err::<usize, CliError>(e))
}

/// A step that asks for the configuration.
pub open spec fn asks_config(request: Request, explicit: Option<String>, start: Seq<char>) -> bool {
    request matches Request::Config { explicit: e, start: s } && e == explicit && s@ == start
}

/// A step that runs `git`.
pub open spec fn runs_git(request: Request, root: Seq<char>, words: Seq<Seq<char>>) -> bool {
    request matches Request::Git { dir, args } && dir@ == root && views(args@) == words
}

/// A step that asks for the files of a tree.
pub open spec fn asks_files(
    request: Request,
    root: Seq<char>,
    paths: Seq<Seq<char>>,
    config: ConfigView,
    excludes: Seq<Seq<char>>,
) -> bool {
    request matches Request::Files(o) && views(o.roots@) == (if paths.len() == 0 {
        seq![root]
    } else {
        paths
    }) && views(o.excludes@) == config.excludes + excludes && o.respect_gitignore
        && !o.follow_symlinks && o.max_file_bytes is None
}

/// A step that emits a delta and ends with its count.
pub open spec fn emits(
    step: Step,
    head: ReportView,
    base: ReportView,
    options: DeltaOptions,
    output: OutputArgs,
) -> bool {
    step matches Step::Ask(Request::Act(actions), Stage::Last { count }) && views(actions@)
        == emission(delta_of(head, base, options), output) && count == delta_of(
        head,
        base,
        options,
    ).count()
}

/// A report is that of a tree's files.
pub open spec fn scanned(
    report: ReportView,
    root: Seq<char>,
    files: Seq<ReadFile>,
    config: ConfigView,
) -> bool {
    is_scan_report(report, found_in_files(sources_of(files, root), config))
}

/// A configuration that will do, or the complaint about it.
pub open spec fn config_stops(r: Result<Config, ConfigError>, step: Step) -> bool {
    match r {
        Err(e) => stops(step, CliError::Config(e)),
        Ok(c) => match c@.complaint() {
            Some(m) => step matches Step::Finished(Err(CliError::Config(ConfigError::Invalid(s))))
                && s@ == m,
            None => false,
        },
    }
}

/// `git` refused, and the command stops with that.
pub open spec fn git_stops(step: Step, e: GitErrorView) -> bool {
    step matches Step::Finished(Err(CliError::Git(g))) && g@ == e
}

fn start_emit(head: &Report, base: &Report, options: &DeltaOptions, output: &OutputArgs) -> (step: Step)
    ensures
        emits(step, head@, base@, *options, *output),
        proper(step),
{
    let delta = Delta::compute(head, base, options);
    let count: usize = delta.finding_count();
    Step::Ask(Request::Act(emit(&delta, output)), Stage::Last { count })
}

/// The configuration, if it is valid.
fn usable(r: Result<Config, ConfigError>) -> (c: Result<Config, ConfigError>)
    ensures
        match c {
            Ok(c) => r == Ok::<Config, ConfigError>(c) && c@.valid(),
            Err(e) => config_stops(r, Step::Finished(Err(CliError::Config(e)))),
        },
{
    match r {
        Err(e) => Err(e),
        Ok(config) => match config.validate() {
            Ok(()) => Ok(config),
            Err(e) => Err(e),
        },
    }
}

impl Cli {
    /// The first step of the command.
    pub fn run(self) -> (step: Step)
        ensures
            proper(step),
            match self.command {
                Command::Languages => step matches Step::Ask(
                    Request::Act(actions),
                    Stage::Last { count },
                ) && count == 0 && views(actions@) == registry().map_values(
                    |l: LanguageView| ActionView::Print(language_line(l) + "\n"@),
                ),
                Command::Scan { paths, root, out, excludes, config } => step matches Step::Ask(
                    request,
                    stage,
                ) && asks_config(request, config, root@) && stage == (Stage::ScanConfig {
                    paths,
                    root,
                    out,
                    excludes,
                }),
                Command::Diff { head, base, output, config } => step matches Step::Ask(
                    request,
                    stage,
                ) && asks_config(request, config, "."@) && stage == (Stage::DiffConfig {
                    head,
                    base,
                    output,
                }),
                Command::Ci { job, config } => step matches Step::Ask(
                    request,
                    Stage::CiRepo { job: j, start, config: c },
                ) && j == job && c == config && start@ == (if job.paths@.len() > 0 {
                    job.paths@[0]@
                } else {
                    "."@
                }) && runs_git(request, start@, discover_words()),
            },
    {
        match self.command {
            Command::Languages => {
                let lines = language_lines();
                let ghost goal = registry().map_values(
                    |l: LanguageView| ActionView::Print(language_line(l) + "\n"@),
                );
                let mut actions: Vec<Action> = Vec::new();
                let mut i: usize = 0;
                while i < lines.len()
                    invariant
                        i <= lines@.len(),
                        views(lines@) == registry().map_values(|l: LanguageView| language_line(l)),
                        goal == registry().map_values(
                            |l: LanguageView| ActionView::Print(language_line(l) + "\n"@),
                        ),
                        views(actions@) == goal.take(i as int),
                    decreases lines.len() - i,
                {
                    let ghost before = views(actions@);
                    let mut line = lines[i].clone();
                    line.append("\n");
                    let ghost shown = line@;
                    actions.push(Action::Print(line));
                    proof {
                        assert(views(lines@).len() == registry().len());
                        assert(views(lines@)[i as int] == lines@[i as int]@);
                        assert(goal[i as int] == ActionView::Print(shown));
                        assert(views(actions@) =~= before.push(ActionView::Print(shown)));
                        assert(views(actions@) =~= goal.take(i + 1));
                    }
                    i += 1;
                }
                assert(views(lines@).len() == registry().len());
                assert(goal.take(i as int) =~= goal);
                Step::Ask(Request::Act(actions), Stage::Last { count: 0 })
            },
            Command::Scan { paths, root, out, excludes, config } => {
                let start = root.clone();
                Step::Ask(
                    Request::Config { explicit: config, start },
                    Stage::ScanConfig { paths, root, out, excludes },
                )
            },
            Command::Diff { head, base, output, config } => {
                let start = ".".to_owned();
                Step::Ask(
                    Request::Config { explicit: config, start },
                    Stage::DiffConfig { head, base, output },
                )
            },
            Command::Ci { job, config } => {
                let start = default_scan_root(job.paths.as_slice());
                let dir = start.clone();
                Step::Ask(
                    Request::Git { dir, args: Repo::discover_args() },
                    Stage::CiRepo { job, start, config },
                )
            },
        }
    }
}

/// What follows an event at a stage.
pub open spec fn follows(stage: Stage, event: Event, step: Step) -> bool {
    match (stage, event) {
        (Stage::ScanConfig { paths, root, out, excludes }, Event::Config(r)) => {
            ||| config_stops(r, step)
            ||| r matches Ok(config) && config@.valid() && (step matches Step::Ask(request, next)
                && asks_files(request, root@, views(paths@), config@, views(excludes@)) && next == (
            Stage::ScanFiles { root, out, config }))
        },
        (Stage::ScanFiles { root, out, config }, Event::Files(r)) => match r {
            Err(e) => stops(step, e),
            Ok(files) => step matches Step::Ask(
                Request::WriteReport { path, report },
                Stage::Last { count },
            ) && path == out && scanned(report@, root@, files@, config@) && count == sum_of_three(
                report@.clones.len(),
                report@.vocab.len(),
                report@.blocks.len(),
            ),
        },
        (Stage::DiffConfig { head, base, output }, Event::Config(r)) => {
            ||| config_stops(r, step)
            ||| r matches Ok(config) && config@.valid() && step == Step::Ask(
                Request::ReadReport(head),
                Stage::DiffHead { base, output, options: options_of(config@) },
            )
        },
        (Stage::DiffHead { base, output, options }, Event::Report(r)) => match r {
            Err(e) => stops(step, CliError::Report(e)),
            Ok(head) => step == Step::Ask(
                Request::ReadReport(base),
                Stage::DiffBase { head, output, options },
            ),
        },
        (Stage::DiffBase { head, output, options }, Event::Report(r)) => match r {
            Err(e) => stops(step, CliError::Report(e)),
            Ok(base) => emits(step, head@, base@, options, output),
        },
        (Stage::CiRepo { job, start, config }, Event::Git(outcome)) => match answer(
            discover_words(),
            outcome,
        ) {
            Err(GitErrorView::CommandFailed(_, _, _)) => git_stops(
                step,
                GitErrorView::NotARepository(start@),
            ),
            Err(e) => git_stops(step, e),
            Ok(top) => step matches Step::Ask(request, Stage::CiConfig { job: j, repo }) && j == job
                && repo@ == top && asks_config(request, config, top),
        },
        (Stage::CiConfig { job, repo }, Event::Config(r)) => {
            ||| config_stops(r, step)
            ||| r matches Ok(config) && config@.valid() && (step matches Step::Ask(request, next)
                && runs_git(request, repo@, resolve_words("HEAD"@)) && next == Stage::CiHead(
                Task { job, repo, config },
            ))
        },
        (Stage::CiHead(task), Event::Git(outcome)) => match answer(
            resolve_words("HEAD"@),
            outcome,
        ) {
            Err(e) => git_stops(step, e),
            Ok(commit) => step matches Step::Ask(request, Stage::CiBase { task: t, head }) && t
                == task && head@ == commit && runs_git(
                request,
                task.repo@,
                resolve_words(task.job.base@),
            ),
        },
        (Stage::CiBase { task, head }, Event::Git(outcome)) => match answer(
            resolve_words(task.job.base@),
            outcome,
        ) {
            Ok(commit) => asks_merge_base(step, task, commit, head),
            Err(e) => step matches Step::Ask(
                request,
                Stage::CiFallback { task: t, head: h, source },
            ) && t == task && h == head && source@ == e && runs_git(
                request,
                task.repo@,
                resolve_words(tracking_name(task.job.base@)),
            ),
        },
        (Stage::CiFallback { task, head, source }, Event::Git(outcome)) => match answer(
            resolve_words(tracking_name(task.job.base@)),
            outcome,
        ) {
            Ok(commit) => step matches Step::Ask(
                Request::NotedGit { note, dir, args },
                Stage::CiMergeBase { task: t, base, head: h },
            ) && note@ == "dupdelta: note: base '"@ + task.job.base@
                + "' does not resolve; using remote-tracking ref '"@ + tracking_name(task.job.base@)
                + "'"@ && dir@ == task.repo@ && views(args@) == merge_base_words(commit, head@)
                && t == task && base@ == commit && h == head,
            Err(_) => step matches Step::Finished(
                Err(CliError::UnresolvableBase { base, source: s }),
            ) && base@ == task.job.base@ && s == source,
        },
        (Stage::CiMergeBase { task, base, head }, Event::Git(outcome)) => match answer(
            merge_base_words(base@, head@),
            outcome,
        ) {
            Err(e) => git_stops(step, e),
            Ok(commit) => step matches Step::Ask(
                Request::Resolve { paths, root },
                Stage::CiPaths { task: t, merge_base },
            ) && views(paths@) == views(task.job.paths@) && root@ == task.repo@ && t == task
                && merge_base@ == commit,
        },
        (Stage::CiPaths { task, merge_base }, Event::Resolved { paths, root }) => {
            let at = first_outside(paths@, root@, 0);
            if at < paths@.len() {
                step matches Step::Finished(Err(CliError::PathOutsideRepository { path, root: r }))
                    && path@ == paths@[at].given@ && r@ == root@
            } else {
                step matches Step::Ask(
                    request,
                    Stage::CiHeadFiles { task: t, merge_base: m, relative },
                ) && t == task && m == merge_base && relative_to(relative@, paths@, root@)
                    && asks_files(
                    request,
                    task.repo@,
                    inside(task.repo@, views(relative@)),
                    task.config@,
                    views(task.job.excludes@),
                )
            }
        },
        (Stage::CiHeadFiles { task, merge_base, relative }, Event::Files(r)) => match r {
            Err(e) => stops(step, e),
            Ok(files) => match task.job.report {
                Some(to) => step matches Step::Ask(
                    Request::WriteReport { path, report },
                    Stage::CiHeadReport { task: t, merge_base: m, relative: l, head },
                ) && path matches Some(p) && p@ == to@ && report@ == head@ && scanned(
                    head@,
                    task.repo@,
                    files@,
                    task.config@,
                ) && t == task && m == merge_base && l == relative,
                None => step matches Step::Ask(
                    Request::Place(name),
                    Stage::CiPlace { task: t, merge_base: m, relative: l, head },
                ) && name@ == task.repo@ && scanned(
                    head@,
                    task.repo@,
                    files@,
                    task.config@,
                ) && t == task && m == merge_base && l == relative,
            },
        },
        (Stage::CiHeadReport { task, merge_base, relative, head }, Event::Written(r)) => match r {
            Err(e) => stops(step, e),
            Ok(()) => step matches Step::Ask(Request::Place(name), next) && name@ == task.repo@
                && next == (Stage::CiPlace { task, merge_base, relative, head }),
        },
        (Stage::CiPlace { task, merge_base, relative, head }, Event::Place { path, exists }) => {
            step matches Step::Ask(
                request,
                Stage::CiCheckout { task: t, merge_base: m, relative: l, head: h, path: p, rest },
            ) && t == task && m == merge_base && l == relative && h == head && p == path && (
            if exists {
                runs_git(request, task.repo@, remove_words(path@)) && command_views(rest@) == seq![
                    add_words(path@, merge_base@),
                    prune_words(),
                ]
            } else {
                runs_git(request, task.repo@, add_words(path@, merge_base@)) && rest@.len() == 0
            })
        },
        (
            Stage::CiCheckout { task, merge_base, relative, head, path, rest },
            Event::Git(outcome),
        ) => if rest@.len() > 0 {
            step matches Step::Ask(
                request,
                Stage::CiCheckout { task: t, merge_base: m, relative: l, head: h, path: p, rest: r },
            ) && t == task && m == merge_base && l == relative && h == head && p == path && r@
                == rest@.drop_last() && runs_git(request, task.repo@, views(rest@.last()@))
        } else {
            match answer(add_words(path@, merge_base@), outcome) {
                Err(e) => git_stops(step, e),
                Ok(_) => step matches Step::Ask(
                    request,
                    Stage::CiBaseFiles { task: t, head: h, worktree },
                ) && t == task && h == head && worktree@.path == path@ && worktree@.repo_root
                    == task.repo@ && asks_files(
                    request,
                    path@,
                    inside(path@, views(relative@)),
                    task.config@,
                    views(task.job.excludes@),
                ),
            }
        },
        (Stage::CiBaseFiles { task, head, worktree }, Event::Files(r)) => step matches Step::Ask(
            request,
            next,
        ) && runs_git(request, worktree@.repo_root, remove_words(worktree@.path)) && (match r {
            Err(e) => next == Stage::CiAbandon(e),
            Ok(files) => next matches Stage::CiRemove { task: t, head: h, base, worktree: w } && t
                == task && h == head && w == worktree && scanned(
                base@,
                worktree@.path,
                files@,
                task.config@,
            ),
        }),
        (Stage::CiRemove { task, head, base, worktree }, Event::Git(outcome)) => match answer(
            remove_words(worktree@.path),
            outcome,
        ) {
            Err(e) => step matches Step::Ask(request, Stage::CiAbandon(CliError::Git(g))) && g@ == e
                && runs_git(request, worktree@.repo_root, remove_words(worktree@.path)),
            Ok(_) => emits(step, head@, base@, options_of(task.config@), task.job.output),
        },
        (Stage::CiAbandon(e), Event::Git(_)) => stops(step, e),
        (Stage::Last { count }, Event::Written(r)) => match r {
            Err(e) => stops(step, e),
            Ok(()) => step == Step::Finished(Ok::<usize, CliError>(count)),
        },
        _ => true,
    }
}

/// A step that asks for the merge-base.
pub open spec fn asks_merge_base(step: Step, task: Task, commit: Seq<char>, head: String) -> bool {
    step matches Step::Ask(request, Stage::CiMergeBase { task: t, base, head: h }) && t == task
        && base@ == commit && h == head && runs_git(
        request,
        task.repo@,
        merge_base_words(commit, head@),
    )
}

/// A list of paths within a repository.
pub open spec fn relative_to(list: Seq<String>, paths: Seq<GivenPath>, root: Seq<char>) -> bool {
    &&& list.len() == paths.len()
    &&& forall|i: int|
        0 <= i < list.len() ==> within_repository(paths[i], root) == Some((#[trigger] list[i])@)
}

/// Relative paths, inside a tree.
pub open spec fn inside(root: Seq<char>, relative: Seq<Seq<char>>) -> Seq<Seq<char>> {
    relative.map_values(|p: Seq<char>| joined(root, p))
}

fn ask_files(
    root: &str,
    paths: &[String],
    config: &Config,
    excludes: &[String],
) -> (request: Request)
    ensures
        asks_files(request, root@, views(paths@), config@, views(excludes@)),
        request is Files,
{
    Request::Files(walk_options(root, paths, config, excludes))
}

fn ask_git(root: &str, args: Vec<String>) -> (request: Request)
    ensures
        runs_git(request, root@, views(args@)),
        request is Git,
{
    Request::Git { dir: root.to_owned(), args }
}

/// `ci`, once it is known where the paths lead.
fn after_paths(task: Task, merge_base: String, paths: Vec<GivenPath>, root: String) -> (step: Step)
    requires
        task.config@.valid(),
    ensures
        follows(Stage::CiPaths { task, merge_base }, Event::Resolved { paths, root }, step),
        proper(step),
{
    match repo_relative_paths(paths.as_slice(), root.as_str()) {
        Err(e) => Step::Finished(Err(e)),
        Ok(relative) => {
            let roots = paths_in_tree(task.repo.root(), relative.as_slice());
            assert(views(roots@) =~= inside(task.repo@, views(relative@)));
            let request = ask_files(
                task.repo.root(),
                roots.as_slice(),
                &task.config,
                task.job.excludes.as_slice(),
            );
            Step::Ask(request, Stage::CiHeadFiles { task, merge_base, relative })
        },
    }
}

/// `ci`, once the working tree's files have been read.
fn after_head_files(
    task: Task,
    merge_base: String,
    relative: Vec<String>,
    files: Vec<ReadFile>,
) -> (step: Step)
    requires
        task.config@.valid(),
    ensures
        follows(
            Stage::CiHeadFiles { task, merge_base, relative },
            Event::Files(Ok(files)),
            step,
        ),
        proper(step),
{
    let head = scan_tree(task.repo.root(), files, &task.config);
    let to = match &task.job.report {
        Some(path) => Some(path.clone()),
        None => None,
    };
    match to {
        Some(path) => {
            let report = head.clone();
            Step::Ask(
                Request::WriteReport { path: Some(path), report },
                Stage::CiHeadReport { task, merge_base, relative, head },
            )
        },
        None => {
            let root = task.repo.root().to_owned();
            Step::Ask(Request::Place(root), Stage::CiPlace { task, merge_base, relative, head })
        },
    }
}

/// `ci`, once there is a place for the merge-base.
fn after_place(
    task: Task,
    merge_base: String,
    relative: Vec<String>,
    head: Report,
    path: String,
    exists: bool,
) -> (step: Step)
    requires
        task.config@.valid(),
    ensures
        follows(
            Stage::CiPlace { task, merge_base, relative, head },
            Event::Place { path, exists },
            step,
        ),
        proper(step),
{
    let commands = Repo::worktree_commands(path.as_str(), merge_base.as_str(), exists);
    let ghost all = command_views(commands@);
    assert(all.len() == commands@.len());
    let mut left = commands;
    let mut rest: Vec<Vec<String>> = Vec::new();
    // The next command to run comes to stand last.
    while left.len() > 1
        invariant
            1 <= left@.len() <= all.len(),
            command_views(left@) == all.take(left@.len() as int),
            command_views(rest@) == all.skip(left@.len() as int).reverse(),
        decreases left.len(),
    {
        let ghost n = left@.len() as int;
        let ghost held = command_views(rest@);
        if let Some(command) = left.pop() {
            proof {
                assert(views(command@) == all.take(n)[n - 1]);
                assert(command_views(left@) =~= all.take(n - 1));
            }
            rest.push(command);
            proof {
                assert(command_views(rest@) =~= held.push(all[n - 1]));
                assert(all.skip(n - 1).reverse() =~= all.skip(n).reverse().push(all[n - 1]));
            }
        }
    }
    let first = left.swap_remove(0);
    proof {
        assert(views(first@) == all.take(1)[0]);
        assert(all.skip(1).reverse() =~= command_views(rest@));
        if exists {
            assert(command_views(rest@) =~= seq![add_words(path@, merge_base@), prune_words()]);
        } else {
            assert(command_views(rest@).len() == 0);
        }
    }
    let request = ask_git(task.repo.root(), first);
    Step::Ask(request, Stage::CiCheckout { task, merge_base, relative, head, path, rest })
}

/// `ci`, once a command of the checkout has run.
fn after_checkout(
    task: Task,
    merge_base: String,
    relative: Vec<String>,
    head: Report,
    path: String,
    rest: Vec<Vec<String>>,
    outcome: Outcome,
) -> (step: Step)
    requires
        task.config@.valid(),
    ensures
        follows(
            Stage::CiCheckout { task, merge_base, relative, head, path, rest },
            Event::Git(outcome),
            step,
        ),
        proper(step),
{
    let mut rest = rest;
    match rest.pop() {
        Some(command) => {
            let request = ask_git(task.repo.root(), command);
            Step::Ask(request, Stage::CiCheckout { task, merge_base, relative, head, path, rest })
        },
        None => match task.repo.add_detached_worktree(path.as_str(), merge_base.as_str(), outcome) {
            Err(e) => Step::Finished(Err(CliError::Git(e))),
            Ok(worktree) => {
                let roots = paths_in_tree(path.as_str(), relative.as_slice());
                assert(views(roots@) =~= inside(path@, views(relative@)));
                let request = ask_files(
                    path.as_str(),
                    roots.as_slice(),
                    &task.config,
                    task.job.excludes.as_slice(),
                );
                Step::Ask(request, Stage::CiBaseFiles { task, head, worktree })
            },
        },
    }
}

/// `ci`, once the base has been looked for as given.
fn after_base(task: Task, head: String, outcome: Outcome) -> (step: Step)
    requires
        task.config@.valid(),
    ensures
        follows(Stage::CiBase { task, head }, Event::Git(outcome), step),
        proper(step),
{
    let resolved = task.repo.resolve(task.job.base.as_str(), outcome);
    match base_as_given(task.job.base.as_str(), resolved) {
        BaseStep::Resolved(base) => {
            let request = ask_git(
                task.repo.root(),
                Repo::merge_base_args(base.as_str(), head.as_str()),
            );
            Step::Ask(request, Stage::CiMergeBase { task, base, head })
        },
        BaseStep::TryInstead { revision, source } => {
            let request = ask_git(task.repo.root(), Repo::resolve_args(revision.as_str()));
            Step::Ask(request, Stage::CiFallback { task, head, source })
        },
    }
}

/// `ci`, once the base has been looked for among the remote-tracking branches.
fn after_fallback(task: Task, head: String, source: GitError, outcome: Outcome) -> (step: Step)
    requires
        task.config@.valid(),
    ensures
        follows(Stage::CiFallback { task, head, source }, Event::Git(outcome), step),
        proper(step),
{
    let mut revision = "origin/".to_owned();
    revision.append(task.job.base.as_str());
    let resolved = task.repo.resolve(revision.as_str(), outcome);
    match resolve_base(task.job.base.as_str(), source, resolved) {
        Err(e) => Step::Finished(Err(e)),
        Ok((base, note)) => {
            let dir = task.repo.root().to_owned();
            let args = Repo::merge_base_args(base.as_str(), head.as_str());
            Step::Ask(
                Request::NotedGit { note, dir, args },
                Stage::CiMergeBase { task, base, head },
            )
        },
    }
}

impl Stage {
    /// What follows from the answer to the last request.
    #[verifier::rlimit(60)]
    pub fn next(self, event: Event) -> (step: Step)
        requires
            fits(self, event),
            sound(self),
        ensures
            follows(self, event, step),
            proper(step),
    {
        match (self, event) {
            (Stage::ScanConfig { paths, root, out, excludes }, Event::Config(r)) => match usable(r) {
                Err(e) => Step::Finished(Err(CliError::Config(e))),
                Ok(config) => {
                    let request = ask_files(
                        root.as_str(),
                        paths.as_slice(),
                        &config,
                        excludes.as_slice(),
                    );
                    Step::Ask(request, Stage::ScanFiles { root, out, config })
                },
            },
            (Stage::ScanFiles { root, out, config }, Event::Files(r)) => match r {
                Err(e) => Step::Finished(Err(e)),
                Ok(files) => {
                    let report = scan_tree(root.as_str(), files, &config);
                    let count: usize = report.finding_count();
                    Step::Ask(Request::WriteReport { path: out, report }, Stage::Last { count })
                },
            },
            (Stage::DiffConfig { head, base, output }, Event::Config(r)) => match usable(r) {
                Err(e) => Step::Finished(Err(CliError::Config(e))),
                Ok(config) => {
                    let options = delta_options(&config);
                    Step::Ask(Request::ReadReport(head), Stage::DiffHead { base, output, options })
                },
            },
            (Stage::DiffHead { base, output, options }, Event::Report(r)) => match r {
                Err(e) => Step::Finished(Err(CliError::Report(e))),
                Ok(head) => Step::Ask(
                    Request::ReadReport(base),
                    Stage::DiffBase { head, output, options },
                ),
            },
            (Stage::DiffBase { head, output, options }, Event::Report(r)) => match r {
                Err(e) => Step::Finished(Err(CliError::Report(e))),
                Ok(base) => start_emit(&head, &base, &options, &output),
            },
            (Stage::CiRepo { job, start, config }, Event::Git(outcome)) => match Repo::discover(
                start.as_str(),
                outcome,
            ) {
                Err(e) => Step::Finished(Err(CliError::Git(e))),
                Ok(repo) => {
                    let start = repo.root().to_owned();
                    Step::Ask(
                        Request::Config { explicit: config, start },
                        Stage::CiConfig { job, repo },
                    )
                },
            },
            (Stage::CiConfig { job, repo }, Event::Config(r)) => match usable(r) {
                Err(e) => Step::Finished(Err(CliError::Config(e))),
                Ok(config) => {
                    let request = ask_git(repo.root(), Repo::resolve_args("HEAD"));
                    Step::Ask(request, Stage::CiHead(Task { job, repo, config }))
                },
            },
            (Stage::CiHead(task), Event::Git(outcome)) => match task.repo.resolve("HEAD", outcome) {
                Err(e) => Step::Finished(Err(CliError::Git(e))),
                Ok(head) => {
                    let request = ask_git(
                        task.repo.root(),
                        Repo::resolve_args(task.job.base.as_str()),
                    );
                    Step::Ask(request, Stage::CiBase { task, head })
                },
            },
            (Stage::CiBase { task, head }, Event::Git(outcome)) => after_base(task, head, outcome),
            (Stage::CiFallback { task, head, source }, Event::Git(outcome)) => after_fallback(
                task,
                head,
                source,
                outcome,
            ),
            (Stage::CiMergeBase { task, base, head }, Event::Git(outcome)) => match task.repo.merge_base(
                base.as_str(),
                head.as_str(),
                outcome,
            ) {
                Err(e) => Step::Finished(Err(CliError::Git(e))),
                Ok(merge_base) => {
                    let paths = cloned_all(&task.job.paths);
                    let root = task.repo.root().to_owned();
                    Step::Ask(Request::Resolve { paths, root }, Stage::CiPaths { task, merge_base })
                },
            },
            (Stage::CiPaths { task, merge_base }, Event::Resolved { paths, root }) => after_paths(
                task,
                merge_base,
                paths,
                root,
            ),
            (Stage::CiHeadFiles { task, merge_base, relative }, Event::Files(r)) => match r {
                Err(e) => Step::Finished(Err(e)),
                Ok(files) => after_head_files(task, merge_base, relative, files),
            },
            (Stage::CiHeadReport { task, merge_base, relative, head }, Event::Written(r)) => match r {
                Err(e) => Step::Finished(Err(e)),
                Ok(()) => {
                    let root = task.repo.root().to_owned();
                    Step::Ask(
                        Request::Place(root),
                        Stage::CiPlace { task, merge_base, relative, head },
                    )
                },
            },
            (
                Stage::CiPlace { task, merge_base, relative, head },
                Event::Place { path, exists },
            ) => after_place(task, merge_base, relative, head, path, exists),
            (
                Stage::CiCheckout { task, merge_base, relative, head, path, rest },
                Event::Git(outcome),
            ) => after_checkout(task, merge_base, relative, head, path, rest, outcome),
            (Stage::CiBaseFiles { task, head, worktree }, Event::Files(r)) => {
                let request = ask_git(worktree.repo_root(), worktree.remove_args());
                match r {
                    Err(e) => Step::Ask(request, Stage::CiAbandon(e)),
                    Ok(files) => {
                        let base = scan_tree(worktree.path(), files, &task.config);
                        Step::Ask(request, Stage::CiRemove { task, head, base, worktree })
                    },
                }
            },
            (Stage::CiRemove { task, head, base, worktree }, Event::Git(outcome)) => {
                let again = ask_git(worktree.repo_root(), worktree.remove_args());
                match worktree.remove(outcome) {
                    Err(e) => Step::Ask(again, Stage::CiAbandon(CliError::Git(e))),
                    Ok(()) => start_emit(
                        &head,
                        &base,
                        &delta_options(&task.config),
                        &task.job.output,
                    ),
                }
            },
            (Stage::CiAbandon(e), Event::Git(_)) => Step::Finished(Err(e)),
            (Stage::Last { count }, Event::Written(r)) => match r {
                Err(e) => Step::Finished(Err(e)),
                Ok(()) => Step::Finished(Ok(count)),
            },
            _ => unreached(),
        }
    }
}

// --------------------------------------------------------------------------- laws

/// An answer that a command can go on with.
pub open spec fn went_well(event: Event) -> bool {
    match event {
        Event::Config(r) => r matches Ok(config) && config@.valid(),
        Event::Files(r) => r is Ok,
        Event::Report(r) => r is Ok,
        Event::Written(r) => r is Ok,
        Event::Git(outcome) => outcome matches Outcome::Finished { status, .. } && status == Some(
            0i32,
        ),
        Event::Resolved { paths, root } => first_outside(paths@, root@, 0) >= paths@.len(),
        Event::Place { .. } => true,
    }
}

/// Findings never fail a run: while everything that is asked of the world goes well,
/// no command ends in an error, however much it finds.
pub proof fn lemma_findings_never_fail_a_run(stage: Stage, event: Event, step: Step)
    requires
        fits(stage, event),
        follows(stage, event, step),
        went_well(event),
        !(stage is CiAbandon),
    ensures
        !(step matches Step::Finished(Err(_))),
        step matches Step::Ask(_, next) ==> !(next is CiAbandon),
{
}

/// A failure is never passed over: what a command cannot go on with stops it with an
/// error, at once, or as soon as the worktree is cleared away. A base that does not
/// resolve is first looked for under its remote-tracking name, and a leftover
/// worktree need not be there to be cleared.
pub proof fn lemma_a_failure_stops_a_run(stage: Stage, event: Event, step: Step)
    requires
        fits(stage, event),
        follows(stage, event, step),
        !went_well(event),
        !(stage is CiBase),
        stage matches Stage::CiCheckout { rest, .. } ==> rest@.len() == 0,
    ensures
        step matches Step::Finished(Err(_)) || (step matches Step::Ask(_, next) && next is CiAbandon),
{
}

/// A worktree that was added is removed, whether or not its files can be read: from
/// the moment it stands, the next command is the one that removes it. What comes of
/// removing it does not change the error that made the command give up.
pub proof fn lemma_a_worktree_does_not_stay(stage: Stage, event: Event, step: Step)
    requires
        fits(stage, event),
        follows(stage, event, step),
    ensures
        stage matches Stage::CiBaseFiles { worktree, .. } ==> (step matches Step::Ask(request, _)
            && runs_git(request, worktree@.repo_root, remove_words(worktree@.path))),
        stage matches Stage::CiAbandon(e) ==> stops(step, e),
{
}

/// At most how many more answers a stage asks for, itself counted.
pub open spec fn answers_left(stage: Stage) -> nat {
    match stage {
        Stage::Last { .. } => 1,
        Stage::CiAbandon(_) => 1,
        Stage::CiRemove { .. } => 2,
        Stage::CiBaseFiles { .. } => 3,
        Stage::CiCheckout { rest, .. } => 4 + rest@.len(),
        Stage::CiPlace { .. } => 7,
        Stage::CiHeadReport { .. } => 8,
        Stage::CiHeadFiles { .. } => 9,
        Stage::CiPaths { .. } => 10,
        Stage::CiMergeBase { .. } => 11,
        Stage::CiFallback { .. } => 12,
        Stage::CiBase { .. } => 13,
        Stage::CiHead(_) => 14,
        Stage::CiConfig { .. } => 15,
        Stage::CiRepo { .. } => 16,
        Stage::DiffBase { .. } => 2,
        Stage::DiffHead { .. } => 3,
        Stage::DiffConfig { .. } => 4,
        Stage::ScanFiles { .. } => 2,
        Stage::ScanConfig { .. } => 3,
    }
}

/// Every command comes to an end: with each answer there are fewer left to ask for.
pub proof fn lemma_a_run_ends(stage: Stage, event: Event, step: Step)
    requires
        fits(stage, event),
        follows(stage, event, step),
    ensures
        step matches Step::Ask(_, next) ==> answers_left(next) < answers_left(stage),
        answers_left(stage) == 1 ==> step is Finished,
{
    if stage is CiPlace {
        let next = step->Ask_1;
        assert(command_views(next->CiCheckout_rest@).len() == next->CiCheckout_rest@.len());
    }
}

/// A request runs `git` in a directory with some words, with or without a note.
pub open spec fn puts_to_git(request: Request, at: Seq<char>, words: Seq<Seq<char>>) -> bool {
    ||| request matches Request::Git { dir, args } && dir@ == at && views(args@) == words
    ||| request matches Request::NotedGit { note, dir, args } && dir@ == at && views(args@) == words
}

/// An event is a run of `git` that went well and answers with a text.
pub open spec fn git_says(event: Event, text: Seq<char>) -> bool {
    event matches Event::Git(Outcome::Finished { status, stdout, .. }) && status == Some(0i32)
        && text == without_space(stdout@)
}

/// What `ci` compares with is the merge-base of the commit that is checked out and the
/// base, which is looked for under its remote-tracking name where it does not resolve; and
/// that very commit is the one that gets checked out.
pub proof fn lemma_the_merge_base_is_compared_with(
    stage: Stage,
    event: Event,
    step: Step,
    text: Seq<char>,
)
    requires
        fits(stage, event),
        follows(stage, event, step),
    ensures
        match stage {
            Stage::CiConfig { job, repo } => went_well(event) ==> (step matches Step::Ask(request, _)
                && puts_to_git(request, repo@, seq!["rev-parse"@, "HEAD"@ + "^{commit}"@])),
            Stage::CiHead(task) => git_says(event, text) ==> (step matches Step::Ask(
                request,
                Stage::CiBase { task: t, head },
            ) && t == task && head@ == text && puts_to_git(
                request,
                task.repo@,
                seq!["rev-parse"@, task.job.base@ + "^{commit}"@],
            )),
            Stage::CiBase { task, head } => {
                &&& git_says(event, text) ==> (step matches Step::Ask(
                    request,
                    Stage::CiMergeBase { task: t, base, head: h },
                ) && t == task && base@ == text && h == head && puts_to_git(
                    request,
                    task.repo@,
                    seq!["merge-base"@, text, head@],
                ))
                &&& !went_well(event) ==> (step matches Step::Ask(
                    request,
                    Stage::CiFallback { task: t, head: h, .. },
                ) && t == task && h == head && puts_to_git(
                    request,
                    task.repo@,
                    seq!["rev-parse"@, "origin/"@ + task.job.base@ + "^{commit}"@],
                ))
            },
            Stage::CiFallback { task, head, source } => git_says(event, text) ==> (
            step matches Step::Ask(request, Stage::CiMergeBase { task: t, base, head: h }) && t
                == task && base@ == text && h == head && puts_to_git(
                request,
                task.repo@,
                seq!["merge-base"@, text, head@],
            )),
            Stage::CiMergeBase { task, base, head } => git_says(event, text) ==> (
            step matches Step::Ask(_, Stage::CiPaths { task: t, merge_base }) && t == task
                && merge_base@ == text),
            Stage::CiPaths { task, merge_base } => step matches Step::Ask(_, next) ==> (
            next matches Stage::CiHeadFiles { task: t, merge_base: m, .. } && t == task && m
                == merge_base),
            Stage::CiHeadFiles { task, merge_base, .. } => step matches Step::Ask(_, next) ==> {
                ||| next matches Stage::CiPlace { task: t, merge_base: m, .. } && t == task && m
                    == merge_base
                ||| next matches Stage::CiHeadReport { task: t, merge_base: m, .. } && t == task && m
                    == merge_base
            },
            Stage::CiHeadReport { task, merge_base, .. } => step matches Step::Ask(_, next) ==> (
            next matches Stage::CiPlace { task: t, merge_base: m, .. } && t == task && m
                == merge_base),
            Stage::CiPlace { task, merge_base, .. } => {
                let path = event->Place_path;
                let add = seq!["worktree"@, "add"@, "--detach"@, path@, merge_base@];
                step matches Step::Ask(request, Stage::CiCheckout { merge_base: m, path: p, rest, .. })
                    && m == merge_base && p == path && if event->exists {
                    puts_to_git(request, task.repo@, seq!["worktree"@, "remove"@, "--force"@, path@])
                        && rest@.len() == 2 && views(rest@[1]@) == seq!["worktree"@, "prune"@]
                        && views(rest@[0]@) == add
                } else {
                    puts_to_git(request, task.repo@, add) && rest@.len() == 0
                }
            },
            Stage::CiCheckout { task, rest, .. } => rest@.len() > 0 ==> (step matches Step::Ask(
                request,
                Stage::CiCheckout { rest: left, .. },
            ) && left@ == rest@.take(rest@.len() - 1) && puts_to_git(
                request,
                task.repo@,
                views(rest@[rest@.len() - 1]@),
            )),
            _ => true,
        },
{
    if stage is CiPlace {
        let rest = step->Ask_1->CiCheckout_rest@;
        assert(command_views(rest).len() == rest.len());
        if rest.len() == 2 {
            assert(command_views(rest)[0] == views(rest[0]@));
            assert(command_views(rest)[1] == views(rest[1]@));
        }
    }
}

/// `ci` looks at the same part of both trees, and looks at it in the same way: the paths
/// it was given lie inside the repository in the one and inside the checkout in the other,
/// and the same files are left out of either.
pub proof fn lemma_both_trees_are_walked_alike(
    at_paths: Stage,
    resolved: Event,
    at_checkout: Stage,
    checked_out: Event,
    ours: (WalkOptions, Stage),
    theirs: (WalkOptions, Stage),
)
    requires
        at_paths is CiPaths,
        fits(at_paths, resolved),
        follows(at_paths, resolved, Step::Ask(Request::Files(ours.0), ours.1)),
        at_checkout is CiCheckout,
        fits(at_checkout, checked_out),
        follows(at_checkout, checked_out, Step::Ask(Request::Files(theirs.0), theirs.1)),
        at_checkout->CiCheckout_task == at_paths->CiPaths_task,
        at_checkout->CiCheckout_relative == ours.1->CiHeadFiles_relative,
    ensures
        ({
            let task = at_paths->CiPaths_task;
            let relative = at_checkout->CiCheckout_relative@;
            let (head, base) = (views(ours.0.roots@), views(theirs.0.roots@));
            &&& relative.len() == resolved->paths@.len()
            &&& relative.len() == 0 ==> head == seq![task.repo@] && base == seq![
                at_checkout->CiCheckout_path@,
            ]
            &&& relative.len() > 0 ==> head.len() == relative.len() && base.len() == relative.len()
            &&& forall|i: int|
                0 <= i < relative.len() ==> head[i] == joined(
                    task.repo@,
                    (#[trigger] relative[i])@,
                ) && base[i] == joined(at_checkout->CiCheckout_path@, relative[i]@)
            &&& views(ours.0.excludes@) == task.config@.excludes + views(task.job.excludes@)
            &&& views(theirs.0.excludes@) == views(ours.0.excludes@)
            &&& ours.0.respect_gitignore && theirs.0.respect_gitignore
            &&& !ours.0.follow_symlinks && !theirs.0.follow_symlinks
            &&& ours.0.max_file_bytes is None && theirs.0.max_file_bytes is None
        }),
{
    let relative = at_checkout->CiCheckout_relative@;
    let (repo, path) = (at_paths->CiPaths_task.repo@, at_checkout->CiCheckout_path@);
    assert(views(relative).len() == relative.len());
    assert(inside(repo, views(relative)).len() == relative.len());
    assert(inside(path, views(relative)).len() == relative.len());
    assert forall|i: int| 0 <= i < relative.len() implies inside(repo, views(relative))[i] == joined(
        repo,
        (#[trigger] relative[i])@,
    ) && inside(path, views(relative))[i] == joined(path, relative[i]@) by {
        assert(views(relative)[i] == relative[i]@);
    }
}

/// A step tells, through the channels that were asked for, of what is new in one report
/// over another, and ends with the number of findings.
pub open spec fn tells_the_news(
    step: Step,
    head: ReportView,
    base: ReportView,
    options: DeltaOptions,
    output: OutputArgs,
) -> bool {
    step matches Step::Ask(Request::Act(actions), Stage::Last { count }) && exists|d: DeltaView|
        #[trigger] tells_what_is_new(d, head, base, options) && serves_every_channel(
            views(actions@),
            d,
            output,
        ) && count == findings_of(d)
}

/// What a configuration asks of a delta.
pub open spec fn asks_of_delta(o: DeltaOptions, c: ConfigView) -> bool {
    &&& c.function.min_similarity.value == Some(o.min_similarity)
    &&& c.vocab.worsened_delta.value == Some(o.worsened_delta)
    &&& o.max_findings == c.max_findings
}

/// `diff` and `ci` tell of what the head has and the base has not, by the thresholds of
/// the configuration.
pub proof fn lemma_a_run_tells_the_news(stage: Stage, event: Event, step: Step)
    requires
        fits(stage, event),
        sound(stage),
        follows(stage, event, step),
        went_well(event),
    ensures
        stage matches Stage::DiffConfig { head, base, output } ==> (step matches Step::Ask(
            Request::ReadReport(path),
            Stage::DiffHead { base: b, output: o, options },
        ) && path == head && b == base && o == output && asks_of_delta(
            options,
            event->Config_0->Ok_0@,
        )),
        stage matches Stage::DiffHead { base, output, options } ==> (step matches Step::Ask(
            Request::ReadReport(path),
            Stage::DiffBase { head, output: o, options: p },
        ) && path == base && head == event->Report_0->Ok_0 && o == output && p == options),
        stage matches Stage::DiffBase { head, output, options } ==> tells_the_news(
            step,
            head@,
            event->Report_0->Ok_0@,
            options,
            output,
        ),
        stage matches Stage::CiRemove { task, head, base, worktree } ==> exists|o: DeltaOptions|
            #[trigger] asks_of_delta(o, task.config@) && tells_the_news(
                step,
                head@,
                base@,
                o,
                task.job.output,
            ),
{
    if let Stage::DiffBase { head, output, options } = stage {
        let base = event->Report_0->Ok_0@;
        lemma_the_delta_tells_what_is_new(head@, base, options);
        lemma_every_channel_is_served(delta_of(head@, base, options), output);
    }
    if let Stage::CiRemove { task, head, base, worktree } = stage {
        let o = options_of(task.config@);
        lemma_the_delta_tells_what_is_new(head@, base@, o);
        lemma_every_channel_is_served(delta_of(head@, base@, o), task.job.output);
        lemma_a_valid_configuration_is_in_range(task.config@);
        assert(asks_of_delta(o, task.config@));
        assert(tells_the_news(step, head@, base@, o, task.job.output));
    }
    if stage is DiffConfig {
        lemma_a_valid_configuration_is_in_range(event->Config_0->Ok_0@);
    }
}

/// The report of a tree is made of the files that were read from it, with paths relative
/// to that tree: `scan` writes that of its root, and `ci` holds that of the repository
/// against that of the checkout.
pub proof fn lemma_reports_are_of_their_trees(stage: Stage, event: Event, step: Step, files: Seq<ReadFile>)
    requires
        fits(stage, event),
        follows(stage, event, step),
        event matches Event::Files(Ok(read)) && read@ == files,
    ensures
        stage matches Stage::ScanFiles { root, out, config } ==> (step matches Step::Ask(
            Request::WriteReport { path, report },
            Stage::Last { count },
        ) && path == out && is_scan_report(
            report@,
            found_in_files(sources_of(files, root@), config@),
        ) && (report@.clones.len() + report@.vocab.len() + report@.blocks.len() <= usize::MAX
            ==> count == report@.clones.len() + report@.vocab.len() + report@.blocks.len())),
        stage matches Stage::CiHeadFiles { task, merge_base, relative } ==> (step matches Step::Ask(
            request,
            next,
        ) && is_scan_report(
            (if next is CiPlace {
                next->CiPlace_head@
            } else {
                next->CiHeadReport_head@
            }),
            found_in_files(sources_of(files, task.repo@), task.config@),
        ) && (next is CiPlace <==> task.job.report is None) && (next is CiHeadReport
            <==> task.job.report is Some) && (task.job.report matches Some(to) ==> (
        request matches Request::WriteReport { path: Some(p), report } && p@ == to@ && report@
            == next->CiHeadReport_head@))),
        stage matches Stage::CiBaseFiles { task, head, worktree } ==> (step matches Step::Ask(
            _,
            Stage::CiRemove { task: t, head: h, base, .. },
        ) && t == task && h == head && is_scan_report(
            base@,
            found_in_files(sources_of(files, worktree@.path), task.config@),
        )),
{
}

} // verus!
