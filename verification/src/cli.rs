//! The commands, and the pipeline behind them.
//!
//! Three commands, matching the three things anyone needs:
//!
//! - `scan` — reduce a tree to a report.
//! - `diff` — compare two reports and say what the first added.
//! - `ci` — do both: scan the working tree, scan its merge-base with some
//!   revision, and report the difference. This is the one CI runs.
//!
//! This module holds what the commands decide and compute; reading trees, running
//! `git` and writing files is the program's part.
//!
//! # Paths in a report are relative to the tree that was scanned
//!
//! `ci` scans two trees that live in different directories — the working tree, and a
//! detached worktree of the merge-base in a temporary directory. If reports carried
//! absolute paths, *every* finding in the base report would have a path no head
//! finding could match, vocabulary pairs would all look new, and the tool would
//! report the entire codebase as freshly duplicated. So paths are made relative to
//! the scan root, with `/` separators, before anything else sees them.

use vstd::prelude::*;
use vstd::string::*;

use crate::annotate::{document, pieces_text, AnnotationView};
use crate::blocks::{
    all_tokens, corpus_from, find_blocks, lemma_every_repeat_is_reported, reports_every_repeat,
    BlockOptions, LongestThenPlace,
};
use crate::config::{Config, ConfigError, ConfigView};
use crate::delta::{
    delta_of, empty_delta, has_clone, lemma_identical_reports_have_an_empty_delta,
    lemma_known_clones_stay_silent, Delta, DeltaOptions, DeltaView,
};
use crate::extract::{
    extraction_of, found_under_root, has_body, known_after, lemma_every_unit_is_extracted,
    lemma_units_have_the_bodies_of_their_nodes, reports_every_unit, unit_names, units_from, Extractor,
    SourceFile, SourceOrder, SourceView, Unit, UnitView,
};
use crate::git::GitError;
use crate::lang::{all, for_path, language_of, lemma_language_of_joined, registry, LanguageView};
use crate::names::{is_set_of, lemma_set_list_unique, ordered};
use crate::path::{
    components, file_name, file_name_of, is_absolute, join, joined, lemma_strip_undoes_join,
    strip_prefix, stripped, tidied,
};
use crate::report::{
    BlockPair, ClonePair, LongestBlock, Report, ReportError, ReportView, StrongestClone, VocabPair,
    REPORT_VERSION,
};
use crate::scan::{
    all_clones, find_clones, found_between, lemma_bodies_agree_alike_in_every_scan,
    lemma_every_clone_is_reported, lemma_same_bodies_are_found_again, nested, reports_every_clone,
};
use crate::similarity::ratio_of;
use crate::sort::{lemma_sorted, lemma_sorted_holds, sorted, views, Order};
use crate::syntax::{syntax_of, NodeView};
use crate::text::{
    chars_of, decimal, ends_telling, join_texts, joined_by, lemma_decimal_tells_numbers_apart,
    lemma_parts_are_told, push_decimal, replace_char, tells_both, with_replaced,
};
use crate::token::Interner;
use crate::vocab::{
    all_vocab, copy_noise, file_facts, find_vocab_pairs, lemma_every_overlap_is_reported,
    lemma_keys_tell_findings_apart, reports_every_overlap, tells_every_file, FileFacts,
    UnreachedFirst, VocabOptions,
};
use crate::walk::{
    are_relative_files, file_list, hold_tree, lemma_same_files_are_listed_alike, same_place, WalkError,
    WalkOptions,
};

verus! {

// ------------------------------------------------------------------------- errors

/// Anything that can stop a command.
#[derive(Debug)]
pub enum CliError {
    /// A tree could not be walked.
    Walk(WalkError),
    /// A report could not be read or written.
    Report(ReportError),
    /// The configuration was missing or invalid.
    Config(ConfigError),
    /// Git would not answer.
    Git(GitError),
    /// A file could not be read or written.
    Io {
        /// The path involved.
        path: String,
        /// What the system said.
        source: String,
    },
    /// A `ci` path lies outside the repository being compared.
    ///
    /// `ci` resolves each path inside *two* trees — the working tree and a worktree of
    /// the merge-base. A path not under the repository root cannot be resolved inside
    /// the second one; joining it there yields the working tree again, so the tool
    /// would compare that tree against itself and report every duplicate in it as
    /// new. Refused rather than guessed at.
    PathOutsideRepository {
        /// The offending path.
        path: String,
        /// The repository root it has to be under.
        root: String,
    },
    /// The base revision `ci` was asked to compare against resolves nowhere: not as
    /// given, and not as `origin/<base>` either.
    UnresolvableBase {
        /// The base revision that failed to resolve, as given.
        base: String,
        /// git's own failure for the base as given.
        source: GitError,
    },
}

impl CliError {
    /// What the error says.
    pub open spec fn message(self) -> Seq<char> {
        match self {
            CliError::Walk(e) => e@.message(),
            CliError::Report(e) => e.message(),
            CliError::Config(e) => e.message(),
            CliError::Git(e) => e@.message(),
            CliError::Io { path, source } => "could not access "@ + path@ + ": "@ + source@,
            CliError::PathOutsideRepository { path, root } => path@
                + " is outside the repository at "@ + root@
                + "; `ci` can only scan paths within it"@,
            CliError::UnresolvableBase { base, source } => "could not resolve the base revision '"@
                + base@ + "': "@ + source@.message()
                + ". Neither the name as given nor 'origin/"@ + base@
                + "' resolves here; fetch the branch, or pass the full ref of the revision to compare against"@,
        }
    }

    /// What the error says.
    pub fn to_string(&self) -> (s: String)
        ensures
            s@ == self.message(),
    {
        match self {
            CliError::Walk(e) => e.to_string(),
            CliError::Report(e) => e.to_string(),
            CliError::Config(e) => e.to_string(),
            CliError::Git(e) => e.to_string(),
            CliError::Io { path, source } => {
                let mut s = "could not access ".to_owned();
                s.append(path.as_str());
                s.append(": ");
                s.append(source.as_str());
                s
            },
            CliError::PathOutsideRepository { path, root } => {
                let mut s = path.clone();
                s.append(" is outside the repository at ");
                s.append(root.as_str());
                s.append("; `ci` can only scan paths within it");
                s
            },
            CliError::UnresolvableBase { base, source } => {
                let mut s = "could not resolve the base revision '".to_owned();
                s.append(base.as_str());
                s.append("': ");
                s.append(source.to_string().as_str());
                s.append(". Neither the name as given nor 'origin/");
                s.append(base.as_str());
                s.append(
                    "' resolves here; fetch the branch, or pass the full ref of the revision to compare against",
                );
                s
            },
        }
    }
}

impl From<WalkError> for CliError {
    fn from(e: WalkError) -> (r: Self) {
        CliError::Walk(e)
    }
}

impl vstd::std_specs::convert::FromSpecImpl<WalkError> for CliError {
    open spec fn obeys_from_spec() -> bool {
        true
    }

    open spec fn from_spec(e: WalkError) -> Self {
        CliError::Walk(e)
    }
}

impl From<ReportError> for CliError {
    fn from(e: ReportError) -> (r: Self) {
        CliError::Report(e)
    }
}

impl vstd::std_specs::convert::FromSpecImpl<ReportError> for CliError {
    open spec fn obeys_from_spec() -> bool {
        true
    }

    open spec fn from_spec(e: ReportError) -> Self {
        CliError::Report(e)
    }
}

impl From<ConfigError> for CliError {
    fn from(e: ConfigError) -> (r: Self) {
        CliError::Config(e)
    }
}

impl vstd::std_specs::convert::FromSpecImpl<ConfigError> for CliError {
    open spec fn obeys_from_spec() -> bool {
        true
    }

    open spec fn from_spec(e: ConfigError) -> Self {
        CliError::Config(e)
    }
}

impl From<GitError> for CliError {
    fn from(e: GitError) -> (r: Self) {
        CliError::Git(e)
    }
}

impl vstd::std_specs::convert::FromSpecImpl<GitError> for CliError {
    open spec fn obeys_from_spec() -> bool {
        true
    }

    open spec fn from_spec(e: GitError) -> Self {
        CliError::Git(e)
    }
}

// -------------------------------------------------------------------------- paths

/// A path the way a report records it.
pub open spec fn recorded_path(path: Seq<char>, root: Seq<char>) -> Seq<char> {
    match stripped(path, root) {
        Some(relative) => with_replaced(relative, '\\', '/'),
        None => with_replaced(path, '\\', '/'),
    }
}

/// Render a path the way a report records it: relative to the scan root, with `/`
/// separators, so two scans of the same code in different directories agree.
pub fn report_path(path: &str, root: &str) -> (s: String)
    ensures
        s@ == recorded_path(path@, root@),
{
    match strip_prefix(path, root) {
        Some(relative) => replace_char(relative.as_str(), '\\', '/'),
        None => replace_char(path, '\\', '/'),
    }
}

/// A list of the same texts.
fn copied(list: &[String]) -> (r: Vec<String>)
    ensures
        views(r@) == views(list@),
{
    let mut r: Vec<String> = Vec::new();
    add_all(&mut r, list);
    assert(views(r@) =~= views(list@));
    r
}

fn add_all(r: &mut Vec<String>, list: &[String])
    ensures
        views(final(r)@) == views(old(r)@) + views(list@),
{
    let ghost start = views(r@);
    let mut i: usize = 0;
    assert(views(r@) =~= start + views(list@).take(0));
    while i < list.len()
        invariant
            i <= list@.len(),
            views(r@) == start + views(list@).take(i as int),
        decreases list.len() - i,
    {
        let ghost before = views(r@);
        r.push(list[i].clone());
        assert(views(r@) =~= before.push(list@[i as int]@));
        i += 1;
        assert(views(r@) =~= start + views(list@).take(i as int));
    }
    assert(views(list@).take(i as int) =~= views(list@));
}

/// Where to look for the files of a scan: `scan_roots`, or the whole tree where there
/// are none, without what the configuration and `extra_excludes` leave out.
pub fn walk_options(
    tree_root: &str,
    scan_roots: &[String],
    config: &Config,
    extra_excludes: &[String],
) -> (o: WalkOptions)
    ensures
        views(o.roots@) == (if scan_roots@.len() == 0 {
            seq![tree_root@]
        } else {
            views(scan_roots@)
        }),
        views(o.excludes@) == config@.excludes + views(extra_excludes@),
        o.respect_gitignore,
        !o.follow_symlinks,
        o.max_file_bytes is None,
{
    let mut excludes = copied(config.excludes.as_slice());
    add_all(&mut excludes, extra_excludes);
    let roots = if scan_roots.len() == 0 {
        let only = vec![tree_root.to_owned()];
        assert(views(only@) =~= seq![tree_root@]);
        only
    } else {
        copied(scan_roots)
    };
    WalkOptions {
        roots,
        excludes,
        respect_gitignore: true,
        follow_symlinks: false,
        max_file_bytes: None,
    }
}

/// A file that was read, its path relativized to `tree_root`: `None` where no language
/// claims it.
pub fn source_file(path: &str, tree_root: &str, text: String) -> (f: Option<SourceFile>)
    ensures
        f is None <==> language_of(path@) is None,
        f matches Some(file) ==> file@.path == recorded_path(path@, tree_root@) && language_of(
            path@,
        ) == Some(file@.language) && file@.text == text@,
{
    match for_path(path) {
        None => None,
        Some(language) => Some(
            SourceFile { path: report_path(path, tree_root), language, text },
        ),
    }
}

// --------------------------------------------------------------------------- scans

/// How many shared identifiers to show per vocabulary finding.
pub const VOCAB_SAMPLE_SIZE: usize = 25;

/// What extraction has come to after some files: the names known, the units, and
/// the files with syntax errors.
#[verifier::ext_equal]
pub struct Extracted {
    /// The token names known.
    pub known: Seq<Seq<char>>,
    /// The units.
    pub units: Seq<UnitView>,
    /// The files with syntax errors.
    pub broken: Seq<Seq<char>>,
}

/// Extraction, one file after the other.
pub open spec fn extracted(files: Seq<SourceView>, min_nodes: nat) -> Extracted
    decreases files.len(),
{
    if files.len() == 0 {
        Extracted { known: Seq::empty(), units: Seq::empty(), broken: Seq::empty() }
    } else {
        let before = extracted(files.drop_last(), min_nodes);
        let file = files.last();
        let nodes = syntax_of(file.language.grammar, file.text);
        let found = found_under_root(nodes, file.language, min_nodes);
        Extracted {
            known: known_after(nodes, file.language, before.known, found),
            units: before.units + sorted::<Unit, SourceOrder>(
                units_from(nodes, file.language, file.path, before.known, found),
            ),
            broken: if nodes.len() > 0 && nodes[0].has_error {
                before.broken.push(file.path)
            } else {
                before.broken
            },
        }
    }
}

/// What every detector finds in some files.
pub open spec fn found_in_files(files: Seq<SourceView>, config: ConfigView) -> ReportView {
    let all = extracted(files, config.function.min_nodes);
    ReportView {
        version: REPORT_VERSION,
        files_scanned: files.len(),
        units_considered: all.units.len(),
        files_with_syntax_errors: all.broken,
        clones: sorted::<ClonePair, StrongestClone>(
            all_clones(
                all.units,
                all.units.len(),
                config.function.min_similarity.value.unwrap(),
            ),
        ),
        vocab: all_vocab(
            file_facts(files, config.vocab.noise),
            files.len(),
            config.vocab.min_overlap.value.unwrap(),
            config.vocab.min_vocabulary,
            VOCAB_SAMPLE_SIZE as nat,
        ),
        blocks: sorted::<BlockPair, LongestThenPlace>(
            corpus_from(files, all_tokens(files), config.min_tokens).findings(files.len()),
        ),
    }
}

/// `report` is what was found, as a scan reports it: clones and blocks with the
/// strongest first, vocabulary pairs with those first of which nothing imports a side,
/// and the files with syntax errors listed once each.
pub open spec fn is_scan_report(report: ReportView, found: ReportView) -> bool {
    &&& report.version == found.version
    &&& report.files_scanned == found.files_scanned
    &&& report.units_considered == found.units_considered
    &&& report.clones == sorted::<ClonePair, StrongestClone>(found.clones)
    &&& report.vocab == sorted::<VocabPair, UnreachedFirst>(found.vocab)
    &&& report.blocks == sorted::<BlockPair, LongestBlock>(found.blocks)
    &&& is_set_of(report.files_with_syntax_errors, found.files_with_syntax_errors.to_set())
}

fn extract_all(files: &[SourceFile], min_nodes: usize) -> (r: (Vec<Unit>, Vec<String>))
    ensures
        views(r.0@) == extracted(views(files@), min_nodes as nat).units,
        views(r.1@) == extracted(views(files@), min_nodes as nat).broken,
{
    let ghost all = views(files@);
    let ghost min = min_nodes as nat;
    let mut interner = Interner::new();
    let mut units: Vec<Unit> = Vec::new();
    let mut broken: Vec<String> = Vec::new();
    let mut i: usize = 0;
    assert(all.take(0) =~= Seq::empty());
    assert(views(units@) =~= Seq::empty());
    assert(views(broken@) =~= Seq::empty());
    while i < files.len()
        invariant
            i <= files@.len(),
            all == views(files@),
            min == min_nodes,
            interner.wf(),
            interner@ == extracted(all.take(i as int), min).known,
            views(units@) == extracted(all.take(i as int), min).units,
            views(broken@) == extracted(all.take(i as int), min).broken,
        decreases files.len() - i,
    {
        let file = &files[i];
        let ghost before = views(units@);
        let ghost broken_before = views(broken@);
        proof {
            assert(all.take(i + 1).drop_last() =~= all.take(i as int));
            assert(all.take(i + 1).last() == file@);
        }
        let mut extractor = Extractor::new(file.language.clone());
        let mut extraction = extractor.extract(
            file.text.as_str(),
            file.path.as_str(),
            min_nodes,
            &mut interner,
        );
        if extraction.had_syntax_errors {
            broken.push(file.path.clone());
            assert(views(broken@) =~= broken_before.push(file@.path));
        }
        let ghost more = views(extraction.units@);
        units.append(&mut extraction.units);
        assert(views(units@) =~= before + more);
        i += 1;
    }
    assert(all.take(i as int) =~= all);
    (units, broken)
}

/// Scan files with every detector and assemble a report.
pub fn scan_files(files: &[SourceFile], config: &Config) -> (r: Report)
    requires
        config@.scannable(),
    ensures
        is_scan_report(r@, found_in_files(views(files@), config@)),
        tells_everything(r@, views(files@), config@),
{
    let (units, broken) = extract_all(files, config.function.min_nodes);
    let vocab_options = VocabOptions {
        min_overlap: config.vocab.min_overlap.ratio(),
        min_vocabulary: config.vocab.min_vocabulary,
        noise: copy_noise(&config.vocab.noise),
        sample_size: VOCAB_SAMPLE_SIZE,
    };
    let clones = find_clones(units.as_slice(), config.function.min_similarity.ratio());
    let vocab = find_vocab_pairs(files, &vocab_options);
    let blocks = find_blocks(files, &BlockOptions { min_tokens: config.blocks.min_tokens });
    let mut report = Report {
        version: REPORT_VERSION,
        files_scanned: files.len(),
        units_considered: units.len(),
        files_with_syntax_errors: broken,
        clones,
        vocab: Vec::new(),
        blocks,
    };
    report.sort();
    // The vocabulary pairs keep the order of their detector.
    report.vocab = vocab;
    proof {
        lemma_a_scan_tells_everything(views(files@), config@, report@);
    }
    report
}

/// A file that was read.
#[derive(Debug)]
pub struct ReadFile {
    /// Where it is.
    pub path: String,
    /// What it holds.
    pub text: String,
}

/// The source files that files of a tree are. One that no language claims is none.
pub open spec fn sources_of(read: Seq<ReadFile>, tree_root: Seq<char>) -> Seq<SourceView>
    decreases read.len(),
{
    if read.len() == 0 {
        Seq::empty()
    } else {
        let before = sources_of(read.drop_last(), tree_root);
        let file = read.last();
        match language_of(file.path@) {
            Some(language) => before.push(
                SourceView {
                    path: recorded_path(file.path@, tree_root),
                    language,
                    text: file.text@,
                },
            ),
            None => before,
        }
    }
}

/// Scan the files of a tree with every detector and assemble a report.
///
/// Recorded paths are relative to `tree_root`, wherever the files were looked for:
/// `ci` scans the same logical tree twice from two different directories, and only
/// paths relative to each tree's own root compare equal between the resulting
/// reports.
pub fn scan_tree(tree_root: &str, read: Vec<ReadFile>, config: &Config) -> (r: Report)
    requires
        config@.scannable(),
    ensures
        is_scan_report(r@, found_in_files(sources_of(read@, tree_root@), config@)),
        tells_everything(r@, sources_of(read@, tree_root@), config@),
{
    let mut files: Vec<SourceFile> = Vec::new();
    let mut i: usize = 0;
    assert(read@.take(0) =~= Seq::empty());
    assert(views(files@) =~= Seq::empty());
    while i < read.len()
        invariant
            i <= read@.len(),
            views(files@) == sources_of(read@.take(i as int), tree_root@),
        decreases read.len() - i,
    {
        let ghost before = views(files@);
        proof {
            assert(read@.take(i + 1).drop_last() =~= read@.take(i as int));
        }
        if let Some(file) = source_file(read[i].path.as_str(), tree_root, read[i].text.clone()) {
            files.push(file);
            assert(views(files@) =~= before.push(file@));
            assert(views(files@) =~= sources_of(read@.take(i + 1), tree_root@));
        }
        i += 1;
    }
    assert(read@.take(i as int) =~= read@);
    scan_files(files.as_slice(), config)
}

// ------------------------------------------------------------------------------ ci

/// The directory a temporary worktree of the merge-base is checked out into.
pub open spec fn base_worktree_text(process: nat, root: Seq<char>) -> Seq<char> {
    "dupdelta-base-"@ + decimal(process) + "-"@ + (match file_name_of(root) {
        Some(name) => name,
        None => Seq::empty(),
    })
}

/// What the directory is called that a temporary worktree of the merge-base is
/// checked out into.
pub fn base_worktree_name(process: u32, root: &str) -> (s: String)
    ensures
        s@ == base_worktree_text(process as nat, root@),
{
    let mut s = "dupdelta-base-".to_owned();
    push_decimal(&mut s, process as u128);
    s.append("-");
    match file_name(root) {
        Some(name) => {
            s.append(name.as_str());
        },
        None => {},
    }
    assert(s@ =~= base_worktree_text(process as nat, root@));
    s
}

/// A path given on the command line.
#[derive(Debug)]
pub struct GivenPath {
    /// The path as given.
    pub given: String,
    /// Where it leads, with symlinks and `..` resolved; the path as given where that
    /// cannot be told.
    pub canonical: String,
}

/// A path within a repository, if it leads there.
pub open spec fn within_repository(p: GivenPath, root: Seq<char>) -> Option<Seq<char>> {
    if p.given@.len() > 0 && p.given@[0] == '/' {
        stripped(p.canonical@, root)
    } else {
        Some(p.given@)
    }
}

/// The first path from `from` on that does not lead into a repository, or the end.
pub open spec fn first_outside(paths: Seq<GivenPath>, root: Seq<char>, from: int) -> int
    decreases paths.len() - from,
{
    if from < paths.len() && within_repository(paths[from], root) is Some {
        first_outside(paths, root, from + 1)
    } else {
        from
    }
}

/// Express each path relative to the repository root.
///
/// An absolute path is accepted only if it is inside the repository, and is then
/// relativized; anything else is refused. Both sides are resolved first so that a
/// symlinked temp directory or a `./` prefix does not read as "outside".
pub fn repo_relative_paths(paths: &[GivenPath], canonical_root: &str) -> (r: Result<
    Vec<String>,
    CliError,
>)
    ensures
        ({
            let at = first_outside(paths@, canonical_root@, 0);
            match r {
                Ok(list) => {
                    &&& at == paths@.len()
                    &&& list@.len() == paths@.len()
                    &&& forall|i: int|
                        0 <= i < list@.len() ==> within_repository(paths@[i], canonical_root@)
                            == Some((#[trigger] list@[i])@)
                },
                Err(e) => {
                    &&& 0 <= at < paths@.len()
                    &&& (e matches CliError::PathOutsideRepository { path, root } && path@
                        == paths@[at].given@ && root@ == canonical_root@)
                },
            }
        }),
{
    let mut list: Vec<String> = Vec::new();
    let mut i: usize = 0;
    while i < paths.len()
        invariant
            i <= paths@.len(),
            list@.len() == i,
            first_outside(paths@, canonical_root@, 0) == first_outside(
                paths@,
                canonical_root@,
                i as int,
            ),
            forall|k: int|
                0 <= k < i ==> within_repository(paths@[k], canonical_root@) == Some(
                    (#[trigger] list@[k])@,
                ),
        decreases paths.len() - i,
    {
        let path = &paths[i];
        if !is_absolute(path.given.as_str()) {
            list.push(path.given.clone());
        } else {
            match strip_prefix(path.canonical.as_str(), canonical_root) {
                Some(relative) => {
                    list.push(relative);
                },
                None => {
                    return Err(
                        CliError::PathOutsideRepository {
                            path: path.given.clone(),
                            root: canonical_root.to_owned(),
                        },
                    );
                },
            }
        }
        i += 1;
    }
    Ok(list)
}

/// The same relative paths, resolved inside a tree.
pub fn paths_in_tree(root: &str, relative: &[String]) -> (list: Vec<String>)
    ensures
        list@.len() == relative@.len(),
        forall|i: int|
            0 <= i < list@.len() ==> (#[trigger] list@[i])@ == joined(root@, relative@[i]@),
{
    let mut list: Vec<String> = Vec::new();
    let mut i: usize = 0;
    while i < relative.len()
        invariant
            i <= relative@.len(),
            list@.len() == i,
            forall|k: int|
                0 <= k < i ==> (#[trigger] list@[k])@ == joined(root@, relative@[k]@),
        decreases relative.len() - i,
    {
        list.push(join(root, relative[i].as_str()));
        i += 1;
    }
    list
}

/// `ci`'s starting point for repository discovery: the first `--path`, or the
/// current directory when none was given.
pub fn default_scan_root(paths: &[String]) -> (s: String)
    ensures
        s@ == (if paths@.len() > 0 {
            paths@[0]@
        } else {
            "."@
        }),
{
    if paths.len() > 0 {
        paths[0].clone()
    } else {
        ".".to_owned()
    }
}

/// The name of a branch as a remote-tracking reference.
pub open spec fn tracking_name(base: Seq<char>) -> Seq<char> {
    "origin/"@ + base
}

/// What to do about the base revision `ci` compares against.
#[derive(Debug)]
pub enum BaseStep {
    /// It resolves to this commit.
    Resolved(String),
    /// It does not resolve; try this one instead.
    TryInstead {
        /// The revision to try.
        revision: String,
        /// git's failure for the base as given.
        source: GitError,
    },
}

/// What to do about the base revision, given what resolving it as given came to.
///
/// When it does not resolve, `origin/<base>` is tried in its place — on the checkout
/// that continuous integration produces, the base branch exists only as that
/// remote-tracking ref, and asking every user to know it is friction the tool can
/// absorb.
pub fn base_as_given(base: &str, resolved: Result<String, GitError>) -> (step: BaseStep)
    ensures
        match resolved {
            Ok(commit) => step == BaseStep::Resolved(commit),
            Err(e) => (step matches BaseStep::TryInstead { revision, source } && revision@
                == tracking_name(base@) && source == e),
        },
{
    match resolved {
        Ok(commit) => BaseStep::Resolved(commit),
        Err(source) => {
            let mut revision = "origin/".to_owned();
            revision.append(base);
            BaseStep::TryInstead { revision, source }
        },
    }
}

/// The commit to compare against, given what resolving `origin/<base>` came to, and
/// the note to leave about it, so the comparison is never silent about what it
/// compared against. When that failed too, the error carries git's failure for the
/// base as given: the fallback's own failure adds nothing — it is the same missing
/// ref, one name over.
pub fn resolve_base(base: &str, source: GitError, fallback: Result<String, GitError>) -> (r: Result<
    (String, String),
    CliError,
>)
    ensures
        match fallback {
            Ok(commit) => r matches Ok(found) && found.0 == commit && found.1@
                == "dupdelta: note: base '"@ + base@
                + "' does not resolve; using remote-tracking ref '"@ + tracking_name(base@) + "'"@,
            Err(_) => r matches Err(CliError::UnresolvableBase { base: b, source: s }) && b@
                == base@ && s == source,
        },
{
    match fallback {
        Ok(commit) => {
            let mut note = "dupdelta: note: base '".to_owned();
            note.append(base);
            note.append("' does not resolve; using remote-tracking ref '");
            note.append("origin/");
            note.append(base);
            note.append("'");
            assert(note@ =~= "dupdelta: note: base '"@ + base@
                + "' does not resolve; using remote-tracking ref '"@ + tracking_name(base@) + "'"@);
            Ok((commit, note))
        },
        Err(_) => Err(CliError::UnresolvableBase { base: base.to_owned(), source }),
    }
}

// -------------------------------------------------------------------------- output

/// The options of a delta that a configuration asks for.
pub open spec fn options_of(config: ConfigView) -> DeltaOptions {
    DeltaOptions {
        min_similarity: config.function.min_similarity.value.unwrap(),
        worsened_delta: config.vocab.worsened_delta.value.unwrap(),
        max_findings: config.max_findings,
    }
}

/// The options of a delta that a configuration asks for.
pub fn delta_options(config: &Config) -> (o: DeltaOptions)
    requires
        config@.function.min_similarity.value is Some,
        config@.vocab.worsened_delta.value is Some,
    ensures
        o == options_of(config@),
{
    DeltaOptions {
        min_similarity: config.function.min_similarity.ratio(),
        worsened_delta: config.vocab.worsened_delta.ratio(),
        max_findings: config.report.max_findings,
    }
}

/// How findings are rendered. Shared by `diff` and `ci`.
#[derive(Debug, Clone)]
pub struct OutputArgs {
    /// Emit GitHub Actions annotations, which render inline on a pull request.
    pub github_annotations: bool,
    /// Append a markdown digest to this file, e.g. `$GITHUB_STEP_SUMMARY`.
    pub summary: Option<String>,
    /// Write the number of findings here, for a CI job to pick up.
    pub findings_out: Option<String>,
}

/// What an action holds.
#[verifier::ext_equal]
pub enum ActionView {
    /// Print a text.
    Print(Seq<char>),
    /// Append a text to a file.
    Append(Seq<char>, Seq<char>),
    /// Make a text the contents of a file.
    Write(Seq<char>, Seq<char>),
}

/// Something to write somewhere.
#[derive(Debug)]
pub enum Action {
    /// Print a text.
    Print(String),
    /// Append a text to a file, creating it where it is absent.
    Append {
        /// The file.
        path: String,
        /// The text.
        text: String,
    },
    /// Make a text the contents of a file.
    Write {
        /// The file.
        path: String,
        /// The text.
        text: String,
    },
}

impl View for Action {
    type V = ActionView;

    open spec fn view(&self) -> ActionView {
        match self {
            Action::Print(text) => ActionView::Print(text@),
            Action::Append { path, text } => ActionView::Append(path@, text@),
            Action::Write { path, text } => ActionView::Write(path@, text@),
        }
    }
}

/// The printing of some annotations, a line each.
pub open spec fn annotation_lines(list: Seq<AnnotationView>) -> Seq<ActionView> {
    list.map_values(|a: AnnotationView| ActionView::Print(a.command() + "\n"@))
}

/// What a delta is emitted as.
pub open spec fn emission(delta: DeltaView, output: OutputArgs) -> Seq<ActionView> {
    let digest = document(pieces_text(delta.summary()));
    let lines = if output.github_annotations {
        annotation_lines(delta.annotations())
    } else {
        Seq::empty()
    };
    let appended = match output.summary {
        Some(path) => seq![ActionView::Append(path@, digest)],
        None => Seq::empty(),
    };
    let counted = match output.findings_out {
        Some(path) => seq![ActionView::Write(path@, decimal(delta.count()))],
        None => Seq::empty(),
    };
    let printed = if output.github_annotations {
        Seq::empty()
    } else {
        seq![ActionView::Print(digest)]
    };
    lines + appended + counted + printed
}

/// What to write, in order, to emit a delta through every requested channel.
pub fn emit(delta: &Delta, output: &OutputArgs) -> (actions: Vec<Action>)
    ensures
        views(actions@) == emission(delta@, *output),
{
    let mut actions: Vec<Action> = Vec::new();
    assert(views(actions@) =~= Seq::empty());
    if output.github_annotations {
        let list = delta.annotations();
        let ghost goal = annotation_lines(views(list@));
        let mut i: usize = 0;
        while i < list.len()
            invariant
                i <= list@.len(),
                goal == annotation_lines(views(list@)),
                views(actions@) == goal.take(i as int),
            decreases list.len() - i,
        {
            let ghost before = views(actions@);
            let mut line = list[i].to_workflow_command();
            line.append("\n");
            let ghost shown = line@;
            actions.push(Action::Print(line));
            i += 1;
            proof {
                assert(views(actions@) =~= before.push(ActionView::Print(shown)));
                assert(views(actions@) =~= goal.take(i as int));
            }
        }
        assert(goal.take(i as int) =~= goal);
    }
    let ghost lines = views(actions@);
    let digest = delta.summary().render();
    if let Some(path) = &output.summary {
        actions.push(Action::Append { path: path.clone(), text: digest.clone() });
        assert(views(actions@) =~= lines + seq![ActionView::Append(path@, digest@)]);
    }
    let ghost appended = views(actions@);
    if let Some(path) = &output.findings_out {
        let mut text = String::new();
        push_decimal(&mut text, delta.finding_count() as u128);
        let ghost shown = text@;
        actions.push(Action::Write { path: path.clone(), text });
        assert(shown =~= decimal(delta@.count()));
        assert(views(actions@) =~= appended + seq![ActionView::Write(path@, shown)]);
    }
    let ghost counted = views(actions@);
    if !output.github_annotations {
        let ghost shown = digest@;
        actions.push(Action::Print(digest));
        assert(views(actions@) =~= counted + seq![ActionView::Print(shown)]);
    }
    assert(views(actions@) =~= emission(delta@, *output));
    actions
}

/// A text followed by spaces, at least `width` characters long.
pub open spec fn padded(s: Seq<char>, width: nat) -> Seq<char> {
    if s.len() < width {
        s + Seq::new((width - s.len()) as nat, |i: int| ' ')
    } else {
        s
    }
}

fn push_padded(out: &mut String, s: &str, width: usize)
    ensures
        final(out)@ == old(out)@ + padded(s@, width as nat),
{
    let ghost start = out@;
    out.append(s);
    let mut n: usize = chars_of(s).len();
    let ghost first = n;
    while n < width
        invariant
            first == s@.len(),
            first <= n,
            first >= width ==> n == first,
            n > first ==> n <= width,
            out@ == start + s@ + Seq::new((n - first) as nat, |i: int| ' '),
        decreases width - n,
    {
        let ghost before = out@;
        out.push(' ');
        n += 1;
        assert(out@ =~= start + s@ + Seq::new((n - first) as nat, |i: int| ' '));
    }
    assert(out@ =~= start + padded(s@, width as nat));
}

/// The line that lists a language.
pub open spec fn language_line(l: LanguageView) -> Seq<char> {
    padded(l.name, 12) + " "@ + joined_by(l.extensions, " "@)
}

/// A line for each language this build can parse: its name, and its files'
/// extensions.
pub fn language_lines() -> (list: Vec<String>)
    ensures
        views(list@) == registry().map_values(|l: LanguageView| language_line(l)),
{
    let languages = all();
    let ghost goal = registry().map_values(|l: LanguageView| language_line(l));
    let mut list: Vec<String> = Vec::new();
    let mut i: usize = 0;
    while i < languages.len()
        invariant
            i <= languages@.len(),
            views(languages@) == registry(),
            goal == registry().map_values(|l: LanguageView| language_line(l)),
            views(list@) == goal.take(i as int),
        decreases languages.len() - i,
    {
        let ghost before = views(list@);
        let language = &languages[i];
        let mut line = String::new();
        push_padded(&mut line, language.name, 12);
        line.append(" ");
        let mut extensions: Vec<String> = Vec::new();
        let mut k: usize = 0;
        while k < language.extensions.len()
            invariant
                k <= language.extensions@.len(),
                views(extensions@) == language@.extensions.take(k as int),
            decreases language.extensions.len() - k,
        {
            let ghost held = views(extensions@);
            extensions.push(language.extensions[k].to_owned());
            assert(views(extensions@) =~= held.push(language@.extensions[k as int]));
            k += 1;
            assert(views(extensions@) =~= language@.extensions.take(k as int));
        }
        assert(views(extensions@) =~= language@.extensions);
        line.append(join_texts(extensions.as_slice(), " ").as_str());
        let ghost shown = line@;
        list.push(line);
        proof {
            assert(views(languages@)[i as int] == language@);
            assert(shown =~= language_line(language@));
            assert(views(list@) =~= before.push(shown));
            assert(views(list@) =~= goal.take(i + 1));
        }
        i += 1;
    }
    assert(goal.take(i as int) =~= goal);
    list
}

// --------------------------------------------------------------------------- laws

/// Two scans of the same code in different directories agree on its paths: what a
/// report records of a path does not depend on the tree's root.
pub proof fn lemma_report_paths_do_not_depend_on_the_root(
    one: Seq<char>,
    other: Seq<char>,
    relative: Seq<char>,
)
    requires
        one.len() > 0,
        other.len() > 0,
        !(relative.len() > 0 && relative[0] == '/'),
    ensures
        recorded_path(joined(one, relative), one) == recorded_path(joined(other, relative), other),
{
    lemma_strip_undoes_join(one, relative);
    lemma_strip_undoes_join(other, relative);
}

/// Two scans of the same files come to the same report.
pub proof fn lemma_scans_are_deterministic(
    files: Seq<SourceView>,
    config: ConfigView,
    one: ReportView,
    other: ReportView,
)
    requires
        is_scan_report(one, found_in_files(files, config)),
        is_scan_report(other, found_in_files(files, config)),
    ensures
        one == other,
{
    lemma_set_list_unique(one.files_with_syntax_errors, other.files_with_syntax_errors);
}

/// The paths of some files that were read.
pub open spec fn read_paths(read: Seq<ReadFile>) -> Seq<Seq<char>> {
    read.map_values(|f: ReadFile| f.path@)
}

proof fn lemma_same_sources(
    one: Seq<char>,
    other: Seq<char>,
    rels: Set<Seq<char>>,
    here: Seq<ReadFile>,
    there: Seq<ReadFile>,
)
    requires
        one.len() > 0,
        other.len() > 0,
        are_relative_files(rels),
        forall|r: Seq<char>| #[trigger] rels.contains(r) ==> language_of(r) is Some,
        here.len() == there.len(),
        forall|i: int|
            0 <= i < here.len() ==> same_place(
                (#[trigger] here[i]).path@,
                one,
                there[i].path@,
                other,
                rels,
            ),
        forall|i: int| 0 <= i < here.len() ==> (#[trigger] here[i]).text@ == there[i].text@,
    ensures
        sources_of(here, one) == sources_of(there, other),
        sources_of(here, one).len() == here.len(),
        forall|i: int|
            0 <= i < here.len() ==> is_recorded_of(
                (#[trigger] sources_of(here, one)[i]).path,
                rels,
            ),
    decreases here.len(),
{
    if here.len() > 0 {
        let (front, back) = (here.drop_last(), there.drop_last());
        assert forall|i: int| 0 <= i < front.len() implies same_place(
            (#[trigger] front[i]).path@,
            one,
            back[i].path@,
            other,
            rels,
        ) && front[i].text@ == back[i].text@ by {
            assert(front[i] == here[i] && back[i] == there[i]);
        }
        lemma_same_sources(one, other, rels, front, back);
        let n = here.len() - 1;
        assert(same_place(here[n].path@, one, there[n].path@, other, rels));
        let r = choose|r: Seq<char>| #[trigger]
            rels.contains(r) && here[n].path@ == joined(one, r) && there[n].path@ == joined(other, r);
        lemma_language_of_joined(one, r);
        lemma_language_of_joined(other, r);
        lemma_strip_undoes_join(one, r);
        lemma_strip_undoes_join(other, r);
        assert(here[n].text@ == there[n].text@);
        let (before, all) = (sources_of(front, one), sources_of(here, one));
        assert forall|i: int| 0 <= i < here.len() implies is_recorded_of(
            (#[trigger] all[i]).path,
            rels,
        ) by {
            if i < n {
                assert(all[i] == before[i]);
            } else {
                assert(all[i].path == with_replaced(tidied(r), '\\', '/'));
            }
        }
    }
}

/// A path as a report records it: relative to the scanned root, with `/` separators.
pub open spec fn is_recorded_of(path: Seq<char>, rels: Set<Seq<char>>) -> bool {
    exists|r: Seq<char>| #[trigger]
        rels.contains(r) && path == with_replaced(tidied(r), '\\', '/')
}

/// A tree has the same report wherever it lies: where the same supported files with the
/// same texts are found under two roots, in whatever order each walk met them, the two
/// scans come to the same report, and every path in it is relative to the root.
pub proof fn lemma_a_tree_has_the_same_report_anywhere(
    one: Seq<char>,
    other: Seq<char>,
    rels: Set<Seq<char>>,
    met: Seq<Seq<char>>,
    found: Seq<Seq<char>>,
    here: Seq<ReadFile>,
    there: Seq<ReadFile>,
    config: ConfigView,
    report: ReportView,
    again: ReportView,
)
    requires
        one.len() > 0,
        other.len() > 0,
        are_relative_files(rels),
        forall|r: Seq<char>| #[trigger] rels.contains(r) ==> language_of(r) is Some,
        hold_tree(met, one, rels),
        hold_tree(found, other, rels),
        read_paths(here) == file_list(met),
        read_paths(there) == file_list(found),
        forall|i: int, j: int|
            0 <= i < here.len() && 0 <= j < there.len() && same_place(
                (#[trigger] here[i]).path@,
                one,
                (#[trigger] there[j]).path@,
                other,
                rels,
            ) ==> here[i].text@ == there[j].text@,
        is_scan_report(report, found_in_files(sources_of(here, one), config)),
        is_scan_report(again, found_in_files(sources_of(there, other), config)),
    ensures
        report == again,
        forall|i: int|
            0 <= i < sources_of(here, one).len() ==> is_recorded_of(
                (#[trigger] sources_of(here, one)[i]).path,
                rels,
            ),
{
    lemma_same_files_are_listed_alike(one, other, rels, met, found);
    assert(here.len() == read_paths(here).len() && there.len() == read_paths(there).len());
    assert forall|i: int| 0 <= i < here.len() implies same_place(
        (#[trigger] here[i]).path@,
        one,
        there[i].path@,
        other,
        rels,
    ) && here[i].text@ == there[i].text@ by {
        assert(read_paths(here)[i] == here[i].path@);
        assert(read_paths(there)[i] == there[i].path@);
        assert(same_place(file_list(met)[i], one, file_list(found)[i], other, rels));
        assert(same_place(here[i].path@, one, there[i].path@, other, rels));
    }
    lemma_same_sources(one, other, rels, here, there);
    lemma_scans_are_deterministic(sources_of(here, one), config, report, again);
}

/// A scan ranks the pairs first of which nothing imports a side: none of them stands
/// behind a pair that is imported on both sides.
pub proof fn lemma_unimported_pairs_come_first(
    files: Seq<SourceView>,
    config: ConfigView,
    report: ReportView,
    i: int,
    j: int,
)
    requires
        is_scan_report(report, found_in_files(files, config)),
        0 <= i < j < report.vocab.len(),
        report.vocab[j].zero_inbound,
    ensures
        report.vocab[i].zero_inbound,
{
    lemma_sorted::<VocabPair, UnreachedFirst>(found_in_files(files, config).vocab);
    assert(UnreachedFirst::precedes(report.vocab[i], report.vocab[j]));
}

/// A change that changes nothing adds nothing: scanning the same files twice and
/// comparing the reports gives an empty delta, under any options. No two files have
/// the same path.
pub proof fn lemma_unchanged_files_have_an_empty_delta(
    files: Seq<SourceView>,
    config: ConfigView,
    head: ReportView,
    base: ReportView,
    options: DeltaOptions,
)
    requires
        forall|i: int, j: int|
            0 <= i < j < files.len() ==> (#[trigger] files[i]).path != (#[trigger] files[j]).path,
        is_scan_report(head, found_in_files(files, config)),
        is_scan_report(base, found_in_files(files, config)),
    ensures
        delta_of(head, base, options) == empty_delta(),
{
    let found = found_in_files(files, config);
    lemma_scans_are_deterministic(files, config, head, base);
    let facts = file_facts(files, config.vocab.noise);
    let (low, few, sample) = (
        config.vocab.min_overlap.value.unwrap(),
        config.vocab.min_vocabulary,
        VOCAB_SAMPLE_SIZE as nat,
    );
    let pairs = all_vocab(facts, files.len(), low, few, sample);
    assert forall|i: int, j: int|
        0 <= i < head.vocab.len() && 0 <= j < head.vocab.len() && (#[trigger] head.vocab[i]).key()
            == (#[trigger] head.vocab[j]).key() implies {
        &&& head.vocab[i].zero_inbound == head.vocab[j].zero_inbound
        &&& head.vocab[i].overlap.same(head.vocab[j].overlap)
    } by {
        let (p, q) = (head.vocab[i], head.vocab[j]);
        assert(head.vocab.contains(p) && head.vocab.contains(q));
        lemma_sorted_holds::<VocabPair, UnreachedFirst>(pairs, p);
        lemma_sorted_holds::<VocabPair, UnreachedFirst>(pairs, q);
        lemma_keys_tell_findings_apart(facts, low, few, sample, p, q);
    }
    lemma_identical_reports_have_an_empty_delta(head, options);
}

/// A unit is one of a file: its body is the token stream of a node of the file's tree.
pub open spec fn is_unit_of(
    u: UnitView,
    file: SourceView,
    node: int,
    known: Seq<Seq<char>>,
) -> bool {
    u.path == file.path && has_body(
        u,
        unit_names(syntax_of(file.language.grammar, file.text), file.language, node),
        known,
    )
}

/// A unit is one of some files.
pub open spec fn is_unit_among(
    u: UnitView,
    files: Seq<SourceView>,
    known: Seq<Seq<char>>,
) -> bool {
    exists|f: int, node: int|
        0 <= f < files.len() && #[trigger] is_unit_of(u, files[f], node, known)
}

/// Every unit of a scan is one of its files, whatever else was scanned before and
/// after it.
pub proof fn lemma_every_unit_is_one_of_a_file(files: Seq<SourceView>, min_nodes: nat)
    ensures
        extracted(files, min_nodes).known.no_duplicates(),
        forall|i: int|
            0 <= i < extracted(files, min_nodes).units.len() ==> is_unit_among(
                #[trigger] extracted(files, min_nodes).units[i],
                files,
                extracted(files, min_nodes).known,
            ),
    decreases files.len(),
{
    if files.len() > 0 {
        let front = files.drop_last();
        let file = files.last();
        lemma_every_unit_is_one_of_a_file(front, min_nodes);
        let before = extracted(front, min_nodes);
        let all = extracted(files, min_nodes);
        let nodes = syntax_of(file.language.grammar, file.text);
        let found = found_under_root(nodes, file.language, min_nodes);
        let units = units_from(nodes, file.language, file.path, before.known, found);
        lemma_units_have_the_bodies_of_their_nodes(
            nodes,
            file.language,
            file.path,
            before.known,
            found,
        );
        lemma_unit_paths(nodes, file.language, file.path, before.known, found);
        assert forall|i: int| 0 <= i < all.units.len() implies is_unit_among(
            #[trigger] all.units[i],
            files,
            all.known,
        ) by {
            let u = all.units[i];
            if i < before.units.len() {
                assert(u == before.units[i]);
                assert(is_unit_among(before.units[i], front, before.known));
                let (f, node) = choose|f: int, node: int|
                    0 <= f < front.len() && #[trigger] is_unit_of(
                        before.units[i],
                        front[f],
                        node,
                        before.known,
                    );
                assert(files[f] == front[f]);
                assert(is_unit_of(u, files[f], node, all.known));
            } else {
                let here = sorted::<Unit, SourceOrder>(units);
                assert(u == here[i - before.units.len()]);
                assert(here.contains(u));
                lemma_sorted_holds::<Unit, SourceOrder>(units, u);
                let k = choose|k: int| 0 <= k < units.len() && units[k] == u;
                assert(is_unit_of(units[k], files[files.len() - 1], found[k].0, all.known));
            }
        }
    }
}

proof fn lemma_unit_paths(
    nodes: Seq<NodeView>,
    language: LanguageView,
    path: Seq<char>,
    known: Seq<Seq<char>>,
    found: Seq<(int, Seq<char>)>,
)
    ensures
        forall|k: int|
            0 <= k < units_from(nodes, language, path, known, found).len() ==> (
            #[trigger] units_from(nodes, language, path, known, found)[k]).path == path,
    decreases found.len(),
{
    if found.len() > 0 {
        lemma_unit_paths(nodes, language, path, known, found.drop_last());
        let (before, units) = (
            units_from(nodes, language, path, known, found.drop_last()),
            units_from(nodes, language, path, known, found),
        );
        assert forall|k: int| 0 <= k < units.len() implies (#[trigger] units[k]).path == path by {
            if k < before.len() {
                assert(units[k] == before[k]);
            }
        }
    }
}

/// Two units, each among the names known to its own scan, have the same normalized
/// body.
pub open spec fn same_body(
    a: UnitView,
    known: Seq<Seq<char>>,
    b: UnitView,
    other: Seq<Seq<char>>,
) -> bool {
    exists|names: Seq<Seq<char>>| #[trigger]
        has_body(a, names, known) && has_body(b, names, other)
}

/// A pair is new only if the change brought one of its sides: where both bodies
/// already existed in the base tree, in two units neither of which contains the
/// other, no pair of these bodies is reported, wherever the units were and whatever
/// they were called. Similarity depends on which of two bodies comes first, so where
/// the base tree lists them the other way round, they have to be as similar that way
/// as well. Neither scan meets more token names than there are ids.
pub proof fn lemma_a_new_pair_needs_a_new_side(
    head_files: Seq<SourceView>,
    base_files: Seq<SourceView>,
    config: ConfigView,
    head: ReportView,
    base: ReportView,
    options: DeltaOptions,
    i: int,
    j: int,
    k: int,
    l: int,
)
    requires
        is_scan_report(head, found_in_files(head_files, config)),
        is_scan_report(base, found_in_files(base_files, config)),
        ({
            let now = extracted(head_files, config.function.min_nodes);
            let then = extracted(base_files, config.function.min_nodes);
            let min = config.function.min_similarity.value.unwrap();
            let (a, b) = (now.units[i].stream.tokens, now.units[j].stream.tokens);
            &&& now.known.len() <= 0x1_0000_0000
            &&& then.known.len() <= 0x1_0000_0000
            &&& 0 <= i < j < now.units.len()
            &&& min.le(ratio_of(a, b))
            &&& 0 <= k < then.units.len()
            &&& 0 <= l < then.units.len()
            &&& k != l
            &&& !nested(then.units[k], then.units[l])
            &&& same_body(now.units[i], now.known, then.units[k], then.known)
            &&& same_body(now.units[j], now.known, then.units[l], then.known)
            &&& k < l || min.le(ratio_of(b, a))
            &&& a.len() <= usize::MAX
            &&& b.len() <= usize::MAX
        }),
    ensures
        !has_clone(
            delta_of(head, base, options).new_clones,
            found_between(extracted(head_files, config.function.min_nodes).units, i, j).key(),
        ),
{
    let now = extracted(head_files, config.function.min_nodes);
    let then = extracted(base_files, config.function.min_nodes);
    let min = config.function.min_similarity.value.unwrap();
    lemma_every_unit_is_one_of_a_file(head_files, config.function.min_nodes);
    lemma_every_unit_is_one_of_a_file(base_files, config.function.min_nodes);
    let x = choose|names: Seq<Seq<char>>| #[trigger]
        has_body(now.units[i], names, now.known) && has_body(then.units[k], names, then.known);
    let y = choose|names: Seq<Seq<char>>| #[trigger]
        has_body(now.units[j], names, now.known) && has_body(then.units[l], names, then.known);
    lemma_bodies_agree_alike_in_every_scan(now.known, then.known, x, y);
    lemma_bodies_agree_alike_in_every_scan(now.known, then.known, y, x);
    let pair = found_between(now.units, i, j);
    let known = if k < l {
        lemma_same_bodies_are_found_again(now.units, then.units, min, i, j, k, l);
        found_between(then.units, k, l)
    } else {
        lemma_same_bodies_are_found_again(now.units, then.units, min, j, i, l, k);
        found_between(then.units, l, k)
    };
    let pairs = all_clones(then.units, then.units.len(), min);
    let found = found_in_files(base_files, config);
    lemma_sorted_holds::<ClonePair, StrongestClone>(pairs, known);
    lemma_sorted_holds::<ClonePair, StrongestClone>(found.clones, known);
    lemma_known_clones_stay_silent(head, base, options, known, pair);
}

// ---------------------------------------------------------- what a report amounts to

/// The grammar met a syntax error in a file.
pub open spec fn is_broken(file: SourceView) -> bool {
    let nodes = syntax_of(file.language.grammar, file.text);
    nodes.len() > 0 && nodes[0].has_error
}

/// `units` are the units of the files, one file after the other: `parts` are those of
/// each.
pub open spec fn are_units_of(
    units: Seq<UnitView>,
    files: Seq<SourceView>,
    min_nodes: nat,
    parts: Seq<Seq<UnitView>>,
) -> bool {
    &&& parts.len() == files.len()
    &&& units == parts.flatten_alt()
    &&& forall|f: int|
        0 <= f < files.len() ==> reports_every_unit(
            #[trigger] parts[f],
            syntax_of(files[f].language.grammar, files[f].text),
            files[f].language,
            files[f].path,
            min_nodes,
        )
}

/// A report tells everything that there is to tell of some files: how many files and
/// units there are, every two units that are clones, every two files with kindred
/// vocabularies, every repeated run of tokens, and every file with a syntax error. It
/// tells of nothing else.
pub open spec fn tells_everything(
    r: ReportView,
    files: Seq<SourceView>,
    config: ConfigView,
) -> bool {
    &&& r.files_scanned == files.len()
    &&& exists|units: Seq<UnitView>, parts: Seq<Seq<UnitView>>|
        {
            &&& #[trigger] are_units_of(units, files, config.function.min_nodes, parts)
            &&& r.units_considered == units.len()
            &&& reports_every_clone(
                r.clones,
                units,
                config.function.min_similarity.value.unwrap(),
            )
        }
    &&& exists|facts: Seq<FileFacts>|
        {
            &&& #[trigger] tells_every_file(facts, files, config.vocab.noise)
            &&& reports_every_overlap(
                r.vocab,
                facts,
                config.vocab.min_overlap.value.unwrap(),
                config.vocab.min_vocabulary,
                25,
            )
        }
    &&& reports_every_repeat(r.blocks, files, all_tokens(files), config.min_tokens)
    &&& ordered(r.files_with_syntax_errors)
    &&& forall|path: Seq<char>| #[trigger]
        r.files_with_syntax_errors.contains(path) <==> exists|f: int|
            0 <= f < files.len() && is_broken(#[trigger] files[f]) && files[f].path == path
}

proof fn lemma_units_file_by_file(files: Seq<SourceView>, min_nodes: nat) -> (parts: Seq<
    Seq<UnitView>,
>)
    ensures
        are_units_of(extracted(files, min_nodes).units, files, min_nodes, parts),
    decreases files.len(),
{
    if files.len() == 0 {
        let none: Seq<Seq<UnitView>> = Seq::empty();
        assert(none.flatten_alt() =~= Seq::empty());
        none
    } else {
        let front = files.drop_last();
        let file = files.last();
        let before = lemma_units_file_by_file(front, min_nodes);
        let known = extracted(front, min_nodes).known;
        let nodes = syntax_of(file.language.grammar, file.text);
        let here = extraction_of(nodes, file.language, file.path, known, min_nodes).units;
        lemma_every_unit_is_extracted(nodes, file.language, file.path, known, min_nodes);
        let parts = before.push(here);
        assert(parts.drop_last() =~= before);
        assert forall|f: int| 0 <= f < files.len() implies reports_every_unit(
            #[trigger] parts[f],
            syntax_of(files[f].language.grammar, files[f].text),
            files[f].language,
            files[f].path,
            min_nodes,
        ) by {
            if f < front.len() {
                assert(front[f] == files[f] && parts[f] == before[f]);
            }
        }
        parts
    }
}

proof fn lemma_broken_files(files: Seq<SourceView>, min_nodes: nat, path: Seq<char>)
    ensures
        extracted(files, min_nodes).broken.contains(path) <==> exists|f: int|
            0 <= f < files.len() && is_broken(#[trigger] files[f]) && files[f].path == path,
    decreases files.len(),
{
    if files.len() > 0 {
        let front = files.drop_last();
        lemma_broken_files(front, min_nodes, path);
        let before = extracted(front, min_nodes).broken;
        let all = extracted(files, min_nodes).broken;
        if all.contains(path) {
            let k = choose|k: int| 0 <= k < all.len() && all[k] == path;
            if k < before.len() {
                assert(before[k] == path);
                let f = choose|f: int|
                    0 <= f < front.len() && is_broken(#[trigger] front[f]) && front[f].path == path;
                assert(files[f] == front[f]);
            } else {
                assert(is_broken(files[files.len() - 1]));
            }
        }
        if exists|f: int|
            0 <= f < files.len() && is_broken(#[trigger] files[f]) && files[f].path == path {
            let f = choose|f: int|
                0 <= f < files.len() && is_broken(#[trigger] files[f]) && files[f].path == path;
            if f < front.len() {
                assert(front[f] == files[f]);
                let k = choose|k: int| 0 <= k < before.len() && before[k] == path;
                assert(all[k] == path);
            } else {
                assert(all[before.len() as int] == path);
            }
        }
    }
}

/// A scan leaves nothing out and makes nothing up: its report tells of every two units
/// that are clones, every two files with kindred vocabularies, every repeated run of
/// tokens and every file with a syntax error, and of nothing else.
pub proof fn lemma_a_scan_tells_everything(
    files: Seq<SourceView>,
    config: ConfigView,
    report: ReportView,
)
    requires
        is_scan_report(report, found_in_files(files, config)),
        config.min_tokens >= 1,
        tells_every_file(file_facts(files, config.vocab.noise), files, config.vocab.noise),
    ensures
        tells_everything(report, files, config),
{
    let found = found_in_files(files, config);
    let all = extracted(files, config.function.min_nodes);
    let min = config.function.min_similarity.value.unwrap();
    let parts = lemma_units_file_by_file(files, config.function.min_nodes);
    lemma_every_clone_is_reported(all.units, min);
    lemma_every_repeat_is_reported(files, all_tokens(files), config.min_tokens);
    let facts = file_facts(files, config.vocab.noise);
    assert forall|i: int| 0 <= i < facts.len() implies ordered((#[trigger] facts[i]).names)
        && facts[i].names.len() <= u64::MAX by {}
    lemma_every_overlap_is_reported(
        facts,
        config.vocab.min_overlap.value.unwrap(),
        config.vocab.min_vocabulary,
        25,
    );
    assert(are_units_of(all.units, files, config.function.min_nodes, parts));
    assert(tells_every_file(facts, files, config.vocab.noise));
    assert forall|path: Seq<char>| #[trigger]
        report.files_with_syntax_errors.contains(path) <==> exists|f: int|
            0 <= f < files.len() && is_broken(#[trigger] files[f]) && files[f].path == path by {
        lemma_broken_files(files, config.function.min_nodes, path);
        assert(found.files_with_syntax_errors.to_set().contains(path)
            <==> found.files_with_syntax_errors.contains(path));
    }
}

/// The sources of a scan are the files that were read and that some language claims, in
/// the order they were read, each with its text as it was read.
pub proof fn lemma_every_supported_file_is_a_source(
    read: Seq<ReadFile>,
    root: Seq<char>,
) -> (at: Seq<int>)
    ensures
        at.len() == sources_of(read, root).len(),
        forall|k: int|
            0 <= k < at.len() ==> 0 <= (#[trigger] at[k]) < read.len() && sources_of(
                read,
                root,
            )[k].text == read[at[k]].text@ && language_of(read[at[k]].path@) == Some(
                sources_of(read, root)[k].language,
            ) && sources_of(read, root)[k].path == recorded_path(read[at[k]].path@, root),
        forall|k: int, l: int| 0 <= k < l < at.len() ==> #[trigger] at[k] < #[trigger] at[l],
        forall|i: int|
            0 <= i < read.len() && language_of((#[trigger] read[i]).path@) is Some ==> at.contains(
                i,
            ),
    decreases read.len(),
{
    if read.len() == 0 {
        Seq::empty()
    } else {
        let front = read.drop_last();
        let before = lemma_every_supported_file_is_a_source(front, root);
        let last = read.len() - 1;
        let at = if language_of(read[last].path@) is Some {
            before.push(last)
        } else {
            before
        };
        assert forall|i: int| 0 <= i < read.len() && language_of((
        #[trigger] read[i]).path@) is Some implies at.contains(i) by {
            if i < last {
                assert(front[i] == read[i]);
                let k = choose|k: int| 0 <= k < before.len() && before[k] == i;
                assert(at[k] == i);
            } else {
                assert(at[before.len() as int] == i);
            }
        }
        assert forall|k: int| 0 <= k < before.len() implies front[before[k]]
            == read[#[trigger] before[k]] by {}
        at
    }
}

// ------------------------------------------------------------ what emitting amounts to

/// Every channel that was asked for gets its share and no other does: an annotation a line
/// where annotations are asked for and the digest where they are not, the digest again at
/// the end of the summary's file, and the number of findings as all there is in its file.
pub open spec fn serves_every_channel(
    all: Seq<ActionView>,
    delta: DeltaView,
    output: OutputArgs,
) -> bool {
    let digest = document(pieces_text(delta.summary()));
    let notes = delta.annotations();
    &&& forall|text: Seq<char>| #[trigger]
        all.contains(ActionView::Print(text)) <==> if output.github_annotations {
            exists|k: int| 0 <= k < notes.len() && text == (#[trigger] notes[k]).command() + "\n"@
        } else {
            text == digest
        }
    &&& output.github_annotations ==> forall|k: int|
        0 <= k < notes.len() ==> k < all.len() && all[k] == ActionView::Print(
            (#[trigger] notes[k]).command() + "\n"@,
        )
    &&& forall|path: Seq<char>, text: Seq<char>| #[trigger]
        all.contains(ActionView::Append(path, text)) <==> (output.summary matches Some(p) && p@
            == path && text == digest)
    &&& forall|path: Seq<char>, text: Seq<char>| #[trigger]
        all.contains(ActionView::Write(path, text)) <==> (output.findings_out matches Some(p)
            && p@ == path && text == decimal(findings_of(delta)))
    &&& all.len() == (if output.github_annotations {
        notes.len() as int
    } else {
        1
    }) + (if output.summary is Some {
        1int
    } else {
        0
    }) + (if output.findings_out is Some {
        1int
    } else {
        0
    })
}

/// How many findings a delta tells of, or as many as can be counted.
pub open spec fn findings_of(delta: DeltaView) -> nat {
    let all = delta.new_clones.len() + delta.vocab.len() + delta.new_blocks.len();
    if all > usize::MAX {
        usize::MAX as nat
    } else {
        all
    }
}

/// Emitting a delta serves every channel that was asked for, and no other.
pub proof fn lemma_every_channel_is_served(delta: DeltaView, output: OutputArgs)
    ensures
        serves_every_channel(emission(delta, output), delta, output),
{
    let all = emission(delta, output);
    let digest = document(pieces_text(delta.summary()));
    let notes = delta.annotations();
    let lines = annotation_lines(notes);
    let first = if output.github_annotations {
        notes.len() as int
    } else {
        0
    };
    let second = first + (if output.summary is Some {
        1int
    } else {
        0
    });
    let third = second + (if output.findings_out is Some {
        1int
    } else {
        0
    });
    assert forall|k: int| 0 <= k < first implies #[trigger] all[k] == ActionView::Print(
        notes[k].command() + "\n"@,
    ) by {
        assert(lines[k] == ActionView::Print(notes[k].command() + "\n"@));
    }
    assert(output.summary matches Some(p) ==> all[first] == ActionView::Append(p@, digest));
    assert(output.findings_out matches Some(p) ==> all[second] == ActionView::Write(
        p@,
        decimal(delta.count()),
    ));
    assert(!output.github_annotations ==> all[third] == ActionView::Print(digest));
    assert forall|text: Seq<char>| #[trigger]
        all.contains(ActionView::Print(text)) <==> if output.github_annotations {
            exists|k: int| 0 <= k < notes.len() && text == (#[trigger] notes[k]).command() + "\n"@
        } else {
            text == digest
        } by {
        if all.contains(ActionView::Print(text)) {
            let k = choose|k: int| 0 <= k < all.len() && all[k] == ActionView::Print(text);
            if k < first {
                assert(all[k] == ActionView::Print(notes[k].command() + "\n"@));
            }
        }
        if output.github_annotations && exists|k: int|
            0 <= k < notes.len() && text == (#[trigger] notes[k]).command() + "\n"@ {
            let k = choose|k: int|
                0 <= k < notes.len() && text == (#[trigger] notes[k]).command() + "\n"@;
            assert(all[k] == ActionView::Print(text));
        }
        if !output.github_annotations && text == digest {
            assert(all[third] == ActionView::Print(text));
        }
    }
    assert forall|path: Seq<char>, text: Seq<char>| #[trigger]
        all.contains(ActionView::Append(path, text)) <==> (output.summary matches Some(p) && p@
            == path && text == digest) by {
        if all.contains(ActionView::Append(path, text)) {
            let k = choose|k: int| 0 <= k < all.len() && all[k] == ActionView::Append(path, text);
            assert(k == first);
        }
        if output.summary matches Some(p) && p@ == path && text == digest {
            assert(all[first] == ActionView::Append(path, text));
        }
    }
    assert forall|path: Seq<char>, text: Seq<char>| #[trigger]
        all.contains(ActionView::Write(path, text)) <==> (output.findings_out matches Some(p)
            && p@ == path && text == decimal(findings_of(delta))) by {
        if all.contains(ActionView::Write(path, text)) {
            let k = choose|k: int| 0 <= k < all.len() && all[k] == ActionView::Write(path, text);
            assert(k == second);
        }
        if output.findings_out matches Some(p) && p@ == path && text == decimal(
            findings_of(delta),
        ) {
            assert(all[second] == ActionView::Write(path, text));
        }
    }
}

/// A path given on the command line leads into a repository: it is relative, or what it
/// leads to has the components of the root in front.
pub open spec fn leads_inside(p: GivenPath, root: Seq<char>) -> bool {
    let (all, front) = (components(p.canonical@), components(root));
    (p.given@.len() > 0 && p.given@[0] == '/') ==> front.len() <= all.len() && forall|i: int|
        0 <= i < front.len() ==> #[trigger] front[i] == all[i]
}

/// The first path that does not lead into the repository is the one that is refused.
pub proof fn lemma_the_first_path_outside_is_refused(
    paths: Seq<GivenPath>,
    root: Seq<char>,
    from: int,
)
    requires
        0 <= from <= paths.len(),
    ensures
        from <= first_outside(paths, root, from) <= paths.len(),
        forall|i: int|
            from <= i < first_outside(paths, root, from) ==> leads_inside(
                #[trigger] paths[i],
                root,
            ),
        first_outside(paths, root, from) < paths.len() ==> !leads_inside(
            paths[first_outside(paths, root, from)],
            root,
        ),
        forall|i: int|
            0 <= i < paths.len() ==> (within_repository(#[trigger] paths[i], root) is Some
                <==> leads_inside(paths[i], root)),
    decreases paths.len() - from,
{
    assert forall|i: int| 0 <= i < paths.len() implies (within_repository(
        #[trigger] paths[i],
        root,
    ) is Some <==> leads_inside(paths[i], root)) by {
        let (all, front) = (components(paths[i].canonical@), components(root));
        if front.len() <= all.len() {
            if all.take(front.len() as int) == front {
                assert forall|k: int| 0 <= k < front.len() implies #[trigger] front[k] == all[k] by {
                    assert(all.take(front.len() as int)[k] == all[k]);
                }
            }
            if forall|k: int| 0 <= k < front.len() ==> #[trigger] front[k] == all[k] {
                assert(all.take(front.len() as int) =~= front);
            }
        }
    }
    if from < paths.len() && within_repository(paths[from], root) is Some {
        lemma_the_first_path_outside_is_refused(paths, root, from + 1);
    }
}

/// The listing names every language, with all its extensions behind the name, in a column
/// where the name leaves room for one.
pub proof fn lemma_a_listing_tells_names_and_extensions(l: LanguageView)
    ensures
        language_line(l).len() >= l.name.len(),
        language_line(l).take(l.name.len() as int) == l.name,
        exists|at: int| #[trigger]
            is_column(language_line(l), l.name.len() as int, at) && (at == 13 || (at > 13 && at
                == l.name.len() + 1)) && language_line(l).skip(at) == joined_by(
                l.extensions,
                " "@,
            ),
{
    reveal_strlit(" ");
    let line = language_line(l);
    let name = padded(l.name, 12);
    let at = name.len() as int + 1;
    assert(line.take(l.name.len() as int) =~= l.name);
    assert(line.skip(at) =~= joined_by(l.extensions, " "@));
    assert(is_column(line, l.name.len() as int, at));
}

/// Nothing but spaces stands from `from` up to `at`.
pub open spec fn is_column(line: Seq<char>, from: int, at: int) -> bool {
    &&& from < at <= line.len()
    &&& forall|i: int| from <= i < at ==> #[trigger] line[i] == ' '
}

/// Two processes at work on the same repository check its merge-base out into different
/// directories, and the directory's name says which repository it is of.
pub proof fn lemma_worktrees_are_told_apart(p: nat, q: nat, root: Seq<char>)
    ensures
        base_worktree_text(p, root) == base_worktree_text(q, root) ==> p == q,
        file_name_of(root) matches Some(name) ==> exists|front: Seq<char>|
            base_worktree_text(p, root) == #[trigger] (front + name),
{
    let lead = "dupdelta-base-"@;
    let tail = match file_name_of(root) {
        Some(name) => name,
        None => Seq::empty(),
    };
    let (one, two) = (base_worktree_text(p, root), base_worktree_text(q, root));
    if one == two {
        let n = decimal(p).len() as int;
        assert(decimal(p).len() == decimal(q).len());
        assert(one.subrange(lead.len() as int, lead.len() + n) =~= decimal(p));
        assert(two.subrange(lead.len() as int, lead.len() + n) =~= decimal(q));
        lemma_decimal_tells_numbers_apart(p, q);
    }
    assert(one == (lead + decimal(p) + "-"@) + tail);
}

/// A path in a tree is recorded without the tree's root, and one outside it as it is,
/// either with slashes for separators.
pub proof fn lemma_paths_are_recorded_from_the_root(
    path: Seq<char>,
    root: Seq<char>,
    rel: Seq<char>,
)
    requires
        root.len() > 0,
        rel.len() == 0 || rel[0] != '/',
    ensures
        recorded_path(joined(root, rel), root) == with_replaced(tidied(rel), '\\', '/'),
        !(components(root).len() <= components(path).len() && forall|i: int|
            0 <= i < components(root).len() ==> #[trigger] components(root)[i] == components(
                path,
            )[i]) ==> recorded_path(path, root) == with_replaced(path, '\\', '/'),
{
    lemma_strip_undoes_join(root, rel);
    let (all, front) = (components(path), components(root));
    if front.len() <= all.len() && all.take(front.len() as int) == front {
        assert forall|i: int| 0 <= i < front.len() implies #[trigger] front[i] == all[i] by {
            assert(all.take(front.len() as int)[i] == all[i]);
        }
    }
}

/// An error says what the failure behind it says, or which file, path or revision is
/// concerned, and why.
pub proof fn lemma_errors_tell_what_went_wrong(e: CliError)
    ensures
        match e {
            CliError::Walk(w) => e.message() == w@.message(),
            CliError::Report(r) => e.message() == r.message(),
            CliError::Config(c) => e.message() == c.message(),
            CliError::Git(g) => e.message() == g@.message(),
            CliError::Io { path, source } => tells_both(e.message(), path@, source@)
                && ends_telling(e.message(), source@),
            CliError::PathOutsideRepository { path, root } => tells_both(
                e.message(),
                path@,
                root@,
            ),
            CliError::UnresolvableBase { base, source } => tells_both(
                e.message(),
                base@,
                source@.message(),
            ) && tells_both(e.message(), source@.message(), "origin/"@ + base@),
        },
{
    let none = Seq::<char>::empty();
    assert(e.message() + none =~= e.message());
    match e {
        CliError::Io { path, source } => {
            lemma_parts_are_told("could not access "@, path@, ": "@, source@, none);
        },
        CliError::PathOutsideRepository { path, root } => {
            let (middle, tail) = (
                " is outside the repository at "@,
                "; `ci` can only scan paths within it"@,
            );
            lemma_parts_are_told(none, path@, middle, root@, tail);
            assert(e.message() =~= none + path@ + middle + root@ + tail);
        },
        CliError::UnresolvableBase { base, source } => {
            let (name, why) = (base@, source@.message());
            let lead = "could not resolve the base revision '"@;
            let (open, close) = (". Neither the name as given nor '"@, e.message().skip(
                (lead + name + "': "@ + why + ". Neither the name as given nor 'origin/"@
                    + name).len() as int,
            ));
            reveal_strlit(". Neither the name as given nor 'origin/");
            reveal_strlit(". Neither the name as given nor '");
            reveal_strlit("origin/");
            assert(". Neither the name as given nor 'origin/"@ =~= open + "origin/"@);
            let tail = open + "origin/"@ + name + close;
            lemma_parts_are_told(lead, name, "': "@, why, tail);
            assert(e.message() =~= lead + name + "': "@ + why + tail);
            let front = lead + name + "': "@;
            lemma_parts_are_told(front, why, open, "origin/"@ + name, close);
            assert(e.message() =~= front + why + open + ("origin/"@ + name) + close);
        },
        _ => {},
    }
}

} // verus!
