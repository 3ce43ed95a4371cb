//! Source-file discovery for a scan.
//!
//! Everything downstream only ever sees the files this module decided were worth
//! looking at. That makes it the one place where "the tool quietly scanned nothing"
//! can originate, so its failure modes are deliberately narrow: a root that does not
//! exist, or a directory that cannot be read, is an [`Err`], never an empty list. An
//! empty result is only ever produced by a real, readable tree that genuinely
//! contains nothing the caller asked for — that is a legitimate zero, not a
//! swallowed error.
//!
//! Looking at the file system is the caller's part: it says what each root turned
//! out to be, and what walking it met, as [`RootState`]s. What becomes of that is
//! decided here.

use vstd::prelude::*;
use vstd::string::*;

use crate::lang::{is_supported, language_of};
use crate::path::{
    components, components_below, joined, lemma_components_antisymmetric,
    lemma_order_does_not_depend_on_the_root, parts, ByComponents,
};
use crate::sort::{
    in_order, lemma_filter_keeps, lemma_filter_member, lemma_sorted, lemma_sorted_holds, sort, sorted,
    views, Order,
};
use crate::text::{
    chars_of, contains_text, ends_telling, lemma_parts_are_told, may_say, occurs, same_text, stands_at,
    tells_both,
};

verus! {

// ------------------------------------------------------------------------ options

/// Which files a scan should consider.
#[derive(Debug, Clone)]
pub struct WalkOptions {
    /// Directories — or individual files — to discover from.
    pub roots: Vec<String>,
    /// Substring patterns. A file whose full path contains any of them is
    /// skipped, and a *directory* whose full path contains any of them is
    /// never descended into.
    pub excludes: Vec<String>,
    /// Honour `.gitignore` / `.ignore` files.
    pub respect_gitignore: bool,
    /// Follow symlinks.
    pub follow_symlinks: bool,
    /// Skip files larger than this. `None` means no limit.
    pub max_file_bytes: Option<u64>,
}

impl Default for WalkOptions {
    fn default() -> (o: Self)
        ensures
            o.roots@.len() == 0,
            o.excludes@.len() == 0,
            o.respect_gitignore,
            !o.follow_symlinks,
            o.max_file_bytes is None,
    {
        WalkOptions {
            roots: Vec::new(),
            excludes: Vec::new(),
            respect_gitignore: true,
            follow_symlinks: false,
            max_file_bytes: None,
        }
    }
}

// ------------------------------------------------------------------------- errors

/// Why no file list could be produced.
///
/// There is no "root not found, treated as empty" variant: that shape is exactly
/// the silent zero this library refuses to produce.
#[derive(Debug)]
pub enum WalkError {
    /// A configured root does not exist.
    MissingRoot(String),
    /// Reading a directory entry failed — permissions, a vanished file between
    /// listing and stat, a symlink loop, and so on.
    Io {
        /// The path the failing operation was on, when that is known; otherwise the
        /// root being walked.
        path: String,
        /// What the system said.
        source: String,
    },
}

/// What an error holds.
#[verifier::ext_equal]
pub enum WalkErrorView {
    /// A root does not exist.
    MissingRoot(Seq<char>),
    /// Reading failed.
    Io(Seq<char>, Seq<char>),
}

impl View for WalkError {
    type V = WalkErrorView;

    open spec fn view(&self) -> WalkErrorView {
        match self {
            WalkError::MissingRoot(path) => WalkErrorView::MissingRoot(path@),
            WalkError::Io { path, source } => WalkErrorView::Io(path@, source@),
        }
    }
}

impl WalkErrorView {
    /// What the error says.
    pub open spec fn message(self) -> Seq<char> {
        match self {
            WalkErrorView::MissingRoot(path) => "walk root does not exist: "@ + path,
            WalkErrorView::Io(path, source) => "failed to read "@ + path + ": "@ + source,
        }
    }
}

impl WalkError {
    /// What the error says.
    pub fn to_string(&self) -> (s: String)
        ensures
            s@ == self@.message(),
    {
        match self {
            WalkError::MissingRoot(path) => {
                let mut s = "walk root does not exist: ".to_owned();
                s.append(path.as_str());
                s
            },
            WalkError::Io { path, source } => {
                let mut s = "failed to read ".to_owned();
                s.append(path.as_str());
                s.append(": ");
                s.append(source.as_str());
                s
            },
        }
    }
}

// ---------------------------------------------------------------------- decisions

/// A path contains one of some patterns.
pub open spec fn is_excluded(path: Seq<char>, excludes: Seq<Seq<char>>) -> bool {
    exists|i: int| 0 <= i < excludes.len() && occurs(path, #[trigger] excludes[i])
}

/// `true` if `path`'s full path string contains any of `excludes`.
pub fn excluded(path: &str, excludes: &[String]) -> (r: bool)
    ensures
        r == is_excluded(path@, views(excludes@)),
{
    let text = chars_of(path);
    let mut i: usize = 0;
    while i < excludes.len()
        invariant
            i <= excludes@.len(),
            text@ == path@,
            forall|k: int| 0 <= k < i ==> !occurs(path@, #[trigger] views(excludes@)[k]),
        decreases excludes.len() - i,
    {
        let pattern = chars_of(excludes[i].as_str());
        assert(views(excludes@)[i as int] == pattern@);
        if contains_text(text.as_slice(), pattern.as_slice()) {
            return true;
        }
        i += 1;
    }
    false
}

/// A size is within a limit.
pub open spec fn is_within(bytes: u64, max: Option<u64>) -> bool {
    match max {
        Some(limit) => bytes <= limit,
        None => true,
    }
}

/// `true` if `bytes` is within `max`. `None` means no limit.
pub fn within_limit(bytes: u64, max: Option<u64>) -> (r: bool)
    ensures
        r == is_within(bytes, max),
{
    match max {
        Some(limit) => bytes <= limit,
        None => true,
    }
}

// --------------------------------------------------------------------- what is met

/// What walking a directory met next.
#[derive(Debug)]
pub enum Step {
    /// An entry.
    Met {
        /// Its path.
        path: String,
        /// Whether it is a file.
        is_file: bool,
        /// How many bytes it holds, where that is known.
        bytes: Option<u64>,
    },
    /// Something that could not be read.
    Failed {
        /// Its path, where that is known.
        path: Option<String>,
        /// What the system said.
        source: String,
    },
}

/// What a root turned out to be.
#[derive(Debug)]
pub enum RootState {
    /// Nothing at all.
    Missing,
    /// Something that could not be looked at, and what the system said.
    Denied(String),
    /// A file of this many bytes.
    File(u64),
    /// A directory, and what walking it met.
    Directory(Vec<Step>),
}

/// The first failure among the first `n` steps.
pub open spec fn first_failure(root: Seq<char>, steps: Seq<Step>, n: nat) -> Option<WalkErrorView>
    decreases n,
{
    if n == 0 {
        None
    } else {
        match first_failure(root, steps, (n - 1) as nat) {
            Some(e) => Some(e),
            None => match steps[n - 1] {
                Step::Met { .. } => None,
                Step::Failed { path, source } => Some(
                    WalkErrorView::Io(
                        match path {
                            Some(p) => p@,
                            None => root,
                        },
                        source@,
                    ),
                ),
            },
        }
    }
}

/// What is wrong with a root, if something is.
pub open spec fn root_failure(root: Seq<char>, state: RootState) -> Option<WalkErrorView> {
    match state {
        RootState::Missing => Some(WalkErrorView::MissingRoot(root)),
        RootState::Denied(source) => Some(WalkErrorView::Io(root, source@)),
        RootState::File(bytes) => None,
        RootState::Directory(steps) => first_failure(root, steps@, steps@.len()),
    }
}

/// What is wrong with the first of `n` roots with which something is.
pub open spec fn walk_failure(
    roots: Seq<Seq<char>>,
    states: Seq<RootState>,
    n: nat,
) -> Option<WalkErrorView>
    decreases n,
{
    if n == 0 {
        None
    } else {
        match walk_failure(roots, states, (n - 1) as nat) {
            Some(e) => Some(e),
            None => root_failure(roots[n - 1], states[n - 1]),
        }
    }
}

/// The files among the first `n` steps that are neither excluded nor too large.
pub open spec fn files_met(
    steps: Seq<Step>,
    excludes: Seq<Seq<char>>,
    max: Option<u64>,
    n: nat,
) -> Seq<Seq<char>>
    decreases n,
{
    if n == 0 {
        Seq::empty()
    } else {
        let before = files_met(steps, excludes, max, (n - 1) as nat);
        match steps[n - 1] {
            Step::Met { path, is_file, bytes } => if is_file && !is_excluded(path@, excludes) && (
            bytes matches Some(b) ==> is_within(b, max)) {
                before.push(path@)
            } else {
                before
            },
            Step::Failed { path, source } => before,
        }
    }
}

/// The files that a root leads to.
pub open spec fn root_files(
    root: Seq<char>,
    state: RootState,
    excludes: Seq<Seq<char>>,
    max: Option<u64>,
) -> Seq<Seq<char>> {
    match state {
        RootState::File(bytes) => if !is_excluded(root, excludes) && is_within(bytes, max) {
            seq![root]
        } else {
            Seq::empty()
        },
        RootState::Directory(steps) => files_met(steps@, excludes, max, steps@.len()),
        _ => Seq::empty(),
    }
}

/// The files that the first `n` roots lead to.
pub open spec fn walk_files(
    roots: Seq<Seq<char>>,
    states: Seq<RootState>,
    excludes: Seq<Seq<char>>,
    max: Option<u64>,
    n: nat,
) -> Seq<Seq<char>>
    decreases n,
{
    if n == 0 {
        Seq::empty()
    } else {
        walk_files(roots, states, excludes, max, (n - 1) as nat) + root_files(
            roots[n - 1],
            states[n - 1],
            excludes,
            max,
        )
    }
}

/// `kept` are those of some paths of which `accept` said yes.
pub open spec fn kept_by<F: Fn(&str) -> bool>(
    accept: F,
    paths: Seq<Seq<char>>,
    kept: Seq<Seq<char>>,
) -> bool
    decreases paths.len(),
{
    if paths.len() == 0 {
        kept.len() == 0
    } else {
        ||| may_say(accept, paths.last(), true) && kept.len() > 0 && kept.last() == paths.last()
            && kept_by(accept, paths.drop_last(), kept.drop_last())
        ||| may_say(accept, paths.last(), false) && kept_by(accept, paths.drop_last(), kept)
    }
}

/// A sorted list of paths without those that name the same file as the one before.
pub open spec fn unrepeated(s: Seq<Seq<char>>) -> Seq<Seq<char>>
    decreases s.len(),
{
    if s.len() == 0 {
        s
    } else {
        let before = unrepeated(s.drop_last());
        if before.len() > 0 && components(before.last()) == components(s.last()) {
            before
        } else {
            before.push(s.last())
        }
    }
}

/// Some paths in order, each file once.
pub open spec fn file_list(paths: Seq<Seq<char>>) -> Seq<Seq<char>> {
    unrepeated(sorted::<String, ByComponents>(paths))
}

/// `files` lists those of some paths that `accept` said yes of.
pub open spec fn lists_accepted<F: Fn(&str) -> bool>(
    accept: F,
    paths: Seq<Seq<char>>,
    files: Seq<Seq<char>>,
) -> bool {
    exists|kept: Seq<Seq<char>>| #[trigger]
        kept_by(accept, paths, kept) && files == file_list(kept)
}

fn same_components(a: &str, b: &str) -> (r: bool)
    ensures
        r == (components(a@) == components(b@)),
{
    let x = parts(a);
    let y = parts(b);
    assert(components(a@).len() == x@.len() && components(b@).len() == y@.len());
    if x.len() != y.len() {
        return false;
    }
    let mut i: usize = 0;
    while i < x.len()
        invariant
            i <= x@.len() == y@.len(),
            views(x@) == components(a@),
            views(y@) == components(b@),
            forall|k: int| 0 <= k < i ==> (#[trigger] x@[k])@ == y@[k]@,
        decreases x.len() - i,
    {
        if !same_text(x[i].as_str(), y[i].as_str()) {
            assert(views(x@)[i as int] != views(y@)[i as int]);
            return false;
        }
        i += 1;
    }
    assert(views(x@) =~= views(y@));
    true
}

fn in_order_once(paths: Vec<String>) -> (files: Vec<String>)
    ensures
        views(files@) == file_list(views(paths@)),
{
    let all = sort::<String, ByComponents>(paths);
    let ghost list = views(all@);
    let mut files: Vec<String> = Vec::new();
    let mut i: usize = 0;
    assert(list.take(0) =~= Seq::empty());
    assert(views(files@) =~= unrepeated(list.take(0)));
    while i < all.len()
        invariant
            i <= all@.len(),
            list == views(all@),
            views(files@) == unrepeated(list.take(i as int)),
        decreases all.len() - i,
    {
        let ghost before = views(files@);
        proof {
            assert(list.take(i + 1).drop_last() =~= list.take(i as int));
            assert(list.take(i + 1).last() == all@[i as int]@);
        }
        let n: usize = files.len();
        let again: bool = n > 0 && same_components(files[n - 1].as_str(), all[i].as_str());
        if !again {
            files.push(all[i].clone());
            assert(views(files@) =~= before.push(all@[i as int]@));
        }
        i += 1;
    }
    assert(list.take(i as int) =~= list);
    files
}

/// Adds those of the files met that are neither excluded nor too large and that
/// `accept` says yes of, unless something failed.
fn take_steps<F: Fn(&str) -> bool>(
    root: &str,
    steps: &Vec<Step>,
    excludes: &[String],
    max: Option<u64>,
    accept: &F,
    found: &mut Vec<String>,
    Ghost(paths): Ghost<Seq<Seq<char>>>,
) -> (r: Result<(), WalkError>)
    requires
        forall|s: &str| #[trigger] call_requires(*accept, (s,)),
        kept_by(*accept, paths, views(old(found)@)),
    ensures
        r matches Err(e) ==> first_failure(root@, steps@, steps@.len()) == Some(e@),
        r is Ok ==> first_failure(root@, steps@, steps@.len()) is None,
        r is Ok ==> kept_by(
            *accept,
            paths + files_met(steps@, views(excludes@), max, steps@.len()),
            views(final(found)@),
        ),
{
    let mut i: usize = 0;
    assert(paths + Seq::empty() =~= paths);
    while i < steps.len()
        invariant
            i <= steps@.len(),
            forall|s: &str| #[trigger] call_requires(*accept, (s,)),
            first_failure(root@, steps@, i as nat) is None,
            kept_by(
                *accept,
                paths + files_met(steps@, views(excludes@), max, i as nat),
                views(found@),
            ),
        decreases steps.len() - i,
    {
        let ghost known = paths + files_met(steps@, views(excludes@), max, i as nat);
        let ghost before = views(found@);
        match &steps[i] {
            Step::Failed { path, source } => {
                let place = match path {
                    Some(p) => p.clone(),
                    None => root.to_owned(),
                };
                let e = WalkError::Io { path: place, source: source.clone() };
                proof {
                    lemma_failure_stays(root@, steps@, (i + 1) as nat, steps@.len());
                }
                return Err(e);
            },
            Step::Met { path, is_file, bytes } => {
                let small: bool = match bytes {
                    Some(b) => within_limit(*b, max),
                    None => true,
                };
                if *is_file && !excluded(path.as_str(), excludes) && small {
                    let s = path.as_str();
                    let answer: bool = accept(s);
                    proof {
                        assert(call_ensures(*accept, (s,), answer));
                        assert(may_say(*accept, path@, answer));
                        assert((paths + files_met(steps@, views(excludes@), max, (i + 1) as nat))
                            =~= known.push(path@));
                        assert(known.push(path@).drop_last() =~= known);
                    }
                    if answer {
                        found.push(path.clone());
                        proof {
                            assert(views(found@) =~= before.push(path@));
                            assert(before.push(path@).drop_last() =~= before);
                        }
                    }
                }
            },
        }
        i += 1;
    }
    Ok(())
}

/// A failure met stays the first.
proof fn lemma_failure_stays(root: Seq<char>, steps: Seq<Step>, n: nat, m: nat)
    requires
        first_failure(root, steps, n) is Some,
        n <= m,
    ensures
        first_failure(root, steps, m) == first_failure(root, steps, n),
    decreases m,
{
    if n < m {
        lemma_failure_stays(root, steps, n, (m - 1) as nat);
    }
}

proof fn lemma_walk_failure_stays(
    roots: Seq<Seq<char>>,
    states: Seq<RootState>,
    n: nat,
    m: nat,
)
    requires
        walk_failure(roots, states, n) is Some,
        n <= m,
    ensures
        walk_failure(roots, states, m) == walk_failure(roots, states, n),
    decreases m,
{
    if n < m {
        lemma_walk_failure_stays(roots, states, n, (m - 1) as nat);
    }
}

/// Discover files under the configured roots, deterministically sorted and
/// deduplicated, given what each root turned out to be.
///
/// `accept` decides whether a discovered path is interesting; in production the
/// language registry supplies it. It never influences directory pruning — that is
/// `excludes`' job alone — so an `accept` that rejects everything is a legitimate
/// empty result, not an error.
pub fn discover<F: Fn(&str) -> bool>(
    options: &WalkOptions,
    states: &[RootState],
    accept: F,
) -> (r: Result<Vec<String>, WalkError>)
    requires
        states@.len() == options.roots@.len(),
        forall|s: &str| #[trigger] call_requires(accept, (s,)),
    ensures
        match r {
            Err(e) => {
                &&& walk_failure(views(options.roots@), states@, states@.len()) == Some(e@)
                &&& exists|r: int|
                    0 <= r < states@.len() && is_trouble(
                        views(options.roots@)[r],
                        #[trigger] states@[r],
                        e@,
                    )
            },
            Ok(files) => {
                &&& walk_failure(views(options.roots@), states@, states@.len()) is None
                &&& forall|r: int| 0 <= r < states@.len() ==> is_fine(#[trigger] states@[r])
                &&& lists_accepted(
                    accept,
                    walk_files(
                        views(options.roots@),
                        states@,
                        views(options.excludes@),
                        options.max_file_bytes,
                        states@.len(),
                    ),
                    views(files@),
                )
            },
        },
{
    let ghost (roots, excludes, max) = (
        views(options.roots@),
        views(options.excludes@),
        options.max_file_bytes,
    );
    let mut found: Vec<String> = Vec::new();
    let mut i: usize = 0;
    assert(kept_by(accept, walk_files(roots, states@, excludes, max, 0), views(found@)));
    while i < options.roots.len()
        invariant
            i <= options.roots@.len() == states@.len(),
            forall|s: &str| #[trigger] call_requires(accept, (s,)),
            roots == views(options.roots@),
            excludes == views(options.excludes@),
            max == options.max_file_bytes,
            walk_failure(roots, states@, i as nat) is None,
            kept_by(
                accept,
                walk_files(roots, states@, excludes, max, i as nat),
                views(found@),
            ),
        decreases options.roots.len() - i,
    {
        let root = &options.roots[i];
        let ghost known = walk_files(roots, states@, excludes, max, i as nat);
        let ghost before = views(found@);
        assert(roots[i as int] == root@);
        proof {
            if walk_failure(roots, states@, (i + 1) as nat) is Some {
                lemma_walk_failure_stays(roots, states@, (i + 1) as nat, states@.len());
            }
            lemma_trouble_is_reported(roots, states@, states@.len());
        }
        match &states[i] {
            RootState::Missing => {
                return Err(WalkError::MissingRoot(root.clone()));
            },
            RootState::Denied(source) => {
                return Err(WalkError::Io { path: root.clone(), source: source.clone() });
            },
            RootState::File(bytes) => {
                if !excluded(root.as_str(), options.excludes.as_slice()) && within_limit(
                    *bytes,
                    options.max_file_bytes,
                ) {
                    let s = root.as_str();
                    let answer: bool = accept(s);
                    proof {
                        assert(call_ensures(accept, (s,), answer));
                        assert(may_say(accept, root@, answer));
                        assert(known + seq![root@] =~= known.push(root@));
                        assert(known.push(root@).drop_last() =~= known);
                    }
                    if answer {
                        found.push(root.clone());
                        proof {
                            assert(views(found@) =~= before.push(root@));
                            assert(before.push(root@).drop_last() =~= before);
                        }
                    }
                } else {
                    assert(known + Seq::empty() =~= known);
                }
            },
            RootState::Directory(steps) => {
                match take_steps(
                    root.as_str(),
                    steps,
                    options.excludes.as_slice(),
                    options.max_file_bytes,
                    &accept,
                    &mut found,
                    Ghost(known),
                ) {
                    Ok(()) => {},
                    Err(e) => {
                        return Err(e);
                    },
                }
            },
        }
        i += 1;
    }
    proof {
        lemma_trouble_is_reported(roots, states@, states@.len());
    }
    let ghost kept = views(found@);
    let files = in_order_once(found);
    assert(kept_by(accept, walk_files(roots, states@, excludes, max, states@.len()), kept));
    Ok(files)
}

/// The paths of a language that the registry knows.
pub open spec fn supported(paths: Seq<Seq<char>>) -> Seq<Seq<char>> {
    paths.filter(|p: Seq<char>| language_of(p) is Some)
}

/// Discover the files of every language that the registry knows.
pub fn discover_supported(options: &WalkOptions, states: &[RootState]) -> (r: Result<
    Vec<String>,
    WalkError,
>)
    requires
        states@.len() == options.roots@.len(),
    ensures
        match r {
            Err(e) => {
                &&& walk_failure(views(options.roots@), states@, states@.len()) == Some(e@)
                &&& exists|r: int|
                    0 <= r < states@.len() && is_trouble(
                        views(options.roots@)[r],
                        #[trigger] states@[r],
                        e@,
                    )
            },
            Ok(files) => {
                &&& walk_failure(views(options.roots@), states@, states@.len()) is None
                &&& forall|r: int| 0 <= r < states@.len() ==> is_fine(#[trigger] states@[r])
                &&& views(files@) == file_list(
                    supported(
                        walk_files(
                            views(options.roots@),
                            states@,
                            views(options.excludes@),
                            options.max_file_bytes,
                            states@.len(),
                        ),
                    ),
                )
                &&& lists_what_is_wanted(
                    views(files@),
                    views(options.roots@),
                    states@,
                    views(options.excludes@),
                    options.max_file_bytes,
                )
            },
        },
{
    let accept = |path: &str| -> (b: bool)
        ensures
            b == language_of(path@) is Some,
        { is_supported(path) };
    let ghost kind = accept;
    let r = discover(options, states, accept);
    proof {
        if r is Ok {
            let files = r->Ok_0;
            let paths = walk_files(
                views(options.roots@),
                states@,
                views(options.excludes@),
                options.max_file_bytes,
                states@.len(),
            );
            let kept = choose|kept: Seq<Seq<char>>| #[trigger]
                kept_by(kind, paths, kept) && views(files@) == file_list(kept);
            lemma_kept_by_rule(kind, |p: Seq<char>| language_of(p) is Some, paths, kept);
            lemma_what_is_wanted_is_listed(
                views(options.roots@),
                states@,
                views(options.excludes@),
                options.max_file_bytes,
            );
        }
    }
    r
}

// --------------------------------------------------------------------------- laws

/// Where `accept` always answers by a rule, what is kept is what the rule holds of.
pub proof fn lemma_kept_by_rule<F: Fn(&str) -> bool>(
    accept: F,
    rule: spec_fn(Seq<char>) -> bool,
    paths: Seq<Seq<char>>,
    kept: Seq<Seq<char>>,
)
    requires
        forall|p: Seq<char>, b: bool| #[trigger] may_say(accept, p, b) ==> b == rule(p),
        kept_by(accept, paths, kept),
    ensures
        kept == paths.filter(rule),
    decreases paths.len(),
{
    reveal(Seq::filter);
    if paths.len() == 0 {
        assert(kept =~= paths.filter(rule));
    } else {
        let (front, p) = (paths.drop_last(), paths.last());
        if may_say(accept, p, true) && kept.len() > 0 && kept.last() == p && kept_by(
            accept,
            front,
            kept.drop_last(),
        ) {
            lemma_kept_by_rule(accept, rule, front, kept.drop_last());
            assert(kept =~= kept.drop_last().push(p));
        } else {
            lemma_kept_by_rule(accept, rule, front, kept);
        }
    }
}

proof fn lemma_unrepeated(s: Seq<Seq<char>>)
    requires
        in_order::<String, ByComponents>(s),
    ensures
        in_order::<String, ByComponents>(unrepeated(s)),
        s.len() > 0 ==> unrepeated(s).len() > 0 && components(unrepeated(s).last())
            == components(s.last()),
        forall|i: int, j: int|
            0 <= i < j < unrepeated(s).len() ==> components(#[trigger] unrepeated(s)[i])
                != components(#[trigger] unrepeated(s)[j]),
        forall|i: int| 0 <= i < unrepeated(s).len() ==> s.contains(#[trigger] unrepeated(s)[i]),
        forall|i: int| 0 <= i < s.len() ==> names_one_of(#[trigger] s[i], unrepeated(s)),
    decreases s.len(),
{
    if s.len() > 0 {
        let front = s.drop_last();
        lemma_unrepeated(front);
        let (before, all) = (unrepeated(front), unrepeated(s));
        assert forall|i: int| 0 <= i < before.len() implies s.contains(#[trigger] before[i]) by {
            let k = choose|k: int| 0 <= k < front.len() && front[k] == before[i];
            assert(s[k] == before[i]);
        }
        assert(s.contains(s.last())) by {
            assert(s[s.len() - 1] == s.last());
        }
        if all.len() > before.len() {
            assert forall|i: int, j: int| 0 <= i < j < all.len() implies ByComponents::precedes(
                #[trigger] all[i],
                #[trigger] all[j],
            ) && components(all[i]) != components(all[j]) by {
                assert(all[i] == before[i]);
                if j < before.len() {
                    assert(all[j] == before[j]);
                } else {
                    let k = choose|k: int| 0 <= k < front.len() && front[k] == before[i];
                    assert(s[k] == all[i] && s[s.len() - 1] == all[j]);
                    if components(all[i]) == components(all[j]) {
                        let l = before.len() - 1;
                        let m = choose|m: int| 0 <= m < front.len() && front[m] == before[l];
                        assert(s[m] == before[l]);
                        if i < l {
                            assert(ByComponents::precedes(before[i], before[l]));
                            lemma_components_antisymmetric(
                                components(before[i]),
                                components(before[l]),
                            );
                        }
                    }
                }
            }
        }
        assert forall|i: int| 0 <= i < s.len() implies names_one_of(#[trigger] s[i], all) by {
            if i < front.len() {
                assert(front[i] == s[i]);
                assert(names_one_of(front[i], before));
                let k = choose|k: int|
                    0 <= k < before.len() && components(#[trigger] before[k]) == components(s[i]);
                assert(all[k] == before[k]);
            } else {
                assert(components(all[all.len() - 1]) == components(s[i]));
            }
        }
    }
}

/// One of some paths has the components of this one.
pub open spec fn names_one_of(path: Seq<char>, list: Seq<Seq<char>>) -> bool {
    exists|k: int| 0 <= k < list.len() && components(#[trigger] list[k]) == components(path)
}

/// A file list is in order, names no file twice, lists only what was found, and
/// leaves no file out.
pub proof fn lemma_files_are_listed_once_in_order(paths: Seq<Seq<char>>)
    ensures
        in_order::<String, ByComponents>(file_list(paths)),
        forall|i: int, j: int|
            0 <= i < j < file_list(paths).len() ==> components(#[trigger] file_list(paths)[i])
                != components(#[trigger] file_list(paths)[j]),
        forall|i: int|
            0 <= i < file_list(paths).len() ==> paths.contains(#[trigger] file_list(paths)[i]),
        forall|i: int| 0 <= i < paths.len() ==> names_one_of(#[trigger] paths[i], file_list(paths)),
{
    let all = sorted::<String, ByComponents>(paths);
    lemma_sorted::<String, ByComponents>(paths);
    lemma_unrepeated(all);
    let list = file_list(paths);
    assert forall|i: int| 0 <= i < list.len() implies paths.contains(#[trigger] list[i]) by {
        lemma_sorted_holds::<String, ByComponents>(paths, list[i]);
    }
    assert forall|i: int| 0 <= i < paths.len() implies names_one_of(#[trigger] paths[i], list) by {
        lemma_sorted_holds::<String, ByComponents>(paths, paths[i]);
        let k = choose|k: int| 0 <= k < all.len() && all[k] == paths[i];
        assert(names_one_of(all[k], list));
    }
}

proof fn lemma_files_met_are_not_excluded(
    steps: Seq<Step>,
    excludes: Seq<Seq<char>>,
    max: Option<u64>,
    n: nat,
)
    requires
        n <= steps.len(),
    ensures
        forall|i: int|
            0 <= i < files_met(steps, excludes, max, n).len() ==> !is_excluded(
                #[trigger] files_met(steps, excludes, max, n)[i],
                excludes,
            ),
    decreases n,
{
    if n > 0 {
        lemma_files_met_are_not_excluded(steps, excludes, max, (n - 1) as nat);
        let (before, all) = (
            files_met(steps, excludes, max, (n - 1) as nat),
            files_met(steps, excludes, max, n),
        );
        assert forall|i: int| 0 <= i < all.len() implies !is_excluded(
            #[trigger] all[i],
            excludes,
        ) by {
            if i < before.len() {
                assert(all[i] == before[i]);
            }
        }
    }
}

/// An excluded path is never listed, whether it was met on the way or given as a
/// root.
pub proof fn lemma_no_excluded_file_is_found(
    roots: Seq<Seq<char>>,
    states: Seq<RootState>,
    excludes: Seq<Seq<char>>,
    max: Option<u64>,
    n: nat,
)
    requires
        n <= roots.len() == states.len(),
    ensures
        forall|i: int|
            0 <= i < walk_files(roots, states, excludes, max, n).len() ==> !is_excluded(
                #[trigger] walk_files(roots, states, excludes, max, n)[i],
                excludes,
            ),
    decreases n,
{
    if n > 0 {
        lemma_no_excluded_file_is_found(roots, states, excludes, max, (n - 1) as nat);
        match states[n - 1] {
            RootState::Directory(steps) => {
                lemma_files_met_are_not_excluded(steps@, excludes, max, steps@.len());
            },
            _ => {},
        }
        let before = walk_files(roots, states, excludes, max, (n - 1) as nat);
        let here = root_files(roots[n - 1], states[n - 1], excludes, max);
        let all = walk_files(roots, states, excludes, max, n);
        assert forall|i: int| 0 <= i < all.len() implies !is_excluded(
            #[trigger] all[i],
            excludes,
        ) by {
            if i < before.len() {
                assert(all[i] == before[i]);
            } else {
                assert(all[i] == here[i - before.len()]);
            }
        }
    }
}

/// Relative paths, no two of which name the same file.
pub open spec fn are_relative_files(rels: Set<Seq<char>>) -> bool {
    &&& forall|r: Seq<char>| #[trigger] rels.contains(r) ==> !(r.len() > 0 && r[0] == '/')
    &&& forall|r: Seq<char>, q: Seq<char>|
        #[trigger] rels.contains(r) && #[trigger] rels.contains(q) && components_below(r)
            == components_below(q) ==> r == q
}

/// A path leads to one of some relative paths under a root.
pub open spec fn lies_below(path: Seq<char>, root: Seq<char>, rels: Set<Seq<char>>) -> bool {
    exists|r: Seq<char>| #[trigger] rels.contains(r) && path == joined(root, r)
}

/// Some paths lead to exactly these relative paths under a root.
pub open spec fn hold_tree(
    paths: Seq<Seq<char>>,
    root: Seq<char>,
    rels: Set<Seq<char>>,
) -> bool {
    &&& forall|r: Seq<char>| #[trigger] rels.contains(r) ==> paths.contains(joined(root, r))
    &&& forall|i: int| 0 <= i < paths.len() ==> lies_below(#[trigger] paths[i], root, rels)
}

/// Two paths lead to the same relative path, each under its own root.
pub open spec fn same_place(
    a: Seq<char>,
    one: Seq<char>,
    b: Seq<char>,
    other: Seq<char>,
    rels: Set<Seq<char>>,
) -> bool {
    exists|r: Seq<char>| #[trigger]
        rels.contains(r) && a == joined(one, r) && b == joined(other, r)
}

/// A list of paths, each file once.
spec fn names_once(s: Seq<Seq<char>>) -> bool {
    forall|i: int, j: int|
        0 <= i < j < s.len() ==> components(#[trigger] s[i]) != components(#[trigger] s[j])
}

/// There is only one way to list some files in order, each once.
proof fn lemma_listing_unique(a: Seq<Seq<char>>, b: Seq<Seq<char>>)
    requires
        in_order::<String, ByComponents>(a),
        in_order::<String, ByComponents>(b),
        names_once(a),
        names_once(b),
        forall|x: Seq<char>| #[trigger] a.contains(x) <==> b.contains(x),
    ensures
        a == b,
    decreases a.len(),
{
    if a.len() == 0 {
        if b.len() > 0 {
            assert(b.contains(b[0]));
            assert(a.contains(b[0]));
        }
        assert(a =~= b);
    } else {
        assert(a.contains(a[0]));
        let k = choose|k: int| 0 <= k < b.len() && b[k] == a[0];
        assert(b.contains(b[0]));
        assert(a.contains(b[0]));
        let l = choose|l: int| 0 <= l < a.len() && a[l] == b[0];
        if k > 0 && l > 0 {
            assert(ByComponents::precedes(b[0], b[k]));
            assert(ByComponents::precedes(a[0], a[l]));
            lemma_components_antisymmetric(components(a[0]), components(b[0]));
            assert(components(b[0]) != components(b[k]));
        }
        assert(a[0] == b[0]);
        let (x, y) = (a.drop_first(), b.drop_first());
        assert forall|i: int, j: int| 0 <= i < j < x.len() implies ByComponents::precedes(
            #[trigger] x[i],
            #[trigger] x[j],
        ) && components(x[i]) != components(x[j]) by {
            assert(x[i] == a[i + 1] && x[j] == a[j + 1]);
        }
        assert forall|i: int, j: int| 0 <= i < j < y.len() implies ByComponents::precedes(
            #[trigger] y[i],
            #[trigger] y[j],
        ) && components(y[i]) != components(y[j]) by {
            assert(y[i] == b[i + 1] && y[j] == b[j + 1]);
        }
        assert forall|z: Seq<char>| #[trigger] x.contains(z) <==> y.contains(z) by {
            if x.contains(z) {
                let i = choose|i: int| 0 <= i < x.len() && x[i] == z;
                assert(a[i + 1] == z && components(a[0]) != components(a[i + 1]));
                assert(a.contains(z));
                assert(b.contains(z));
                let m = choose|m: int| 0 <= m < b.len() && b[m] == z;
                assert(y[m - 1] == z);
            }
            if y.contains(z) {
                let i = choose|i: int| 0 <= i < y.len() && y[i] == z;
                assert(b[i + 1] == z && components(b[0]) != components(b[i + 1]));
                assert(b.contains(z));
                assert(a.contains(z));
                let m = choose|m: int| 0 <= m < a.len() && a[m] == z;
                assert(x[m - 1] == z);
            }
        }
        lemma_listing_unique(x, y);
        assert(a =~= seq![a[0]] + x);
        assert(b =~= seq![b[0]] + y);
    }
}

/// A list in order holds just the tree that was met.
proof fn lemma_listing_holds_tree(root: Seq<char>, rels: Set<Seq<char>>, met: Seq<Seq<char>>)
    requires
        root.len() > 0,
        are_relative_files(rels),
        hold_tree(met, root, rels),
    ensures
        hold_tree(file_list(met), root, rels),
{
    let list = file_list(met);
    lemma_files_are_listed_once_in_order(met);
    assert forall|i: int| 0 <= i < list.len() implies lies_below(#[trigger] list[i], root, rels) by {
        assert(met.contains(list[i]));
        let k = choose|k: int| 0 <= k < met.len() && met[k] == list[i];
        assert(lies_below(met[k], root, rels));
    }
    assert forall|r: Seq<char>| #[trigger] rels.contains(r) implies list.contains(
        joined(root, r),
    ) by {
        let p = joined(root, r);
        assert(met.contains(p));
        let f = choose|f: int| 0 <= f < met.len() && met[f] == p;
        assert(names_one_of(met[f], list));
        let k = choose|k: int| 0 <= k < list.len() && components(#[trigger] list[k]) == components(p);
        assert(lies_below(list[k], root, rels));
        let q = choose|q: Seq<char>| #[trigger] rels.contains(q) && list[k] == joined(root, q);
        lemma_order_does_not_depend_on_the_root(root, root, r, q);
        assert(list[k] == p);
    }
}

spec fn relative_of(p: Seq<char>, root: Seq<char>, rels: Set<Seq<char>>) -> Seq<char> {
    choose|r: Seq<char>| #[trigger] rels.contains(r) && p == joined(root, r)
}

/// The same files, under another root.
spec fn elsewhere(
    list: Seq<Seq<char>>,
    one: Seq<char>,
    other: Seq<char>,
    rels: Set<Seq<char>>,
) -> Seq<Seq<char>> {
    Seq::new(list.len(), |i: int| joined(other, relative_of(list[i], one, rels)))
}

proof fn lemma_elsewhere_in_order(
    list: Seq<Seq<char>>,
    one: Seq<char>,
    other: Seq<char>,
    rels: Set<Seq<char>>,
)
    requires
        one.len() > 0,
        other.len() > 0,
        are_relative_files(rels),
        hold_tree(list, one, rels),
        in_order::<String, ByComponents>(list),
        names_once(list),
    ensures
        in_order::<String, ByComponents>(elsewhere(list, one, other, rels)),
        names_once(elsewhere(list, one, other, rels)),
{
    let moved = elsewhere(list, one, other, rels);
    assert forall|i: int, j: int| 0 <= i < j < moved.len() implies ByComponents::precedes(
        #[trigger] moved[i],
        #[trigger] moved[j],
    ) && components(moved[i]) != components(moved[j]) by {
        let (r, q) = (relative_of(list[i], one, rels), relative_of(list[j], one, rels));
        assert(lies_below(list[i], one, rels) && lies_below(list[j], one, rels));
        lemma_order_does_not_depend_on_the_root(one, other, r, q);
        lemma_order_does_not_depend_on_the_root(other, one, r, q);
        assert(ByComponents::precedes(list[i], list[j]));
        assert(components(list[i]) != components(list[j]));
    }
}

proof fn lemma_elsewhere_holds_tree(
    list: Seq<Seq<char>>,
    one: Seq<char>,
    other: Seq<char>,
    rels: Set<Seq<char>>,
)
    requires
        one.len() > 0,
        are_relative_files(rels),
        hold_tree(list, one, rels),
    ensures
        hold_tree(elsewhere(list, one, other, rels), other, rels),
{
    let moved = elsewhere(list, one, other, rels);
    assert forall|i: int| 0 <= i < moved.len() implies lies_below(
        #[trigger] moved[i],
        other,
        rels,
    ) by {
        assert(lies_below(list[i], one, rels));
        assert(rels.contains(relative_of(list[i], one, rels)));
    }
    assert forall|q: Seq<char>| #[trigger] rels.contains(q) implies moved.contains(
        joined(other, q),
    ) by {
        assert(list.contains(joined(one, q)));
        let m = choose|m: int| 0 <= m < list.len() && list[m] == joined(one, q);
        assert(lies_below(list[m], one, rels));
        let r = relative_of(list[m], one, rels);
        lemma_order_does_not_depend_on_the_root(one, one, r, q);
        assert(r == q);
        assert(moved[m] == joined(other, q));
    }
}

proof fn lemma_same_members(
    a: Seq<Seq<char>>,
    b: Seq<Seq<char>>,
    root: Seq<char>,
    rels: Set<Seq<char>>,
    x: Seq<char>,
)
    requires
        hold_tree(a, root, rels),
        hold_tree(b, root, rels),
        a.contains(x),
    ensures
        b.contains(x),
{
    let i = choose|i: int| 0 <= i < a.len() && a[i] == x;
    assert(lies_below(a[i], root, rels));
    let r = choose|r: Seq<char>| #[trigger] rels.contains(r) && x == joined(root, r);
    assert(b.contains(joined(root, r)));
}

proof fn lemma_lists_of_one_tree(
    first: Seq<Seq<char>>,
    one: Seq<char>,
    second: Seq<Seq<char>>,
    other: Seq<char>,
    rels: Set<Seq<char>>,
)
    requires
        one.len() > 0,
        other.len() > 0,
        are_relative_files(rels),
        hold_tree(first, one, rels),
        hold_tree(second, other, rels),
        in_order::<String, ByComponents>(first),
        in_order::<String, ByComponents>(second),
        names_once(first),
        names_once(second),
    ensures
        first.len() == second.len(),
        forall|i: int|
            0 <= i < first.len() ==> same_place(#[trigger] first[i], one, second[i], other, rels),
{
    let moved = elsewhere(first, one, other, rels);
    lemma_elsewhere_in_order(first, one, other, rels);
    lemma_elsewhere_holds_tree(first, one, other, rels);
    assert forall|x: Seq<char>| #[trigger] moved.contains(x) <==> second.contains(x) by {
        if moved.contains(x) {
            lemma_same_members(moved, second, other, rels, x);
        }
        if second.contains(x) {
            lemma_same_members(second, moved, other, rels, x);
        }
    }
    lemma_listing_unique(moved, second);
    assert forall|i: int| 0 <= i < first.len() implies same_place(
        #[trigger] first[i],
        one,
        second[i],
        other,
        rels,
    ) by {
        assert(lies_below(first[i], one, rels));
        assert(rels.contains(relative_of(first[i], one, rels)) && second[i] == moved[i]);
    }
}

/// The same relative files are listed in the same order whatever root they lie under,
/// and in whatever order they were met.
pub proof fn lemma_same_files_are_listed_alike(
    one: Seq<char>,
    other: Seq<char>,
    rels: Set<Seq<char>>,
    met: Seq<Seq<char>>,
    found: Seq<Seq<char>>,
)
    requires
        one.len() > 0,
        other.len() > 0,
        are_relative_files(rels),
        hold_tree(met, one, rels),
        hold_tree(found, other, rels),
    ensures
        file_list(met).len() == file_list(found).len(),
        forall|i: int|
            0 <= i < file_list(met).len() ==> same_place(
                #[trigger] file_list(met)[i],
                one,
                file_list(found)[i],
                other,
                rels,
            ),
{
    lemma_files_are_listed_once_in_order(met);
    lemma_files_are_listed_once_in_order(found);
    lemma_listing_holds_tree(one, rels, met);
    lemma_listing_holds_tree(other, rels, found);
    lemma_lists_of_one_tree(file_list(met), one, file_list(found), other, rels);
}

// ------------------------------------------------------------- what a walk amounts to

/// A file of so many bytes, where that is known, is not too large.
pub open spec fn is_small(bytes: Option<u64>, max: Option<u64>) -> bool {
    match (bytes, max) {
        (Some(b), Some(m)) => b <= m,
        _ => true,
    }
}

/// None of the patterns stands anywhere in the path.
pub open spec fn lacks_patterns(path: Seq<char>, excludes: Seq<Seq<char>>) -> bool {
    forall|e: int, k: int|
        0 <= e < excludes.len() && 0 <= k && k + excludes[e].len() <= path.len()
            ==> #[trigger] path.subrange(k, k + excludes[e].len()) != #[trigger] excludes[e]
}

/// The walk of a root met a file: the root is it, or it was an entry below the root.
pub open spec fn is_met(
    root: Seq<char>,
    state: RootState,
    path: Seq<char>,
    max: Option<u64>,
) -> bool {
    match state {
        RootState::File(bytes) => path == root && is_small(Some(bytes), max),
        RootState::Directory(steps) => exists|k: int|
            0 <= k < steps@.len() && match #[trigger] steps@[k] {
                Step::Met { path: p, is_file, bytes } => p@ == path && is_file && is_small(
                    bytes,
                    max,
                ),
                Step::Failed { .. } => false,
            },
        _ => false,
    }
}

/// A file is wanted: some root leads to it, none of the patterns stands in its path, and
/// it is not too large.
pub open spec fn is_wanted(
    path: Seq<char>,
    roots: Seq<Seq<char>>,
    states: Seq<RootState>,
    excludes: Seq<Seq<char>>,
    max: Option<u64>,
) -> bool {
    lacks_patterns(path, excludes) && exists|r: int|
        0 <= r < roots.len() && is_met(#[trigger] roots[r], states[r], path, max)
}

/// `files` are the files that are wanted and that some language claims: all of them,
/// nothing else, each once.
pub open spec fn lists_what_is_wanted(
    files: Seq<Seq<char>>,
    roots: Seq<Seq<char>>,
    states: Seq<RootState>,
    excludes: Seq<Seq<char>>,
    max: Option<u64>,
) -> bool {
    &&& forall|i: int|
        0 <= i < files.len() ==> is_wanted(#[trigger] files[i], roots, states, excludes, max)
            && language_of(files[i]) is Some
    &&& forall|p: Seq<char>| #[trigger]
        is_wanted(p, roots, states, excludes, max) && language_of(p) is Some ==> names_one_of(
            p,
            files,
        )
    &&& forall|i: int, j: int|
        0 <= i < j < files.len() ==> components(#[trigger] files[i]) != components(
            #[trigger] files[j],
        )
}

proof fn lemma_excluded(path: Seq<char>, excludes: Seq<Seq<char>>)
    ensures
        is_excluded(path, excludes) <==> !lacks_patterns(path, excludes),
{
    if is_excluded(path, excludes) {
        let e = choose|e: int| 0 <= e < excludes.len() && occurs(path, #[trigger] excludes[e]);
        let k = choose|k: int| 0 <= k <= path.len() && #[trigger] stands_at(path, excludes[e], k);
        assert(path.subrange(k, k + excludes[e].len()) == excludes[e]);
    }
    if !lacks_patterns(path, excludes) {
        let (e, k) = choose|e: int, k: int|
            0 <= e < excludes.len() && 0 <= k && k + excludes[e].len() <= path.len()
                && #[trigger] path.subrange(k, k + excludes[e].len()) == #[trigger] excludes[e];
        assert(stands_at(path, excludes[e], k));
        assert(occurs(path, excludes[e]));
    }
}

proof fn lemma_files_met(
    steps: Seq<Step>,
    excludes: Seq<Seq<char>>,
    max: Option<u64>,
    n: nat,
    path: Seq<char>,
)
    requires
        n <= steps.len(),
    ensures
        files_met(steps, excludes, max, n).contains(path) <==> lacks_patterns(path, excludes)
            && exists|k: int|
            0 <= k < n && match #[trigger] steps[k] {
                Step::Met { path: p, is_file, bytes } => p@ == path && is_file && is_small(
                    bytes,
                    max,
                ),
                Step::Failed { .. } => false,
            },
    decreases n,
{
    lemma_excluded(path, excludes);
    if n > 0 {
        lemma_files_met(steps, excludes, max, (n - 1) as nat, path);
        let before = files_met(steps, excludes, max, (n - 1) as nat);
        let all = files_met(steps, excludes, max, n);
        if all.contains(path) {
            let i = choose|i: int| 0 <= i < all.len() && all[i] == path;
            if i < before.len() {
                assert(before[i] == path);
            } else {
                assert(steps[n - 1] is Met);
            }
        }
        if before.contains(path) {
            let i = choose|i: int| 0 <= i < before.len() && before[i] == path;
            assert(all[i] == path);
        }
        match steps[n - 1] {
            Step::Met { path: p, is_file, bytes } => {
                if p@ == path && is_file && is_small(bytes, max) && lacks_patterns(path, excludes) {
                    assert(all[before.len() as int] == path);
                }
            },
            Step::Failed { .. } => {},
        }
    }
}

proof fn lemma_walk_files(
    roots: Seq<Seq<char>>,
    states: Seq<RootState>,
    excludes: Seq<Seq<char>>,
    max: Option<u64>,
    n: nat,
    path: Seq<char>,
)
    requires
        n <= roots.len() == states.len(),
    ensures
        walk_files(roots, states, excludes, max, n).contains(path) <==> lacks_patterns(
            path,
            excludes,
        ) && exists|r: int| 0 <= r < n && is_met(#[trigger] roots[r], states[r], path, max),
    decreases n,
{
    if n > 0 {
        lemma_walk_files(roots, states, excludes, max, (n - 1) as nat, path);
        lemma_excluded(path, excludes);
        let before = walk_files(roots, states, excludes, max, (n - 1) as nat);
        let here = root_files(roots[n - 1], states[n - 1], excludes, max);
        let all = walk_files(roots, states, excludes, max, n);
        match states[n - 1] {
            RootState::Directory(steps) => {
                lemma_files_met(steps@, excludes, max, steps@.len(), path);
            },
            RootState::File(_) => {
                if here.contains(path) {
                    assert(here[0] == path);
                }
                if is_met(roots[n - 1], states[n - 1], path, max) && lacks_patterns(
                    path,
                    excludes,
                ) {
                    assert(here[0] == path);
                }
            },
            _ => {},
        }
        assert(here.contains(path) <==> lacks_patterns(path, excludes) && is_met(
            roots[n - 1],
            states[n - 1],
            path,
            max,
        ));
        if all.contains(path) {
            let i = choose|i: int| 0 <= i < all.len() && all[i] == path;
            if i < before.len() {
                assert(before[i] == path);
            } else {
                assert(here[i - before.len()] == path);
            }
        }
        if before.contains(path) {
            let i = choose|i: int| 0 <= i < before.len() && before[i] == path;
            assert(all[i] == path);
        }
        if here.contains(path) {
            let i = choose|i: int| 0 <= i < here.len() && here[i] == path;
            assert(all[before.len() + i] == path);
        }
    }
}

/// Every file is listed that some root leads to, that a language claims, that has none of
/// the patterns anywhere in its path and that is not too large; nothing else is, and
/// nothing twice.
pub proof fn lemma_what_is_wanted_is_listed(
    roots: Seq<Seq<char>>,
    states: Seq<RootState>,
    excludes: Seq<Seq<char>>,
    max: Option<u64>,
)
    requires
        roots.len() == states.len(),
    ensures
        lists_what_is_wanted(
            file_list(supported(walk_files(roots, states, excludes, max, states.len()))),
            roots,
            states,
            excludes,
            max,
        ),
{
    let met = walk_files(roots, states, excludes, max, states.len());
    let claimed = |p: Seq<char>| language_of(p) is Some;
    let kept = supported(met);
    let files = file_list(kept);
    lemma_files_are_listed_once_in_order(kept);
    assert forall|i: int| 0 <= i < files.len() implies is_wanted(
        #[trigger] files[i],
        roots,
        states,
        excludes,
        max,
    ) && language_of(files[i]) is Some by {
        let k = choose|k: int| 0 <= k < kept.len() && kept[k] == files[i];
        let l = lemma_filter_member(met, claimed, k);
        lemma_walk_files(roots, states, excludes, max, states.len(), met[l]);
    }
    assert forall|p: Seq<char>| #[trigger]
        is_wanted(p, roots, states, excludes, max) && language_of(p) is Some implies names_one_of(
        p,
        files,
    ) by {
        lemma_walk_files(roots, states, excludes, max, states.len(), p);
        lemma_filter_keeps(met, claimed, p);
        let k = choose|k: int| 0 <= k < kept.len() && kept[k] == p;
        assert(names_one_of(kept[k], files));
    }
}

/// What is wrong with the walk of a root: there is nothing, or it cannot be looked at, or
/// the walk failed somewhere, first at this place.
pub open spec fn is_trouble(root: Seq<char>, state: RootState, e: WalkErrorView) -> bool {
    match state {
        RootState::Missing => e == WalkErrorView::MissingRoot(root),
        RootState::Denied(source) => e == WalkErrorView::Io(root, source@),
        RootState::File(_) => false,
        RootState::Directory(steps) => exists|k: int|
            0 <= k < steps@.len() && (match #[trigger] steps@[k] {
                Step::Met { .. } => false,
                Step::Failed { path, source } => e == WalkErrorView::Io(
                    match path {
                        Some(p) => p@,
                        None => root,
                    },
                    source@,
                ),
            }) && forall|l: int| 0 <= l < k ==> (#[trigger] steps@[l]) is Met,
    }
}

proof fn lemma_first_failure(root: Seq<char>, steps: Seq<Step>, n: nat)
    requires
        n <= steps.len(),
    ensures
        first_failure(root, steps, n) is None ==> forall|l: int|
            0 <= l < n ==> (#[trigger] steps[l]) is Met,
        first_failure(root, steps, n) matches Some(e) ==> exists|k: int|
            0 <= k < n && (match #[trigger] steps[k] {
                Step::Met { .. } => false,
                Step::Failed { path, source } => e == WalkErrorView::Io(
                    match path {
                        Some(p) => p@,
                        None => root,
                    },
                    source@,
                ),
            }) && forall|l: int| 0 <= l < k ==> (#[trigger] steps[l]) is Met,
    decreases n,
{
    if n > 0 {
        lemma_first_failure(root, steps, (n - 1) as nat);
        if first_failure(root, steps, (n - 1) as nat) is None {
            assert(steps[n - 1] == steps[n - 1]);
        }
    }
}

/// Nothing is wrong with the walk of a root: it is a file, or a directory all of whose
/// entries could be read.
pub open spec fn is_fine(state: RootState) -> bool {
    match state {
        RootState::File(_) => true,
        RootState::Directory(steps) => forall|l: int|
            0 <= l < steps@.len() ==> (#[trigger] steps@[l]) is Met,
        _ => false,
    }
}

/// No trouble is passed over: a walk that something went wrong with does not succeed, and
/// what is reported is what went wrong with the first root that anything did.
pub proof fn lemma_trouble_is_reported(roots: Seq<Seq<char>>, states: Seq<RootState>, n: nat)
    requires
        n <= roots.len() == states.len(),
    ensures
        walk_failure(roots, states, n) is None ==> forall|r: int|
            0 <= r < n ==> is_fine(#[trigger] states[r]),
        walk_failure(roots, states, n) matches Some(e) ==> exists|r: int|
            0 <= r < n && is_trouble(roots[r], #[trigger] states[r], e) && forall|q: int|
                0 <= q < r ==> is_fine(#[trigger] states[q]),
    decreases n,
{
    if n > 0 {
        lemma_trouble_is_reported(roots, states, (n - 1) as nat);
        let (root, state) = (roots[n - 1], states[n - 1]);
        if let RootState::Directory(steps) = state {
            lemma_first_failure(root, steps@, steps@.len());
        }
        match root_failure(root, state) {
            Some(e) => {
                assert(is_trouble(root, state, e));
            },
            None => {
                assert(is_fine(state));
            },
        }
        if let Some(e) = walk_failure(roots, states, (n - 1) as nat) {
            let r = choose|r: int|
                0 <= r < n - 1 && is_trouble(roots[r], #[trigger] states[r], e) && forall|q: int|
                    0 <= q < r ==> is_fine(#[trigger] states[q]);
            assert(is_trouble(roots[r], states[r], e));
        }
    }
}

/// An error says which path is concerned, and in the end what went wrong there.
pub proof fn lemma_errors_tell_what_went_wrong(e: WalkErrorView)
    ensures
        match e {
            WalkErrorView::MissingRoot(path) => ends_telling(e.message(), path),
            WalkErrorView::Io(path, source) => tells_both(e.message(), path, source)
                && ends_telling(e.message(), source),
        },
{
    match e {
        WalkErrorView::MissingRoot(path) => {
            let lead = "walk root does not exist: "@;
            lemma_parts_are_told(lead, path, Seq::empty(), Seq::empty(), Seq::empty());
        },
        WalkErrorView::Io(path, source) => {
            lemma_parts_are_told("failed to read "@, path, ": "@, source, Seq::empty());
            assert(e.message() + Seq::<char>::empty() =~= e.message());
        },
    }
}

} // verus!
