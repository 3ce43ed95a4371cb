//! Everything the tool needs from `git`, so no other module asks it anything.
//!
//! "Did this change make it worse?" is answered by scanning two trees — a branch and
//! its merge-base — and comparing the findings. Every fact that comparison depends on
//! comes from `git` itself, run as a subprocess. There is no fallback path: a `git`
//! command that fails is surfaced as an [`Err`], never mapped to an empty result. An
//! empty list of changed files must mean "git compared these two commits and found
//! no difference", never "the command failed and we moved on" — the latter would make
//! every pre-existing duplicate look new by comparing the branch against nothing.
//!
//! Running the subprocess is the caller's part. For each question this module says
//! which arguments to hand to `git`, in the repository's root, and what the
//! [`Outcome`] of the run means.

use vstd::prelude::*;
use vstd::string::*;

use crate::sort::{sort, sorted, views};
use crate::text::{
    chars_of, ends_telling, is_at, join_texts, joined_by, lemma_parts_are_told,
    lemma_trimming_takes_off_white_space, lines, lines_of, push_signed, signed_decimal, stands_at,
    tells_both, text_between, trim, unicode_whitespace, without_space, Alphabetical,
};

verus! {

// ------------------------------------------------------------------------ outcomes

/// How running `git` went.
#[derive(Debug)]
pub enum Outcome {
    /// It could not be started, and what the system said.
    NotStarted(String),
    /// It ran.
    Finished {
        /// The exit code, if the process exited rather than being terminated by a
        /// signal.
        status: Option<i32>,
        /// What it printed.
        stdout: String,
        /// What it complained of.
        stderr: String,
    },
}

/// Why a `git` operation could not produce a result.
///
/// There is no "command failed, treated as empty" variant: that shape is exactly the
/// silent zero this module exists to refuse.
#[derive(Debug)]
pub enum GitError {
    /// The `git` binary could not be run at all (not found, not executable, or the
    /// process could not be spawned for some other OS-level reason).
    NotAvailable(String),
    /// No git repository was found at or above the given path.
    NotARepository(String),
    /// A git command ran but exited non-zero.
    CommandFailed {
        /// The arguments `git` was invoked with (not including `git` itself).
        args: Vec<String>,
        /// The process exit code, when the process actually exited (`None` if it
        /// was terminated by a signal).
        status: Option<i32>,
        /// `git`'s own stderr, verbatim. This is the detail that matters: it tells a
        /// caller *why*.
        stderr: String,
    },
}

/// What an error holds.
#[verifier::ext_equal]
pub enum GitErrorView {
    /// `git` could not be run.
    NotAvailable(Seq<char>),
    /// There is no repository.
    NotARepository(Seq<char>),
    /// A command failed: its arguments, its exit code, its complaint.
    CommandFailed(Seq<Seq<char>>, Option<i32>, Seq<char>),
}

impl View for GitError {
    type V = GitErrorView;

    open spec fn view(&self) -> GitErrorView {
        match self {
            GitError::NotAvailable(source) => GitErrorView::NotAvailable(source@),
            GitError::NotARepository(path) => GitErrorView::NotARepository(path@),
            GitError::CommandFailed { args, status, stderr } => GitErrorView::CommandFailed(
                views(args@),
                *status,
                stderr@,
            ),
        }
    }
}

/// How a process ended, in words.
pub open spec fn status_text(status: Option<i32>) -> Seq<char> {
    match status {
        Some(code) => "exit status "@ + signed_decimal(code as int),
        None => "terminated by signal"@,
    }
}

impl GitErrorView {
    /// What the error says.
    pub open spec fn message(self) -> Seq<char> {
        match self {
            GitErrorView::NotAvailable(source) => "could not run `git`: "@ + source,
            GitErrorView::NotARepository(path) => "no git repository at or above "@ + path,
            GitErrorView::CommandFailed(args, status, stderr) => "git "@ + joined_by(args, " "@)
                + " failed ("@ + status_text(status) + "): "@ + without_space(stderr),
        }
    }
}

impl GitError {
    /// What the error says.
    pub fn to_string(&self) -> (s: String)
        ensures
            s@ == self@.message(),
    {
        match self {
            GitError::NotAvailable(source) => {
                let mut s = "could not run `git`: ".to_owned();
                s.append(source.as_str());
                s
            },
            GitError::NotARepository(path) => {
                let mut s = "no git repository at or above ".to_owned();
                s.append(path.as_str());
                s
            },
            GitError::CommandFailed { args, status, stderr } => {
                let mut s = "git ".to_owned();
                s.append(join_texts(args.as_slice(), " ").as_str());
                s.append(" failed (");
                match status {
                    Some(code) => {
                        s.append("exit status ");
                        push_signed(&mut s, *code);
                    },
                    None => {
                        s.append("terminated by signal");
                    },
                }
                s.append("): ");
                s.append(trim(stderr.as_str()).as_str());
                assert(s@ =~= self@.message());
                s
            },
        }
    }
}

/// What a run of `git` with some arguments answers.
pub open spec fn answer(args: Seq<Seq<char>>, outcome: Outcome) -> Result<Seq<char>, GitErrorView> {
    match outcome {
        Outcome::NotStarted(source) => Err(GitErrorView::NotAvailable(source@)),
        Outcome::Finished { status, stdout, stderr } => if status == Some(0i32) {
            Ok(without_space(stdout@))
        } else {
            Err(GitErrorView::CommandFailed(args, status, stderr@))
        },
    }
}

/// A result says what an answer says.
pub open spec fn says(r: Result<String, GitError>, a: Result<Seq<char>, GitErrorView>) -> bool {
    match r {
        Ok(s) => a == Ok::<Seq<char>, GitErrorView>(s@),
        Err(e) => a == Err::<Seq<char>, GitErrorView>(e@),
    }
}

/// What running `git` with `args` answers: trimmed stdout.
///
/// Any non-zero exit becomes [`GitError::CommandFailed`] carrying git's own stderr
/// verbatim — never mapped away to an empty string or an empty collection by a
/// caller further up.
fn read_answer(args: Vec<String>, outcome: Outcome) -> (r: Result<String, GitError>)
    ensures
        says(r, answer(views(args@), outcome)),
{
    match outcome {
        Outcome::NotStarted(source) => Err(GitError::NotAvailable(source)),
        Outcome::Finished { status, stdout, stderr } => {
            let success: bool = match status {
                Some(code) => code == 0,
                None => false,
            };
            if success {
                Ok(trim(stdout.as_str()))
            } else {
                Err(GitError::CommandFailed { args, status, stderr })
            }
        },
    }
}

// ---------------------------------------------------------------------- repository

/// A git repository on disk.
#[derive(Debug)]
pub struct Repo {
    root: String,
}

impl View for Repo {
    type V = Seq<char>;

    closed spec fn view(&self) -> Seq<char> {
        self.root@
    }
}

impl Clone for Repo {
    fn clone(&self) -> (r: Self)
        ensures
            r@ == self@,
    {
        Repo { root: self.root.clone() }
    }
}

/// The arguments that ask for the repository around a directory.
pub open spec fn discover_words() -> Seq<Seq<char>> {
    seq!["rev-parse"@, "--show-toplevel"@]
}

/// The arguments that ask for the best common ancestor of two commits.
pub open spec fn merge_base_words(a: Seq<char>, b: Seq<char>) -> Seq<Seq<char>> {
    seq!["merge-base"@, a, b]
}

/// The arguments that ask for the commit a revision leads to. An annotated tag is an
/// object of its own, so it is the commit behind the revision that is asked for.
pub open spec fn resolve_words(rev: Seq<char>) -> Seq<Seq<char>> {
    seq!["rev-parse"@, rev + "^{commit}"@]
}

/// The arguments that ask for the remote-tracking branches.
pub open spec fn remote_words() -> Seq<Seq<char>> {
    seq!["for-each-ref"@, "--format=%(refname)"@, "refs/remotes/"@]
}

/// The arguments that ask for the files that differ between two commits.
pub open spec fn changed_words(from: Seq<char>, to: Seq<char>) -> Seq<Seq<char>> {
    seq!["diff"@, "--name-only"@, "--diff-filter=ACMR"@, from, to]
}

/// The arguments that check a commit out.
pub open spec fn add_words(path: Seq<char>, commit: Seq<char>) -> Seq<Seq<char>> {
    seq!["worktree"@, "add"@, "--detach"@, path, commit]
}

/// The arguments that take a checkout away.
pub open spec fn remove_words(path: Seq<char>) -> Seq<Seq<char>> {
    seq!["worktree"@, "remove"@, "--force"@, path]
}

/// The arguments that make `git` forget checkouts that are gone.
pub open spec fn prune_words() -> Seq<Seq<char>> {
    seq!["worktree"@, "prune"@]
}

/// What a list of commands holds.
pub open spec fn command_views(list: Seq<Vec<String>>) -> Seq<Seq<Seq<char>>> {
    Seq::new(list.len(), |i: int| views(list[i]@))
}

/// A reference that is a branch: `HEAD` of a remote is a pointer to one.
pub open spec fn is_branch(name: Seq<char>) -> bool {
    !stands_at(name, "/HEAD"@, name.len() - "/HEAD"@.len())
}

/// A remote-tracking reference without what they all begin with.
pub open spec fn short_name(name: Seq<char>) -> Seq<char> {
    if stands_at(name, "refs/remotes/"@, 0) {
        name.skip("refs/remotes/"@.len() as int)
    } else {
        name
    }
}

/// The branches in a list of references.
pub open spec fn branch_names(list: Seq<Seq<char>>) -> Seq<Seq<char>>
    decreases list.len(),
{
    if list.len() == 0 {
        Seq::empty()
    } else {
        let before = branch_names(list.drop_last());
        if is_branch(list.last()) {
            before.push(short_name(list.last()))
        } else {
            before
        }
    }
}

fn names_branch(name: &str) -> (r: bool)
    ensures
        r == is_branch(name@),
{
    let chars = chars_of(name);
    let tail = chars_of("/HEAD");
    if chars.len() < tail.len() {
        return true;
    }
    !is_at(chars.as_slice(), tail.as_slice(), chars.len() - tail.len())
}

fn shorten(name: &str) -> (s: String)
    ensures
        s@ == short_name(name@),
{
    let chars = chars_of(name);
    let front = chars_of("refs/remotes/");
    if is_at(chars.as_slice(), front.as_slice(), 0) {
        let s = text_between(chars.as_slice(), front.len(), chars.len());
        assert(s@ =~= name@.skip(front@.len() as int));
        s
    } else {
        name.to_owned()
    }
}

impl Repo {
    /// What to ask `git`, in a directory, to find the repository around it.
    pub fn discover_args() -> (args: Vec<String>)
        ensures
            views(args@) == discover_words(),
    {
        let args = vec!["rev-parse".to_owned(), "--show-toplevel".to_owned()];
        assert(views(args@) =~= discover_words());
        args
    }

    /// The repository containing `start`, given how asking for it went.
    ///
    /// Only an actual non-zero exit from `git` is folded into
    /// [`GitError::NotARepository`]. Any other failure (`git` missing entirely) stays
    /// what it is, so a broken `git` install is never misreported as "you're not in
    /// a repository".
    pub fn discover(start: &str, outcome: Outcome) -> (r: Result<Repo, GitError>)
        ensures
            match r {
                Ok(repo) => answer(discover_words(), outcome) == Ok::<Seq<char>, GitErrorView>(
                    repo@,
                ),
                Err(e) => match answer(discover_words(), outcome) {
                    Err(GitErrorView::CommandFailed(_, _, _)) => e@
                        == GitErrorView::NotARepository(start@),
                    Err(other) => e@ == other,
                    Ok(_) => false,
                },
            },
    {
        match read_answer(Repo::discover_args(), outcome) {
            Ok(top) => Ok(Repo { root: top }),
            Err(GitError::CommandFailed { .. }) => Err(GitError::NotARepository(start.to_owned())),
            Err(other) => Err(other),
        }
    }

    /// The repository's root directory.
    pub fn root(&self) -> (s: &str)
        ensures
            s@ == self@,
    {
        self.root.as_str()
    }

    /// What to ask `git` for the best common ancestor of two commits.
    pub fn merge_base_args(a: &str, b: &str) -> (args: Vec<String>)
        ensures
            views(args@) == merge_base_words(a@, b@),
    {
        let args = vec!["merge-base".to_owned(), a.to_owned(), b.to_owned()];
        assert(views(args@) =~= merge_base_words(a@, b@));
        args
    }

    /// The best common ancestor of two commits, given how asking for it went.
    pub fn merge_base(&self, a: &str, b: &str, outcome: Outcome) -> (r: Result<String, GitError>)
        ensures
            says(r, answer(merge_base_words(a@, b@), outcome)),
    {
        read_answer(Repo::merge_base_args(a, b), outcome)
    }

    /// What to ask `git` for the commit that a revision leads to.
    pub fn resolve_args(rev: &str) -> (args: Vec<String>)
        ensures
            views(args@) == resolve_words(rev@),
    {
        let mut commit = rev.to_owned();
        commit.append("^{commit}");
        let args = vec!["rev-parse".to_owned(), commit];
        assert(views(args@) =~= resolve_words(rev@));
        args
    }

    /// Resolves a revision (branch, tag, `HEAD`, short hash, …) to a full commit id,
    /// given how asking for it went.
    pub fn resolve(&self, rev: &str, outcome: Outcome) -> (r: Result<String, GitError>)
        ensures
            says(r, answer(resolve_words(rev@), outcome)),
    {
        read_answer(Repo::resolve_args(rev), outcome)
    }

    /// What to ask `git` for the remote-tracking branches.
    pub fn remote_branches_args() -> (args: Vec<String>)
        ensures
            views(args@) == remote_words(),
    {
        let args = vec![
            "for-each-ref".to_owned(),
            "--format=%(refname)".to_owned(),
            "refs/remotes/".to_owned(),
        ];
        assert(views(args@) =~= remote_words());
        args
    }

    /// Remote-tracking branch short names (`origin/main`), as git lists them, given
    /// how asking for them went.
    ///
    /// `refs/remotes/<remote>/HEAD` is a symref newer git records when it learns the
    /// remote's default branch. It is a pointer, not a branch, and is left out.
    pub fn remote_branches(&self, outcome: Outcome) -> (r: Result<Vec<String>, GitError>)
        ensures
            match r {
                Ok(names) => answer(remote_words(), outcome) matches Ok(out) && views(names@)
                    == branch_names(lines_of(out)),
                Err(e) => answer(remote_words(), outcome) == Err::<Seq<char>, GitErrorView>(e@),
            },
    {
        match read_answer(Repo::remote_branches_args(), outcome) {
            Err(e) => Err(e),
            Ok(out) => {
                let list = lines(out.as_str());
                let ghost all = views(list@);
                let mut names: Vec<String> = Vec::new();
                let mut i: usize = 0;
                assert(all.take(0) =~= Seq::empty());
                assert(views(names@) =~= Seq::empty());
                while i < list.len()
                    invariant
                        i <= list@.len(),
                        all == views(list@),
                        views(names@) == branch_names(all.take(i as int)),
                    decreases list.len() - i,
                {
                    let ghost before = views(names@);
                    proof {
                        assert(all.take(i + 1).drop_last() =~= all.take(i as int));
                        assert(all.take(i + 1).last() == list@[i as int]@);
                    }
                    if names_branch(list[i].as_str()) {
                        names.push(shorten(list[i].as_str()));
                        assert(views(names@) =~= before.push(short_name(list@[i as int]@)));
                    }
                    i += 1;
                }
                assert(all.take(i as int) =~= all);
                Ok(names)
            },
        }
    }

    /// What to ask `git` for the files that differ between two commits.
    pub fn changed_files_args(from: &str, to: &str) -> (args: Vec<String>)
        ensures
            views(args@) == changed_words(from@, to@),
    {
        let args = vec![
            "diff".to_owned(),
            "--name-only".to_owned(),
            "--diff-filter=ACMR".to_owned(),
            from.to_owned(),
            to.to_owned(),
        ];
        assert(views(args@) =~= changed_words(from@, to@));
        args
    }

    /// Files added, changed, renamed or copied between two commits, repo-relative,
    /// `/`-separated, sorted, given how asking for them went.
    ///
    /// Deliberately excludes deletions (`--diff-filter=ACMR` omits `D`): a file that
    /// no longer exists at `to` cannot be scanned, so listing it as "changed" would
    /// just make every downstream lookup fail.
    pub fn changed_files(&self, from: &str, to: &str, outcome: Outcome) -> (r: Result<
        Vec<String>,
        GitError,
    >)
        ensures
            match r {
                Ok(files) => answer(changed_words(from@, to@), outcome) matches Ok(out) && views(
                    files@,
                ) == sorted::<String, Alphabetical>(lines_of(out)),
                Err(e) => answer(changed_words(from@, to@), outcome) == Err::<
                    Seq<char>,
                    GitErrorView,
                >(e@),
            },
    {
        match read_answer(Repo::changed_files_args(from, to), outcome) {
            Err(e) => Err(e),
            Ok(out) => Ok(sort::<String, Alphabetical>(lines(out.as_str()))),
        }
    }

    /// What to run `git` with, one command after the other, to check `commit` out into
    /// a fresh detached worktree at `path`. Only how the last of them went counts.
    ///
    /// If `path` already exists — a leftover from a run that was killed before it
    /// could remove its worktree — `git worktree add` refuses with "already exists".
    /// Rather than deleting an arbitrary directory on disk, this only clears
    /// *registered* worktrees: `worktree remove --force` plus `worktree prune` clean
    /// up exactly what a previous run at this same path could have left behind.
    /// Anything else at `path` is left alone, and the `add` fails loudly on it.
    pub fn worktree_commands(path: &str, commit: &str, exists: bool) -> (list: Vec<Vec<String>>)
        ensures
            command_views(list@) == (if exists {
                seq![remove_words(path@), prune_words(), add_words(path@, commit@)]
            } else {
                seq![add_words(path@, commit@)]
            }),
    {
        let add = add_args(path, commit);
        if exists {
            let prune = vec!["worktree".to_owned(), "prune".to_owned()];
            assert(views(prune@) =~= prune_words());
            let list = vec![remove_args(path), prune, add];
            assert(command_views(list@) =~= seq![
                remove_words(path@),
                prune_words(),
                add_words(path@, commit@),
            ]);
            list
        } else {
            let list = vec![add];
            assert(command_views(list@) =~= seq![add_words(path@, commit@)]);
            list
        }
    }

    /// The detached worktree of `commit` at `path`, given how adding it went.
    pub fn add_detached_worktree(&self, path: &str, commit: &str, outcome: Outcome) -> (r: Result<
        Worktree,
        GitError,
    >)
        ensures
            match r {
                Ok(w) => answer(add_words(path@, commit@), outcome) is Ok && w@ == (WorktreeView {
                    path: path@,
                    repo_root: self@,
                }),
                Err(e) => answer(add_words(path@, commit@), outcome) == Err::<
                    Seq<char>,
                    GitErrorView,
                >(e@),
            },
    {
        match read_answer(add_args(path, commit), outcome) {
            Err(e) => Err(e),
            Ok(_) => Ok(Worktree { path: path.to_owned(), repo_root: self.root.clone() }),
        }
    }
}

fn add_args(path: &str, commit: &str) -> (args: Vec<String>)
    ensures
        views(args@) == add_words(path@, commit@),
{
    let args = vec![
        "worktree".to_owned(),
        "add".to_owned(),
        "--detach".to_owned(),
        path.to_owned(),
        commit.to_owned(),
    ];
    assert(views(args@) =~= add_words(path@, commit@));
    args
}

fn remove_args(path: &str) -> (args: Vec<String>)
    ensures
        views(args@) == remove_words(path@),
{
    let args = vec![
        "worktree".to_owned(),
        "remove".to_owned(),
        "--force".to_owned(),
        path.to_owned(),
    ];
    assert(views(args@) =~= remove_words(path@));
    args
}

// ------------------------------------------------------------------------ worktree

/// What a worktree holds.
#[verifier::ext_equal]
pub struct WorktreeView {
    /// Where it is.
    pub path: Seq<char>,
    /// The repository it is of.
    pub repo_root: Seq<char>,
}

/// A detached worktree.
///
/// Holds the repository root alongside the worktree path because every worktree
/// operation (`git worktree remove`) has to be run *from inside the repository*, not
/// from inside the worktree being torn down.
#[derive(Debug)]
pub struct Worktree {
    path: String,
    repo_root: String,
}

impl View for Worktree {
    type V = WorktreeView;

    closed spec fn view(&self) -> WorktreeView {
        WorktreeView { path: self.path@, repo_root: self.repo_root@ }
    }
}

impl Worktree {
    /// The worktree's path on disk.
    pub fn path(&self) -> (s: &str)
        ensures
            s@ == self@.path,
    {
        self.path.as_str()
    }

    /// The directory to run `git` in to remove the worktree.
    pub fn repo_root(&self) -> (s: &str)
        ensures
            s@ == self@.repo_root,
    {
        self.repo_root.as_str()
    }

    /// What to run `git` with to remove the worktree.
    pub fn remove_args(&self) -> (args: Vec<String>)
        ensures
            views(args@) == remove_words(self@.path),
    {
        remove_args(self.path.as_str())
    }

    /// Removes the worktree, surfacing any failure, given how removing it went.
    pub fn remove(self, outcome: Outcome) -> (r: Result<(), GitError>)
        ensures
            match r {
                Ok(()) => answer(remove_words(self@.path), outcome) is Ok,
                Err(e) => answer(remove_words(self@.path), outcome) == Err::<
                    Seq<char>,
                    GitErrorView,
                >(e@),
            },
    {
        match read_answer(remove_args(self.path.as_str()), outcome) {
            Err(e) => Err(e),
            Ok(_) => Ok(()),
        }
    }
}

// --------------------------------------------------------------------------- laws

/// A command that failed is never an empty result: whatever `git` printed, unless it
/// ran and exited with zero every answer is an error.
pub proof fn lemma_failure_is_never_an_answer(args: Seq<Seq<char>>, outcome: Outcome)
    ensures
        answer(args, outcome) is Ok <==> (outcome matches Outcome::Finished {
            status: Some(code),
            stdout: _,
            stderr: _,
        } && code == 0),
{
}

/// A name ends with `/HEAD`.
pub open spec fn is_pointer(name: Seq<char>) -> bool {
    exists|front: Seq<char>| #[trigger] follows_on(name, front, "/HEAD"@)
}

/// A text is one text and then another.
pub open spec fn follows_on(s: Seq<char>, front: Seq<char>, back: Seq<char>) -> bool {
    s == front + back
}

/// What is left of a reference's name: what follows `refs/remotes/`, or all of it.
pub open spec fn is_short_for(short: Seq<char>, name: Seq<char>) -> bool {
    ||| follows_on(name, "refs/remotes/"@, short)
    ||| short == name && forall|rest: Seq<char>| !#[trigger]
        follows_on(name, "refs/remotes/"@, rest)
}

proof fn lemma_names_are_shortened(name: Seq<char>)
    ensures
        is_branch(name) <==> !is_pointer(name),
        is_short_for(short_name(name), name),
{
    let (front, back) = ("refs/remotes/"@, "/HEAD"@);
    if !is_branch(name) {
        let cut = name.len() - back.len();
        assert(name =~= name.take(cut) + name.subrange(cut, cut + back.len()));
        assert(follows_on(name, name.take(cut), back));
    }
    if is_pointer(name) {
        let f = choose|f: Seq<char>| #[trigger] follows_on(name, f, back);
        assert(name.subrange(name.len() - back.len(), name.len() as int) =~= back);
    }
    if stands_at(name, front, 0) {
        assert(name =~= name.subrange(0, front.len() as int) + name.skip(front.len() as int));
        assert(follows_on(name, front, short_name(name)));
    } else {
        assert forall|rest: Seq<char>| !#[trigger] follows_on(name, front, rest) by {
            if follows_on(name, front, rest) {
                assert(name.subrange(0, front.len() as int) =~= front);
            }
        }
    }
}

/// Every remote-tracking branch is named, in order, without what they all begin with, and
/// nothing else is: what ends with `/HEAD` points to a branch and is none.
pub proof fn lemma_every_branch_is_named(list: Seq<Seq<char>>) -> (at: Seq<int>)
    ensures
        at.len() == branch_names(list).len(),
        forall|k: int|
            0 <= k < at.len() ==> 0 <= (#[trigger] at[k]) < list.len() && !is_pointer(list[at[k]])
                && is_short_for(branch_names(list)[k], list[at[k]]),
        forall|k: int, l: int| 0 <= k < l < at.len() ==> #[trigger] at[k] < #[trigger] at[l],
        forall|i: int|
            0 <= i < list.len() && !is_pointer(#[trigger] list[i]) ==> at.contains(i),
    decreases list.len(),
{
    if list.len() == 0 {
        Seq::empty()
    } else {
        let front = list.drop_last();
        let before = lemma_every_branch_is_named(front);
        let last = list.len() - 1;
        lemma_names_are_shortened(list[last]);
        let at = if is_branch(list[last]) {
            before.push(last)
        } else {
            before
        };
        assert forall|i: int| 0 <= i < list.len() && !is_pointer(
            #[trigger] list[i],
        ) implies at.contains(i) by {
            if i < last {
                assert(front[i] == list[i]);
                let k = choose|k: int| 0 <= k < before.len() && before[k] == i;
                assert(at[k] == i);
            } else {
                assert(at[at.len() - 1] == i);
            }
        }
        assert forall|k: int| 0 <= k < at.len() implies 0 <= (#[trigger] at[k]) < list.len()
            && !is_pointer(list[at[k]]) && is_short_for(branch_names(list)[k], list[at[k]]) by {
            if k < before.len() {
                assert(at[k] == before[k]);
                assert(front[before[k]] == list[before[k]]);
            }
        }
        at
    }
}

/// A run of `git` answers exactly where it exits with zero, and then with what it wrote,
/// without the white space at either end.
pub proof fn lemma_only_success_is_an_answer(args: Seq<Seq<char>>, outcome: Outcome) -> (b: (int, int))
    ensures
        answer(args, outcome) is Ok <==> (outcome matches Outcome::Finished { status, .. }
            && status == Some(0i32)),
        answer(args, outcome) matches Ok(text) ==> {
            let all = outcome->stdout@;
            &&& 0 <= b.0 <= b.1 <= all.len()
            &&& text == all.subrange(b.0, b.1)
            &&& forall|i: int| 0 <= i < b.0 ==> unicode_whitespace(#[trigger] all[i])
            &&& forall|i: int| b.1 <= i < all.len() ==> unicode_whitespace(#[trigger] all[i])
            &&& b.0 < b.1 ==> !unicode_whitespace(all[b.0]) && !unicode_whitespace(all[b.1 - 1])
        },
{
    match outcome {
        Outcome::NotStarted(_) => (0, 0),
        Outcome::Finished { stdout, .. } => lemma_trimming_takes_off_white_space(stdout@),
    }
}

/// An error says which command failed, how it ended and what it wrote, without the white
/// space at either end.
pub proof fn lemma_errors_tell_what_went_wrong(e: GitErrorView)
    ensures
        match e {
            GitErrorView::NotAvailable(source) => ends_telling(e.message(), source),
            GitErrorView::NotARepository(path) => ends_telling(e.message(), path),
            GitErrorView::CommandFailed(args, status, stderr) => {
                &&& tells_both(e.message(), joined_by(args, " "@), without_space(stderr))
                &&& ends_telling(e.message(), without_space(stderr))
                &&& status matches Some(code) ==> tells_both(
                    e.message(),
                    joined_by(args, " "@),
                    signed_decimal(code as int),
                )
            },
        },
{
    let none = Seq::<char>::empty();
    match e {
        GitErrorView::NotAvailable(source) => {
            lemma_parts_are_told("could not run `git`: "@, source, none, none, none);
        },
        GitErrorView::NotARepository(path) => {
            lemma_parts_are_told("no git repository at or above "@, path, none, none, none);
        },
        GitErrorView::CommandFailed(args, status, stderr) => {
            let (words, said) = (joined_by(args, " "@), without_space(stderr));
            let middle = " failed ("@ + status_text(status) + "): "@;
            lemma_parts_are_told("git "@, words, middle, said, none);
            assert(e.message() =~= "git "@ + words + middle + said);
            assert(e.message() =~= "git "@ + words + middle + said + none);
            if let Some(code) = status {
                let number = signed_decimal(code as int);
                let (lead, tail) = (" failed ("@ + "exit status "@, "): "@ + said);
                lemma_parts_are_told("git "@, words, lead, number, tail);
                assert(e.message() =~= "git "@ + words + lead + number + tail);
            }
        },
    }
}

} // verus!
