//! What to ask `git`, and what its answers mean.

use dupdelta::git::{GitError, Outcome, Repo};

fn printed(stdout: &str) -> Outcome {
    Outcome::Finished { status: Some(0), stdout: stdout.to_string(), stderr: String::new() }
}

fn failed(status: Option<i32>, stderr: &str) -> Outcome {
    Outcome::Finished { status, stdout: "ignored\n".to_string(), stderr: stderr.to_string() }
}

fn repo() -> Repo {
    Repo::discover("/repo/sub", printed("/repo\n")).expect("discover fixture repo")
}

// ------------------------------------------------------------ command failure

#[test]
fn a_failing_git_command_surfaces_gits_own_stderr() {
    let complaint = "fatal: Not a valid object name no-such-rev-a\n";
    let changed_result = repo().changed_files("no-such-rev-a", "HEAD", failed(Some(128), complaint));
    assert!(changed_result.is_err());

    let err = repo().merge_base("no-such-rev-a", "no-such-rev-b", failed(Some(128), complaint)).unwrap_err();
    assert_eq!(
        err.to_string(),
        "git merge-base no-such-rev-a no-such-rev-b failed (exit status 128): fatal: Not a valid object name no-such-rev-a"
    );
}

#[test]
fn a_missing_git_binary_is_not_available_not_a_silent_empty_result() {
    let outcome = Outcome::NotStarted("No such file or directory".to_string());
    let err = repo().changed_files("a", "b", outcome).unwrap_err();
    assert!(err.to_string().starts_with("could not run `git`"));
}

#[test]
fn discover_propagates_a_broken_git_install_instead_of_calling_it_not_a_repository() {
    let err = Repo::discover("/repo", Outcome::NotStarted("No such file".to_string())).unwrap_err();
    assert!(err.to_string().starts_with("could not run `git`"));
}

#[test]
fn add_detached_worktree_with_an_unknown_commit_fails_loudly() {
    let result = repo().add_detached_worktree("/tmp/wt", "no-such-commit", failed(Some(128), "fatal: invalid reference"));
    assert!(result.is_err());
}

// ------------------------------------------------------------------ discover

#[test]
fn discover_finds_the_repo_from_a_subdirectory() {
    assert_eq!(Repo::discover_args(), vec!["rev-parse", "--show-toplevel"]);
    let found = Repo::discover("/work/tree/nested/dir", printed("/work/tree\n")).expect("discover from subdirectory");
    assert_eq!(found.root(), "/work/tree");
}

#[test]
fn discover_returns_not_a_repository_for_a_path_outside_any_repo() {
    let result = Repo::discover("/bare", failed(Some(128), "fatal: not a git repository"));
    let is_not_a_repository = matches!(result, Err(GitError::NotARepository(ref p)) if p == "/bare");
    assert!(is_not_a_repository);
}

#[test]
fn repo_root_returns_the_configured_root() {
    assert_eq!(repo().root(), "/repo");
    assert_eq!(repo().clone().root(), "/repo");
}

// ----------------------------------------------------------------- questions

#[test]
fn merge_base_of_two_branches_returns_their_actual_common_ancestor() {
    assert_eq!(Repo::merge_base_args("feature", "main"), vec!["merge-base", "feature", "main"]);
    assert_eq!(repo().merge_base("feature", "main", printed("0123abcd\n")).expect("merge base"), "0123abcd");
}

#[test]
fn resolve_of_a_branch_name_and_head_agree_on_the_same_commit() {
    assert_eq!(Repo::resolve_args("main"), vec!["rev-parse", "main^{commit}"]);
    let by_branch = repo().resolve("main", printed("0123abcd\n")).expect("resolve main");
    let by_head = repo().resolve("HEAD", printed("  0123abcd \r\n")).expect("resolve HEAD");
    assert_eq!(by_branch, "0123abcd");
    assert_eq!(by_head, "0123abcd");
}

#[test]
fn remote_branches_lists_remote_tracking_refs_by_short_name() {
    assert_eq!(Repo::remote_branches_args(), vec!["for-each-ref", "--format=%(refname)", "refs/remotes/"]);
    let listed = "refs/remotes/origin/HEAD\nrefs/remotes/origin/main\nelsewhere/topic\n";
    assert_eq!(
        repo().remote_branches(printed(listed)).expect("remote branches"),
        vec!["origin/main".to_string(), "elsewhere/topic".to_string()]
    );
}

#[test]
fn changed_files_is_exact_repo_relative_sorted_and_excludes_deletions() {
    // Leaving deletions out is git's part, asked for by the filter.
    assert_eq!(Repo::changed_files_args("from", "to"), vec!["diff", "--name-only", "--diff-filter=ACMR", "from", "to"]);
    let got = repo().changed_files("from", "to", printed("z/new.txt\nkeep.txt\n")).expect("changed files");
    assert_eq!(got, vec!["keep.txt".to_string(), "z/new.txt".to_string()]);
}

#[test]
fn changed_files_between_identical_commits_is_a_real_empty_result() {
    let got = repo().changed_files("same", "same", printed("")).expect("changed files");
    assert!(got.is_empty());
}

// ------------------------------------------------------------------ worktrees

#[test]
fn a_stale_leftover_worktree_directory_does_not_break_a_new_one() {
    let fresh = Repo::worktree_commands("/tmp/wt", "0123", false);
    assert_eq!(fresh, vec![vec!["worktree", "add", "--detach", "/tmp/wt", "0123"]]);
    let over_a_leftover = Repo::worktree_commands("/tmp/wt", "0123", true);
    assert_eq!(
        over_a_leftover,
        vec![
            vec!["worktree", "remove", "--force", "/tmp/wt"],
            vec!["worktree", "prune"],
            vec!["worktree", "add", "--detach", "/tmp/wt", "0123"],
        ]
    );
}

#[test]
fn worktree_remove_surfaces_a_failure_instead_of_swallowing_it() {
    let worktree = repo().add_detached_worktree("/tmp/wt", "0123", printed("")).expect("add worktree");
    assert_eq!(worktree.path(), "/tmp/wt");
    assert_eq!(worktree.repo_root(), "/repo");
    assert_eq!(worktree.remove_args(), vec!["worktree", "remove", "--force", "/tmp/wt"]);

    let err = worktree.remove(failed(None, "fatal: broken")).unwrap_err();
    assert!(err.to_string().contains("worktree remove"));

    let worktree = repo().add_detached_worktree("/tmp/wt", "0123", printed("")).expect("add worktree");
    assert!(worktree.remove(printed("")).is_ok());
}

// -------------------------------------------------------------------- errors

#[test]
fn git_error_display_and_source() {
    let not_available = GitError::NotAvailable("no such program".to_string());
    let not_a_repository = GitError::NotARepository("/nowhere".to_string());
    let command_failed_exit = GitError::CommandFailed {
        args: vec!["merge-base".to_string(), "a".to_string(), "b".to_string()],
        status: Some(128),
        stderr: "fatal: not a valid object name a\n".to_string(),
    };
    let command_failed_signal = GitError::CommandFailed {
        args: vec!["diff".to_string()],
        status: None,
        stderr: "killed".to_string(),
    };

    let displays: Vec<String> = vec![
        not_available.to_string(),
        not_a_repository.to_string(),
        command_failed_exit.to_string(),
        command_failed_signal.to_string(),
    ];
    assert_eq!(
        displays,
        vec![
            "could not run `git`: no such program".to_string(),
            "no git repository at or above /nowhere".to_string(),
            "git merge-base a b failed (exit status 128): fatal: not a valid object name a".to_string(),
            "git diff failed (terminated by signal): killed".to_string(),
        ]
    );

    assert!(format!("{not_available:?}").contains("NotAvailable"));
    assert!(format!("{:?}", repo()).contains("/repo"));
}

#[test]
fn a_negative_exit_status_keeps_its_sign() {
    let err = GitError::CommandFailed { args: vec!["gc".to_string()], status: Some(-7), stderr: String::new() };
    assert_eq!(err.to_string(), "git gc failed (exit status -7): ");
}
