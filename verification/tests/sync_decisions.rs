use git_include::git::{RemoteRefs, RevKind};
use git_include::gitrepo::GitRepoFile;
use git_include::ops::{
    changed_steps, check_push_elsewhere, conflict_side, diff_color, diff_prefix, push_outcome,
    sorted_paths, sync_is_noop, sync_outcome, PushOutcome, SyncOutcome, check_upstream_unmoved, choose_merge, commit_message,
    count_unpushed, include_dirs, local_status, nesting_depth, pull_action, pull_targets,
    push_target, pushed_marker, reconcile_message, replayed_count, retargeted_marker, same_target,
    squash_message, sync_commit_message, synced_marker, template_vars, upstream_head_plan,
    upstream_status, LocalStatus, MergeChoice, PullTargetError, PushRefusal, UpstreamHead,
    UpstreamStatus,
};

fn meta() -> GitRepoFile {
    GitRepoFile::new("https://x/lib.git", "main", "0123456789abcdef", Some("host0"))
}

fn s(v: &str) -> String {
    v.to_string()
}

#[test]
fn standard_commit_message_identifies_the_sync() {
    assert_eq!(
        commit_message("add", "vendor/lib", &meta()),
        "git include add vendor/lib\n\ninclude:\n  subdir: \"vendor/lib\"\n  remote: \"https://x/lib.git\"\n  branch: \"main\"\n  commit: \"0123456789abcdef\"\ngit-include-version: 0.1.0"
    );
}

#[test]
fn templated_commit_messages_use_the_sync_variables() {
    assert_eq!(
        sync_commit_message(Some("vendor: import {{ subdir }} at {{ short_commit }}"), "add", "vendor/lib", &meta()),
        "vendor: import vendor/lib at 0123456"
    );
    assert_eq!(
        sync_commit_message(Some("chore({{ subdir }}): {{ action }} from {{ ref }}\\n\\nupstream: {{ remote }}"), "pull", "vendor/lib", &meta()),
        "chore(vendor/lib): pull from main\n\nupstream: https://x/lib.git"
    );
    assert_eq!(sync_commit_message(None, "pull", "vendor/lib", &meta()), commit_message("pull", "vendor/lib", &meta()));
    let vars = template_vars("pull", "d", &meta());
    let names: Vec<&str> = vars.iter().map(|(k, _)| *k).collect();
    assert_eq!(names, vec!["action", "subdir", "remote", "ref", "branch", "commit", "short_commit", "version"]);
}

#[test]
fn pull_targets_follow_the_arguments() {
    let two = vec![s("a"), s("b")];
    assert_eq!(pull_targets(true, None, two.clone()), Ok(two.clone()));
    assert_eq!(pull_targets(false, Some("x"), two.clone()), Ok(vec![s("x")]));
    assert_eq!(pull_targets(false, None, vec![s("a")]), Ok(vec![s("a")]));
    assert_eq!(pull_targets(false, None, Vec::new()), Err(PullTargetError::NoIncludes));
    assert_eq!(pull_targets(false, None, two.clone()), Err(PullTargetError::Ambiguous(two)));
    assert_eq!(pull_action(true), "pull --force");
    assert_eq!(pull_action(false), "pull");
}

#[test]
fn merge_choice() {
    assert_eq!(choose_merge(true, "l", "b", "u"), MergeChoice::TakeUpstream);
    assert_eq!(choose_merge(false, "b", "b", "u"), MergeChoice::TakeUpstream);
    assert_eq!(choose_merge(false, "u", "b", "u"), MergeChoice::TakeUpstream);
    assert_eq!(choose_merge(false, "l", "b", "u"), MergeChoice::ThreeWay);
}

#[test]
fn sync_markers() {
    let m = meta();
    assert!(same_target(&m, "0123456789abcdef", "main", "https://x/lib.git"));
    assert!(!same_target(&m, "0123456789abcdef", "dev", "https://x/lib.git"));
    let kept = synced_marker(&m, "https://fork", "dev", "up2", false, "host9");
    assert_eq!(kept.remote, "https://fork");
    assert_eq!(kept.branch, "dev");
    assert_eq!(kept.commit, "up2");
    assert_eq!(kept.parent.as_deref(), Some("host0"));
    let forced = synced_marker(&m, "https://fork", "dev", "up2", true, "host9");
    assert_eq!(forced.parent.as_deref(), Some("host9"));
    let bare = GitRepoFile::new("r", "b", "c", None);
    assert_eq!(synced_marker(&bare, "r", "b", "d", false, "h").parent.as_deref(), Some("h"));
    let moved = retargeted_marker(&m, "https://mirror");
    assert_eq!(moved.remote, "https://mirror");
    assert_eq!((moved.branch.as_str(), moved.commit.as_str()), ("main", "0123456789abcdef"));
    let pushed = pushed_marker(&m, "r2", "feature", "tip", "host5");
    assert_eq!(pushed, GitRepoFile::new("r2", "feature", "tip", Some("host5")));
}

#[test]
fn push_targets() {
    let m = meta();
    let t = push_target(&m, None, None, false).unwrap();
    assert_eq!((t.remote.as_str(), t.branch.as_str(), t.elsewhere), ("https://x/lib.git", "main", false));
    let t = push_target(&m, None, Some("feature/x"), true).unwrap();
    assert_eq!((t.branch.as_str(), t.elsewhere), ("feature/x", true));
    assert!(matches!(push_target(&m, None, Some("main"), true), Err(PushRefusal::KeepNeedsTarget)));
}

fn refs() -> RemoteRefs {
    RemoteRefs {
        branches: vec![(s("m1"), s("main")), (s("o1"), s("other"))],
        tags: vec![(s("t1"), s("v1.0"))],
    }
}

#[test]
fn pushing_elsewhere_never_clobbers() {
    let r = refs();
    assert_eq!(check_push_elsewhere(&r, "v1.0", "m1"), Err(PushRefusal::TargetIsTag));
    assert_eq!(check_push_elsewhere(&r, "abcdef012", "m1"), Err(PushRefusal::TargetIsCommit));
    assert_eq!(check_push_elsewhere(&r, "other", "m1"), Err(PushRefusal::BranchExists(s("o1"))));
    assert_eq!(check_push_elsewhere(&r, "other", "o1"), Ok(Some(s("o1"))));
    assert_eq!(check_push_elsewhere(&r, "new-branch", "m1"), Ok(None));
}

#[test]
fn pushing_the_tracked_revision() {
    let r = refs();
    assert_eq!(upstream_head_plan(&r, "main"), Ok(UpstreamHead::FetchBranch));
    assert_eq!(upstream_head_plan(&r, "v1.0"), Err(PushRefusal::PinnedToTag));
    assert_eq!(upstream_head_plan(&r, "0123456789"), Err(PushRefusal::PinnedToCommit));
    assert_eq!(upstream_head_plan(&r, "fresh"), Ok(UpstreamHead::NewBranch));
    assert_eq!(check_upstream_unmoved("a", "a", false), Ok(()));
    assert_eq!(check_upstream_unmoved("b", "a", true), Err(PushRefusal::NeedsPull));
    assert_eq!(check_upstream_unmoved("b", "a", false), Err(PushRefusal::Diverged));
    assert_eq!(replayed_count(true, 2, false), 2);
    assert_eq!(replayed_count(false, 2, true), 1);
    assert_eq!(replayed_count(true, 3, true), 4);
}

#[test]
fn only_commits_that_change_the_directory_count() {
    let trees = vec![Some(s("t0")), Some(s("t1")), None, Some(s("t1")), Some(s("t2")), Some(s("t0"))];
    assert_eq!(changed_steps("t0", &trees, None), vec![1, 4, 5]);
    assert_eq!(count_unpushed("t0", &trees), 3);
    assert_eq!(changed_steps("t0", &trees, Some("gone")), vec![1, 2, 3, 4, 5]);
    assert_eq!(count_unpushed("t9", &Vec::new()), 0);
}

#[test]
fn status_summaries() {
    assert_eq!(upstream_status(Some("a"), "a", true), UpstreamStatus::UpToDate);
    assert_eq!(upstream_status(Some("b"), "a", true), UpstreamStatus::Behind);
    assert_eq!(upstream_status(Some("b"), "a", false), UpstreamStatus::Unknown);
    assert_eq!(upstream_status(None, "a", true), UpstreamStatus::Unknown);
    assert_eq!(local_status(Some("t"), Some("t"), 0), LocalStatus::Clean);
    assert_eq!(local_status(Some("t"), Some("t"), 2), LocalStatus::ToPush);
    assert_eq!(local_status(Some("x"), Some("t"), 0), LocalStatus::Modified);
    assert_eq!(local_status(None, Some("t"), 0), LocalStatus::Unknown);
}

#[test]
fn includes_are_listed_sorted_with_nesting() {
    let paths = vec![
        s("libs/a/vendor/b/.gitrepo"),
        s(".gitrepo"),
        s("libs/a/.gitrepo"),
        s("docs/x.gitrepo"),
        s("app/.gitrepo"),
    ];
    let dirs = include_dirs(&paths);
    assert_eq!(dirs, vec![s("app"), s("libs/a"), s("libs/a/vendor/b")]);
    assert_eq!(nesting_depth(&dirs, 0), 0);
    assert_eq!(nesting_depth(&dirs, 1), 0);
    assert_eq!(nesting_depth(&dirs, 2), 1);
    let similar = vec![s("lib"), s("library")];
    assert_eq!(nesting_depth(&similar, 1), 0);
}

#[test]
fn squash_and_reconcile_messages() {
    assert_eq!(reconcile_message("vendor/lib"), "git include push vendor/lib\n\nReconcile local content.");
    let entries = vec![(s("0123456789"), s("step one")), (s("abc"), s("step two"))];
    assert_eq!(
        squash_message("vendor/lib", &entries),
        "git include push vendor/lib (squashed)\n\nSquashed commits:\n  0123456 step one\n  abc step two"
    );
}

#[test]
fn nested_includes_come_after_their_parent() {
    let paths = vec![
        s("z/inner/.gitrepo"),
        s("z/.gitrepo"),
        s("a-b/.gitrepo"),
        s("a/.gitrepo"),
        s("a/b/.gitrepo"),
    ];
    let dirs = include_dirs(&paths);
    assert_eq!(dirs, vec![s("a"), s("a-b"), s("a/b"), s("z"), s("z/inner")]);
    let depths: Vec<usize> = (0..dirs.len()).map(|i| nesting_depth(&dirs, i)).collect();
    assert_eq!(depths, vec![0, 0, 1, 0, 1]);
}

#[test]
fn diff_lines_are_coloured_by_origin() {
    assert_eq!(diff_color('+', true), ("\x1b[32m", "\x1b[m"));
    assert_eq!(diff_color('-', true), ("\x1b[31m", "\x1b[m"));
    assert_eq!(diff_color('H', true), ("\x1b[36m", "\x1b[m"));
    assert_eq!(diff_color('F', true), ("\x1b[1m", "\x1b[m"));
    assert_eq!(diff_color(' ', true), ("", ""));
    assert_eq!(diff_color('+', false), ("", ""));
    assert_eq!(diff_prefix('+'), Some('+'));
    assert_eq!(diff_prefix(' '), Some(' '));
    assert_eq!(diff_prefix('H'), None);
}

#[test]
fn how_a_sync_ends() {
    let m = meta();
    assert!(sync_is_noop(&m, "0123456789abcdef", "main", "https://x/lib.git", false));
    assert!(!sync_is_noop(&m, "0123456789abcdef", "main", "https://x/lib.git", true));
    assert!(!sync_is_noop(&m, "fedcba", "main", "https://x/lib.git", false));
}

#[test]
fn sync_outcomes() {
    assert_eq!(sync_outcome(true, true, false, RevKind::Branch), SyncOutcome::Conflicted);
    assert_eq!(sync_outcome(false, false, true, RevKind::Tag), SyncOutcome::AlreadyMatches);
    assert_eq!(sync_outcome(false, true, true, RevKind::Branch), SyncOutcome::Switched);
    assert_eq!(sync_outcome(false, true, true, RevKind::Commit), SyncOutcome::Pinned);
    assert_eq!(sync_outcome(false, true, false, RevKind::Tag), SyncOutcome::Pulled);
}

#[test]
fn push_outcomes() {
    assert_eq!(push_outcome(0, true, false, false), PushOutcome::NothingToPush);
    assert_eq!(push_outcome(0, false, false, false), PushOutcome::PushAndRecord);
    assert_eq!(push_outcome(2, true, true, false), PushOutcome::DryRun);
    assert_eq!(push_outcome(2, true, false, true), PushOutcome::PushKeepingMarker);
    assert_eq!(push_outcome(1, true, false, false), PushOutcome::PushAndRecord);
}

#[test]
fn merge_conflict_helpers() {
    assert_eq!(sorted_paths(vec![s("b.txt"), s("a/z.txt"), s("a.txt")]), vec![s("a.txt"), s("a/z.txt"), s("b.txt")]);
    assert_eq!(conflict_side(Some(1), Some(2)), Some(1));
    assert_eq!(conflict_side(None, Some(2)), Some(2));
    assert_eq!(conflict_side::<i32>(None, None), None);
}
