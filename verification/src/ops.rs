//! The decisions of the include commands (add, pull, switch, push,
//! status, init, list): which includes a command targets, how a sync
//! merges, what the updated marker records, when a push is refused, how
//! status is summarized, and the commit messages.

use vstd::prelude::*;

use crate::git::{has_name, pair_views, spec_looks_like_oid, looks_like_oid, RemoteRefs, RevKind};
use crate::gitrepo::{GitRepoFile, MarkerView, VERSION};
use crate::template::{lookup, render, spec_render, var_views};
use crate::text::{chars_of, copy_range, matches_at, starts_with, string_of};

verus! {

broadcast use vstd::string::group_string_axioms;

/// Options of `git include add`.
pub struct AddOptions<'a> {
    /// Branch, tag, or commit to track, with the kind restriction of the
    /// `--branch`/`--tag`/`--commit` flag.
    pub rev: Option<(&'a str, RevKind)>,
    pub message: Option<&'a str>,
    pub no_lfs: bool,
}

/// Options of `git include pull` (and `switch`).
pub struct PullOptions<'a> {
    pub force: bool,
    /// Pull from this remote instead of the tracked one; the marker is
    /// retargeted to it.
    pub remote: Option<&'a str>,
    pub message: Option<&'a str>,
    pub no_lfs: bool,
}

/// Options of `git include push`.
pub struct PushOptions<'a> {
    pub dry_run: bool,
    pub squash: bool,
    /// Push to this (possibly new) branch instead of the tracked one.
    pub to_branch: Option<&'a str>,
    /// Push to this remote instead of the tracked one (e.g. a fork).
    pub to_remote: Option<&'a str>,
    /// Keep the marker tracking its current remote/branch instead of
    /// retargeting it to where the push went.
    pub keep: bool,
    pub message: Option<&'a str>,
    pub no_lfs: bool,
}

// -------------------------------------------------------- messages --

/// The first `n` characters of `s` (all of it when shorter).
pub open spec fn first_chars(s: Seq<char>, n: int) -> Seq<char> {
    if s.len() <= n {
        s
    } else {
        s.take(n)
    }
}

/// The standard commit-message body identifying an include action.
pub open spec fn spec_commit_message(action: Seq<char>, subdir: Seq<char>, meta: MarkerView) -> Seq<
    char,
> {
    "git include "@ + action + " "@ + subdir + "\n\ninclude:\n  subdir: \""@ + subdir
        + "\"\n  remote: \""@ + meta.remote + "\"\n  branch: \""@ + meta.branch
        + "\"\n  commit: \""@ + meta.commit + "\"\ngit-include-version: "@ + VERSION@
}

pub fn commit_message(action: &str, inc_subdir: &str, meta: &GitRepoFile) -> (r: String)
    ensures
        r@ == spec_commit_message(action@, inc_subdir@, meta@),
{
    let mut s = "git include ".to_owned();
    s.append(action);
    s.append(" ");
    s.append(inc_subdir);
    s.append("\n\ninclude:\n  subdir: \"");
    s.append(inc_subdir);
    s.append("\"\n  remote: \"");
    s.append(meta.remote.as_str());
    s.append("\"\n  branch: \"");
    s.append(meta.branch.as_str());
    s.append("\"\n  commit: \"");
    s.append(meta.commit.as_str());
    s.append("\"\ngit-include-version: ");
    s.append(VERSION);
    s
}

/// The variables a commit-message template can use.
pub open spec fn spec_template_vars(action: Seq<char>, subdir: Seq<char>, meta: MarkerView) -> Seq<
    (Seq<char>, Seq<char>),
> {
    seq![
        ("action"@, action),
        ("subdir"@, subdir),
        ("remote"@, meta.remote),
        ("ref"@, meta.branch),
        ("branch"@, meta.branch),
        ("commit"@, meta.commit),
        ("short_commit"@, first_chars(meta.commit, 7)),
        ("version"@, VERSION@),
    ]
}

/// What each variable of a sync commit message holds: `action` and
/// `subdir` the sync's, `remote` the marker's remote, `ref` and its alias
/// `branch` the tracked revision, `commit` the full upstream commit id,
/// `short_commit` its first seven characters (all of it when shorter), and
/// `version` this tool's version.
pub proof fn lemma_template_variable_values(action: Seq<char>, subdir: Seq<char>, meta: MarkerView)
    ensures
        lookup(spec_template_vars(action, subdir, meta), "action"@) == Some(action),
        lookup(spec_template_vars(action, subdir, meta), "subdir"@) == Some(subdir),
        lookup(spec_template_vars(action, subdir, meta), "remote"@) == Some(meta.remote),
        lookup(spec_template_vars(action, subdir, meta), "ref"@) == Some(meta.branch),
        lookup(spec_template_vars(action, subdir, meta), "branch"@) == Some(meta.branch),
        lookup(spec_template_vars(action, subdir, meta), "commit"@) == Some(meta.commit),
        lookup(spec_template_vars(action, subdir, meta), "short_commit"@) matches Some(v) && v.len() == (
        if meta.commit.len() < 7 {
            meta.commit.len() as int
        } else {
            7
        }) && v == meta.commit.take(v.len() as int),
        lookup(spec_template_vars(action, subdir, meta), "version"@) == Some(VERSION@),
{
    reveal_strlit("action");
    reveal_strlit("subdir");
    reveal_strlit("remote");
    reveal_strlit("ref");
    reveal_strlit("branch");
    reveal_strlit("commit");
    reveal_strlit("short_commit");
    reveal_strlit("version");
    let vars = spec_template_vars(action, subdir, meta);
    let keys = seq!["action"@, "subdir"@, "remote"@, "ref"@, "branch"@, "commit"@, "short_commit"@, "version"@];
    assert forall|i: int| 0 <= i < 8 implies vars[i].0 == #[trigger] keys[i] by {}
    // Each name differs from every earlier one in its length or first letter.
    assert(keys[0].len() == 6 && keys[0][0] == 'a');
    assert(keys[1].len() == 6 && keys[1][0] == 's');
    assert(keys[2].len() == 6 && keys[2][0] == 'r');
    assert(keys[3].len() == 3);
    assert(keys[4].len() == 6 && keys[4][0] == 'b');
    assert(keys[5].len() == 6 && keys[5][0] == 'c');
    assert(keys[6].len() == 12);
    assert(keys[7].len() == 7);
    assert forall|i: int, j: int| 0 <= i < j < 8 implies #[trigger] keys[i] != #[trigger] keys[j] by {
        if keys[i] == keys[j] {
            assert(keys[i].len() == keys[j].len());
            assert(keys[i][0] == keys[j][0]);
        }
    }
    assert forall|j: int| 0 <= j < 8 implies lookup(vars, #[trigger] keys[j]) == Some(vars[j].1) by {
        assert forall|i: int| 0 <= i < j implies vars[i].0 != keys[j] by {
            assert(keys[i] != keys[j]);
        }
        lemma_lookup_at(vars, keys[j], j);
    }
    assert(lookup(vars, keys[0]) == Some(vars[0].1));
    assert(lookup(vars, keys[1]) == Some(vars[1].1));
    assert(lookup(vars, keys[2]) == Some(vars[2].1));
    assert(lookup(vars, keys[3]) == Some(vars[3].1));
    assert(lookup(vars, keys[4]) == Some(vars[4].1));
    assert(lookup(vars, keys[5]) == Some(vars[5].1));
    assert(lookup(vars, keys[6]) == Some(vars[6].1));
    assert(lookup(vars, keys[7]) == Some(vars[7].1));
    if meta.commit.len() <= 7 {
        assert(meta.commit.take(meta.commit.len() as int) =~= meta.commit);
    }
}

proof fn lemma_lookup_at(s: Seq<(Seq<char>, Seq<char>)>, key: Seq<char>, j: int)
    requires
        0 <= j < s.len(),
        s[j].0 == key,
        forall|i: int| 0 <= i < j ==> s[i].0 != key,
    ensures
        lookup(s, key) == Some(s[j].1),
    decreases j,
{
    if j > 0 {
        assert forall|i: int| 0 <= i < j - 1 implies s.drop_first()[i].0 != key by {
            assert(s.drop_first()[i] == s[i + 1]);
        }
        lemma_lookup_at(s.drop_first(), key, j - 1);
    }
}

fn first_chars_exec(s: &str, n: usize) -> (r: String)
    ensures
        r@ == first_chars(s@, n as int),
{
    let v = chars_of(s);
    if v.len() <= n {
        string_of(&v)
    } else {
        let t = copy_range(&v, 0, n);
        assert(t@ =~= v@.take(n as int));
        string_of(&t)
    }
}

/// The variables for a sync commit message.
pub fn template_vars(action: &str, subdir: &str, meta: &GitRepoFile) -> (r: Vec<(&'static str, String)>)
    ensures
        var_views(r@) == spec_template_vars(action@, subdir@, meta@),
        lookup(var_views(r@), "commit"@) == Some(meta.commit@),
        lookup(var_views(r@), "subdir"@) == Some(subdir@),
        lookup(var_views(r@), "action"@) == Some(action@),
{
    let mut v: Vec<(&'static str, String)> = Vec::new();
    v.push(("action", action.to_owned()));
    v.push(("subdir", subdir.to_owned()));
    v.push(("remote", meta.remote.clone()));
    v.push(("ref", meta.branch.clone()));
    v.push(("branch", meta.branch.clone()));
    v.push(("commit", meta.commit.clone()));
    v.push(("short_commit", first_chars_exec(meta.commit.as_str(), 7)));
    v.push(("version", VERSION.to_owned()));
    assert(var_views(v@) =~= spec_template_vars(action@, subdir@, meta@));
    proof {
        lemma_template_variable_values(action@, subdir@, meta@);
    }
    v
}

/// The message of a sync commit: the template rendered with the sync's
/// variables when one is configured, the standard message otherwise.
pub fn sync_commit_message(
    template: Option<&str>,
    action: &str,
    subdir: &str,
    meta: &GitRepoFile,
) -> (r: String)
    ensures
        r@ == (match template {
            Some(t) => spec_render(t@, spec_template_vars(action@, subdir@, meta@)),
            None => spec_commit_message(action@, subdir@, meta@),
        }),
{
    match template {
        Some(t) => {
            let vars = template_vars(action, subdir, meta);
            render(t, vars.as_slice())
        },
        None => commit_message(action, subdir, meta),
    }
}

// ------------------------------------------------------------- pull --

/// Why `pull` without a directory cannot pick one.
#[derive(Clone, Debug, PartialEq, Eq)]
pub enum PullTargetError {
    /// No include exists.
    NoIncludes,
    /// Several exist; they are listed.
    Ambiguous(Vec<String>),
}

/// The includes a pull targets: all with `--all`, the given one, or the
/// only one when exactly one exists.
pub fn pull_targets(all: bool, subdir: Option<&str>, includes: Vec<String>) -> (r: Result<
    Vec<String>,
    PullTargetError,
>)
    ensures
        all ==> r == Ok::<Vec<String>, PullTargetError>(includes),
        !all && subdir is Some ==> (r matches Ok(v) && v@.len() == 1 && v@[0]@ == subdir->0@),
        !all && subdir is None && includes@.len() == 0 ==> r == Err::<Vec<String>, PullTargetError>(
            PullTargetError::NoIncludes,
        ),
        !all && subdir is None && includes@.len() == 1 ==> r == Ok::<Vec<String>, PullTargetError>(
            includes,
        ),
        !all && subdir is None && includes@.len() > 1 ==> r == Err::<Vec<String>, PullTargetError>(
            PullTargetError::Ambiguous(includes),
        ),
{
    if all {
        Ok(includes)
    } else if let Some(s) = subdir {
        let mut v = Vec::new();
        v.push(s.to_owned());
        Ok(v)
    } else if includes.len() == 0 {
        Err(PullTargetError::NoIncludes)
    } else if includes.len() == 1 {
        Ok(includes)
    } else {
        Err(PullTargetError::Ambiguous(includes))
    }
}

/// The action word of a pull.
pub fn pull_action(force: bool) -> (r: &'static str)
    ensures
        r@ == (if force { "pull --force"@ } else { "pull"@ }),
{
    if force {
        "pull --force"
    } else {
        "pull"
    }
}

/// How a sync combines upstream with the directory.
#[derive(Clone, Copy, Debug, PartialEq, Eq, Structural)]
pub enum MergeChoice {
    /// Take the upstream tree verbatim.
    TakeUpstream,
    /// Three-way merge base, local and upstream.
    ThreeWay,
}

/// Upstream verbatim when forced, when the directory has no changes since
/// the last sync, or when it already matches upstream; a three-way merge
/// otherwise.
pub fn choose_merge(force: bool, local: &str, base: &str, upstream: &str) -> (r: MergeChoice)
    ensures
        r == (if force || local@ == base@ || local@ == upstream@ {
            MergeChoice::TakeUpstream
        } else {
            MergeChoice::ThreeWay
        }),
{
    if force {
        return MergeChoice::TakeUpstream;
    }
    let l = local.to_owned();
    if l == base.to_owned() || l == upstream.to_owned() {
        MergeChoice::TakeUpstream
    } else {
        MergeChoice::ThreeWay
    }
}

/// Is a sync a no-op: the fetched commit is the recorded one, and the
/// revision and remote are the tracked ones?
pub fn same_target(meta: &GitRepoFile, upstream: &str, rev: &str, remote: &str) -> (r: bool)
    ensures
        r == (upstream@ == meta.commit@ && rev@ == meta.branch@ && remote@ == meta.remote@),
{
    upstream.to_owned() == meta.commit && rev.to_owned() == meta.branch && remote.to_owned()
        == meta.remote
}

/// Does a sync stop early as already up to date? Only an unforced sync
/// to the tracked target.
pub fn sync_is_noop(meta: &GitRepoFile, upstream: &str, rev: &str, remote: &str, force: bool) -> (r: bool)
    ensures
        r == (!force && upstream@ == meta.commit@ && rev@ == meta.branch@ && remote@ == meta.remote@),
{
    !force && same_target(meta, upstream, rev, remote)
}

/// How a sync ends.
#[derive(Clone, Copy, Debug, PartialEq, Eq, Structural)]
pub enum SyncOutcome {
    /// The merge left conflict markers: nothing is committed, the user
    /// resolves and commits.
    Conflicted,
    /// The sync commit changed nothing.
    AlreadyMatches,
    /// `switch` moved to another branch.
    Switched,
    /// `switch` pinned the include to a tag or commit.
    Pinned,
    /// `pull` brought in upstream changes.
    Pulled,
}

/// The end of a sync: conflicts stop it before a commit; otherwise the
/// commit either left HEAD where it was or not, and a `switch` reports the
/// kind of revision it moved to.
pub fn sync_outcome(conflicted: bool, head_moved: bool, switching: bool, kind: RevKind) -> (r: SyncOutcome)
    ensures
        r == (if conflicted {
            SyncOutcome::Conflicted
        } else if !head_moved {
            SyncOutcome::AlreadyMatches
        } else if switching && kind == RevKind::Branch {
            SyncOutcome::Switched
        } else if switching {
            SyncOutcome::Pinned
        } else {
            SyncOutcome::Pulled
        }),
{
    if conflicted {
        SyncOutcome::Conflicted
    } else if !head_moved {
        SyncOutcome::AlreadyMatches
    } else if switching && kind == RevKind::Branch {
        SyncOutcome::Switched
    } else if switching {
        SyncOutcome::Pinned
    } else {
        SyncOutcome::Pulled
    }
}

/// The marker after a sync to `upstream` (revision `rev` on `remote`).
///
/// `parent` marks the last host commit whose changes are already
/// upstream, so a regular sync leaves it alone (local commits made before
/// it can still be pushed individually); a forced sync discards local
/// changes and advances it to `head`, as does a sync of a marker that has
/// none yet.
pub fn synced_marker(
    meta: &GitRepoFile,
    remote: &str,
    rev: &str,
    upstream: &str,
    force: bool,
    head: &str,
) -> (r: GitRepoFile)
    ensures
        r@.remote == remote@,
        r@.branch == rev@,
        r@.commit == upstream@,
        r@.parent == (if force || meta@.parent is None {
            Some(head@)
        } else {
            meta@.parent
        }),
        r@.method == meta@.method,
        r@.cmdver == VERSION@,
{
    let parent = if force || meta.parent.is_none() {
        Some(head.to_owned())
    } else {
        meta.parent.clone()
    };
    GitRepoFile {
        remote: remote.to_owned(),
        branch: rev.to_owned(),
        commit: upstream.to_owned(),
        parent,
        method: meta.method.clone(),
        cmdver: VERSION.to_owned(),
    }
}

/// The marker after `git include remote`: only the remote changes.
pub fn retargeted_marker(meta: &GitRepoFile, url: &str) -> (r: GitRepoFile)
    ensures
        r@.remote == url@,
        r@.branch == meta@.branch,
        r@.commit == meta@.commit,
        r@.parent == meta@.parent,
        r@.method == meta@.method,
        r@.cmdver == VERSION@,
{
    GitRepoFile {
        remote: url.to_owned(),
        branch: meta.branch.clone(),
        commit: meta.commit.clone(),
        parent: meta.parent.clone(),
        method: meta.method.clone(),
        cmdver: VERSION.to_owned(),
    }
}

// ------------------------------------------------------------- push --

/// Where a push goes.
pub struct PushTarget {
    pub remote: String,
    pub branch: String,
    /// Somewhere other than the tracked remote and branch.
    pub elsewhere: bool,
}

/// Why a push is refused.
#[derive(Clone, Debug, PartialEq, Eq)]
pub enum PushRefusal {
    /// `--keep` without `--branch`/`--remote`.
    KeepNeedsTarget,
    /// The target branch is a tag on the target remote.
    TargetIsTag,
    /// The include tracks a commit id, which no branch is named after: there
    /// is no branch to push to.
    PinnedToCommit,
    /// The branch asked to push to is a commit id and no branch has that
    /// name.
    TargetIsCommit,
    /// The include is pinned to a tag.
    PinnedToTag,
    /// The target branch exists, at this commit, which is not the recorded
    /// base.
    BranchExists(String),
    /// Upstream has new commits since the last sync.
    NeedsPull,
    /// Upstream no longer contains the recorded commit.
    Diverged,
}

/// The target of a push: the given remote/branch or the tracked ones;
/// refused with `--keep` when that is where it goes anyway.
pub fn push_target(meta: &GitRepoFile, to_remote: Option<&str>, to_branch: Option<&str>, keep: bool) -> (r: Result<
    PushTarget,
    PushRefusal,
>)
    ensures
        ({
            let remote = match to_remote {
                Some(x) => x@,
                None => meta.remote@,
            };
            let branch = match to_branch {
                Some(x) => x@,
                None => meta.branch@,
            };
            let elsewhere = remote != meta.remote@ || branch != meta.branch@;
            if keep && !elsewhere {
                r == Err::<PushTarget, PushRefusal>(PushRefusal::KeepNeedsTarget)
            } else {
                r matches Ok(t) && t.remote@ == remote && t.branch@ == branch && t.elsewhere
                    == elsewhere
            }
        }),
{
    let remote = match to_remote {
        Some(x) => x.to_owned(),
        None => meta.remote.clone(),
    };
    let branch = match to_branch {
        Some(x) => x.to_owned(),
        None => meta.branch.clone(),
    };
    let elsewhere = !(remote == meta.remote) || !(branch == meta.branch);
    if keep && !elsewhere {
        return Err(PushRefusal::KeepNeedsTarget);
    }
    Ok(PushTarget { remote, branch, elsewhere })
}

/// The commit a branch named `name` is at, if advertised.
pub open spec fn branch_sha(v: Seq<(Seq<char>, Seq<char>)>, name: Seq<char>, i: int) -> Option<
    Seq<char>,
>
    decreases v.len() - i,
{
    if i < 0 || i >= v.len() {
        None
    } else if v[i].1 == name {
        Some(v[i].0)
    } else {
        branch_sha(v, name, i + 1)
    }
}

/// Pushing to another branch or remote: the target branch must not be a
/// tag or a commit id, and if it exists it must sit exactly at the
/// recorded base so unrelated work is never clobbered. Ok holds where it
/// is now (None when it will be created).
pub fn check_push_elsewhere(refs: &RemoteRefs, target_branch: &str, recorded: &str) -> (r: Result<
    Option<String>,
    PushRefusal,
>)
    ensures
        ({
            let branches = pair_views(refs.branches@);
            let tags = pair_views(refs.tags@);
            if has_name(tags, target_branch@) {
                r == Err::<Option<String>, PushRefusal>(PushRefusal::TargetIsTag)
            } else if spec_looks_like_oid(target_branch) && !has_name(branches, target_branch@) {
                r == Err::<Option<String>, PushRefusal>(PushRefusal::TargetIsCommit)
            } else {
                match branch_sha(branches, target_branch@, 0) {
                    Some(sha) => if sha != recorded@ {
                        r matches Err(PushRefusal::BranchExists(s)) && s@ == sha
                    } else {
                        r matches Ok(Some(s)) && s@ == sha
                    },
                    None => r matches Ok(None),
                }
            }
        }),
{
    if refs.has_tag(target_branch) {
        return Err(PushRefusal::TargetIsTag);
    }
    if looks_like_oid(target_branch) && !refs.has_branch(target_branch) {
        return Err(PushRefusal::TargetIsCommit);
    }
    let name = target_branch.to_owned();
    let n = refs.branches.len();
    for i in 0..n
        invariant
            n == refs.branches@.len(),
            name@ == target_branch@,
            !has_name(pair_views(refs.tags@), target_branch@),
            !(spec_looks_like_oid(target_branch) && !has_name(
                pair_views(refs.branches@),
                target_branch@,
            )),
            branch_sha(pair_views(refs.branches@), target_branch@, 0) == branch_sha(
                pair_views(refs.branches@),
                target_branch@,
                i as int,
            ),
    {
        assert(pair_views(refs.branches@)[i as int] == (
            refs.branches@[i as int].0@,
            refs.branches@[i as int].1@,
        ));
        if refs.branches[i].1 == name {
            let sha = refs.branches[i].0.clone();
            assert(pair_views(refs.branches@)[i as int].1 == target_branch@);
            assert(has_name(pair_views(refs.branches@), target_branch@));
            assert(branch_sha(pair_views(refs.branches@), target_branch@, i as int) == Some(sha@));
            if !(sha == recorded.to_owned()) {
                return Err(PushRefusal::BranchExists(sha));
            }
            return Ok(Some(sha));
        }
    }
    Ok(None)
}

/// How `push` obtains the upstream head of the tracked revision.
#[derive(Clone, Debug, PartialEq, Eq)]
pub enum UpstreamHead {
    /// The branch exists upstream: fetch it.
    FetchBranch,
    /// The branch does not exist upstream yet: the push creates it.
    NewBranch,
}

/// A push to the tracked revision needs a branch: a tag or commit pin is
/// refused, an unknown name is a branch the push will create.
pub fn upstream_head_plan(refs: &RemoteRefs, rev: &str) -> (r: Result<UpstreamHead, PushRefusal>)
    ensures
        r == (if has_name(pair_views(refs.branches@), rev@) {
            Ok::<UpstreamHead, PushRefusal>(UpstreamHead::FetchBranch)
        } else if has_name(pair_views(refs.tags@), rev@) {
            Err::<UpstreamHead, PushRefusal>(PushRefusal::PinnedToTag)
        } else if spec_looks_like_oid(rev) {
            Err::<UpstreamHead, PushRefusal>(PushRefusal::PinnedToCommit)
        } else {
            Ok::<UpstreamHead, PushRefusal>(UpstreamHead::NewBranch)
        }),
{
    if refs.has_branch(rev) {
        Ok(UpstreamHead::FetchBranch)
    } else if refs.has_tag(rev) {
        Err(PushRefusal::PinnedToTag)
    } else if looks_like_oid(rev) {
        Err(PushRefusal::PinnedToCommit)
    } else {
        Ok(UpstreamHead::NewBranch)
    }
}

/// A push only fast-forwards upstream: the upstream head must still be
/// the recorded commit. When it moved on from it, pull first; otherwise
/// the histories diverged.
pub fn check_upstream_unmoved(upstream: &str, recorded: &str, upstream_descends: bool) -> (r: Result<
    (),
    PushRefusal,
>)
    ensures
        r == (if upstream@ == recorded@ {
            Ok::<(), PushRefusal>(())
        } else if upstream_descends {
            Err::<(), PushRefusal>(PushRefusal::NeedsPull)
        } else {
            Err::<(), PushRefusal>(PushRefusal::Diverged)
        }),
{
    if upstream.to_owned() == recorded.to_owned() {
        Ok(())
    } else if upstream_descends {
        Err(PushRefusal::NeedsPull)
    } else {
        Err(PushRefusal::Diverged)
    }
}

/// The number of commits a replayed push publishes: the plan's steps when
/// its tip moved past the recorded commit, plus one when a reconciling
/// commit is added.
pub fn replayed_count(tip_moved: bool, steps: usize, reconcile: bool) -> (r: usize)
    requires
        steps < usize::MAX,
    ensures
        r == (if tip_moved { steps as int } else { 0 }) + (if reconcile { 1int } else { 0 }),
{
    let base = if tip_moved { steps } else { 0 };
    if reconcile {
        base + 1
    } else {
        base
    }
}

/// The marker after a push: retargeted to where the push went, at the
/// pushed tip, with `head` as the new parent.
pub fn pushed_marker(meta: &GitRepoFile, remote: &str, branch: &str, tip: &str, head: &str) -> (r: GitRepoFile)
    ensures
        r@.remote == remote@,
        r@.branch == branch@,
        r@.commit == tip@,
        r@.parent == Some(head@),
        r@.method == meta@.method,
        r@.cmdver == VERSION@,
{
    GitRepoFile {
        remote: remote.to_owned(),
        branch: branch.to_owned(),
        commit: tip.to_owned(),
        parent: Some(head.to_owned()),
        method: meta.method.clone(),
        cmdver: VERSION.to_owned(),
    }
}

/// What a push does once its history is built.
#[derive(Clone, Copy, Debug, PartialEq, Eq, Structural)]
pub enum PushOutcome {
    /// Nothing to publish: upstream exists and no commit was replayed.
    NothingToPush,
    /// A dry run stops before publishing.
    DryRun,
    /// Publish, but leave the marker tracking what it tracked (`--keep`).
    PushKeepingMarker,
    /// Publish and record the new upstream position in the marker.
    PushAndRecord,
}

pub fn push_outcome(replayed: usize, upstream_exists: bool, dry_run: bool, keep: bool) -> (r: PushOutcome)
    ensures
        r == (if replayed == 0 && upstream_exists {
            PushOutcome::NothingToPush
        } else if dry_run {
            PushOutcome::DryRun
        } else if keep {
            PushOutcome::PushKeepingMarker
        } else {
            PushOutcome::PushAndRecord
        }),
{
    if replayed == 0 && upstream_exists {
        PushOutcome::NothingToPush
    } else if dry_run {
        PushOutcome::DryRun
    } else if keep {
        PushOutcome::PushKeepingMarker
    } else {
        PushOutcome::PushAndRecord
    }
}

// ------------------------------------------------------ local history --

/// The indices of the commits whose directory tree differs from the one
/// before, starting from `start`: a missing tree counts as `absent` (or
/// is skipped when `absent` is None).
pub open spec fn changed_prefix(
    start: Seq<char>,
    trees: Seq<Option<Seq<char>>>,
    absent: Option<Seq<char>>,
    n: int,
) -> (Seq<int>, Seq<char>)
    decreases n,
{
    if n <= 0 {
        (Seq::empty(), start)
    } else {
        let (steps, tip) = changed_prefix(start, trees, absent, n - 1);
        let cur = match trees[n - 1] {
            Some(t) => Some(t),
            None => absent,
        };
        match cur {
            Some(c) => if c != tip {
                (steps.push(n - 1), c)
            } else {
                (steps, tip)
            },
            None => (steps, tip),
        }
    }
}

pub open spec fn spec_changed_steps(
    start: Seq<char>,
    trees: Seq<Option<Seq<char>>>,
    absent: Option<Seq<char>>,
) -> Seq<int> {
    changed_prefix(start, trees, absent, trees.len() as int).0
}

pub open spec fn opt_views(v: Seq<Option<String>>) -> Seq<Option<Seq<char>>> {
    v.map_values(
        |o: Option<String>|
            match o {
                Some(s) => Some(s@),
                None => None,
            },
    )
}

/// See `spec_changed_steps`.
pub fn changed_steps(start: &str, trees: &Vec<Option<String>>, absent: Option<&str>) -> (r: Vec<usize>)
    ensures
        r@.map_values(|i: usize| i as int) == spec_changed_steps(
            start@,
            opt_views(trees@),
            match absent {
                Some(a) => Some(a@),
                None => None,
            },
        ),
{
    let ghost av = match absent {
        Some(a) => Some(a@),
        None => None::<Seq<char>>,
    };
    let ghost tv = opt_views(trees@);
    let mut out: Vec<usize> = Vec::new();
    let mut tip = start.to_owned();
    let n = trees.len();
    for i in 0..n
        invariant
            n == trees@.len(),
            tv == opt_views(trees@),
            av == (match absent {
                Some(a) => Some(a@),
                None => None::<Seq<char>>,
            }),
            (out@.map_values(|i: usize| i as int), tip@) == changed_prefix(start@, tv, av, i as int),
    {
        let cur: Option<String> = match &trees[i] {
            Some(t) => Some(t.clone()),
            None => match absent {
                Some(a) => Some(a.to_owned()),
                None => None,
            },
        };
        let ghost o = out@;
        match cur {
            Some(c) => {
                if !(c == tip) {
                    out.push(i);
                    assert(out@.map_values(|i: usize| i as int) =~= o.map_values(|i: usize| i as int).push(
                        i as int,
                    ));
                    tip = c;
                }
            },
            None => {},
        }
    }
    out
}

/// Number of local commits whose directory content differs from the one
/// before, starting at the recorded upstream tree (commits without the
/// directory are skipped).
pub fn count_unpushed(tip_tree: &str, trees: &Vec<Option<String>>) -> (r: usize)
    ensures
        r == spec_changed_steps(tip_tree@, opt_views(trees@), None).len(),
{
    let steps = changed_steps(tip_tree, trees, None);
    steps.len()
}

// ------------------------------------------------------------- status --

/// The upstream side of a status report.
#[derive(Clone, Copy, Debug, PartialEq, Eq, Structural)]
pub enum UpstreamStatus {
    UpToDate,
    /// New upstream commits are available.
    Behind,
    /// No upstream state is known locally.
    Unknown,
}

pub fn upstream_status(pinned: Option<&str>, recorded: &str, recorded_available: bool) -> (r: UpstreamStatus)
    ensures
        r == (match pinned {
            Some(p) => if !recorded_available {
                UpstreamStatus::Unknown
            } else if p@ == recorded@ {
                UpstreamStatus::UpToDate
            } else {
                UpstreamStatus::Behind
            },
            None => UpstreamStatus::Unknown,
        }),
{
    match pinned {
        Some(p) => {
            if !recorded_available {
                UpstreamStatus::Unknown
            } else if p.to_owned() == recorded.to_owned() {
                UpstreamStatus::UpToDate
            } else {
                UpstreamStatus::Behind
            }
        },
        None => UpstreamStatus::Unknown,
    }
}

/// The local side of a status report.
#[derive(Clone, Copy, Debug, PartialEq, Eq, Structural)]
pub enum LocalStatus {
    Clean,
    /// Local commits to push.
    ToPush,
    /// Changed since the last sync, with nothing to push.
    Modified,
    /// The base commit is not available.
    Unknown,
}

pub fn local_status(local: Option<&str>, base: Option<&str>, unpushed: usize) -> (r: LocalStatus)
    ensures
        r == (match (local, base) {
            (Some(l), Some(b)) => if l@ == b@ && unpushed == 0 {
                LocalStatus::Clean
            } else if unpushed > 0 {
                LocalStatus::ToPush
            } else {
                LocalStatus::Modified
            },
            _ => LocalStatus::Unknown,
        }),
{
    match (local, base) {
        (Some(l), Some(b)) => {
            if l.to_owned() == b.to_owned() && unpushed == 0 {
                LocalStatus::Clean
            } else if unpushed > 0 {
                LocalStatus::ToPush
            } else {
                LocalStatus::Modified
            }
        },
        _ => LocalStatus::Unknown,
    }
}

// --------------------------------------------------------------- diff --

/// The colour codes around a patch line of `diff`, by the line's origin:
/// additions green, deletions red, hunk headers cyan, file headers bold.
pub open spec fn spec_diff_color(origin: char) -> (Seq<char>, Seq<char>) {
    if origin == '+' {
        ("\x1b[32m"@, "\x1b[m"@)
    } else if origin == '-' {
        ("\x1b[31m"@, "\x1b[m"@)
    } else if origin == 'H' {
        ("\x1b[36m"@, "\x1b[m"@)
    } else if origin == 'F' {
        ("\x1b[1m"@, "\x1b[m"@)
    } else {
        (""@, ""@)
    }
}

/// The codes around a patch line; none when colour is off.
pub fn diff_color(origin: char, color: bool) -> (r: (&'static str, &'static str))
    ensures
        (r.0@, r.1@) == (if color { spec_diff_color(origin) } else { (""@, ""@) }),
{
    if !color {
        ("", "")
    } else if origin == '+' {
        ("\x1b[32m", "\x1b[m")
    } else if origin == '-' {
        ("\x1b[31m", "\x1b[m")
    } else if origin == 'H' {
        ("\x1b[36m", "\x1b[m")
    } else if origin == 'F' {
        ("\x1b[1m", "\x1b[m")
    } else {
        ("", "")
    }
}

/// The character printed before a patch line: context, added and removed
/// lines show their origin, headers show nothing.
pub fn diff_prefix(origin: char) -> (r: Option<char>)
    ensures
        r == (if origin == '+' || origin == '-' || origin == ' ' { Some(origin) } else { None::<char> }),
{
    if origin == '+' || origin == '-' || origin == ' ' {
        Some(origin)
    } else {
        None
    }
}

// --------------------------------------------------------------- list --

/// `outer` is a proper ancestor directory of `dir`.
pub open spec fn nests_in(dir: Seq<char>, outer: Seq<char>) -> bool {
    dir != outer && starts_with(dir, outer.push('/'))
}

/// How many of `dirs` contain `dirs[i]`.
pub open spec fn depth_prefix(dirs: Seq<Seq<char>>, d: Seq<char>, n: int) -> int
    decreases n,
{
    if n <= 0 {
        0
    } else {
        depth_prefix(dirs, d, n - 1) + if nests_in(d, dirs[n - 1]) { 1int } else { 0int }
    }
}

/// `outer` is another include whose directory contains `d`.
pub open spec fn is_ancestor_dir(d: Seq<char>, outer: Seq<char>) -> bool {
    &&& outer != d
    &&& outer.len() < d.len()
    &&& d.take(outer.len() + 1int) == outer.push('/')
}

/// Does a directory contain `d` as another include?
pub open spec fn ancestors_of(d: Seq<char>) -> spec_fn(Seq<char>) -> bool {
    |o: Seq<char>| is_ancestor_dir(d, o)
}

proof fn lemma_depth_counts(dirs: Seq<Seq<char>>, d: Seq<char>, n: int)
    requires
        0 <= n <= dirs.len(),
    ensures
        depth_prefix(dirs, d, n) == dirs.take(n).filter(ancestors_of(d)).len(),
    decreases n,
{
    if n > 0 {
        lemma_depth_counts(dirs, d, n - 1);
        assert(dirs.take(n) =~= dirs.take(n - 1).push(dirs[n - 1]));
        dirs.take(n - 1).lemma_filter_push(dirs[n - 1], ancestors_of(d));
        let o = dirs[n - 1];
        assert(nests_in(d, o) == is_ancestor_dir(d, o)) by {
            if nests_in(d, o) {
                assert(d.take(o.len() + 1int) == o.push('/'));
                if o.len() >= d.len() {
                    assert(o.push('/').len() <= d.len());
                }
            }
        }
    }
}

/// The nesting depth `list` indents an include by is the number of other
/// includes whose directory contains it: one per ancestor include.
pub proof fn lemma_depth_counts_ancestors(dirs: Seq<Seq<char>>, d: Seq<char>)
    ensures
        depth_prefix(dirs, d, dirs.len() as int) == dirs.filter(ancestors_of(d)).len(),
{
    lemma_depth_counts(dirs, d, dirs.len() as int);
    assert(dirs.take(dirs.len() as int) =~= dirs);
}

/// The nesting depth of `dirs[i]`: the number of other includes that are
/// its ancestors.
pub fn nesting_depth(dirs: &Vec<String>, i: usize) -> (r: usize)
    requires
        i < dirs@.len(),
    ensures
        r == depth_prefix(dirs@.map_values(|s: String| s@), dirs@[i as int]@, dirs@.len() as int),
        r == dirs@.map_values(|s: String| s@).filter(ancestors_of(dirs@[i as int]@)).len(),
{
    let ghost dv = dirs@.map_values(|s: String| s@);
    let d = chars_of(dirs[i].as_str());
    let mut count: usize = 0;
    let n = dirs.len();
    for k in 0..n
        invariant
            n == dirs@.len(),
            i < n,
            d@ == dirs@[i as int]@,
            dv == dirs@.map_values(|s: String| s@),
            count == depth_prefix(dv, d@, k as int),
            count <= k,
    {
        let mut o = chars_of(dirs[k].as_str());
        o.push('/');
        let nested = !(dirs[k] == dirs[i]) && matches_at(&d, &o, 0);
        proof {
            assert(dv[k as int] == dirs@[k as int]@);
            assert(d@.subrange(0, o@.len() as int) =~= d@.take(o@.len() as int));
        }
        if nested {
            count = count + 1;
        }
    }
    proof {
        lemma_depth_counts_ancestors(dv, d@);
        assert(dv.len() == n);
    }
    count
}

// ---------------------------------------------------------- includes --

/// Lexicographic order of character sequences by code point, which is the
/// byte order of their UTF-8 encodings (how `String`s sort).
pub open spec fn lex_lt(a: Seq<char>, b: Seq<char>) -> bool
    decreases a.len(),
{
    if a.len() == 0 {
        b.len() > 0
    } else if b.len() == 0 {
        false
    } else if a[0] != b[0] {
        a[0] < b[0]
    } else {
        lex_lt(a.drop_first(), b.drop_first())
    }
}

/// Where `x` goes in `sorted`: before the first element greater than it.
pub open spec fn insert_pos(sorted: Seq<Seq<char>>, x: Seq<char>, i: int) -> int
    decreases sorted.len() - i,
{
    if i < 0 || i >= sorted.len() {
        sorted.len() as int
    } else if lex_lt(x, sorted[i]) {
        i
    } else {
        insert_pos(sorted, x, i + 1)
    }
}

pub open spec fn sort_prefix(s: Seq<Seq<char>>, n: int) -> Seq<Seq<char>>
    decreases n,
{
    if n <= 0 {
        Seq::empty()
    } else {
        let prev = sort_prefix(s, n - 1);
        prev.insert(insert_pos(prev, s[n - 1], 0), s[n - 1])
    }
}

/// `s` sorted (stable insertion order for equal elements).
pub open spec fn sort_seqs(s: Seq<Seq<char>>) -> Seq<Seq<char>> {
    sort_prefix(s, s.len() as int)
}

pub open spec fn is_sorted(s: Seq<Seq<char>>) -> bool {
    forall|i: int, j: int| 0 <= i < j < s.len() ==> !lex_lt(#[trigger] s[j], #[trigger] s[i])
}

/// The directories of the `.gitrepo` markers among `paths`.
pub open spec fn marker_dirs(paths: Seq<Seq<char>>) -> Seq<Seq<char>>
    decreases paths.len(),
{
    if paths.len() == 0 {
        Seq::empty()
    } else {
        let prev = marker_dirs(paths.drop_last());
        let p = paths.last();
        if p.len() >= 9 && p.skip(p.len() - 9) == "/.gitrepo"@ {
            prev.push(p.take(p.len() - 9))
        } else {
            prev
        }
    }
}

proof fn lemma_lex_lt_transitive(a: Seq<char>, b: Seq<char>, c: Seq<char>)
    requires
        lex_lt(a, b),
        lex_lt(b, c),
    ensures
        lex_lt(a, c),
    decreases a.len(),
{
    if a.len() > 0 && b.len() > 0 && c.len() > 0 && a[0] == b[0] && b[0] == c[0] {
        lemma_lex_lt_transitive(a.drop_first(), b.drop_first(), c.drop_first());
    }
}

proof fn lemma_lex_lt_irreflexive(a: Seq<char>)
    ensures
        !lex_lt(a, a),
    decreases a.len(),
{
    if a.len() > 0 {
        lemma_lex_lt_irreflexive(a.drop_first());
    }
}

proof fn lemma_insert_pos_props(sorted: Seq<Seq<char>>, x: Seq<char>, i: int)
    requires
        0 <= i <= sorted.len(),
    ensures
        i <= insert_pos(sorted, x, i) <= sorted.len(),
        forall|k: int| i <= k < insert_pos(sorted, x, i) ==> !lex_lt(x, #[trigger] sorted[k]),
        insert_pos(sorted, x, i) < sorted.len() ==> lex_lt(x, sorted[insert_pos(sorted, x, i)]),
    decreases sorted.len() - i,
{
    if i < sorted.len() && !lex_lt(x, sorted[i]) {
        lemma_insert_pos_props(sorted, x, i + 1);
    }
}

proof fn lemma_sort_prefix_sorted(s: Seq<Seq<char>>, n: int)
    requires
        0 <= n <= s.len(),
    ensures
        is_sorted(sort_prefix(s, n)),
        sort_prefix(s, n).len() == n,
    decreases n,
{
    if n > 0 {
        lemma_sort_prefix_sorted(s, n - 1);
        let prev = sort_prefix(s, n - 1);
        let x = s[n - 1];
        let p = insert_pos(prev, x, 0);
        lemma_insert_pos_props(prev, x, 0);
        let r = prev.insert(p, x);
        assert(r.len() == n);
        assert forall|i: int, j: int| 0 <= i < j < r.len() implies !lex_lt(#[trigger] r[j], #[trigger] r[i]) by {
            if j < p {
                assert(r[i] == prev[i] && r[j] == prev[j]);
            } else if j == p {
                assert(r[j] == x && r[i] == prev[i]);
            } else if i > p {
                assert(r[i] == prev[i - 1] && r[j] == prev[j - 1]);
            } else if i == p {
                assert(r[i] == x && r[j] == prev[j - 1]);
                assert(lex_lt(x, prev[p]));
                if lex_lt(prev[j - 1], x) {
                    lemma_lex_lt_transitive(prev[j - 1], x, prev[p]);
                    if j - 1 > p {
                        assert(!lex_lt(prev[j - 1], prev[p]));
                    } else {
                        lemma_lex_lt_irreflexive(prev[p]);
                    }
                }
            } else {
                assert(r[i] == prev[i] && r[j] == prev[j - 1]);
            }
        }
    }
}

/// The sorted result is in order.
pub proof fn lemma_sort_seqs_sorted(s: Seq<Seq<char>>)
    ensures
        is_sorted(sort_seqs(s)),
        sort_seqs(s).len() == s.len(),
{
    lemma_sort_prefix_sorted(s, s.len() as int);
}

proof fn lemma_proper_prefix_lex_lt(a: Seq<char>, b: Seq<char>)
    requires
        a.len() < b.len(),
        b.take(a.len() as int) == a,
    ensures
        lex_lt(a, b),
    decreases a.len(),
{
    if a.len() > 0 {
        assert(b[0] == b.take(a.len() as int)[0]);
        assert(b.drop_first().take(a.drop_first().len() as int) =~= a.drop_first()) by {
            assert forall|k: int| 0 <= k < a.len() - 1 implies b.drop_first().take(
                a.drop_first().len() as int,
            )[k] == a.drop_first()[k] by {
                assert(b.take(a.len() as int)[k + 1] == a[k + 1]);
            }
        }
        lemma_proper_prefix_lex_lt(a.drop_first(), b.drop_first());
    }
}

/// An include nested in another sorts after it.
proof fn lemma_nested_sorts_after(d: Seq<char>, o: Seq<char>)
    requires
        nests_in(d, o),
    ensures
        lex_lt(o, d),
{
    let p = o.push('/');
    assert(d.take(o.len() as int) =~= o) by {
        assert forall|k: int| 0 <= k < o.len() implies d.take(o.len() as int)[k] == o[k] by {
            assert(d.take(p.len() as int)[k] == p[k]);
        }
    }
    lemma_proper_prefix_lex_lt(o, d);
}

/// Nested includes are listed after the include that contains them: in
/// the sorted list of include directories, every ancestor of an include
/// comes before it (so `list` can indent each under its parent).
pub proof fn lemma_nested_includes_follow_their_parent(paths: Seq<Seq<char>>)
    ensures
        forall|i: int, j: int|
            0 <= i < sort_seqs(marker_dirs(paths)).len() && 0 <= j < sort_seqs(marker_dirs(paths)).len()
                && nests_in(#[trigger] sort_seqs(marker_dirs(paths))[j], #[trigger] sort_seqs(
                marker_dirs(paths),
            )[i]) ==> i < j,
{
    let r = sort_seqs(marker_dirs(paths));
    lemma_sort_seqs_sorted(marker_dirs(paths));
    assert forall|i: int, j: int| 0 <= i < r.len() && 0 <= j < r.len() && nests_in(
        #[trigger] r[j],
        #[trigger] r[i],
    ) implies i < j by {
        lemma_nested_sorts_after(r[j], r[i]);
        if j < i {
            assert(!lex_lt(r[i], r[j]));
        }
    }
}

fn lex_lt_exec(a: &Vec<char>, b: &Vec<char>) -> (r: bool)
    ensures
        r == lex_lt(a@, b@),
{
    let mut i: usize = 0;
    assert(a@.skip(0) =~= a@);
    assert(b@.skip(0) =~= b@);
    loop
        invariant
            i <= a@.len(),
            i <= b@.len(),
            lex_lt(a@, b@) == lex_lt(a@.skip(i as int), b@.skip(i as int)),
        decreases a@.len() - i,
    {
        if i == a.len() {
            return i < b.len();
        }
        if i == b.len() {
            return false;
        }
        if a[i] != b[i] {
            return a[i] < b[i];
        }
        assert(a@.skip(i as int).drop_first() =~= a@.skip(i + 1));
        assert(b@.skip(i as int).drop_first() =~= b@.skip(i + 1));
        i = i + 1;
    }
}

pub open spec fn str_views(v: Seq<String>) -> Seq<Seq<char>> {
    v.map_values(|s: String| s@)
}

/// Sort strings (see `sort_seqs`).
fn sort_strings(v: Vec<String>) -> (r: Vec<String>)
    ensures
        str_views(r@) == sort_seqs(str_views(v@)),
{
    let ghost sv = str_views(v@);
    let mut out: Vec<String> = Vec::new();
    let n = v.len();
    for i in 0..n
        invariant
            n == v@.len(),
            sv == str_views(v@),
            str_views(out@) == sort_prefix(sv, i as int),
    {
        let x = chars_of(v[i].as_str());
        assert(sv[i as int] == v@[i as int]@);
        let ghost ov = str_views(out@);
        let mut p: usize = 0;
        while p < out.len() && !lex_lt_exec(&x, &chars_of(out[p].as_str()))
            invariant
                p <= out@.len(),
                ov == str_views(out@),
                x@ == sv[i as int],
                insert_pos(ov, x@, 0) == insert_pos(ov, x@, p as int),
            decreases out@.len() - p,
        {
            assert(ov[p as int] == out@[p as int]@);
            p = p + 1;
        }
        if p < out.len() {
            assert(ov[p as int] == out@[p as int]@);
        }
        out.insert(p, v[i].clone());
        assert(str_views(out@) =~= ov.insert(p as int, sv[i as int]));
    }
    out
}

/// The conflicted paths of a merge, in sorted (code point) order.
pub fn sorted_paths(paths: Vec<String>) -> (r: Vec<String>)
    ensures
        str_views(r@) == sort_seqs(str_views(paths@)),
        is_sorted(str_views(r@)),
{
    let r = sort_strings(paths);
    proof {
        lemma_sort_seqs_sorted(str_views(paths@));
    }
    r
}

/// The side of a conflicted entry that is kept: ours when present, else
/// theirs.
pub fn conflict_side<T>(ours: Option<T>, theirs: Option<T>) -> (r: Option<T>)
    ensures
        r == (if ours is Some { ours } else { theirs }),
{
    match ours {
        Some(o) => Some(o),
        None => theirs,
    }
}

/// The included directories: the directories of the `.gitrepo` markers
/// among the tracked `paths` (nested ones too), sorted.
pub fn include_dirs(paths: &Vec<String>) -> (r: Vec<String>)
    ensures
        str_views(r@) == sort_seqs(marker_dirs(str_views(paths@))),
        is_sorted(str_views(r@)),
{
    let ghost pv = str_views(paths@);
    let suffix = chars_of("/.gitrepo");
    proof {
        reveal_strlit("/.gitrepo");
    }
    let mut dirs: Vec<String> = Vec::new();
    let n = paths.len();
    for i in 0..n
        invariant
            n == paths@.len(),
            pv == str_views(paths@),
            suffix@ == "/.gitrepo"@,
            suffix@.len() == 9,
            str_views(dirs@) == marker_dirs(pv.take(i as int)),
    {
        let p = chars_of(paths[i].as_str());
        assert(pv.take(i + 1).drop_last() =~= pv.take(i as int));
        assert(pv[i as int] == paths@[i as int]@);
        let pl = p.len();
        if pl >= 9 && matches_at(&p, &suffix, pl - 9) {
            assert(p@.subrange(pl - 9, pl as int) =~= p@.skip(pl - 9));
            let d = copy_range(&p, 0, pl - 9);
            assert(d@ =~= p@.take(pl - 9));
            let ghost d0 = dirs@;
            dirs.push(string_of(&d));
            assert(str_views(dirs@) =~= str_views(d0).push(d@));
        } else {
            proof {
                if pl >= 9 {
                    assert(p@.subrange(pl - 9, pl as int) =~= p@.skip(pl - 9));
                }
            }
        }
    }
    assert(pv.take(n as int) =~= pv);
    let r = sort_strings(dirs);
    proof {
        lemma_sort_seqs_sorted(marker_dirs(pv));
    }
    r
}

// ------------------------------------------------------ push messages --

/// The message of a squashed push: the directory, then one line per
/// squashed host commit (abbreviated id and summary), trailing whitespace
/// removed.
pub open spec fn squash_lines(entries: Seq<(Seq<char>, Seq<char>)>) -> Seq<char>
    decreases entries.len(),
{
    if entries.len() == 0 {
        Seq::empty()
    } else {
        squash_lines(entries.drop_last()) + "  "@ + first_chars(entries.last().0, 7) + " "@
            + entries.last().1 + "\n"@
    }
}

pub open spec fn spec_squash_message(subdir: Seq<char>, entries: Seq<(Seq<char>, Seq<char>)>) -> Seq<
    char,
> {
    crate::text::trim_end(
        "git include push "@ + subdir + " (squashed)\n\nSquashed commits:\n"@ + squash_lines(entries),
    )
}

/// `entries` are (host commit, summary) pairs.
pub fn squash_message(subdir: &str, entries: &Vec<(String, String)>) -> (r: String)
    ensures
        r@ == spec_squash_message(subdir@, crate::git::pair_views(entries@)),
{
    let ghost ev = crate::git::pair_views(entries@);
    let mut m = "git include push ".to_owned();
    m.append(subdir);
    m.append(" (squashed)\n\nSquashed commits:\n");
    let ghost head = m@;
    let n = entries.len();
    for i in 0..n
        invariant
            n == entries@.len(),
            ev == crate::git::pair_views(entries@),
            m@ == head + squash_lines(ev.take(i as int)),
    {
        assert(ev.take(i + 1).drop_last() =~= ev.take(i as int));
        assert(ev[i as int] == (entries@[i as int].0@, entries@[i as int].1@));
        m.append("  ");
        let sh = first_chars_exec(entries[i].0.as_str(), 7);
        m.append(sh.as_str());
        m.append(" ");
        m.append(entries[i].1.as_str());
        m.append("\n");
    }
    assert(ev.take(n as int) =~= ev);
    let v = chars_of(m.as_str());
    let (a, b) = crate::text::trim_bounds(&v, 0, v.len());
    proof {
        reveal_strlit("git include push ");
        assert(v@[0] == 'g');
        assert(v@.subrange(0, v@.len() as int) =~= v@);
        crate::text::lemma_trim_start_of_trimmed(v@);
    }
    let t = crate::text::copy_range(&v, a, b);
    string_of(&t)
}

/// The message of the commit that reconciles drift after a replayed push.
pub fn reconcile_message(subdir: &str) -> (r: String)
    ensures
        r@ == "git include push "@ + subdir@ + "\n\nReconcile local content."@,
{
    let mut m = "git include push ".to_owned();
    m.append(subdir);
    m.append("\n\nReconcile local content.");
    m
}

} // verus!
