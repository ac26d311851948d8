//! The command line of `git include`: the parsed command and its
//! arguments, and the decisions taken on them before any repository is
//! opened. Paths are carried as the strings the user typed.

use vstd::prelude::*;

use crate::git::RevKind;

verus! {

/// A parsed `git include` invocation.
pub struct Cli {
    pub command: Command,
}

/// The subcommands of `git include` with their arguments.
pub enum Command {
    /// Include an upstream repository as a subdirectory.
    Add {
        remote: String,
        subdir: String,
        branch: Option<String>,
        tag: Option<String>,
        commit: Option<String>,
        message: Option<String>,
        no_lfs: bool,
    },
    /// Merge new upstream commits into an included directory.
    Pull {
        subdir: Option<String>,
        all: bool,
        remote: Option<String>,
        force: bool,
        message: Option<String>,
        no_lfs: bool,
    },
    /// Send local commits of an included directory to its upstream.
    Push {
        subdir: String,
        dry_run: bool,
        branch: Option<String>,
        remote: Option<String>,
        keep: bool,
        squash: bool,
        message: Option<String>,
        no_lfs: bool,
    },
    /// Turn an existing directory into a new included repository.
    Init {
        subdir: String,
        remote: String,
        branch: Option<String>,
        message: Option<String>,
    },
    /// Show sync state of included repositories.
    Status { subdir: Option<String>, fetch: bool },
    /// Diff an included directory against its upstream.
    Diff { subdir: String, upstream: bool, fetch: bool, stat: bool },
    /// Switch an included directory to another branch, tag, or commit.
    Switch {
        subdir: String,
        rev: String,
        remote: Option<String>,
        force: bool,
        message: Option<String>,
        no_lfs: bool,
    },
    /// List the upstream branches and tags of an included repository.
    Branches { subdir: String },
    /// Show or change the upstream remote of an included directory.
    Remote { subdir: String, url: Option<String>, message: Option<String> },
    /// List all included repositories.
    List,
    /// Remove an included directory.
    Remove { subdir: String, message: Option<String> },
    /// Convert git submodules into included repositories, in place.
    Migrate { paths: Vec<String>, message: Option<String>, no_lfs: bool },
    /// Generate shell tab-completion scripts.
    Completions { shell: CompletionShell },
    /// Update git-include itself to the latest release.
    SelfUpdate { version: Option<String>, dry_run: bool },
}

/// The shells completion scripts can be generated for.
#[derive(Clone, Copy, Debug, PartialEq, Eq, Structural)]
pub enum CompletionShell {
    Bash,
    Zsh,
    Fish,
    Elvish,
    Powershell,
}

/// Does this command run without a repository? Completions must work
/// anywhere, and so must updating the tool itself.
pub open spec fn spec_runs_outside_repository(c: Command) -> bool {
    c is Completions || c is SelfUpdate
}

pub fn runs_outside_repository(c: &Command) -> (r: bool)
    ensures
        r == spec_runs_outside_repository(*c),
{
    match c {
        Command::Completions { .. } => true,
        Command::SelfUpdate { .. } => true,
        _ => false,
    }
}

/// The revision the `--branch`/`--tag`/`--commit` flags ask for, with the
/// kind it must have; none when no flag was given (the remote's default
/// branch is then used). The flags exclude each other; were several
/// given, `--branch` wins over `--tag`, which wins over `--commit`.
pub open spec fn spec_requested_rev(
    branch: Option<Seq<char>>,
    tag: Option<Seq<char>>,
    commit: Option<Seq<char>>,
) -> Option<(Seq<char>, RevKind)> {
    match branch {
        Some(b) => Some((b, RevKind::Branch)),
        None => match tag {
            Some(t) => Some((t, RevKind::Tag)),
            None => match commit {
                Some(c) => Some((c, RevKind::Commit)),
                None => None,
            },
        },
    }
}

pub open spec fn opt_view(o: Option<&str>) -> Option<Seq<char>> {
    match o {
        Some(s) => Some(s@),
        None => None,
    }
}

pub fn requested_rev<'a>(branch: Option<&'a str>, tag: Option<&'a str>, commit: Option<&'a str>) -> (r:
    Option<(&'a str, RevKind)>)
    ensures
        match r {
            Some((s, k)) => spec_requested_rev(opt_view(branch), opt_view(tag), opt_view(commit))
                == Some((s@, k)),
            None => spec_requested_rev(opt_view(branch), opt_view(tag), opt_view(commit)) is None,
        },
{
    match branch {
        Some(b) => Some((b, RevKind::Branch)),
        None => match tag {
            Some(t) => Some((t, RevKind::Tag)),
            None => match commit {
                Some(c) => Some((c, RevKind::Commit)),
                None => None,
            },
        },
    }
}

} // verus!
