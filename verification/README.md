# git-include

`git include` vendors external git repositories as plain files in a
subdirectory, with two-way sync: `pull` merges upstream work in, `push`
rebuilds upstream history from the host commits that touched the
directory. A `.gitrepo` marker (git-subrepo's format) records where the
files came from.

## Layout

- `src/` — the library, verified with Verus. Every public function states
  its result in `ensures`; the properties that span functions are public
  proof functions.
  - `gitrepo.rs` — the `.gitrepo` marker: parsing, writing (with the
    write-then-read law), subdirectory validation.
  - `template.rs` — `{{ variable }}` substitution in commit messages.
  - `util.rs` — pin ref names (valid, never nested), commit abbreviation,
    repository-relative directory arguments.
  - `git.rs` — revision kinds, classification of advertised remote heads,
    fetch plans, refspecs, credential choice.
  - `replay.rs` — the push planner that maps host commits to the rebuilt
    upstream history.
  - `ops.rs` — the decisions of the commands: targets, merges, markers
    after a sync or push, push refusals, status, include listing,
    messages.
  - `migrate.rs` — `.gitmodules` reading and rewriting.
  - `lfs.rs` — when and how the git-lfs CLI is used.
  - `selfupdate.rs` — release names, URLs and the SHA-256 check.
  - `cli.rs` — the parsed command line.
  - `text.rs` — character-sequence helpers and their lemmas.
- `app/` — the `git-include` program: argument parsing with clap, repository
  access with libgit2 (`git2`), the git-lfs and curl processes, and output.
  The decisions of the commands (what to fetch, how to merge, what a
  marker records, when to refuse, how a sync or push ends) come from the
  library; `app/` performs them.
- `tests/` — tests of the library on concrete values.
