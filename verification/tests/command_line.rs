use git_include::cli::{requested_rev, runs_outside_repository, Cli, Command, CompletionShell};
use git_include::git::RevKind;

#[test]
fn completions_and_self_update_need_no_repository() {
    assert!(runs_outside_repository(&Command::Completions { shell: CompletionShell::Bash }));
    assert!(runs_outside_repository(&Command::SelfUpdate { version: None, dry_run: true }));
    assert!(!runs_outside_repository(&Command::List));
    assert!(!runs_outside_repository(&Command::Migrate { paths: Vec::new(), message: None, no_lfs: false }));
    let cli = Cli { command: Command::Status { subdir: None, fetch: false } };
    assert!(!runs_outside_repository(&cli.command));
}

#[test]
fn revision_flags_select_the_kind() {
    assert_eq!(requested_rev(Some("dev"), None, None), Some(("dev", RevKind::Branch)));
    assert_eq!(requested_rev(None, Some("v1.0"), None), Some(("v1.0", RevKind::Tag)));
    assert_eq!(requested_rev(None, None, Some("abc1234")), Some(("abc1234", RevKind::Commit)));
    assert_eq!(requested_rev(None, None, None), None);
    assert_eq!(requested_rev(Some("b"), Some("t"), None), Some(("b", RevKind::Branch)));
}
