use git_include::lfs::{attributes_use_lfs, cli_remote, is_attributes_file, lfs_gate, remote_safe_for_cli, LfsGate};

#[test]
fn remotes_handed_to_the_cli_are_screened() {
    assert!(remote_safe_for_cli("https://x/y.git"));
    assert!(remote_safe_for_cli("git@host:me/repo.git"));
    assert!(!remote_safe_for_cli("-uhttps://evil"));
    assert!(!remote_safe_for_cli("ext::sh -c touch% /tmp/pwned"));
}

#[test]
fn lfs_is_detected_from_attributes() {
    assert!(attributes_use_lfs("*.bin filter=lfs diff=lfs merge=lfs -text\n"));
    assert!(!attributes_use_lfs("*.txt text\n"));
    assert!(is_attributes_file(".gitattributes"));
    assert!(!is_attributes_file("gitattributes"));
}

#[test]
fn lfs_gate_decisions() {
    assert_eq!(lfs_gate(true, true, "https://x"), LfsGate::Skip);
    assert_eq!(lfs_gate(false, false, "https://x"), LfsGate::Skip);
    assert_eq!(lfs_gate(false, true, "ext::x"), LfsGate::UnsafeRemote);
    assert_eq!(lfs_gate(false, true, "https://x"), LfsGate::Proceed);
}

// A path that is not an existing directory has no canonical directory
// to hand over, so it is passed as `None`.
#[test]
fn urls_and_nonexistent_paths_pass_through() {
    assert_eq!(cli_remote("https://x/y.git", None), "https://x/y.git");
    assert_eq!(cli_remote("git@host:me/repo.git", None), "git@host:me/repo.git");
    assert_eq!(cli_remote("/does/not/exist", None), "/does/not/exist");
}

#[test]
fn canonical_local_directories_become_file_urls() {
    assert_eq!(cli_remote("https://x/y.git", Some("/ignored")), "https://x/y.git");
    assert_eq!(cli_remote("../up", Some("/srv/up")), "file:///srv/up");
    assert_eq!(cli_remote("up", Some("//?/C:\\repos\\up")), "file:///C:/repos/up");
}
