use git_include::gitrepo::{validate_subdir, GitRepoFile, MarkerError, SubdirError, MARKER_FILE, VERSION};

#[test]
fn roundtrip() {
    let f = GitRepoFile::new(
        "https://example.com/repo.git",
        "main",
        "0123456789abcdef0123456789abcdef01234567",
        Some("fedcba9876543210fedcba9876543210fedcba98"),
    );
    let parsed = GitRepoFile::parse(&f.serialize()).unwrap();
    assert_eq!(f, parsed);
}

#[test]
fn parses_git_subrepo_output() {
    // Verbatim output of git-subrepo 0.4.9.
    let input = "; DO NOT EDIT (unless you know what you are doing)\n\
         ;\n\
         ; This subdirectory is a git \"subrepo\", and this file is maintained by the\n\
         ; git-subrepo command. See https://github.com/ingydotnet/git-subrepo#readme\n\
         ;\n\
         [subrepo]\n\
         \tremote = https://github.com/user/lib.git\n\
         \tbranch = master\n\
         \tcommit = 2f3b8a9c1d0e5f6a7b8c9d0e1f2a3b4c5d6e7f8a\n\
         \tparent = 9a8b7c6d5e4f3a2b1c0d9e8f7a6b5c4d3e2f1a0b\n\
         \tmethod = merge\n\
         \tcmdver = 0.4.9\n";
    let f = GitRepoFile::parse(input).unwrap();
    assert_eq!(f.remote, "https://github.com/user/lib.git");
    assert_eq!(f.branch, "master");
    assert_eq!(f.commit, "2f3b8a9c1d0e5f6a7b8c9d0e1f2a3b4c5d6e7f8a");
    assert_eq!(
        f.parent.as_deref(),
        Some("9a8b7c6d5e4f3a2b1c0d9e8f7a6b5c4d3e2f1a0b")
    );
    assert_eq!(f.method, "merge");
    assert_eq!(f.cmdver, "0.4.9");
}

#[test]
fn lenient_parsing() {
    // Spaces instead of tabs, missing optional keys, extra unknown keys.
    let input = "[subrepo]\n  remote=x\n  branch=dev\n  commit=abc\n  future-key = 1\n";
    let f = GitRepoFile::parse(input).unwrap();
    assert_eq!(f.remote, "x");
    assert_eq!(f.branch, "dev");
    assert_eq!(f.commit, "abc");
    assert_eq!(f.parent, None);
    assert_eq!(f.method, "merge");
}

#[test]
fn rejects_bad_subdirs() {
    assert!(validate_subdir("").is_err());
    assert!(validate_subdir(".").is_err());
    assert!(validate_subdir("/abs").is_err());
    assert!(validate_subdir("a/../b").is_err());
    assert!(validate_subdir("vendor/lib").is_ok());
}

#[test]
fn new_marker_records_this_version_and_merge_method() {
    let f = GitRepoFile::new("u", "b", "c", None);
    assert_eq!(f.method, "merge");
    assert_eq!(f.cmdver, VERSION);
    assert_eq!(f.parent, None);
    assert_eq!(MARKER_FILE, ".gitrepo");
}

#[test]
fn serialized_marker_has_git_subrepo_layout() {
    let f = GitRepoFile::new("https://x/y.git", "main", "abc", Some("def"));
    let text = f.serialize();
    assert!(text.contains("[subrepo]\n"));
    assert!(text.contains("\tremote = https://x/y.git\n"));
    assert!(text.contains("\tbranch = main\n"));
    assert!(text.contains("\tcommit = abc\n"));
    assert!(text.contains("\tparent = def\n"));
    assert!(text.contains("\tmethod = merge\n"));
    assert!(text.contains("\tcmdver = 0.1.0\n"));
}

#[test]
fn marker_without_parent_roundtrips() {
    let f = GitRepoFile::new("r", "dev", "0123456", None);
    let text = f.serialize();
    assert!(!text.contains("parent"));
    assert_eq!(GitRepoFile::parse(&text).unwrap(), f);
}

#[test]
fn missing_keys_are_reported_in_order() {
    assert_eq!(
        GitRepoFile::parse("[subrepo]\n\tbranch = b\n\tcommit = c\n"),
        Err(MarkerError::MissingRemote)
    );
    assert_eq!(
        GitRepoFile::parse("[subrepo]\n\tremote = r\n\tcommit = c\n"),
        Err(MarkerError::MissingBranch)
    );
    assert_eq!(
        GitRepoFile::parse("[subrepo]\n\tremote = r\n\tbranch = b\n"),
        Err(MarkerError::MissingCommit)
    );
    assert_eq!(
        MarkerError::MissingCommit.message(),
        "marker file has no 'commit' key in [subrepo] section"
    );
}

#[test]
fn keys_outside_the_subrepo_section_are_ignored() {
    let input = "[other]\n\tremote = wrong\n[subrepo]\n\tremote = right\n\tbranch = b\n\tcommit = c\n";
    let f = GitRepoFile::parse(input).unwrap();
    assert_eq!(f.remote, "right");
    assert!(GitRepoFile::parse("remote = r\nbranch = b\ncommit = c\n").is_err());
}

#[test]
fn subdir_errors_name_their_cause() {
    assert_eq!(validate_subdir(""), Err(SubdirError::RepositoryRoot));
    assert_eq!(validate_subdir("."), Err(SubdirError::RepositoryRoot));
    assert_eq!(validate_subdir("/abs"), Err(SubdirError::NotRelative));
    assert_eq!(validate_subdir("../up"), Err(SubdirError::NotRelative));
    assert_eq!(validate_subdir("lib/./x"), Ok(()));
    assert_eq!(
        SubdirError::NotRelative.message("a/../b"),
        "subdirectory must be a relative path inside the repository (got 'a/../b')"
    );
}

#[test]
fn empty_or_none_parent_counts_as_absent() {
    let a = GitRepoFile::parse("[subrepo]\n\tremote = r\n\tbranch = b\n\tcommit = c\n\tparent = none\n").unwrap();
    assert_eq!(a.parent, None);
    let b = GitRepoFile::parse("[subrepo]\n\tremote = r\n\tbranch = b\n\tcommit = c\n\tparent =\n").unwrap();
    assert_eq!(b.parent, None);
    assert_eq!(b.cmdver, "");
}
