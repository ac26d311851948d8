use git_include::util::{pin_ref, relative_subdir, short, RelativeError};

#[test]
fn pin_refs_are_valid_and_stable() {
    assert_eq!(pin_ref("vendor/lib"), "refs/include/vendor--lib");
    assert_eq!(pin_ref("with space"), "refs/include/with-space");
    assert_eq!(pin_ref("weird~^:name"), "refs/include/weird---name");
    assert_eq!(
        pin_ref("/leading/trailing/"),
        "refs/include/leading--trailing"
    );
    assert_eq!(pin_ref(".hidden"), "refs/include/-.hidden");
    assert_eq!(pin_ref("foo.lock"), "refs/include/foo.lock-");
    assert_eq!(pin_ref("a..b"), "refs/include/a-.b");
}

#[test]
fn nested_include_pins_do_not_collide_with_their_parent() {
    // "refs/include/a" as a loose ref would block "refs/include/a/b"
    // from ever being created; the flattened names have no hierarchy.
    let outer = pin_ref("libs/b");
    let nested = pin_ref("libs/b/vendor/c");
    assert!(!nested.starts_with(&format!("{outer}/")));
}

#[test]
fn short_truncates_but_never_panics() {
    assert_eq!(short("0123456789abcdef"), "0123456");
    assert_eq!(short("abc"), "abc");
    assert_eq!(short(""), "");
}

#[test]
fn pin_names_never_hold_a_slash_or_double_dot() {
    for subdir in ["a//b", "x/../y", "...", "a.lock/", "deep/ly/nested/dir", "trailing."] {
        let name = pin_ref(subdir);
        let rest = name.strip_prefix("refs/include/").unwrap();
        assert!(!rest.contains('/'), "{rest}");
        assert!(!rest.contains(".."), "{rest}");
        assert!(!rest.starts_with('.'), "{rest}");
        assert!(!rest.ends_with('.') && !rest.ends_with(".lock"), "{rest}");
    }
    assert_eq!(pin_ref("trailing."), "refs/include/trailing.-");
    assert_eq!(pin_ref("a//b"), "refs/include/a--b");
}

#[test]
fn relative_paths_resolve_against_the_current_directory() {
    assert_eq!(relative_subdir("/repo", "/repo", "vendor/lib"), Ok("vendor/lib".to_string()));
    assert_eq!(relative_subdir("/repo/vendor", "/repo", "lib/"), Ok("vendor/lib".to_string()));
    assert_eq!(relative_subdir("/repo/a/b", "/repo", "../c/./d"), Ok("a/c/d".to_string()));
    assert_eq!(relative_subdir("/elsewhere", "/repo", "/repo/x"), Ok("x".to_string()));
}

#[test]
fn paths_outside_or_at_the_root_are_refused() {
    assert_eq!(relative_subdir("/repo", "/repo", ".."), Err(RelativeError::OutsideRepository));
    assert_eq!(relative_subdir("/other", "/repo", "x"), Err(RelativeError::OutsideRepository));
    assert_eq!(relative_subdir("/repo/sub", "/repo", ".."), Err(RelativeError::RepositoryRoot));
    assert_eq!(relative_subdir("/repo", "/repo", "."), Err(RelativeError::RepositoryRoot));
    assert_eq!(
        RelativeError::OutsideRepository.message("..", "/repo"),
        "'..' is outside the git repository at /repo"
    );
    assert_eq!(
        RelativeError::RepositoryRoot.message(".", "/repo"),
        "subdirectory must not be the repository root"
    );
}

#[test]
fn naming_a_directory_from_a_subdirectory_matches_naming_it_from_above() {
    assert_eq!(
        relative_subdir("/repo/vendor", "/repo", "lib"),
        relative_subdir("/repo", "/repo", "vendor/lib")
    );
    assert_eq!(
        relative_subdir("/repo/a/b", "/repo", "../c"),
        relative_subdir("/repo/a", "/repo", "b/../c")
    );
    assert_eq!(
        relative_subdir("/somewhere", "/repo", "/repo/x"),
        relative_subdir("/repo/deep/down", "/repo", "/repo/x")
    );
}
