use git_include::git::{
    branch_of_head_ref, branch_refspec, choose_credential, commit_refspec, fetch_failure_message,
    is_scan_ref, looks_like_oid, needs_scan, peel_to_commit, peel_to_tree, plan_fetch, rev_known, scan_refspecs,
    tag_refspec, CredentialChoice, FetchPlan, RemoteRefs, RevKind,
};

fn pair(a: &str, b: &str) -> (String, String) {
    (a.to_string(), b.to_string())
}

fn sample_refs() -> RemoteRefs {
    RemoteRefs::from_advertised(&vec![
        pair("h0", "HEAD"),
        pair("m1", "refs/heads/main"),
        pair("d1", "refs/heads/dev"),
        pair("t0", "refs/tags/v1"),
        pair("c1", "refs/tags/v1^{}"),
        pair("l2", "refs/tags/light"),
        pair("p3", "refs/pull/1/head"),
    ])
}

#[test]
fn advertised_heads_are_classified_and_tags_peeled() {
    let refs = sample_refs();
    assert_eq!(refs.branches, vec![pair("m1", "main"), pair("d1", "dev")]);
    assert_eq!(refs.tags, vec![pair("c1", "v1"), pair("l2", "light")]);
    assert!(refs.has_branch("dev"));
    assert!(!refs.has_branch("v1"));
    assert!(refs.has_tag("light"));
}

#[test]
fn peeled_entry_without_plain_tag_is_added() {
    let refs = RemoteRefs::from_advertised(&vec![pair("c9", "refs/tags/only^{}")]);
    assert_eq!(refs.tags, vec![pair("c9", "only")]);
    assert!(refs.branches.is_empty());
}

#[test]
fn revision_kinds_have_labels() {
    assert_eq!(RevKind::Branch.label(), "branch");
    assert_eq!(RevKind::Tag.label(), "tag");
    assert_eq!(RevKind::Commit.label(), "commit");
}

#[test]
fn commit_ids_are_recognized() {
    assert!(looks_like_oid("0123456"));
    assert!(looks_like_oid("0123456789abcdef0123456789ABCDEF01234567"));
    assert!(!looks_like_oid("012345"));
    assert!(!looks_like_oid("0123456789abcdef0123456789abcdef012345678"));
    assert!(!looks_like_oid("main123"));
}

#[test]
fn fetch_plan_prefers_branch_then_tag_then_commit() {
    let refs = sample_refs();
    assert_eq!(plan_fetch(&refs, "main", None), FetchPlan::Branch);
    assert_eq!(plan_fetch(&refs, "v1", None), FetchPlan::Tag);
    assert_eq!(plan_fetch(&refs, "main", Some(RevKind::Tag)), FetchPlan::NotFound);
    assert_eq!(plan_fetch(&refs, "abcdef0", None), FetchPlan::Commit { direct: false });
    assert_eq!(
        plan_fetch(&refs, "0123456789abcdef0123456789abcdef01234567", Some(RevKind::Commit)),
        FetchPlan::Commit { direct: true }
    );
    assert_eq!(plan_fetch(&refs, "abcdef0", Some(RevKind::Branch)), FetchPlan::NotFound);
    assert_eq!(plan_fetch(&refs, "nothing", None), FetchPlan::NotFound);
}

#[test]
fn refspecs_and_revision_expressions() {
    assert_eq!(branch_refspec("main", "refs/include/lib"), "+refs/heads/main:refs/include/lib");
    assert_eq!(tag_refspec("v1", "refs/include/lib"), "+refs/tags/v1:refs/include/lib");
    assert_eq!(commit_refspec("abc", "refs/include/lib"), "+abc:refs/include/lib");
    assert_eq!(peel_to_commit("refs/include/lib"), "refs/include/lib^{commit}");
    assert_eq!(peel_to_tree("abc"), "abc^{tree}");
    assert_eq!(
        scan_refspecs(),
        vec!["+refs/heads/*:refs/include/scan/heads/*", "+refs/tags/*:refs/include/scan/tags/*"]
    );
    assert!(is_scan_ref("refs/include/scan/heads/main"));
    assert!(!is_scan_ref("refs/include/vendor--lib"));
}

#[test]
fn fetch_failures_name_the_wanted_kind() {
    assert_eq!(
        fetch_failure_message("x", "https://r", Some(RevKind::Tag)),
        "'x' is not a tag on https://r"
    );
    assert_eq!(
        fetch_failure_message("x", "https://r", None),
        "'x' is not a branch, tag, or commit on https://r"
    );
}

#[test]
fn default_branch_from_symbolic_head() {
    assert_eq!(branch_of_head_ref("refs/heads/trunk"), Some("trunk".to_string()));
    assert_eq!(branch_of_head_ref("refs/tags/v1"), None);
}

#[test]
fn known_revisions() {
    let refs = sample_refs();
    assert!(rev_known(&refs, "dev"));
    assert!(rev_known(&refs, "light"));
    assert!(rev_known(&refs, "deadbeef"));
    assert!(!rev_known(&refs, "gone"));
}

#[test]
fn credential_chain_order() {
    assert_eq!(choose_credential(true, true, true, true), CredentialChoice::Username);
    assert_eq!(choose_credential(false, true, true, true), CredentialChoice::SshAgent);
    assert_eq!(choose_credential(false, false, true, true), CredentialChoice::Helper);
    assert_eq!(choose_credential(false, false, true, false), CredentialChoice::Default);
    assert_eq!(choose_credential(false, false, false, true), CredentialChoice::Default);
}

#[test]
fn commit_fetch_falls_back_to_a_scan() {
    assert!(needs_scan(false, false));
    assert!(!needs_scan(true, false));
    assert!(!needs_scan(false, true));
    assert!(!needs_scan(true, true));
}
