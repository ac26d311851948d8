use git_include::selfupdate::{
    asset_name, expected_hash, extract_json_string, is_current, latest_release_url, release_file_url,
    release_tag, run, tag_version, target_triple, verify_sha256, ChecksumError,
};

#[test]
fn finds_asset_hashes_in_sha256sums() {
    let sums = "aaaa  git-include-x86_64-unknown-linux-gnu\n\
                bbbb *git-include-x86_64-pc-windows-msvc.exe\n";
    assert_eq!(
        expected_hash(sums, "git-include-x86_64-unknown-linux-gnu"),
        Some("aaaa")
    );
    assert_eq!(
        expected_hash(sums, "git-include-x86_64-pc-windows-msvc.exe"),
        Some("bbbb")
    );
    assert_eq!(expected_hash(sums, "other"), None);
}

#[test]
fn extracts_tag_name_from_release_json() {
    let json = r#"{"url": "x", "tag_name": "v0.2.0", "name": "git-include 0.2.0"}"#;
    assert_eq!(
        extract_json_string(json, "tag_name").as_deref(),
        Some("v0.2.0")
    );
}

#[test]
fn tolerates_whitespace_and_missing_keys() {
    assert_eq!(
        extract_json_string("{ \"tag_name\" :  \"v1\" }", "tag_name").as_deref(),
        Some("v1")
    );
    assert_eq!(extract_json_string("{}", "tag_name"), None);
}

// SHA-256 of "abc".
const ABC_SHA256: &str = "ba7816bf8f01cfea414140de5dae2223b00361a396177a9cb410ff61f20015ad";

#[test]
fn checksum_of_a_download_is_compared_with_the_manifest() {
    let sums = format!("{ABC_SHA256}  git-include-x86_64-unknown-linux-gnu\n");
    assert_eq!(verify_sha256(b"abc", &sums, "git-include-x86_64-unknown-linux-gnu"), Ok(()));
    let upper = ABC_SHA256.to_uppercase();
    let sums_upper = format!("{upper} *tool\n");
    assert_eq!(verify_sha256(b"abc", &sums_upper, "tool"), Ok(()));
}

#[test]
fn checksum_mismatch_reports_both_digests() {
    let sums = "0000  tool\n";
    assert_eq!(
        verify_sha256(b"abc", sums, "tool"),
        Err(ChecksumError::Mismatch { expected: "0000".to_string(), actual: ABC_SHA256.to_string() })
    );
    assert_eq!(verify_sha256(b"abc", sums, "other"), Err(ChecksumError::NoEntry));
    assert_eq!(ChecksumError::NoEntry.message("other"), "SHA256SUMS has no entry for other");
}

#[test]
fn release_names_and_urls() {
    assert_eq!(tag_version("v0.2.0"), "0.2.0");
    assert_eq!(release_tag("0.2.0"), "v0.2.0");
    assert_eq!(release_tag("v0.2.0"), "v0.2.0");
    assert!(is_current("v0.1.0", "0.1.0"));
    assert!(!is_current("v0.2.0", "0.1.0"));
    assert_eq!(asset_name("x86_64-pc-windows-msvc", true), "git-include-x86_64-pc-windows-msvc.exe");
    assert_eq!(asset_name("aarch64-apple-darwin", false), "git-include-aarch64-apple-darwin");
    assert_eq!(
        release_file_url("v0.2.0", "SHA256SUMS"),
        "https://github.com/flova/git-include/releases/download/v0.2.0/SHA256SUMS"
    );
    assert_eq!(latest_release_url(), "https://api.github.com/repos/flova/git-include/releases/latest");
}

#[test]
fn package_manager_builds_refuse_to_update_themselves() {
    let err = run(None, false).unwrap_err();
    assert!(err.starts_with("this git-include build was installed through a package manager"));
    assert!(run(Some("v0.2.0"), true).is_err());
}

#[test]
fn release_assets_per_platform() {
    assert_eq!(target_triple("linux", "x86_64", false), Some("x86_64-unknown-linux-gnu"));
    assert_eq!(target_triple("linux", "x86_64", true), Some("x86_64-unknown-linux-gnu-portable"));
    assert_eq!(target_triple("linux", "aarch64", true), Some("aarch64-unknown-linux-gnu-portable"));
    assert_eq!(target_triple("macos", "aarch64", false), Some("aarch64-apple-darwin"));
    assert_eq!(target_triple("macos", "x86_64", false), None);
    assert_eq!(target_triple("windows", "x86_64", true), Some("x86_64-pc-windows-msvc"));
    assert_eq!(target_triple("windows", "aarch64", false), Some("aarch64-pc-windows-msvc"));
    assert_eq!(target_triple("freebsd", "x86_64", false), None);
}
