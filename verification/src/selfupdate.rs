//! `git include self-update`: the parts of replacing the running binary
//! with a GitHub release that do not touch the network or the disk.
//!
//! Release assets are plain executables named
//! `git-include-<target-triple>[.exe]`, verified against the release's
//! SHA256SUMS file before installation.

use sha2::Digest;
use vstd::prelude::*;
use vstd::string::StrSliceExecFns;

use crate::text::{
    chars_eq, chars_of, copy_range, find_char_exec, find_char_from, find_from, find_from_exec,
    is_whitespace, is_ws, lemma_find_char_from_props, lemma_find_from_props, line_ranges, lines,
    string_of, trim, trim_start, trimmed,
};

verus! {

broadcast use vstd::string::group_string_axioms;

/// The repository releases are published from.
pub const REPO: &'static str = "flova/git-include";

// ------------------------------------------------------------- JSON --

/// The value of a top-level `"key": "value"` pair of a JSON document:
/// after the first occurrence of `"key"`, optional whitespace, a colon,
/// optional whitespace and a quote, everything up to the next quote.
pub open spec fn spec_extract_json_string(json: Seq<char>, key: Seq<char>) -> Option<Seq<char>> {
    let needle = seq!['"'] + key + seq!['"'];
    match find_from(json, needle, 0) {
        None => None,
        Some(i) => {
            let rest = trim_start(json.skip(i + needle.len()));
            if rest.len() > 0 && rest[0] == ':' {
                let rest = trim_start(rest.drop_first());
                if rest.len() > 0 && rest[0] == '"' {
                    let rest = rest.drop_first();
                    match find_char_from(rest, '"', 0) {
                        Some(j) => Some(rest.take(j)),
                        None => None,
                    }
                } else {
                    None
                }
            } else {
                None
            }
        },
    }
}

/// Minimal extraction of a top-level `"key": "value"` pair from a JSON
/// document, enough for the releases API.
pub fn extract_json_string(json: &str, key: &str) -> (r: Option<String>)
    ensures
        match r {
            Some(v) => spec_extract_json_string(json@, key@) == Some(v@),
            None => spec_extract_json_string(json@, key@) is None,
        },
{
    let j = chars_of(json);
    let mut needle: Vec<char> = Vec::new();
    needle.push('"');
    let mut k = chars_of(key);
    needle.append(&mut k);
    needle.push('"');
    assert(needle@ =~= seq!['"'] + key@ + seq!['"']);
    let i = match find_from_exec(&j, &needle, 0) {
        Some(i) => i,
        None => return None,
    };
    proof {
        lemma_find_from_props(j@, needle@, 0);
    }
    let jl = j.len();
    assert(i + needle@.len() <= j@.len());
    let start = i + needle.len();
    let a = skip_ws(&j, start);
    if !(a < jl && j[a] == ':') {
        return None;
    }
    assert(j@.skip(a as int).drop_first() =~= j@.skip(a + 1));
    let c = skip_ws(&j, a + 1);
    if !(c < jl && j[c] == '"') {
        return None;
    }
    let rest = copy_range(&j, c + 1, j.len());
    assert(rest@ =~= j@.skip(c as int).drop_first());
    match find_char_exec(&rest, '"', 0) {
        Some(e) => {
            proof {
                lemma_find_char_from_props(rest@, '"', 0);
            }
            let v = copy_range(&rest, 0, e);
            assert(v@ =~= rest@.take(e as int));
            Some(string_of(&v))
        },
        None => None,
    }
}

/// The first index at or after `from` that is not whitespace (or the end).
fn skip_ws(v: &Vec<char>, from: usize) -> (r: usize)
    requires
        from <= v@.len(),
    ensures
        from <= r <= v@.len(),
        v@.skip(r as int) == trim_start(v@.skip(from as int)),
{
    let mut a = from;
    while a < v.len() && is_whitespace(v[a])
        invariant
            from <= a <= v@.len(),
            trim_start(v@.skip(from as int)) == trim_start(v@.skip(a as int)),
        decreases v@.len() - a,
    {
        assert(v@.skip(a as int).drop_first() =~= v@.skip(a + 1));
        a = a + 1;
    }
    a
}

// --------------------------------------------------------- checksums --

/// `s` without its leading `*`s (`trim_start_matches('*')`).
pub open spec fn strip_stars(s: Seq<char>) -> Seq<char>
    decreases s.len(),
{
    if s.len() > 0 && s[0] == '*' {
        strip_stars(s.drop_first())
    } else {
        s
    }
}

/// The first whitespace character of `s` at or after `i`.
pub open spec fn first_ws_from(s: Seq<char>, i: int) -> Option<int>
    decreases s.len() - i,
{
    if i < 0 || i >= s.len() {
        None
    } else if is_ws(s[i]) {
        Some(i)
    } else {
        first_ws_from(s, i + 1)
    }
}

/// A line of a `sha256sum` manifest: the hash before the first
/// whitespace, and the file name after it (trimmed, without the `*` of
/// binary mode).
pub open spec fn sums_entry(line: Seq<char>) -> Option<(Seq<char>, Seq<char>)> {
    match first_ws_from(line, 0) {
        Some(k) => Some((line.take(k), strip_stars(trim(line.skip(k + 1))))),
        None => None,
    }
}

/// The hash of the first line of `ls` from index `i` on that names `asset`.
pub open spec fn hash_in_lines(ls: Seq<Seq<char>>, asset: Seq<char>, i: int) -> Option<Seq<char>>
    decreases ls.len() - i,
{
    if i < 0 || i >= ls.len() {
        None
    } else {
        match sums_entry(ls[i]) {
            Some((h, n)) => if n == asset {
                Some(h)
            } else {
                hash_in_lines(ls, asset, i + 1)
            },
            None => hash_in_lines(ls, asset, i + 1),
        }
    }
}

pub open spec fn spec_expected_hash(sums: Seq<char>, asset: Seq<char>) -> Option<Seq<char>> {
    hash_in_lines(lines(sums), asset, 0)
}

fn first_ws_exec(v: &Vec<char>) -> (r: Option<usize>)
    ensures
        match r {
            Some(k) => first_ws_from(v@, 0) == Some(k as int) && k < v@.len(),
            None => first_ws_from(v@, 0) is None,
        },
{
    let n = v.len();
    for i in 0..n
        invariant
            n == v@.len(),
            first_ws_from(v@, 0) == first_ws_from(v@, i as int),
    {
        if is_whitespace(v[i]) {
            return Some(i);
        }
    }
    None
}

fn strip_stars_exec(v: &Vec<char>) -> (r: Vec<char>)
    ensures
        r@ == strip_stars(v@),
{
    let mut i: usize = 0;
    assert(v@.skip(0) =~= v@);
    while i < v.len() && v[i] == '*'
        invariant
            i <= v@.len(),
            strip_stars(v@) == strip_stars(v@.skip(i as int)),
        decreases v@.len() - i,
    {
        assert(v@.skip(i as int).drop_first() =~= v@.skip(i + 1));
        i = i + 1;
    }
    let r = copy_range(v, i, v.len());
    assert(r@ =~= v@.skip(i as int));
    r
}

/// Look up `asset` in a `sha256sum`-formatted manifest.
pub fn expected_hash<'a>(sums: &'a str, asset: &str) -> (r: Option<&'a str>)
    ensures
        match r {
            Some(h) => spec_expected_hash(sums@, asset@) == Some(h@),
            None => spec_expected_hash(sums@, asset@) is None,
        },
{
    let v = chars_of(sums);
    let a = chars_of(asset);
    let ranges = line_ranges(&v);
    let n = ranges.len();
    for k in 0..n
        invariant
            n == ranges@.len(),
            v@ == sums@,
            a@ == asset@,
            n == lines(v@).len(),
            forall|m: int|
                0 <= m < ranges@.len() ==> (#[trigger] ranges@[m]).0 <= ranges@[m].1 <= v@.len()
                    && v@.subrange(ranges@[m].0 as int, ranges@[m].1 as int) == lines(v@)[m],
            spec_expected_hash(sums@, asset@) == hash_in_lines(lines(v@), asset@, k as int),
    {
        let (lo, hi) = ranges[k];
        assert(ranges@[k as int] == (lo, hi));
        let line = copy_range(&v, lo, hi);
        assert(line@ == lines(v@)[k as int]);
        match first_ws_exec(&line) {
            Some(j) => {
                let name = strip_stars_exec(&trimmed(&copy_range(&line, j + 1, line.len())));
                assert(line@.subrange(j + 1, line@.len() as int) =~= line@.skip(j + 1));
                if chars_eq(&name, &a) {
                    let h = sums.substring_char(lo, lo + j);
                    assert(h@ =~= line@.take(j as int));
                    return Some(h);
                }
            },
            None => {},
        }
    }
    None
}

/// The hexadecimal digit for `d` (below 16), lower case.
pub open spec fn hex_digit(d: int) -> char {
    if d < 10 {
        ('0' as int + d) as char
    } else {
        ('a' as int + d - 10) as char
    }
}

/// `bytes` in lower-case hexadecimal, two digits per byte.
pub open spec fn hex_lower(bytes: Seq<u8>) -> Seq<char>
    decreases bytes.len(),
{
    if bytes.len() == 0 {
        Seq::empty()
    } else {
        hex_lower(bytes.drop_last()) + seq![
            hex_digit(bytes.last() as int / 16),
            hex_digit(bytes.last() as int % 16),
        ]
    }
}

fn hex_digit_exec(d: u8) -> (r: char)
    requires
        d < 16,
    ensures
        r == hex_digit(d as int),
{
    let digits = ['0', '1', '2', '3', '4', '5', '6', '7', '8', '9', 'a', 'b', 'c', 'd', 'e', 'f'];
    let r = digits[d as usize];
    assert(r == hex_digit(d as int));
    r
}

fn hex_lower_exec(bytes: &Vec<u8>) -> (r: Vec<char>)
    ensures
        r@ == hex_lower(bytes@),
{
    let mut out: Vec<char> = Vec::new();
    let n = bytes.len();
    for i in 0..n
        invariant
            n == bytes@.len(),
            out@ == hex_lower(bytes@.take(i as int)),
    {
        let b = bytes[i];
        assert(bytes@.take(i + 1).drop_last() =~= bytes@.take(i as int));
        out.push(hex_digit_exec(b / 16));
        out.push(hex_digit_exec(b % 16));
    }
    assert(bytes@.take(n as int) =~= bytes@);
    out
}

/// The ASCII lower-case form of `c`.
pub open spec fn ascii_lower(c: char) -> char {
    if 'A' <= c && c <= 'Z' {
        ((c as int) + 32) as char
    } else {
        c
    }
}

/// Equal but for the case of ASCII letters (`eq_ignore_ascii_case`).
pub open spec fn eq_ignore_ascii_case(a: Seq<char>, b: Seq<char>) -> bool {
    a.len() == b.len() && forall|i: int| 0 <= i < a.len() ==> ascii_lower(a[i]) == ascii_lower(b[i])
}

fn ascii_lower_exec(c: char) -> (r: char)
    ensures
        r == ascii_lower(c),
{
    if 'A' <= c && c <= 'Z' {
        let u = (c as u32 + 32) as u8;
        u as char
    } else {
        c
    }
}

fn eq_ignore_case_exec(a: &Vec<char>, b: &Vec<char>) -> (r: bool)
    ensures
        r == eq_ignore_ascii_case(a@, b@),
{
    if a.len() != b.len() {
        return false;
    }
    let n = a.len();
    for i in 0..n
        invariant
            n == a@.len(),
            n == b@.len(),
            forall|k: int| 0 <= k < i ==> ascii_lower(a@[k]) == ascii_lower(b@[k]),
    {
        if ascii_lower_exec(a[i]) != ascii_lower_exec(b[i]) {
            return false;
        }
    }
    true
}

/// The SHA-256 digest of `data`, as computed by the `sha2` crate.
pub uninterp spec fn sha256(data: Seq<u8>) -> Seq<u8>;

/// `sha2::Sha256::digest`: the 32-byte SHA-256 digest of `data`. The
/// contract names the digest and states its length; the value itself is
/// not specified here.
#[verifier::external_body]
fn sha256_digest(data: &[u8]) -> (r: Vec<u8>)
    ensures
        r@ == sha256(data@),
        r@.len() == 32,
{
    sha2::Sha256::digest(data).to_vec()
}

/// Why a download failed verification.
#[derive(Clone, Debug, PartialEq, Eq)]
pub enum ChecksumError {
    /// The manifest has no line for the asset.
    NoEntry,
    /// The digest differs from the manifest's.
    Mismatch { expected: String, actual: String },
}

/// Check `data` (the downloaded `asset`) against the manifest `sums`: Ok
/// when the manifest lists the asset with the data's SHA-256 digest in
/// hexadecimal (either case).
pub fn verify_sha256(data: &[u8], sums: &str, asset: &str) -> (r: Result<(), ChecksumError>)
    ensures
        match spec_expected_hash(sums@, asset@) {
            None => r == Err::<(), ChecksumError>(ChecksumError::NoEntry),
            Some(h) => if eq_ignore_ascii_case(hex_lower(sha256(data@)), h) {
                r is Ok
            } else {
                r matches Err(ChecksumError::Mismatch { expected, actual }) && expected@ == h
                    && actual@ == hex_lower(sha256(data@))
            },
        },
{
    let expected = match expected_hash(sums, asset) {
        Some(h) => h,
        None => return Err(ChecksumError::NoEntry),
    };
    let digest = sha256_digest(data);
    let actual = hex_lower_exec(&digest);
    let e = chars_of(expected);
    if !eq_ignore_case_exec(&actual, &e) {
        return Err(
            ChecksumError::Mismatch { expected: expected.to_owned(), actual: string_of(&actual) },
        );
    }
    Ok(())
}

impl ChecksumError {
    /// The message shown to the user for `asset`.
    pub fn message(&self, asset: &str) -> (r: String)
        ensures
            r@ == (match self {
                ChecksumError::NoEntry => "SHA256SUMS has no entry for "@ + asset@,
                ChecksumError::Mismatch { expected, actual } => "checksum mismatch for "@ + asset@
                    + ": expected "@ + expected@ + ", got "@ + actual@
                    + ".\nThe download was discarded; try again or verify the release manually."@,
            }),
    {
        match self {
            ChecksumError::NoEntry => {
                let mut m = "SHA256SUMS has no entry for ".to_owned();
                m.append(asset);
                m
            },
            ChecksumError::Mismatch { expected, actual } => {
                let mut m = "checksum mismatch for ".to_owned();
                m.append(asset);
                m.append(": expected ");
                m.append(expected.as_str());
                m.append(", got ");
                m.append(actual.as_str());
                m.append(".\nThe download was discarded; try again or verify the release manually.");
                m
            },
        }
    }
}

// ---------------------------------------------------------- releases --

/// `s` without its leading `v`s (`trim_start_matches('v')`).
pub open spec fn strip_vs(s: Seq<char>) -> Seq<char>
    decreases s.len(),
{
    if s.len() > 0 && s[0] == 'v' {
        strip_vs(s.drop_first())
    } else {
        s
    }
}

fn strip_vs_exec(v: &Vec<char>) -> (r: Vec<char>)
    ensures
        r@ == strip_vs(v@),
{
    let mut i: usize = 0;
    assert(v@.skip(0) =~= v@);
    while i < v.len() && v[i] == 'v'
        invariant
            i <= v@.len(),
            strip_vs(v@) == strip_vs(v@.skip(i as int)),
        decreases v@.len() - i,
    {
        assert(v@.skip(i as int).drop_first() =~= v@.skip(i + 1));
        i = i + 1;
    }
    let r = copy_range(v, i, v.len());
    assert(r@ =~= v@.skip(i as int));
    r
}

/// The version a release tag names: the tag without leading `v`s.
pub fn tag_version(tag: &str) -> (r: String)
    ensures
        r@ == strip_vs(tag@),
{
    string_of(&strip_vs_exec(&chars_of(tag)))
}

/// The release tag for a requested version: `v` followed by the version
/// without its own leading `v`s.
pub fn release_tag(version: &str) -> (r: String)
    ensures
        r@ == seq!['v'] + strip_vs(version@),
{
    let mut v: Vec<char> = Vec::new();
    v.push('v');
    let mut rest = strip_vs_exec(&chars_of(version));
    let ghost rv = rest@;
    v.append(&mut rest);
    assert(v@ =~= seq!['v'] + rv);
    string_of(&v)
}

/// Is the release `tag` the version already running?
pub fn is_current(tag: &str, current: &str) -> (r: bool)
    ensures
        r == (strip_vs(tag@) == current@),
{
    chars_eq(&strip_vs_exec(&chars_of(tag)), &chars_of(current))
}

/// The release asset for a target triple (`.exe` on Windows).
pub fn asset_name(target: &str, windows: bool) -> (r: String)
    ensures
        r@ == "git-include-"@ + target@ + (if windows { ".exe"@ } else { ""@ }),
{
    let mut s = "git-include-".to_owned();
    s.append(target);
    if windows {
        s.append(".exe");
    } else {
        proof {
            reveal_strlit("");
        }
        assert(s@ =~= "git-include-"@ + target@ + ""@);
    }
    s
}

/// The download URL of a file of release `tag`.
pub fn release_file_url(tag: &str, file: &str) -> (r: String)
    ensures
        r@ == "https://github.com/"@ + REPO@ + "/releases/download/"@ + tag@ + "/"@ + file@,
{
    let mut s = "https://github.com/".to_owned();
    s.append(REPO);
    s.append("/releases/download/");
    s.append(tag);
    s.append("/");
    s.append(file);
    s
}

/// The API URL that names the latest release.
pub fn latest_release_url() -> (r: String)
    ensures
        r@ == "https://api.github.com/repos/"@ + REPO@ + "/releases/latest"@,
{
    let mut s = "https://api.github.com/repos/".to_owned();
    s.append(REPO);
    s.append("/releases/latest");
    s
}

/// The release asset suffix for a build on operating system `os` and
/// architecture `arch` (the names `std::env::consts` uses); `portable`
/// Linux builds update to their own kind. None where no release asset is
/// published.
pub open spec fn spec_target_triple(os: Seq<char>, arch: Seq<char>, portable: bool) -> Option<Seq<char>> {
    if os == "linux"@ && arch == "x86_64"@ {
        Some(if portable { "x86_64-unknown-linux-gnu-portable"@ } else { "x86_64-unknown-linux-gnu"@ })
    } else if os == "linux"@ && arch == "aarch64"@ {
        Some(if portable { "aarch64-unknown-linux-gnu-portable"@ } else { "aarch64-unknown-linux-gnu"@ })
    } else if os == "macos"@ && arch == "aarch64"@ {
        Some("aarch64-apple-darwin"@)
    } else if os == "windows"@ && arch == "x86_64"@ {
        Some("x86_64-pc-windows-msvc"@)
    } else if os == "windows"@ && arch == "aarch64"@ {
        Some("aarch64-pc-windows-msvc"@)
    } else {
        None
    }
}

pub fn target_triple(os: &str, arch: &str, portable: bool) -> (r: Option<&'static str>)
    ensures
        match r {
            Some(t) => spec_target_triple(os@, arch@, portable) == Some(t@),
            None => spec_target_triple(os@, arch@, portable) is None,
        },
{
    let o = chars_of(os);
    let a = chars_of(arch);
    let linux = chars_eq(&o, &chars_of("linux"));
    let macos = chars_eq(&o, &chars_of("macos"));
    let windows = chars_eq(&o, &chars_of("windows"));
    let x86 = chars_eq(&a, &chars_of("x86_64"));
    let arm = chars_eq(&a, &chars_of("aarch64"));
    if linux && x86 {
        Some(if portable { "x86_64-unknown-linux-gnu-portable" } else { "x86_64-unknown-linux-gnu" })
    } else if linux && arm {
        Some(if portable { "aarch64-unknown-linux-gnu-portable" } else { "aarch64-unknown-linux-gnu" })
    } else if macos && arm {
        Some("aarch64-apple-darwin")
    } else if windows && x86 {
        Some("x86_64-pc-windows-msvc")
    } else if windows && arm {
        Some("aarch64-pc-windows-msvc")
    } else {
        None
    }
}

/// The message of a build installed through a package manager, where
/// self-update is disabled.
pub open spec fn disabled_message() -> Seq<char> {
    "this git-include build was installed through a package manager, so self-update is disabled.\nUpdate it the same way it was installed (e.g. `conda update git-include`)."@
}

/// Self-update as a package-manager build answers it: always refused,
/// since the binary must not replace itself behind the manager's back.
pub fn run(version: Option<&str>, dry_run: bool) -> (r: Result<(), String>)
    ensures
        r matches Err(m) && m@ == disabled_message(),
{
    Err(
        "this git-include build was installed through a package manager, so self-update is disabled.\nUpdate it the same way it was installed (e.g. `conda update git-include`).".to_owned(),
    )
}

} // verus!
