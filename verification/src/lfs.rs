//! Best-effort Git LFS integration: the decisions. When an included
//! repository uses LFS (`filter=lfs` in a `.gitattributes` of the fetched
//! tree), its LFS objects are fetched from (or pushed to) the upstream LFS
//! store through the `git lfs` CLI.

use vstd::prelude::*;

use crate::text::{chars_eq, chars_of, find_from, find_from_exec, string_of};

verus! {

broadcast use vstd::string::group_string_axioms;

/// The marker's remote can come from a repository someone else authored,
/// and `git lfs` goes through git itself, where option-like values or
/// exotic schemes such as `ext::` can execute commands: the CLI is only
/// handed remotes that do not start with `-` and contain no `::`.
pub fn remote_safe_for_cli(remote: &str) -> (r: bool)
    ensures
        r == (!(remote@.len() > 0 && remote@[0] == '-') && find_from(remote@, seq![':', ':'], 0) is None),
{
    let v = chars_of(remote);
    let mut sep: Vec<char> = Vec::new();
    sep.push(':');
    sep.push(':');
    assert(sep@ =~= seq![':', ':']);
    !(v.len() > 0 && v[0] == '-') && find_from_exec(&v, &sep, 0).is_none()
}

/// Does a `.gitattributes` file with this content configure LFS?
pub fn attributes_use_lfs(content: &str) -> (r: bool)
    ensures
        r == (find_from(content@, "filter=lfs"@, 0) is Some),
{
    find_from_exec(&chars_of(content), &chars_of("filter=lfs"), 0).is_some()
}

/// Is this tree entry name a `.gitattributes` file?
pub fn is_attributes_file(name: &str) -> (r: bool)
    ensures
        r == (name@ == ".gitattributes"@),
{
    chars_eq(&chars_of(name), &chars_of(".gitattributes"))
}

/// What an LFS transfer does.
#[derive(Clone, Copy, Debug, PartialEq, Eq, Structural)]
pub enum LfsGate {
    /// Nothing to do (disabled, or the tree does not use LFS).
    Skip,
    /// The remote is not safe to hand to the CLI: warn and skip.
    UnsafeRemote,
    /// Go ahead (if git-lfs is installed).
    Proceed,
}

pub fn lfs_gate(no_lfs: bool, uses_lfs: bool, remote: &str) -> (r: LfsGate)
    ensures
        r == (if no_lfs || !uses_lfs {
            LfsGate::Skip
        } else if !(!(remote@.len() > 0 && remote@[0] == '-') && find_from(remote@, seq![':', ':'], 0) is None) {
            LfsGate::UnsafeRemote
        } else {
            LfsGate::Proceed
        }),
{
    if no_lfs || !uses_lfs {
        LfsGate::Skip
    } else if !remote_safe_for_cli(remote) {
        LfsGate::UnsafeRemote
    } else {
        LfsGate::Proceed
    }
}

/// `s` without its leading copies of `//?/` (the prefix of Windows
/// verbatim paths).
pub open spec fn strip_verbatim(s: Seq<char>) -> Seq<char>
    decreases s.len(),
{
    if s.len() >= 4 && s.take(4) == seq!['/', '/', '?', '/'] {
        strip_verbatim(s.skip(4))
    } else {
        s
    }
}

/// The `file://` URL of an absolute local directory path.
pub open spec fn spec_file_url(path: Seq<char>) -> Seq<char> {
    let s = strip_verbatim(path.map_values(|c: char| if c == '\\' { '/' } else { c }));
    let s = if s.len() > 0 && s[0] == '/' { s } else { seq!['/'] + s };
    "file://"@ + s
}

/// The remote as handed to the git-lfs CLI: URLs pass through, and so do
/// paths that are not local directories; a local directory (given with its
/// canonical path `local_dir`) becomes a `file://` URL, since git-lfs only
/// speaks real URLs.
pub fn cli_remote(remote: &str, local_dir: Option<&str>) -> (r: String)
    ensures
        r@ == (if find_from(remote@, "://"@, 0) is Some {
            remote@
        } else {
            match local_dir {
                None => remote@,
                Some(p) => spec_file_url(p@),
            }
        }),
{
    if find_from_exec(&chars_of(remote), &chars_of("://"), 0).is_some() {
        return remote.to_owned();
    }
    let p = match local_dir {
        None => return remote.to_owned(),
        Some(p) => p,
    };
    let v = chars_of(p);
    let mut slashed: Vec<char> = Vec::new();
    let n = v.len();
    for i in 0..n
        invariant
            n == v@.len(),
            slashed@ == v@.take(i as int).map_values(|c: char| if c == '\\' { '/' } else { c }),
    {
        slashed.push(if v[i] == '\\' { '/' } else { v[i] });
        assert(v@.take(i + 1).map_values(|c: char| if c == '\\' { '/' } else { c }) =~= v@.take(
            i as int,
        ).map_values(|c: char| if c == '\\' { '/' } else { c }).push(
            if v@[i as int] == '\\' { '/' } else { v@[i as int] },
        ));
    }
    assert(v@.take(n as int) =~= v@);
    let mut start: usize = 0;
    let ghost full = slashed@;
    assert(full.skip(0) =~= full);
    while slashed.len() - start >= 4 && slashed[start] == '/' && slashed[start + 1] == '/'
        && slashed[start + 2] == '?' && slashed[start + 3] == '/'
        invariant
            start <= slashed@.len(),
            full == slashed@,
            strip_verbatim(full) == strip_verbatim(full.skip(start as int)),
        decreases slashed@.len() - start,
    {
        assert(full.skip(start as int).take(4) =~= seq!['/', '/', '?', '/']);
        assert(full.skip(start as int).skip(4) =~= full.skip(start + 4));
        start = start + 4;
    }
    let rest = crate::text::copy_range(&slashed, start, slashed.len());
    assert(rest@ =~= full.skip(start as int));
    proof {
        let t = full.skip(start as int);
        if t.len() >= 4 && t.take(4) == seq!['/', '/', '?', '/'] {
            assert(t.take(4)[0] == t[0] && t.take(4)[1] == t[1] && t.take(4)[2] == t[2]
                && t.take(4)[3] == t[3]);
        }
    }
    let mut out = chars_of("file://");
    if !(rest.len() > 0 && rest[0] == '/') {
        out.push('/');
    }
    let ghost o = out@;
    let mut rest = rest;
    let ghost rv = rest@;
    out.append(&mut rest);
    assert(out@ =~= spec_file_url(p@)) by {
        if rv.len() > 0 && rv[0] == '/' {
            assert(out@ =~= "file://"@ + rv);
        } else {
            assert(out@ =~= "file://"@ + (seq!['/'] + rv));
        }
    }
    string_of(&out)
}

} // verus!
