//! What git-include decides about revisions and refs: the kinds of
//! revision an include can track, how a remote's advertised heads are
//! classified, which refspecs a fetch or push uses, and which credential a
//! transport is offered. Repository and network access is the caller's.

use vstd::prelude::*;
use vstd::string::StringSliceAdditionalSpecFns;

use crate::text::{chars_eq, chars_of, copy_range, ends_with, matches_at, starts_with, string_of};

verus! {

broadcast use vstd::string::group_string_axioms;

/// What kind of upstream revision an include tracks.
#[derive(Clone, Copy, Debug, PartialEq, Eq, Structural)]
pub enum RevKind {
    Branch,
    Tag,
    Commit,
}

pub open spec fn spec_label(k: RevKind) -> Seq<char> {
    match k {
        RevKind::Branch => "branch"@,
        RevKind::Tag => "tag"@,
        RevKind::Commit => "commit"@,
    }
}

impl RevKind {
    /// The word for this kind in messages.
    pub fn label(&self) -> (r: &'static str)
        ensures
            r@ == spec_label(*self),
    {
        match self {
            RevKind::Branch => "branch",
            RevKind::Tag => "tag",
            RevKind::Commit => "commit",
        }
    }
}

pub open spec fn is_hex_digit(c: char) -> bool {
    ('0' <= c && c <= '9') || ('a' <= c && c <= 'f') || ('A' <= c && c <= 'F')
}

/// Could this string be an abbreviated or full commit id? 7 to 40 bytes,
/// all hexadecimal digits.
pub open spec fn spec_looks_like_oid(s: &str) -> bool {
    &&& 7 <= s.spec_bytes().len() <= 40
    &&& forall|i: int| 0 <= i < s@.len() ==> is_hex_digit(#[trigger] s@[i])
}

pub fn looks_like_oid(s: &str) -> (r: bool)
    ensures
        r == spec_looks_like_oid(s),
{
    let len = s.as_bytes().len();
    if len < 7 || len > 40 {
        return false;
    }
    let v = chars_of(s);
    let n = v.len();
    for i in 0..n
        invariant
            n == v@.len(),
            v@ == s@,
            forall|k: int| 0 <= k < i ==> is_hex_digit(#[trigger] s@[k]),
    {
        let c = v[i];
        if !(('0' <= c && c <= '9') || ('a' <= c && c <= 'f') || ('A' <= c && c <= 'F')) {
            return false;
        }
    }
    true
}

/// Branch and tag heads advertised by a remote.
pub struct RemoteRefs {
    /// (sha, name) pairs.
    pub branches: Vec<(String, String)>,
    /// (sha, name) pairs; annotated tags are peeled to their commit.
    pub tags: Vec<(String, String)>,
}

pub open spec fn pair_views(v: Seq<(String, String)>) -> Seq<(Seq<char>, Seq<char>)> {
    v.map_values(|p: (String, String)| (p.0@, p.1@))
}

// --------------------------------------------------- advertised heads --

pub open spec fn heads_prefix() -> Seq<char> {
    "refs/heads/"@
}

pub open spec fn tags_prefix() -> Seq<char> {
    "refs/tags/"@
}

pub open spec fn peel_suffix() -> Seq<char> {
    "^{}"@
}

/// `s` without the prefix `p`, if it starts with it.
pub open spec fn strip_prefix(s: Seq<char>, p: Seq<char>) -> Option<Seq<char>> {
    if starts_with(s, p) {
        Some(s.skip(p.len() as int))
    } else {
        None
    }
}

/// The branch heads among advertised (oid, refname) pairs.
pub open spec fn branch_heads(heads: Seq<(Seq<char>, Seq<char>)>) -> Seq<(Seq<char>, Seq<char>)>
    decreases heads.len(),
{
    if heads.len() == 0 {
        Seq::empty()
    } else {
        let prev = branch_heads(heads.drop_last());
        match strip_prefix(heads.last().1, heads_prefix()) {
            Some(b) => prev.push((heads.last().0, b)),
            None => prev,
        }
    }
}

/// The tag heads as advertised, before peeling (`peeled` selects the
/// `^{}` entries, which name the commit an annotated tag points at).
pub open spec fn tag_heads(heads: Seq<(Seq<char>, Seq<char>)>, peeled: bool) -> Seq<
    (Seq<char>, Seq<char>),
>
    decreases heads.len(),
{
    if heads.len() == 0 {
        Seq::empty()
    } else {
        let prev = tag_heads(heads.drop_last(), peeled);
        if starts_with(heads.last().1, heads_prefix()) {
            prev
        } else {
            match strip_prefix(heads.last().1, tags_prefix()) {
                Some(t) => if ends_with(t, peel_suffix()) == peeled {
                    if peeled {
                        prev.push((heads.last().0, t.take(t.len() - 3)))
                    } else {
                        prev.push((heads.last().0, t))
                    }
                } else {
                    prev
                },
                None => prev,
            }
        }
    }
}

/// The first position of a pair named `name`.
pub open spec fn name_pos(v: Seq<(Seq<char>, Seq<char>)>, name: Seq<char>, i: int) -> Option<int>
    decreases v.len() - i,
{
    if i < 0 || i >= v.len() {
        None
    } else if v[i].1 == name {
        Some(i)
    } else {
        name_pos(v, name, i + 1)
    }
}

/// Peeled entries replace the tag object id of the tag they name (or are
/// added when no plain entry exists).
pub open spec fn apply_peeled(tags: Seq<(Seq<char>, Seq<char>)>, peeled: Seq<(Seq<char>, Seq<char>)>) -> Seq<
    (Seq<char>, Seq<char>),
>
    decreases peeled.len(),
{
    if peeled.len() == 0 {
        tags
    } else {
        let prev = apply_peeled(tags, peeled.drop_last());
        let (sha, name) = peeled.last();
        match name_pos(prev, name, 0) {
            Some(i) => prev.update(i, (sha, name)),
            None => prev.push((sha, name)),
        }
    }
}

pub open spec fn spec_remote_refs_tags(heads: Seq<(Seq<char>, Seq<char>)>) -> Seq<(Seq<char>, Seq<char>)> {
    apply_peeled(tag_heads(heads, false), tag_heads(heads, true))
}

/// Does a pair named `name` exist?
pub open spec fn has_name(v: Seq<(Seq<char>, Seq<char>)>, name: Seq<char>) -> bool {
    exists|i: int| 0 <= i < v.len() && #[trigger] v[i].1 == name
}

fn strip_prefix_exec(s: &Vec<char>, p: &Vec<char>) -> (r: Option<Vec<char>>)
    ensures
        match r {
            Some(t) => strip_prefix(s@, p@) == Some(t@),
            None => strip_prefix(s@, p@) is None,
        },
{
    if matches_at(s, p, 0) {
        assert(s@.subrange(0, p@.len() as int) =~= s@.take(p@.len() as int));
        let t = copy_range(s, p.len(), s.len());
        assert(t@ =~= s@.skip(p@.len() as int));
        Some(t)
    } else {
        assert(!starts_with(s@, p@)) by {
            if starts_with(s@, p@) {
                assert(s@.subrange(0, p@.len() as int) =~= s@.take(p@.len() as int));
            }
        }
        None
    }
}

fn name_pos_exec(v: &Vec<(String, String)>, name: &String) -> (r: Option<usize>)
    ensures
        match r {
            Some(i) => name_pos(pair_views(v@), name@, 0) == Some(i as int) && i < v@.len(),
            None => name_pos(pair_views(v@), name@, 0) is None,
        },
{
    let n = v.len();
    for i in 0..n
        invariant
            n == v@.len(),
            name_pos(pair_views(v@), name@, 0) == name_pos(pair_views(v@), name@, i as int),
    {
        assert(pair_views(v@)[i as int] == (v@[i as int].0@, v@[i as int].1@));
        if v[i].1 == *name {
            return Some(i);
        }
    }
    None
}

impl RemoteRefs {
    /// Classify the (oid, refname) pairs a remote advertises: branch heads
    /// under `refs/heads/`, tags under `refs/tags/`, with annotated tags
    /// peeled to the commit they point at.
    pub fn from_advertised(heads: &Vec<(String, String)>) -> (r: RemoteRefs)
        ensures
            pair_views(r.branches@) == branch_heads(pair_views(heads@)),
            pair_views(r.tags@) == spec_remote_refs_tags(pair_views(heads@)),
    {
        let hp = chars_of("refs/heads/");
        let tp = chars_of("refs/tags/");
        let ps = chars_of("^{}");
        proof {
            reveal_strlit("^{}");
        }
        let ghost hv = pair_views(heads@);
        let mut branches: Vec<(String, String)> = Vec::new();
        let mut tags: Vec<(String, String)> = Vec::new();
        let mut peeled: Vec<(String, String)> = Vec::new();
        let n = heads.len();
        for i in 0..n
            invariant
                n == heads@.len(),
                hv == pair_views(heads@),
                hp@ == heads_prefix(),
                tp@ == tags_prefix(),
                ps@ == peel_suffix(),
                ps@.len() == 3,
                pair_views(branches@) == branch_heads(hv.take(i as int)),
                pair_views(tags@) == tag_heads(hv.take(i as int), false),
                pair_views(peeled@) == tag_heads(hv.take(i as int), true),
        {
            let ghost pre = hv.take(i + 1);
            assert(pre.drop_last() =~= hv.take(i as int));
            assert(pre.last() == (heads@[i as int].0@, heads@[i as int].1@));
            let name = chars_of(heads[i].1.as_str());
            let oid = heads[i].0.clone();
            let ghost b0 = branches@;
            let ghost t0 = tags@;
            let ghost p0 = peeled@;
            match strip_prefix_exec(&name, &hp) {
                Some(b) => {
                    branches.push((oid, string_of(&b)));
                    assert(pair_views(branches@) =~= pair_views(b0).push((heads@[i as int].0@, b@)));
                },
                None => {
                    match strip_prefix_exec(&name, &tp) {
                        Some(t) => {
                            let tl = t.len();
                            let is_peeled = tl >= 3 && matches_at(&t, &ps, tl - 3);
                            proof {
                                if tl >= 3 {
                                    assert(t@.subrange(tl - 3, tl as int) =~= t@.skip(tl - 3));
                                }
                                assert(is_peeled == ends_with(t@, peel_suffix()));
                            }
                            if is_peeled {
                                let short = copy_range(&t, 0, tl - 3);
                                assert(short@ =~= t@.take(t@.len() - 3));
                                peeled.push((oid, string_of(&short)));
                                assert(pair_views(peeled@) =~= pair_views(p0).push(
                                    (heads@[i as int].0@, short@),
                                ));
                            } else {
                                tags.push((oid, string_of(&t)));
                                assert(pair_views(tags@) =~= pair_views(t0).push(
                                    (heads@[i as int].0@, t@),
                                ));
                            }
                        },
                        None => {},
                    }
                },
            }
        }
        assert(hv.take(n as int) =~= hv);
        let ghost pv = pair_views(peeled@);
        let ghost base = pair_views(tags@);
        let m = peeled.len();
        for j in 0..m
            invariant
                m == peeled@.len(),
                pv == pair_views(peeled@),
                pair_views(tags@) == apply_peeled(base, pv.take(j as int)),
        {
            let ghost pre = pv.take(j + 1);
            assert(pre.drop_last() =~= pv.take(j as int));
            assert(pre.last() == (peeled@[j as int].0@, peeled@[j as int].1@));
            let ghost t0 = tags@;
            let sha = peeled[j].0.clone();
            let nm = peeled[j].1.clone();
            match name_pos_exec(&tags, &nm) {
                Some(k) => {
                    let entry = (sha, nm);
                    tags.set(k, entry);
                    assert(pair_views(tags@) =~= pair_views(t0).update(
                        k as int,
                        (peeled@[j as int].0@, peeled@[j as int].1@),
                    ));
                },
                None => {
                    tags.push((sha, nm));
                    assert(pair_views(tags@) =~= pair_views(t0).push(
                        (peeled@[j as int].0@, peeled@[j as int].1@),
                    ));
                },
            }
        }
        assert(pv.take(m as int) =~= pv);
        RemoteRefs { branches, tags }
    }

    /// Is a branch named `name` advertised?
    pub fn has_branch(&self, name: &str) -> (r: bool)
        ensures
            r == has_name(pair_views(self.branches@), name@),
    {
        has_name_exec(&self.branches, name)
    }

    /// Is a tag named `name` advertised?
    pub fn has_tag(&self, name: &str) -> (r: bool)
        ensures
            r == has_name(pair_views(self.tags@), name@),
    {
        has_name_exec(&self.tags, name)
    }
}

fn has_name_exec(v: &Vec<(String, String)>, name: &str) -> (r: bool)
    ensures
        r == has_name(pair_views(v@), name@),
{
    let target = name.to_owned();
    let n = v.len();
    for i in 0..n
        invariant
            n == v@.len(),
            target@ == name@,
            forall|k: int| 0 <= k < i ==> #[trigger] pair_views(v@)[k].1 != name@,
    {
        assert(pair_views(v@)[i as int] == (v@[i as int].0@, v@[i as int].1@));
        if v[i].1 == target {
            assert(pair_views(v@)[i as int].1 == name@);
            return true;
        }
    }
    false
}

// ---------------------------------------------------------- fetching --

/// How a revision is fetched.
#[derive(Clone, Copy, Debug, PartialEq, Eq, Structural)]
pub enum FetchPlan {
    /// Fetch `refs/heads/<rev>` into the pin.
    Branch,
    /// Fetch `refs/tags/<rev>` into the pin, then peel it to its commit.
    Tag,
    /// A commit id: try a direct fetch by id first when `direct` (a full
    /// 40-digit id), otherwise (or when that fails and the commit is
    /// still unknown) fetch all heads and tags and resolve locally.
    Commit { direct: bool },
    /// Not a revision of the wanted kind on the remote.
    NotFound,
}

pub open spec fn wanted(expect: Option<RevKind>, k: RevKind) -> bool {
    expect is None || expect == Some(k)
}

/// Branch first, then tag, then commit id; restricted to `expect` when
/// given.
pub open spec fn spec_plan_fetch(
    branches: Seq<(Seq<char>, Seq<char>)>,
    tags: Seq<(Seq<char>, Seq<char>)>,
    rev: &str,
    expect: Option<RevKind>,
) -> FetchPlan {
    if wanted(expect, RevKind::Branch) && has_name(branches, rev@) {
        FetchPlan::Branch
    } else if wanted(expect, RevKind::Tag) && has_name(tags, rev@) {
        FetchPlan::Tag
    } else if wanted(expect, RevKind::Commit) && spec_looks_like_oid(rev) {
        FetchPlan::Commit { direct: rev.spec_bytes().len() == 40 }
    } else {
        FetchPlan::NotFound
    }
}

/// The kind of revision a fetch plan fetches.
pub open spec fn plan_kind(p: FetchPlan) -> Option<RevKind> {
    match p {
        FetchPlan::Branch => Some(RevKind::Branch),
        FetchPlan::Tag => Some(RevKind::Tag),
        FetchPlan::Commit { .. } => Some(RevKind::Commit),
        FetchPlan::NotFound => None,
    }
}

/// How a revision is resolved. An explicit kind (`--branch`, `--tag`,
/// `--commit`) restricts the lookup to that kind and never excludes it:
/// the plan fetches that kind or finds nothing, and it fetches that kind
/// whenever the remote has `rev` as one. Without a kind, a branch wins
/// over a tag, and a tag over a commit id; a commit id is fetched directly
/// only when it is a full 40-digit id.
pub proof fn lemma_fetch_plan_kinds(
    branches: Seq<(Seq<char>, Seq<char>)>,
    tags: Seq<(Seq<char>, Seq<char>)>,
    rev: &str,
    k: RevKind,
)
    ensures
        spec_plan_fetch(branches, tags, rev, Some(k)) is NotFound || plan_kind(
            spec_plan_fetch(branches, tags, rev, Some(k)),
        ) == Some(k),
        k == RevKind::Branch && (exists|i: int| 0 <= i < branches.len() && branches[i].1 == rev@)
            ==> spec_plan_fetch(branches, tags, rev, Some(k)) == FetchPlan::Branch,
        k == RevKind::Tag && (exists|i: int| 0 <= i < tags.len() && tags[i].1 == rev@) ==> spec_plan_fetch(
            branches,
            tags,
            rev,
            Some(k),
        ) == FetchPlan::Tag,
        k == RevKind::Commit && 7 <= rev.spec_bytes().len() <= 40 && (forall|i: int|
            0 <= i < rev@.len() ==> is_hex_digit(#[trigger] rev@[i])) ==> spec_plan_fetch(
            branches,
            tags,
            rev,
            Some(k),
        ) == (FetchPlan::Commit { direct: rev.spec_bytes().len() == 40 }),
        (exists|i: int| 0 <= i < branches.len() && branches[i].1 == rev@) ==> spec_plan_fetch(
            branches,
            tags,
            rev,
            None,
        ) == FetchPlan::Branch,
        !(exists|i: int| 0 <= i < branches.len() && branches[i].1 == rev@) && (exists|i: int|
            0 <= i < tags.len() && tags[i].1 == rev@) ==> spec_plan_fetch(branches, tags, rev, None)
            == FetchPlan::Tag,
        (spec_plan_fetch(branches, tags, rev, None) is NotFound || (plan_kind(
            spec_plan_fetch(branches, tags, rev, None),
        ) is Some)),
{
}

/// Decide how `rev` is fetched from a remote advertising `refs`.
pub fn plan_fetch(refs: &RemoteRefs, rev: &str, expect: Option<RevKind>) -> (r: FetchPlan)
    ensures
        r == spec_plan_fetch(pair_views(refs.branches@), pair_views(refs.tags@), rev, expect),
        expect == Some(RevKind::Branch) && has_name(pair_views(refs.branches@), rev@) ==> r
            == FetchPlan::Branch,
        expect == Some(RevKind::Tag) && has_name(pair_views(refs.tags@), rev@) ==> r == FetchPlan::Tag,
        (expect matches Some(k) ==> (r is NotFound || plan_kind(r) == Some(k))),
{
    proof {
        match expect {
            Some(k) => lemma_fetch_plan_kinds(pair_views(refs.branches@), pair_views(refs.tags@), rev, k),
            None => {},
        }
    }
    let want_branch = match expect {
        None => true,
        Some(k) => k == RevKind::Branch,
    };
    let want_tag = match expect {
        None => true,
        Some(k) => k == RevKind::Tag,
    };
    let want_commit = match expect {
        None => true,
        Some(k) => k == RevKind::Commit,
    };
    if want_branch && refs.has_branch(rev) {
        FetchPlan::Branch
    } else if want_tag && refs.has_tag(rev) {
        FetchPlan::Tag
    } else if want_commit && looks_like_oid(rev) {
        FetchPlan::Commit { direct: rev.as_bytes().len() == 40 }
    } else {
        FetchPlan::NotFound
    }
}

/// Fetching a commit id: the scan of all heads and tags is needed when the
/// direct fetch by id did not happen or failed and the commit is still
/// not present locally.
pub fn needs_scan(direct_ok: bool, present: bool) -> (r: bool)
    ensures
        r == (!direct_ok && !present),
{
    !direct_ok && !present
}

/// The refspec that fetches branch `rev` into `pin`.
pub fn branch_refspec(rev: &str, pin: &str) -> (r: String)
    ensures
        r@ == "+refs/heads/"@ + rev@ + ":"@ + pin@,
{
    let mut s = "+refs/heads/".to_owned();
    s.append(rev);
    s.append(":");
    s.append(pin);
    s
}

/// The refspec that fetches tag `rev` into `pin`.
pub fn tag_refspec(rev: &str, pin: &str) -> (r: String)
    ensures
        r@ == "+refs/tags/"@ + rev@ + ":"@ + pin@,
{
    let mut s = "+refs/tags/".to_owned();
    s.append(rev);
    s.append(":");
    s.append(pin);
    s
}

/// The refspec that fetches commit `rev` by id into `pin`.
pub fn commit_refspec(rev: &str, pin: &str) -> (r: String)
    ensures
        r@ == "+"@ + rev@ + ":"@ + pin@,
{
    let mut s = "+".to_owned();
    s.append(rev);
    s.append(":");
    s.append(pin);
    s
}

/// The revision expression that peels `rev` to a commit.
pub fn peel_to_commit(rev: &str) -> (r: String)
    ensures
        r@ == rev@ + "^{commit}"@,
{
    let mut s = rev.to_owned();
    s.append("^{commit}");
    s
}

/// The revision expression for the tree of `rev`.
pub fn peel_to_tree(rev: &str) -> (r: String)
    ensures
        r@ == rev@ + "^{tree}"@,
{
    let mut s = rev.to_owned();
    s.append("^{tree}");
    s
}

/// Where the commit scan (for a commit id no server hands out directly)
/// parks every head and tag.
pub open spec fn scan_prefix() -> Seq<char> {
    "refs/include/scan/"@
}

/// The refspecs of the commit scan.
pub fn scan_refspecs() -> (r: Vec<String>)
    ensures
        r@.len() == 2,
        r@[0]@ == "+refs/heads/*:refs/include/scan/heads/*"@,
        r@[1]@ == "+refs/tags/*:refs/include/scan/tags/*"@,
{
    let mut v = Vec::new();
    v.push("+refs/heads/*:refs/include/scan/heads/*".to_owned());
    v.push("+refs/tags/*:refs/include/scan/tags/*".to_owned());
    v
}

/// Is `name` one of the temporary refs of a commit scan?
pub fn is_scan_ref(name: &str) -> (r: bool)
    ensures
        r == starts_with(name@, scan_prefix()),
{
    let v = chars_of(name);
    let p = chars_of("refs/include/scan/");
    let r = matches_at(&v, &p, 0);
    proof {
        if r || starts_with(name@, scan_prefix()) {
            assert(v@.subrange(0, p@.len() as int) =~= v@.take(p@.len() as int));
        }
    }
    r
}

/// The error when `rev` is not what was asked for on `remote`.
pub fn fetch_failure_message(rev: &str, remote: &str, expect: Option<RevKind>) -> (r: String)
    ensures
        r@ == "'"@ + rev@ + (match expect {
            Some(k) => "' is not a "@ + spec_label(k),
            None => "' is not a branch, tag, or commit"@,
        }) + " on "@ + remote@,
{
    let mut s = "'".to_owned();
    s.append(rev);
    match expect {
        Some(k) => {
            s.append("' is not a ");
            s.append(k.label());
        },
        None => {
            s.append("' is not a branch, tag, or commit");
        },
    }
    s.append(" on ");
    s.append(remote);
    s
}

/// The branch a remote's HEAD names (`refs/heads/<branch>`), if it names
/// a branch.
pub fn branch_of_head_ref(name: &str) -> (r: Option<String>)
    ensures
        match r {
            Some(b) => strip_prefix(name@, heads_prefix()) == Some(b@),
            None => strip_prefix(name@, heads_prefix()) is None,
        },
{
    match strip_prefix_exec(&chars_of(name), &chars_of("refs/heads/")) {
        Some(b) => Some(string_of(&b)),
        None => None,
    }
}

/// Could the tracked revision be served by a remote advertising `refs`?
/// A branch or tag of that name, or something that looks like a commit id.
pub fn rev_known(refs: &RemoteRefs, rev: &str) -> (r: bool)
    ensures
        r == (has_name(pair_views(refs.branches@), rev@) || has_name(pair_views(refs.tags@), rev@)
            || spec_looks_like_oid(rev)),
{
    refs.has_branch(rev) || refs.has_tag(rev) || looks_like_oid(rev)
}

// -------------------------------------------------------- credentials --

/// The credential a transport is offered.
#[derive(Clone, Copy, Debug, PartialEq, Eq, Structural)]
pub enum CredentialChoice {
    /// Just a user name (default "git").
    Username,
    /// A key from the ssh agent.
    SshAgent,
    /// git's configured credential helpers.
    Helper,
    /// The default credential (e.g. negotiate).
    Default,
}

/// The credential chain: user name when only that is asked for, then the
/// ssh agent, then git's credential helpers (when a configuration is
/// available), then the default.
pub fn choose_credential(
    wants_username: bool,
    wants_ssh_key: bool,
    wants_user_pass: bool,
    has_config: bool,
) -> (r: CredentialChoice)
    ensures
        r == (if wants_username {
            CredentialChoice::Username
        } else if wants_ssh_key {
            CredentialChoice::SshAgent
        } else if wants_user_pass && has_config {
            CredentialChoice::Helper
        } else {
            CredentialChoice::Default
        }),
{
    if wants_username {
        CredentialChoice::Username
    } else if wants_ssh_key {
        CredentialChoice::SshAgent
    } else if wants_user_pass && has_config {
        CredentialChoice::Helper
    } else {
        CredentialChoice::Default
    }
}

} // verus!
