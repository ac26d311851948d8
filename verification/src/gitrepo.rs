//! The `.gitrepo` marker file.
//!
//! Marker files are byte-level compatible with git-subrepo: an INI file
//! with a single `[subrepo]` section and tab-indented `key = value` lines.
//! A directory vendored with git-include can therefore be operated on with
//! git-subrepo and vice versa.

use vstd::prelude::*;

use crate::text::{
    chars_eq, chars_of, copy_range, find_char_exec, is_trimmed, lines, split_lines, split_once,
    string_of, trim, trimmed, views, join_lines, plain_line, is_ws, trim_start, trim_end,
    lemma_lines_join, lemma_trim_keeps_first, lemma_trim_start_ws_prefix, lemma_trim_end_ws_suffix,
    lemma_find_char_from_props, find_char_from, find_from, find_from_exec,
};

verus! {

broadcast use vstd::string::group_string_axioms;

/// Name of the marker file inside an included directory.
pub const MARKER_FILE: &'static str = ".gitrepo";

/// Version of this tool, recorded in the markers it writes.
pub const VERSION: &'static str = "0.1.0";

/// Parsed contents of a `.gitrepo` marker file.
#[derive(Clone, Debug, PartialEq, Eq)]
pub struct GitRepoFile {
    /// URL (or remote name) of the upstream repository.
    pub remote: String,
    /// Upstream branch (or tag, or commit) being tracked.
    pub branch: String,
    /// Upstream commit the subdirectory was last synced to.
    pub commit: String,
    /// Commit in the host repository that was HEAD when the last
    /// git-include/git-subrepo commit for this directory was made.
    pub parent: Option<String>,
    /// Sync method ("merge" or "rebase" in git-subrepo; preserved as read).
    pub method: String,
    /// Version of the tool that last wrote the file (informational).
    pub cmdver: String,
}

/// The marker as character sequences.
pub struct MarkerView {
    pub remote: Seq<char>,
    pub branch: Seq<char>,
    pub commit: Seq<char>,
    pub parent: Option<Seq<char>>,
    pub method: Seq<char>,
    pub cmdver: Seq<char>,
}

pub open spec fn opt_str_view(o: Option<String>) -> Option<Seq<char>> {
    match o {
        Some(s) => Some(s@),
        None => None,
    }
}

impl View for GitRepoFile {
    type V = MarkerView;

    open spec fn view(&self) -> MarkerView {
        MarkerView {
            remote: self.remote@,
            branch: self.branch@,
            commit: self.commit@,
            parent: opt_str_view(self.parent),
            method: self.method@,
            cmdver: self.cmdver@,
        }
    }
}

/// Why a marker file could not be parsed: a required key is missing from
/// its `[subrepo]` section.
#[derive(Clone, Copy, Debug, PartialEq, Eq)]
pub enum MarkerError {
    MissingRemote,
    MissingBranch,
    MissingCommit,
}

impl MarkerError {
    /// The message shown to the user.
    pub fn message(&self) -> (r: String)
        ensures
            r@ == spec_marker_error_message(*self),
    {
        match self {
            MarkerError::MissingRemote => "marker file has no 'remote' key in [subrepo] section".to_owned(),
            MarkerError::MissingBranch => "marker file has no 'branch' key in [subrepo] section".to_owned(),
            MarkerError::MissingCommit => "marker file has no 'commit' key in [subrepo] section".to_owned(),
        }
    }
}

pub open spec fn spec_marker_error_message(e: MarkerError) -> Seq<char> {
    match e {
        MarkerError::MissingRemote => "marker file has no 'remote' key in [subrepo] section"@,
        MarkerError::MissingBranch => "marker file has no 'branch' key in [subrepo] section"@,
        MarkerError::MissingCommit => "marker file has no 'commit' key in [subrepo] section"@,
    }
}

// ------------------------------------------------------------- parsing --

/// What the parser has collected after some lines.
pub struct ParseState {
    pub in_section: bool,
    pub remote: Option<Seq<char>>,
    pub branch: Option<Seq<char>>,
    pub commit: Option<Seq<char>>,
    pub parent: Option<Seq<char>>,
    pub method: Option<Seq<char>>,
    pub cmdver: Option<Seq<char>>,
}

pub open spec fn initial_state() -> ParseState {
    ParseState {
        in_section: false,
        remote: None,
        branch: None,
        commit: None,
        parent: None,
        method: None,
        cmdver: None,
    }
}

/// The state after a `key = value` line of the `[subrepo]` section.
pub open spec fn record_key(st: ParseState, key: Seq<char>, value: Seq<char>) -> ParseState {
    if key == "remote"@ {
        ParseState { remote: Some(value), ..st }
    } else if key == "branch"@ {
        ParseState { branch: Some(value), ..st }
    } else if key == "commit"@ {
        ParseState { commit: Some(value), ..st }
    } else if key == "parent"@ {
        ParseState { parent: Some(value), ..st }
    } else if key == "method"@ {
        ParseState { method: Some(value), ..st }
    } else if key == "cmdver"@ {
        ParseState { cmdver: Some(value), ..st }
    } else {
        st
    }
}

/// One line of input: blank lines and `;`/`#` comments are skipped, a
/// `[...]` header opens or closes the `[subrepo]` section, and inside it
/// `key = value` lines (whitespace trimmed around both) are recorded.
/// Lines without `=` and unknown keys are ignored.
pub open spec fn parse_line(st: ParseState, line: Seq<char>) -> ParseState {
    let l = trim(line);
    if l.len() == 0 || l[0] == ';' || l[0] == '#' {
        st
    } else if l[0] == '[' {
        ParseState { in_section: l == "[subrepo]"@, ..st }
    } else if !st.in_section {
        st
    } else {
        match split_once(l, '=') {
            None => st,
            Some((k, v)) => record_key(st, trim(k), trim(v)),
        }
    }
}

pub open spec fn parse_lines(st: ParseState, ls: Seq<Seq<char>>) -> ParseState
    decreases ls.len(),
{
    if ls.len() == 0 {
        st
    } else {
        parse_line(parse_lines(st, ls.drop_last()), ls.last())
    }
}

/// A recorded parent of "" or "none" means no parent.
pub open spec fn spec_parent(p: Option<Seq<char>>) -> Option<Seq<char>> {
    match p {
        Some(v) => if v.len() == 0 || v == "none"@ {
            None
        } else {
            Some(v)
        },
        None => None,
    }
}

/// The result of parsing a marker file.
pub open spec fn spec_parse(input: Seq<char>) -> Result<MarkerView, MarkerError> {
    let st = parse_lines(initial_state(), lines(input));
    if st.remote is None {
        Err(MarkerError::MissingRemote)
    } else if st.branch is None {
        Err(MarkerError::MissingBranch)
    } else if st.commit is None {
        Err(MarkerError::MissingCommit)
    } else {
        Ok(
            MarkerView {
                remote: st.remote->0,
                branch: st.branch->0,
                commit: st.commit->0,
                parent: spec_parent(st.parent),
                method: match st.method {
                    Some(m) => m,
                    None => "merge"@,
                },
                cmdver: match st.cmdver {
                    Some(c) => c,
                    None => Seq::empty(),
                },
            },
        )
    }
}

// ------------------------------------------------------- serialization --

/// The comment block that opens every marker file.
pub open spec fn header_lines() -> Seq<Seq<char>> {
    seq![
        "; DO NOT EDIT (unless you know what you are doing)"@,
        ";"@,
        "; This subdirectory is a git \"subrepo\", and this file is maintained by the"@,
        "; git-include command (compatible with git-subrepo)."@,
        "; See https://github.com/flova/git-include"@,
        ";"@,
    ]
}

/// A tab-indented `key = value` line.
pub open spec fn kv_line(key: Seq<char>, value: Seq<char>) -> Seq<char> {
    "\t"@ + key + " = "@ + value
}

/// The lines of a serialized marker, in git-subrepo's key order.
pub open spec fn marker_lines(f: MarkerView) -> Seq<Seq<char>> {
    let head = header_lines() + seq![
        "[subrepo]"@,
        kv_line("remote"@, f.remote),
        kv_line("branch"@, f.branch),
        kv_line("commit"@, f.commit),
    ];
    let mid = match f.parent {
        Some(p) => seq![kv_line("parent"@, p)],
        None => Seq::empty(),
    };
    head + mid + seq![kv_line("method"@, f.method), kv_line("cmdver"@, f.cmdver)]
}

pub open spec fn spec_serialize(f: MarkerView) -> Seq<char> {
    join_lines(marker_lines(f))
}

/// A value that a marker line carries back unchanged: one line, with no
/// whitespace at either end.
pub open spec fn storable(v: Seq<char>) -> bool {
    &&& is_trimmed(v)
    &&& forall|k: int| 0 <= k < v.len() ==> v[k] != '\n'
}

/// The markers that `serialize` writes in a form `parse` reads back
/// unchanged.
pub open spec fn roundtrips(f: MarkerView) -> bool {
    &&& storable(f.remote)
    &&& storable(f.branch)
    &&& storable(f.commit)
    &&& storable(f.method)
    &&& storable(f.cmdver)
    &&& match f.parent {
        Some(p) => storable(p) && p.len() > 0 && p != "none"@,
        None => true,
    }
}

// ---------------------------------------------------------- executable --

/// What the parser holds while reading lines.
struct ParseCursor {
    in_section: bool,
    remote: Option<Vec<char>>,
    branch: Option<Vec<char>>,
    commit: Option<Vec<char>>,
    parent: Option<Vec<char>>,
    method: Option<Vec<char>>,
    cmdver: Option<Vec<char>>,
}

spec fn opt_chars(o: Option<Vec<char>>) -> Option<Seq<char>> {
    match o {
        Some(v) => Some(v@),
        None => None,
    }
}

impl View for ParseCursor {
    type V = ParseState;

    closed spec fn view(&self) -> ParseState {
        ParseState {
            in_section: self.in_section,
            remote: opt_chars(self.remote),
            branch: opt_chars(self.branch),
            commit: opt_chars(self.commit),
            parent: opt_chars(self.parent),
            method: opt_chars(self.method),
            cmdver: opt_chars(self.cmdver),
        }
    }
}

fn record_key_exec(st: ParseCursor, key: &Vec<char>, value: Vec<char>) -> (r: ParseCursor)
    ensures
        r@ == record_key(st@, key@, value@),
{
    let mut st = st;
    if chars_eq(key, &chars_of("remote")) {
        st.remote = Some(value);
    } else if chars_eq(key, &chars_of("branch")) {
        st.branch = Some(value);
    } else if chars_eq(key, &chars_of("commit")) {
        st.commit = Some(value);
    } else if chars_eq(key, &chars_of("parent")) {
        st.parent = Some(value);
    } else if chars_eq(key, &chars_of("method")) {
        st.method = Some(value);
    } else if chars_eq(key, &chars_of("cmdver")) {
        st.cmdver = Some(value);
    }
    st
}

fn parse_line_exec(st: ParseCursor, line: &Vec<char>) -> (r: ParseCursor)
    ensures
        r@ == parse_line(st@, line@),
{
    let l = trimmed(line);
    if l.len() == 0 || l[0] == ';' || l[0] == '#' {
        return st;
    }
    if l[0] == '[' {
        let mut st = st;
        st.in_section = chars_eq(&l, &chars_of("[subrepo]"));
        return st;
    }
    if !st.in_section {
        return st;
    }
    match find_char_exec(&l, '=', 0) {
        None => st,
        Some(j) => {
            proof {
                lemma_find_char_from_props(l@, '=', 0);
            }
            let key = trimmed(&copy_range(&l, 0, j));
            let value = trimmed(&copy_range(&l, j + 1, l.len()));
            assert(l@.take(j as int) =~= l@.subrange(0, j as int));
            assert(l@.skip(j + 1) =~= l@.subrange(j + 1, l@.len() as int));
            record_key_exec(st, &key, value)
        },
    }
}

fn opt_string(o: Option<Vec<char>>) -> (r: Option<String>)
    ensures
        opt_str_view(r) == opt_chars(o),
{
    match o {
        Some(v) => Some(string_of(&v)),
        None => None,
    }
}

/// A tab-indented `key = value` line.
fn kv_string(key: &str, value: &str) -> (r: String)
    ensures
        r@ == kv_line(key@, value@),
{
    let mut s = "\t".to_owned();
    s.append(key);
    s.append(" = ");
    s.append(value);
    s
}

/// The character sequences held by a vector of strings.
pub open spec fn string_views(v: Seq<String>) -> Seq<Seq<char>> {
    v.map_values(|s: String| s@)
}

/// Each string followed by a newline.
fn join_strings(ls: &Vec<String>) -> (r: String)
    ensures
        r@ == join_lines(string_views(ls@)),
{
    let mut out = String::new();
    let n = ls.len();
    for i in 0..n
        invariant
            n == ls@.len(),
            out@ == join_lines(string_views(ls@).take(i as int)),
    {
        assert(string_views(ls@).take(i + 1).drop_last() =~= string_views(ls@).take(i as int));
        out.append(ls[i].as_str());
        out.append("\n");
        proof {
            reveal_strlit("\n");
        }
        assert(out@ =~= join_lines(string_views(ls@).take(i + 1)));
    }
    assert(string_views(ls@).take(n as int) =~= string_views(ls@));
    out
}

impl GitRepoFile {
    /// A marker for a new include, with method "merge" and this tool's
    /// version.
    pub fn new(remote: &str, branch: &str, commit: &str, parent: Option<&str>) -> (r: Self)
        ensures
            r@.remote == remote@,
            r@.branch == branch@,
            r@.commit == commit@,
            r@.parent == (match parent {
                Some(p) => Some(p@),
                None => None::<Seq<char>>,
            }),
            r@.method == "merge"@,
            r@.cmdver == VERSION@,
    {
        GitRepoFile {
            remote: remote.to_owned(),
            branch: branch.to_owned(),
            commit: commit.to_owned(),
            parent: match parent {
                Some(p) => Some(p.to_owned()),
                None => None,
            },
            method: "merge".to_owned(),
            cmdver: VERSION.to_owned(),
        }
    }

    /// Parse the marker file format. Accepts anything git-subrepo writes,
    /// and is lenient about whitespace so hand-edited files still parse.
    pub fn parse(input: &str) -> (r: Result<Self, MarkerError>)
        ensures
            match r {
                Ok(f) => spec_parse(input@) == Ok::<MarkerView, MarkerError>(f@),
                Err(e) => spec_parse(input@) == Err::<MarkerView, MarkerError>(e),
            },
    {
        let chars = chars_of(input);
        let ls = split_lines(&chars);
        let mut st = ParseCursor {
            in_section: false,
            remote: None,
            branch: None,
            commit: None,
            parent: None,
            method: None,
            cmdver: None,
        };
        let n = ls.len();
        for i in 0..n
            invariant
                n == ls@.len(),
                views(ls@) == lines(input@),
                st@ == parse_lines(initial_state(), views(ls@).take(i as int)),
        {
            assert(views(ls@).take(i + 1).drop_last() =~= views(ls@).take(i as int));
            st = parse_line_exec(st, &ls[i]);
        }
        assert(views(ls@).take(n as int) =~= views(ls@));
        let remote = match st.remote {
            Some(v) => string_of(&v),
            None => return Err(MarkerError::MissingRemote),
        };
        let branch = match st.branch {
            Some(v) => string_of(&v),
            None => return Err(MarkerError::MissingBranch),
        };
        let commit = match st.commit {
            Some(v) => string_of(&v),
            None => return Err(MarkerError::MissingCommit),
        };
        let parent = match st.parent {
            Some(v) => {
                if v.len() == 0 || chars_eq(&v, &chars_of("none")) {
                    None
                } else {
                    Some(string_of(&v))
                }
            },
            None => None,
        };
        let method = match st.method {
            Some(v) => string_of(&v),
            None => "merge".to_owned(),
        };
        let cmdver = match st.cmdver {
            Some(v) => string_of(&v),
            None => String::new(),
        };
        Ok(GitRepoFile { remote, branch, commit, parent, method, cmdver })
    }

    /// Serialize in git-subrepo's exact layout (tab indentation, same key
    /// order, same comment header style).
    pub fn serialize(&self) -> (r: String)
        ensures
            r@ == spec_serialize(self@),
    {
        let mut ls: Vec<String> = Vec::new();
        ls.push("; DO NOT EDIT (unless you know what you are doing)".to_owned());
        ls.push(";".to_owned());
        ls.push(
            "; This subdirectory is a git \"subrepo\", and this file is maintained by the".to_owned(),
        );
        ls.push("; git-include command (compatible with git-subrepo).".to_owned());
        ls.push("; See https://github.com/flova/git-include".to_owned());
        ls.push(";".to_owned());
        ls.push("[subrepo]".to_owned());
        ls.push(kv_string("remote", self.remote.as_str()));
        ls.push(kv_string("branch", self.branch.as_str()));
        ls.push(kv_string("commit", self.commit.as_str()));
        if let Some(parent) = &self.parent {
            ls.push(kv_string("parent", parent.as_str()));
        }
        ls.push(kv_string("method", self.method.as_str()));
        ls.push(kv_string("cmdver", self.cmdver.as_str()));
        assert(string_views(ls@) =~= marker_lines(self@));
        join_strings(&ls)
    }
}

// --------------------------------------------------- subdirectory names --

/// Why a subdirectory cannot hold an include.
#[derive(Clone, Copy, Debug, PartialEq, Eq)]
pub enum SubdirError {
    /// Empty or `.`: the repository root itself.
    RepositoryRoot,
    /// Absolute, or contains `..`.
    NotRelative,
}

/// Which subdirectory strings are safe to use as an include prefix.
pub open spec fn spec_validate_subdir(s: Seq<char>) -> Result<(), SubdirError> {
    if s.len() == 0 || s == "."@ {
        Err(SubdirError::RepositoryRoot)
    } else if s[0] == '/' || find_from(s, ".."@, 0) is Some {
        Err(SubdirError::NotRelative)
    } else {
        Ok(())
    }
}

/// Validate that a subdirectory string is safe to use as an include prefix.
pub fn validate_subdir(subdir: &str) -> (r: Result<(), SubdirError>)
    ensures
        r == spec_validate_subdir(subdir@),
{
    let v = chars_of(subdir);
    if v.len() == 0 || chars_eq(&v, &chars_of(".")) {
        return Err(SubdirError::RepositoryRoot);
    }
    if v[0] == '/' || find_from_exec(&v, &chars_of(".."), 0).is_some() {
        return Err(SubdirError::NotRelative);
    }
    Ok(())
}

impl SubdirError {
    /// The message shown to the user for `subdir`.
    pub fn message(&self, subdir: &str) -> (r: String)
        ensures
            r@ == (match self {
                SubdirError::RepositoryRoot => "subdirectory must not be the repository root"@,
                SubdirError::NotRelative => "subdirectory must be a relative path inside the repository (got '"@
                    + subdir@ + "')"@,
            }),
    {
        match self {
            SubdirError::RepositoryRoot => "subdirectory must not be the repository root".to_owned(),
            SubdirError::NotRelative => {
                let mut m = "subdirectory must be a relative path inside the repository (got '".to_owned();
                m.append(subdir);
                m.append("')");
                m
            },
        }
    }
}

// -------------------------------------------------------------- laws --

/// A line whose trimmed form is a `;` comment.
spec fn comment_line(l: Seq<char>) -> bool {
    trim(l).len() > 0 && trim(l)[0] == ';'
}

proof fn lemma_parse_lines_comments(st: ParseState, ls: Seq<Seq<char>>)
    requires
        forall|i: int| 0 <= i < ls.len() ==> comment_line(#[trigger] ls[i]),
    ensures
        parse_lines(st, ls) == st,
    decreases ls.len(),
{
    if ls.len() > 0 {
        assert(forall|i: int| 0 <= i < ls.len() - 1 ==> ls.drop_last()[i] == ls[i]);
        lemma_parse_lines_comments(st, ls.drop_last());
        assert(comment_line(ls[ls.len() - 1]));
    }
}

proof fn lemma_parse_lines_append(st: ParseState, a: Seq<Seq<char>>, b: Seq<Seq<char>>)
    ensures
        parse_lines(st, a + b) == parse_lines(parse_lines(st, a), b),
    decreases b.len(),
{
    if b.len() == 0 {
        assert(a + b =~= a);
    } else {
        assert((a + b).drop_last() =~= a + b.drop_last());
        lemma_parse_lines_append(st, a, b.drop_last());
    }
}

proof fn lemma_comment(l: Seq<char>)
    requires
        l.len() > 0,
        l[0] == ';',
    ensures
        comment_line(l),
{
    lemma_trim_keeps_first(l);
}

/// Facts about a key literal that make its line parse back.
spec fn good_key(k: Seq<char>) -> bool {
    &&& k.len() > 0
    &&& !is_ws(k[0]) && !is_ws(k.last())
    &&& k[0] != ';' && k[0] != '#' && k[0] != '['
    &&& forall|i: int| 0 <= i < k.len() ==> k[i] != '=' && k[i] != '\n'
}

proof fn lemma_kv_plain(k: Seq<char>, v: Seq<char>)
    requires
        good_key(k),
        storable(v),
    ensures
        plain_line(kv_line(k, v)),
{
    reveal_strlit("\t");
    reveal_strlit(" = ");
    let l = kv_line(k, v);
    assert forall|i: int| 0 <= i < l.len() implies l[i] != '\n' by {
        if i < 1 + k.len() {
        } else if i < 1 + k.len() + 3 {
        } else {
            assert(l[i] == v[i - (1 + k.len() + 3)]);
        }
    }
    if v.len() > 0 {
        assert(l.last() == v.last());
    }
}

proof fn lemma_kv_parse(st: ParseState, k: Seq<char>, v: Seq<char>)
    requires
        st.in_section,
        good_key(k),
        storable(v),
    ensures
        parse_line(st, kv_line(k, v)) == record_key(st, k, v),
{
    reveal_strlit("\t");
    reveal_strlit(" = ");
    let tab = "\t"@;
    let body = k + " = "@ + v;
    assert(kv_line(k, v) =~= tab + body);
    lemma_trim_start_ws_prefix(tab, body);
    assert(body[0] == k[0]);
    assert(trim_start(body) == body);
    let eq = k + seq![' ', '='];
    let rest = if v.len() > 0 { seq![' '] + v } else { Seq::<char>::empty() };
    if v.len() > 0 {
        assert(body =~= eq + rest);
        assert(body.last() == v.last());
        assert(trim_end(body) == body);
    } else {
        assert(body =~= eq + seq![' ']);
        lemma_trim_end_ws_suffix(eq, seq![' ']);
        assert(eq.last() == '=');
        assert(trim_end(eq) == eq);
        assert(eq =~= eq + rest);
    }
    let l = eq + rest;
    assert(trim(kv_line(k, v)) == l);
    assert(l[0] == k[0]);
    // The first '=' follows the key and a space.
    assert forall|m: int| 0 <= m < k.len() + 1 implies l[m] != '=' by {
        if m < k.len() {
            assert(l[m] == k[m]);
        }
    }
    assert(l[k.len() as int + 1] == '=');
    lemma_find_char_from_props(l, '=', 0);
    assert(find_char_from(l, '=', 0) == Some(k.len() as int + 1));
    assert(l.take(k.len() as int + 1) =~= k + seq![' ']);
    assert(l.skip(k.len() as int + 2) =~= rest);
    lemma_trim_end_ws_suffix(k, seq![' ']);
    assert(trim(k + seq![' ']) == k) by {
        assert((k + seq![' '])[0] == k[0]);
    }
    if v.len() > 0 {
        lemma_trim_start_ws_prefix(seq![' '], v);
        assert(trim(rest) == v);
    } else {
        assert(trim(rest) =~= v);
    }
}

proof fn lemma_parse_lines_take(st: ParseState, ls: Seq<Seq<char>>, k: int)
    requires
        0 <= k < ls.len(),
    ensures
        parse_lines(st, ls.take(k + 1)) == parse_line(parse_lines(st, ls.take(k)), ls[k]),
{
    assert(ls.take(k + 1).drop_last() =~= ls.take(k));
}

/// Writing a marker and reading it back gives the same marker, for every
/// marker whose values survive the line format (see `roundtrips`).
pub proof fn lemma_serialize_parse_roundtrip(f: MarkerView)
    requires
        roundtrips(f),
    ensures
        spec_parse(spec_serialize(f)) == Ok::<MarkerView, MarkerError>(f),
{
    reveal_strlit("; DO NOT EDIT (unless you know what you are doing)");
    reveal_strlit(";");
    reveal_strlit("; This subdirectory is a git \"subrepo\", and this file is maintained by the");
    reveal_strlit("; git-include command (compatible with git-subrepo).");
    reveal_strlit("; See https://github.com/flova/git-include");
    reveal_strlit("[subrepo]");
    reveal_strlit("remote");
    reveal_strlit("branch");
    reveal_strlit("commit");
    reveal_strlit("parent");
    reveal_strlit("method");
    reveal_strlit("cmdver");
    reveal_strlit("none");
    reveal_strlit("merge");
    let hs = header_lines();
    let ls = marker_lines(f);
    // Every line survives `lines`.
    assert forall|i: int| 0 <= i < hs.len() implies plain_line(#[trigger] hs[i]) && comment_line(
        hs[i],
    ) by {
        lemma_comment(hs[i]);
    }
    assert(good_key("remote"@));
    assert(good_key("branch"@));
    assert(good_key("commit"@));
    assert(good_key("parent"@));
    assert(good_key("method"@));
    assert(good_key("cmdver"@));
    lemma_kv_plain("remote"@, f.remote);
    lemma_kv_plain("branch"@, f.branch);
    lemma_kv_plain("commit"@, f.commit);
    lemma_kv_plain("method"@, f.method);
    lemma_kv_plain("cmdver"@, f.cmdver);
    if let Some(p) = f.parent {
        lemma_kv_plain("parent"@, p);
    }
    assert(plain_line("[subrepo]"@));
    assert forall|i: int| 0 <= i < ls.len() implies plain_line(#[trigger] ls[i]) by {
        if i < hs.len() {
            assert(ls[i] == hs[i]);
        }
    }
    lemma_lines_join(ls);
    // The header is all comments.
    let tail = ls.skip(hs.len() as int);
    assert(ls =~= hs + tail);
    lemma_parse_lines_append(initial_state(), hs, tail);
    lemma_parse_lines_comments(initial_state(), hs);
    // Then the section header and one line per key.
    let s0 = initial_state();
    trim_subrepo();
    let s1 = ParseState { in_section: true, ..s0 };
    assert(parse_line(s0, "[subrepo]"@) == s1);
    let s2 = record_key(s1, "remote"@, f.remote);
    let s3 = record_key(s2, "branch"@, f.branch);
    let s4 = record_key(s3, "commit"@, f.commit);
    lemma_kv_parse(s1, "remote"@, f.remote);
    lemma_kv_parse(s2, "branch"@, f.branch);
    lemma_kv_parse(s3, "commit"@, f.commit);
    let s5 = match f.parent {
        Some(p) => record_key(s4, "parent"@, p),
        None => s4,
    };
    if let Some(p) = f.parent {
        lemma_kv_parse(s4, "parent"@, p);
    }
    let s6 = record_key(s5, "method"@, f.method);
    let s7 = record_key(s6, "cmdver"@, f.cmdver);
    lemma_kv_parse(s5, "method"@, f.method);
    lemma_kv_parse(s6, "cmdver"@, f.cmdver);
    let kvs = seq![
        kv_line("remote"@, f.remote),
        kv_line("branch"@, f.branch),
        kv_line("commit"@, f.commit),
    ];
    let mid = match f.parent {
        Some(p) => seq![kv_line("parent"@, p)],
        None => Seq::empty(),
    };
    let last = seq![kv_line("method"@, f.method), kv_line("cmdver"@, f.cmdver)];
    assert(tail =~= seq!["[subrepo]"@] + kvs + mid + last);
    lemma_parse_lines_append(s0, seq!["[subrepo]"@] + kvs + mid, last);
    lemma_parse_lines_append(s0, seq!["[subrepo]"@] + kvs, mid);
    lemma_parse_lines_append(s0, seq!["[subrepo]"@], kvs);
    let one = seq!["[subrepo]"@];
    assert(one.drop_last() =~= Seq::<Seq<char>>::empty());
    assert(parse_lines(s0, Seq::<Seq<char>>::empty()) == s0);
    assert(one.last() == "[subrepo]"@);
    assert(parse_lines(s0, one) == s1);
    let k1 = kvs.take(1);
    let k2 = kvs.take(2);
    assert(kvs.take(0) =~= Seq::<Seq<char>>::empty());
    lemma_parse_lines_take(s1, kvs, 0);
    lemma_parse_lines_take(s1, kvs, 1);
    lemma_parse_lines_take(s1, kvs, 2);
    assert(kvs.take(3) =~= kvs);
    assert(parse_lines(s1, kvs) == s4);
    if let Some(p) = f.parent {
        assert(mid.drop_last() =~= Seq::<Seq<char>>::empty());
        assert(parse_lines(s4, Seq::<Seq<char>>::empty()) == s4);
        assert(mid.last() == kv_line("parent"@, p));
        assert(parse_lines(s4, mid) == s5);
    } else {
        assert(parse_lines(s4, mid) == s5);
    }
    assert(last.take(0) =~= Seq::<Seq<char>>::empty());
    lemma_parse_lines_take(s5, last, 0);
    lemma_parse_lines_take(s5, last, 1);
    assert(last.take(2) =~= last);
    assert(parse_lines(s5, last) == s7);
    assert(parse_lines(initial_state(), ls) == s7);
    assert(spec_parse(spec_serialize(f)) == Ok::<MarkerView, MarkerError>(f));
}

proof fn trim_subrepo()
    ensures
        trim("[subrepo]"@) == "[subrepo]"@,
        "[subrepo]"@[0] == '[',
{
    reveal_strlit("[subrepo]");
}

} // verus!
