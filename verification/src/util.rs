//! Small string helpers shared by the commands.

use vstd::prelude::*;
use vstd::string::StringSliceAdditionalSpecFns;
use vstd::utf8::is_char_boundary;

use crate::text::{chars_of, ends_with, find_from, find_from_exec, lemma_find_from_props, starts_with, string_of};

verus! {

/// The number of bytes kept by `short`: seven, or fewer for shorter input.
pub open spec fn short_len(bytes: Seq<u8>) -> int {
    if bytes.len() < 7 { bytes.len() as int } else { 7 }
}

/// The abbreviated form of a commit id: its first seven bytes (the whole
/// string when it is shorter).
pub fn short(sha: &str) -> (r: &str)
    requires
        is_char_boundary(sha.spec_bytes(), short_len(sha.spec_bytes())),
    ensures
        r.spec_bytes() == sha.spec_bytes().take(short_len(sha.spec_bytes())),
{
    let len: usize = sha.as_bytes().len();
    let n: usize = if len < 7 { len } else { 7 };
    let (head, _tail) = sha.split_at(n);
    head
}

// ---------------------------------------------------------------- pins --

pub open spec fn is_ascii_alnum(c: char) -> bool {
    ('0' <= c && c <= '9') || ('a' <= c && c <= 'z') || ('A' <= c && c <= 'Z')
}

/// Characters a pin keeps from the subdirectory name.
pub open spec fn pin_keeps(c: char) -> bool {
    is_ascii_alnum(c) || c == '/' || c == '-' || c == '_' || c == '.'
}

/// Characters of the ref-name component of a pin.
pub open spec fn pin_name_char(c: char) -> bool {
    is_ascii_alnum(c) || c == '-' || c == '_' || c == '.'
}

/// Every character outside the kept set becomes `-`.
pub open spec fn sanitize(s: Seq<char>) -> Seq<char> {
    s.map_values(|c: char| if pin_keeps(c) { c } else { '-' })
}

/// One step of flattening: the output so far and whether a `/` is
/// pending between two non-empty components.
pub open spec fn flatten_step(st: (Seq<char>, bool), c: char) -> (Seq<char>, bool) {
    if c == '/' {
        (st.0, st.0.len() > 0)
    } else if st.1 {
        (st.0 + seq!['-', '-', c], false)
    } else {
        (st.0.push(c), false)
    }
}

pub open spec fn flatten_prefix(s: Seq<char>, n: int) -> (Seq<char>, bool)
    decreases n,
{
    if n <= 0 {
        (Seq::empty(), false)
    } else {
        flatten_step(flatten_prefix(s, n - 1), s[n - 1])
    }
}

/// The non-empty `/`-separated components of `s`, joined with `--`.
pub open spec fn flatten(s: Seq<char>) -> Seq<char> {
    flatten_prefix(s, s.len() as int).0
}

pub open spec fn dot_dot() -> Seq<char> {
    seq!['.', '.']
}

/// `s` from `i` on with every `..` (left to right, non-overlapping)
/// replaced by `-.`.
pub open spec fn replace_dots_from(s: Seq<char>, i: int) -> Seq<char>
    decreases s.len() - i,
{
    if i < 0 || i >= s.len() {
        Seq::empty()
    } else if i + 1 < s.len() && s[i] == '.' && s[i + 1] == '.' {
        seq!['-', '.'] + replace_dots_from(s, i + 2)
    } else {
        seq![s[i]] + replace_dots_from(s, i + 1)
    }
}

pub open spec fn count_dots(s: Seq<char>) -> nat
    decreases s.len(),
{
    if s.len() == 0 {
        0
    } else {
        count_dots(s.drop_last()) + if s.last() == '.' { 1nat } else { 0nat }
    }
}

/// `..` occurs at index `i` of `s`.
pub open spec fn dots_at(s: Seq<char>, i: int) -> bool {
    0 <= i && i + 1 < s.len() && s[i] == '.' && s[i + 1] == '.'
}

pub open spec fn has_dot_dot(s: Seq<char>) -> bool {
    exists|i: int| #[trigger] dots_at(s, i)
}

/// Replace `..` by `-.` until none is left.
pub open spec fn dedot(s: Seq<char>) -> Seq<char>
    decreases count_dots(s),
{
    if has_dot_dot(s) {
        proof {
            lemma_replace_dots_fewer(s);
        }
        dedot(replace_dots_from(s, 0))
    } else {
        s
    }
}

/// The ref-name component of a pin.
pub open spec fn pin_name(subdir: Seq<char>) -> Seq<char> {
    let n = dedot(flatten(sanitize(subdir)));
    let n = if n.len() > 0 && n[0] == '.' { seq!['-'] + n } else { n };
    if (n.len() > 0 && n.last() == '.') || ends_with(n, seq!['.', 'l', 'o', 'c', 'k']) {
        n.push('-')
    } else {
        n
    }
}

pub open spec fn pin_prefix() -> Seq<char> {
    seq!['r', 'e', 'f', 's', '/', 'i', 'n', 'c', 'l', 'u', 'd', 'e', '/']
}

pub open spec fn spec_pin_ref(subdir: Seq<char>) -> Seq<char> {
    pin_prefix() + pin_name(subdir)
}

/// A valid single ref component: only ref-safe characters, no `..`, no
/// leading `.`, no trailing `.` or `.lock`.
pub open spec fn valid_pin_name(n: Seq<char>) -> bool {
    &&& forall|i: int| 0 <= i < n.len() ==> pin_name_char(#[trigger] n[i])
    &&& !has_dot_dot(n)
    &&& !(n.len() > 0 && n[0] == '.')
    &&& !(n.len() > 0 && n.last() == '.')
    &&& !ends_with(n, seq!['.', 'l', 'o', 'c', 'k'])
}

proof fn lemma_count_dots_append(a: Seq<char>, b: Seq<char>)
    ensures
        count_dots(a + b) == count_dots(a) + count_dots(b),
    decreases b.len(),
{
    if b.len() == 0 {
        assert(a + b =~= a);
    } else {
        assert((a + b).drop_last() =~= a + b.drop_last());
        lemma_count_dots_append(a, b.drop_last());
    }
}

proof fn lemma_count_dots_skip(s: Seq<char>, i: int)
    requires
        0 <= i < s.len(),
    ensures
        count_dots(s.skip(i)) == count_dots(seq![s[i]]) + count_dots(s.skip(i + 1)),
{
    assert(s.skip(i) =~= seq![s[i]] + s.skip(i + 1));
    lemma_count_dots_append(seq![s[i]], s.skip(i + 1));
}

proof fn lemma_replace_dots_count(s: Seq<char>, i: int)
    requires
        0 <= i <= s.len(),
    ensures
        count_dots(replace_dots_from(s, i)) <= count_dots(s.skip(i)),
        (exists|k: int| i <= k && #[trigger] dots_at(s, k)) ==> count_dots(
            replace_dots_from(s, i),
        ) < count_dots(s.skip(i)),
    decreases s.len() - i,
{
    if i == s.len() {
        assert(s.skip(i) =~= Seq::<char>::empty());
    } else if i + 1 < s.len() && s[i] == '.' && s[i + 1] == '.' {
        lemma_replace_dots_count(s, i + 2);
        lemma_count_dots_skip(s, i);
        lemma_count_dots_skip(s, i + 1);
        assert(count_dots(Seq::<char>::empty()) == 0);
        assert(count_dots(seq!['.']) == 1) by {
            assert(seq!['.'].drop_last() =~= Seq::<char>::empty());
        }
        assert(count_dots(seq!['-']) == 0) by {
            assert(seq!['-'].drop_last() =~= Seq::<char>::empty());
        }
        assert(count_dots(seq!['-', '.']) == 1) by {
            assert(seq!['-', '.'].drop_last() =~= seq!['-']);
        }
        lemma_count_dots_append(seq!['-', '.'], replace_dots_from(s, i + 2));
    } else {
        lemma_replace_dots_count(s, i + 1);
        lemma_count_dots_skip(s, i);
        lemma_count_dots_append(seq![s[i]], replace_dots_from(s, i + 1));
        if exists|k: int| i <= k && #[trigger] dots_at(s, k) {
            let k = choose|k: int| i <= k && #[trigger] dots_at(s, k);
            assert(k != i);
            assert(i + 1 <= k && dots_at(s, k));
        }
    }
}

pub proof fn lemma_replace_dots_fewer(s: Seq<char>)
    requires
        has_dot_dot(s),
    ensures
        count_dots(replace_dots_from(s, 0)) < count_dots(s),
{
    lemma_replace_dots_count(s, 0);
    assert(s.skip(0) =~= s);
    let k = choose|k: int| #[trigger] dots_at(s, k);
    assert(0 <= k && dots_at(s, k));
}

// --------------------------------------------------- executable pins --

fn sanitize_exec(s: &[char]) -> (r: Vec<char>)
    ensures
        r@ == sanitize(s@),
{
    let mut out: Vec<char> = Vec::new();
    let n = s.len();
    for i in 0..n
        invariant
            n == s@.len(),
            out@ == sanitize(s@.take(i as int)),
    {
        let c = s[i];
        let keep = ('0' <= c && c <= '9') || ('a' <= c && c <= 'z') || ('A' <= c && c <= 'Z') || c
            == '/' || c == '-' || c == '_' || c == '.';
        out.push(if keep { c } else { '-' });
        assert(sanitize(s@.take(i + 1)) =~= sanitize(s@.take(i as int)).push(
            if keep { c } else { '-' },
        ));
    }
    assert(s@.take(n as int) =~= s@);
    out
}

fn flatten_exec(s: &[char]) -> (r: Vec<char>)
    ensures
        r@ == flatten(s@),
{
    let mut out: Vec<char> = Vec::new();
    let mut pending = false;
    let n = s.len();
    for i in 0..n
        invariant
            n == s@.len(),
            (out@, pending) == flatten_prefix(s@, i as int),
    {
        let c = s[i];
        if c == '/' {
            pending = out.len() > 0;
        } else if pending {
            out.push('-');
            out.push('-');
            out.push(c);
            pending = false;
        } else {
            out.push(c);
        }
        assert((out@, pending) =~~= flatten_step(flatten_prefix(s@, i as int), c));
    }
    out
}

fn replace_dots_exec(s: &[char]) -> (r: Vec<char>)
    ensures
        r@ == replace_dots_from(s@, 0),
{
    let mut out: Vec<char> = Vec::new();
    let n = s.len();
    let mut i: usize = 0;
    while i < n
        invariant
            n == s@.len(),
            i <= n + 1,
            out@ + replace_dots_from(s@, i as int) == replace_dots_from(s@, 0),
        decreases n + 1 - i,
    {
        let ghost o = out@;
        if i + 1 < n && s[i] == '.' && s[i + 1] == '.' {
            out.push('-');
            out.push('.');
            assert(out@ + replace_dots_from(s@, i + 2) =~= o + replace_dots_from(s@, i as int));
            i = i + 2;
        } else {
            out.push(s[i]);
            assert(out@ + replace_dots_from(s@, i + 1) =~= o + replace_dots_from(s@, i as int));
            i = i + 1;
        }
    }
    assert(replace_dots_from(s@, i as int) =~= Seq::<char>::empty());
    assert(out@ + Seq::<char>::empty() =~= out@);
    out
}

fn has_dot_dot_exec(s: &[char]) -> (r: bool)
    ensures
        r == has_dot_dot(s@),
{
    let n = s.len();
    let mut i: usize = 0;
    while n > 0 && i < n - 1
        invariant
            n == s@.len(),
            forall|k: int| 0 <= k < i ==> !#[trigger] dots_at(s@, k),
        decreases n - i,
    {
        if s[i] == '.' && s[i + 1] == '.' {
            assert(dots_at(s@, i as int));
            return true;
        }
        i = i + 1;
    }
    assert forall|k: int| !#[trigger] dots_at(s@, k) by {
        if 0 <= k && k < i {
        }
    }
    false
}

fn dedot_exec(s: Vec<char>) -> (r: Vec<char>)
    ensures
        r@ == dedot(s@),
{
    let mut cur = s;
    while has_dot_dot_exec(&cur)
        invariant
            dedot(cur@) == dedot(s@),
        decreases count_dots(cur@),
    {
        proof {
            lemma_replace_dots_fewer(cur@);
        }
        cur = replace_dots_exec(&cur);
    }
    cur
}

/// Ref under which fetched upstream commits are pinned, so they survive
/// `git gc` and enable offline status and diff.
///
/// The subdirectory is flattened into a single ref component (`/` becomes
/// `--`): a ref hierarchy would make the pin of an include collide with
/// the pin of an include nested inside it, since a loose ref cannot be
/// both a file and a parent directory.
pub fn pin_ref(subdir: &str) -> (r: String)
    ensures
        r@ == spec_pin_ref(subdir@),
        starts_with(r@, pin_prefix()),
        valid_pin_name(r@.skip(pin_prefix().len() as int)),
{
    let name = dedot_exec(flatten_exec(&sanitize_exec(&chars_of(subdir))));
    let ghost d = name@;
    let mut name = if name.len() > 0 && name[0] == '.' {
        let mut n = vec!['-'];
        let mut rest = name;
        n.append(&mut rest);
        assert(n@ =~= seq!['-'] + d);
        n
    } else {
        name
    };
    let ghost n1 = name@;
    assert(n1 == (if d.len() > 0 && d[0] == '.' { seq!['-'] + d } else { d }));
    let lock = vec!['.', 'l', 'o', 'c', 'k'];
    let nlen = name.len();
    let ends_lock = nlen >= 5 && crate::text::chars_eq(
        &crate::text::copy_range(&name, nlen - 5, nlen),
        &lock,
    );
    proof {
        if nlen >= 5 {
            assert(name@.subrange(nlen - 5, nlen as int) =~= name@.skip(nlen - 5));
        }
        assert(ends_lock == ends_with(name@, seq!['.', 'l', 'o', 'c', 'k']));
    }
    if (nlen > 0 && name[nlen - 1] == '.') || ends_lock {
        name.push('-');
    }
    assert(name@ == pin_name(subdir@));
    let mut full = vec!['r', 'e', 'f', 's', '/', 'i', 'n', 'c', 'l', 'u', 'd', 'e', '/'];
    let ghost nm = name@;
    full.append(&mut name);
    proof {
        lemma_pin_name_valid(subdir@);
        assert(full@.skip(pin_prefix().len() as int) =~= nm);
        assert(full@.take(pin_prefix().len() as int) =~= pin_prefix());
    }
    string_of(&full)
}

// ------------------------------------------------------ laws on pins --

proof fn lemma_flatten_chars(s: Seq<char>, n: int)
    requires
        0 <= n <= s.len(),
        forall|i: int| 0 <= i < s.len() ==> pin_keeps(#[trigger] s[i]),
    ensures
        forall|i: int|
            0 <= i < flatten_prefix(s, n).0.len() ==> pin_name_char(#[trigger] flatten_prefix(s, n).0[i]),
    decreases n,
{
    if n > 0 {
        lemma_flatten_chars(s, n - 1);
        let prev = flatten_prefix(s, n - 1);
        let c = s[n - 1];
        assert(pin_keeps(c));
        let cur = flatten_prefix(s, n);
        assert forall|i: int| 0 <= i < cur.0.len() implies pin_name_char(#[trigger] cur.0[i]) by {
            if i < prev.0.len() {
                assert(cur.0[i] == prev.0[i]);
                assert(pin_name_char(prev.0[i]));
            }
        }
    }
}

proof fn lemma_replace_dots_chars(s: Seq<char>, i: int)
    requires
        0 <= i <= s.len(),
        forall|k: int| 0 <= k < s.len() ==> pin_name_char(#[trigger] s[k]),
    ensures
        forall|k: int|
            0 <= k < replace_dots_from(s, i).len() ==> pin_name_char(
                #[trigger] replace_dots_from(s, i)[k],
            ),
    decreases s.len() - i,
{
    if i < s.len() {
        let r = replace_dots_from(s, i);
        if i + 1 < s.len() && s[i] == '.' && s[i + 1] == '.' {
            lemma_replace_dots_chars(s, i + 2);
            let rest = replace_dots_from(s, i + 2);
            assert forall|k: int| 0 <= k < r.len() implies pin_name_char(#[trigger] r[k]) by {
                if k >= 2 {
                    assert(r[k] == rest[k - 2]);
                }
            }
        } else {
            lemma_replace_dots_chars(s, i + 1);
            let rest = replace_dots_from(s, i + 1);
            assert forall|k: int| 0 <= k < r.len() implies pin_name_char(#[trigger] r[k]) by {
                if k >= 1 {
                    assert(r[k] == rest[k - 1]);
                } else {
                    assert(r[k] == s[i]);
                }
            }
        }
    }
}

proof fn lemma_dedot_props(s: Seq<char>)
    requires
        forall|k: int| 0 <= k < s.len() ==> pin_name_char(#[trigger] s[k]),
    ensures
        !has_dot_dot(dedot(s)),
        forall|k: int| 0 <= k < dedot(s).len() ==> pin_name_char(#[trigger] dedot(s)[k]),
    decreases count_dots(s),
{
    if has_dot_dot(s) {
        lemma_replace_dots_fewer(s);
        lemma_replace_dots_chars(s, 0);
        lemma_dedot_props(replace_dots_from(s, 0));
    }
}

/// Every pin is a valid single ref component under `refs/include/`.
pub proof fn lemma_pin_name_valid(subdir: Seq<char>)
    ensures
        valid_pin_name(pin_name(subdir)),
{
    let s = sanitize(subdir);
    assert forall|i: int| 0 <= i < s.len() implies pin_keeps(#[trigger] s[i]) by {}
    lemma_flatten_chars(s, s.len() as int);
    let f = flatten(s);
    lemma_dedot_props(f);
    let d = dedot(f);
    let n1 = if d.len() > 0 && d[0] == '.' { seq!['-'] + d } else { d };
    assert forall|i: int| 0 <= i < n1.len() implies pin_name_char(#[trigger] n1[i]) by {
        if d.len() > 0 && d[0] == '.' && i > 0 {
            assert(n1[i] == d[i - 1]);
        }
    }
    if d.len() > 0 && d[0] == '.' {
        if has_dot_dot(n1) {
            let i = choose|i: int| #[trigger] dots_at(n1, i);
            assert(i > 0);
            assert(n1[i] == d[i - 1] && n1[i + 1] == d[i]);
            assert(dots_at(d, i - 1));
        }
    }
    let lock = seq!['.', 'l', 'o', 'c', 'k'];
    let n2 = if (n1.len() > 0 && n1.last() == '.') || ends_with(n1, lock) { n1.push('-') } else { n1 };
    assert forall|i: int| 0 <= i < n2.len() implies pin_name_char(#[trigger] n2[i]) by {
        if i < n1.len() {
            assert(n2[i] == n1[i]);
        }
    }
    if n2 != n1 {
        if has_dot_dot(n2) {
            let i = choose|i: int| #[trigger] dots_at(n2, i);
            assert(i + 1 < n1.len());
            assert(n2[i] == n1[i] && n2[i + 1] == n1[i + 1]);
            assert(dots_at(n1, i));
        }
        if n1.len() > 0 {
            assert(n2[0] == n1[0]);
        }
        assert(n2.last() == '-');
        if ends_with(n2, lock) {
            assert(n2.skip(n2.len() - 5)[4] == n2.last());
        }
    }
    assert(pin_name(subdir) == n2);
}

/// Pins of different includes never nest: no pin is a ref directory that
/// holds another pin, so the pin of an include and the pin of an include
/// nested inside it can both exist.
pub proof fn lemma_pins_do_not_nest(outer: Seq<char>, inner: Seq<char>)
    ensures
        !starts_with(spec_pin_ref(inner), spec_pin_ref(outer).push('/')),
{
    let o = spec_pin_ref(outer);
    let i = spec_pin_ref(inner);
    lemma_pin_name_valid(inner);
    if starts_with(i, o.push('/')) {
        let at = o.len() as int;
        assert(i.take(at + 1)[at] == '/');
        assert(i[at] == '/');
        assert(at >= pin_prefix().len());
        assert(i[at] == pin_name(inner)[at - pin_prefix().len()]);
        assert(pin_name_char(pin_name(inner)[at - pin_prefix().len()]));
    }
}

// ------------------------------------------------------ path arguments --

/// One step of splitting a `/`-separated path into components: the
/// finished components and the one being read. Empty components and `.`
/// are dropped.
pub open spec fn comp_step(st: (Seq<Seq<char>>, Seq<char>), c: char) -> (Seq<Seq<char>>, Seq<char>) {
    if c == '/' {
        (finish_comp(st.0, st.1), Seq::empty())
    } else {
        (st.0, st.1.push(c))
    }
}

pub open spec fn finish_comp(done: Seq<Seq<char>>, cur: Seq<char>) -> Seq<Seq<char>> {
    if cur.len() == 0 || cur == seq!['.'] {
        done
    } else {
        done.push(cur)
    }
}

pub open spec fn comps_prefix(s: Seq<char>, n: int) -> (Seq<Seq<char>>, Seq<char>)
    decreases n,
{
    if n <= 0 {
        (Seq::empty(), Seq::empty())
    } else {
        comp_step(comps_prefix(s, n - 1), s[n - 1])
    }
}

/// The components of a `/`-separated path, without empty ones and `.`.
pub open spec fn components(s: Seq<char>) -> Seq<Seq<char>> {
    let st = comps_prefix(s, s.len() as int);
    finish_comp(st.0, st.1)
}

/// Resolve `..` lexically (at the root it stays at the root), without
/// touching the filesystem.
pub open spec fn normalize(cs: Seq<Seq<char>>) -> Seq<Seq<char>>
    decreases cs.len(),
{
    if cs.len() == 0 {
        Seq::empty()
    } else {
        let prev = normalize(cs.drop_last());
        if cs.last() == seq!['.', '.'] {
            if prev.len() > 0 {
                prev.drop_last()
            } else {
                prev
            }
        } else {
            prev.push(cs.last())
        }
    }
}

/// `parts` joined with `/`, each backslash turned into `/`.
pub open spec fn join_slash(parts: Seq<Seq<char>>) -> Seq<char>
    decreases parts.len(),
{
    if parts.len() == 0 {
        Seq::empty()
    } else if parts.len() == 1 {
        backslashes_to_slashes(parts[0])
    } else {
        join_slash(parts.drop_last()) + seq!['/'] + backslashes_to_slashes(parts.last())
    }
}

pub open spec fn backslashes_to_slashes(s: Seq<char>) -> Seq<char> {
    s.map_values(|c: char| if c == '\\' { '/' } else { c })
}

/// Why a directory argument cannot name an include.
#[derive(Clone, Copy, Debug, PartialEq, Eq, Structural)]
pub enum RelativeError {
    /// The path lies outside the repository.
    OutsideRepository,
    /// The path is the repository root.
    RepositoryRoot,
}

/// The repository-relative form of a directory argument: `arg` taken
/// relative to `cwd` (unless absolute), `.` and `..` resolved lexically,
/// then the components below `toplevel`, joined with `/`.
pub open spec fn spec_relative_subdir(cwd: Seq<char>, toplevel: Seq<char>, arg: Seq<char>) -> Result<
    Seq<char>,
    RelativeError,
> {
    let abs = if arg.len() > 0 && arg[0] == '/' {
        components(arg)
    } else {
        components(cwd) + components(arg)
    };
    let norm = normalize(abs);
    let top = components(toplevel);
    if !(top.len() <= norm.len() && norm.take(top.len() as int) == top) {
        Err(RelativeError::OutsideRepository)
    } else {
        let rel = join_slash(norm.skip(top.len() as int));
        if rel.len() == 0 {
            Err(RelativeError::RepositoryRoot)
        } else {
            Ok(rel)
        }
    }
}

pub open spec fn vviews(v: Seq<Vec<char>>) -> Seq<Seq<char>> {
    v.map_values(|x: Vec<char>| x@)
}

fn is_dot(v: &Vec<char>) -> (r: bool)
    ensures
        r == (v@ == seq!['.']),
{
    let r = v.len() == 1 && v[0] == '.';
    proof {
        if r {
            assert(v@ =~= seq!['.']);
        }
    }
    r
}

fn components_exec(s: &[char]) -> (r: Vec<Vec<char>>)
    ensures
        vviews(r@) == components(s@),
{
    let mut done: Vec<Vec<char>> = Vec::new();
    let mut cur: Vec<char> = Vec::new();
    let n = s.len();
    for i in 0..n
        invariant
            n == s@.len(),
            (vviews(done@), cur@) == comps_prefix(s@, i as int),
    {
        let c = s[i];
        if c == '/' {
            if !(cur.len() == 0 || is_dot(&cur)) {
                let ghost d0 = done@;
                done.push(cur);
                assert(vviews(done@) =~= vviews(d0).push(comps_prefix(s@, i as int).1));
            }
            cur = Vec::new();
            assert(cur@ =~= Seq::<char>::empty());
        } else {
            cur.push(c);
        }
    }
    if !(cur.len() == 0 || is_dot(&cur)) {
        let ghost d0 = done@;
        let ghost c0 = cur@;
        done.push(cur);
        assert(vviews(done@) =~= vviews(d0).push(c0));
    }
    done
}

fn is_dotdot(v: &Vec<char>) -> (r: bool)
    ensures
        r == (v@ == seq!['.', '.']),
{
    let r = v.len() == 2 && v[0] == '.' && v[1] == '.';
    proof {
        if r {
            assert(v@ =~= seq!['.', '.']);
        }
    }
    r
}

fn normalize_exec(cs: Vec<Vec<char>>) -> (r: Vec<Vec<char>>)
    ensures
        vviews(r@) == normalize(vviews(cs@)),
{
    let ghost cv = vviews(cs@);
    let mut out: Vec<Vec<char>> = Vec::new();
    let n = cs.len();
    let mut i: usize = 0;
    let mut rest = cs;
    while rest.len() > 0
        invariant
            cv.len() == n,
            i + rest@.len() == n,
            vviews(rest@) == cv.skip(i as int),
            vviews(out@) == normalize(cv.take(i as int)),
        decreases rest@.len(),
    {
        let ghost r0 = rest@;
        let c = rest.remove(0);
        assert(vviews(rest@) =~= vviews(r0).drop_first());
        assert(vviews(r0)[0] == r0[0]@);
        assert(cv.skip(i as int)[0] == cv[i as int]);
        assert(c@ == cv[i as int]);
        assert(cv.take(i + 1).drop_last() =~= cv.take(i as int));
        let ghost o0 = out@;
        if is_dotdot(&c) {
            if out.len() > 0 {
                out.pop();
                assert(vviews(out@) =~= vviews(o0).drop_last());
            }
        } else {
            out.push(c);
            assert(vviews(out@) =~= vviews(o0).push(cv[i as int]));
        }
        i = i + 1;
    }
    assert(cv.take(n as int) =~= cv);
    out
}

fn slashes_exec(v: &Vec<char>) -> (r: Vec<char>)
    ensures
        r@ == backslashes_to_slashes(v@),
{
    let mut out: Vec<char> = Vec::new();
    let n = v.len();
    for i in 0..n
        invariant
            n == v@.len(),
            out@ == backslashes_to_slashes(v@.take(i as int)),
    {
        out.push(if v[i] == '\\' { '/' } else { v[i] });
        assert(backslashes_to_slashes(v@.take(i + 1)) =~= backslashes_to_slashes(v@.take(i as int)).push(
            if v@[i as int] == '\\' { '/' } else { v@[i as int] },
        ));
    }
    assert(v@.take(n as int) =~= v@);
    out
}

/// Convert a user-supplied directory argument (relative to the current
/// directory `cwd`) into a repository-relative path with `/` separators
/// and no trailing slash. Works even if the directory does not exist yet.
pub fn relative_subdir(cwd: &str, toplevel: &str, arg: &str) -> (r: Result<String, RelativeError>)
    ensures
        match r {
            Ok(s) => spec_relative_subdir(cwd@, toplevel@, arg@) == Ok::<Seq<char>, RelativeError>(s@),
            Err(e) => spec_relative_subdir(cwd@, toplevel@, arg@) == Err::<Seq<char>, RelativeError>(e),
        },
{
    let a = chars_of(arg);
    let mut abs = if a.len() > 0 && a[0] == '/' {
        components_exec(&a)
    } else {
        let mut c = components_exec(&chars_of(cwd));
        let mut tail = components_exec(&a);
        let ghost c0 = c@;
        let ghost t0 = tail@;
        c.append(&mut tail);
        assert(vviews(c@) =~= vviews(c0) + vviews(t0));
        c
    };
    let ghost absv = vviews(abs@);
    assert(absv == (if arg@.len() > 0 && arg@[0] == '/' {
        components(arg@)
    } else {
        components(cwd@) + components(arg@)
    }));
    let norm = normalize_exec(abs);
    let top = components_exec(&chars_of(toplevel));
    let ghost nv = vviews(norm@);
    let ghost tv = vviews(top@);
    assert(nv == normalize(absv));
    assert(tv == components(toplevel@));
    if top.len() > norm.len() {
        return Err(RelativeError::OutsideRepository);
    }
    let tn = top.len();
    for k in 0..tn
        invariant
            tn == top@.len(),
            tn <= norm@.len(),
            nv == vviews(norm@),
            tv == vviews(top@),
            nv == normalize(absv),
            tv == components(toplevel@),
            absv == (if arg@.len() > 0 && arg@[0] == '/' {
                components(arg@)
            } else {
                components(cwd@) + components(arg@)
            }),
            forall|m: int| 0 <= m < k ==> nv[m] == tv[m],
    {
        if !crate::text::chars_eq(&norm[k], &top[k]) {
            assert(nv.take(tn as int)[k as int] != tv[k as int]);
            return Err(RelativeError::OutsideRepository);
        }
    }
    assert(nv.take(tn as int) =~= tv);
    let mut out: Vec<char> = Vec::new();
    let nn = norm.len();
    let ghost parts = nv.skip(tn as int);
    for k in tn..nn
        invariant
            tn <= nn,
            nn == norm@.len(),
            nv == vviews(norm@),
            parts == nv.skip(tn as int),
            tn == top@.len(),
            nv.take(tn as int) == tv,
            nv == normalize(absv),
            tv == components(toplevel@),
            absv == (if arg@.len() > 0 && arg@[0] == '/' {
                components(arg@)
            } else {
                components(cwd@) + components(arg@)
            }),
            out@ == join_slash(parts.take(k - tn)),
    {
        let ghost o = out@;
        assert(parts.take(k - tn + 1).drop_last() =~= parts.take(k - tn));
        assert(parts[k - tn] == norm@[k as int]@);
        if k > tn {
            out.push('/');
        }
        let mut piece = slashes_exec(&norm[k]);
        out.append(&mut piece);
        if k == tn {
            assert(out@ =~= backslashes_to_slashes(parts[0]));
        } else {
            assert(out@ =~= o + seq!['/'] + backslashes_to_slashes(parts[k - tn]));
        }
    }
    assert(parts.take(nn - tn) =~= parts);
    if out.len() == 0 {
        return Err(RelativeError::RepositoryRoot);
    }
    Ok(string_of(&out))
}

impl RelativeError {
    /// The message shown to the user for `arg` in the repository at
    /// `toplevel`.
    pub fn message(&self, arg: &str, toplevel: &str) -> (r: String)
        ensures
            r@ == (match self {
                RelativeError::OutsideRepository => "'"@ + arg@ + "' is outside the git repository at "@
                    + toplevel@,
                RelativeError::RepositoryRoot => "subdirectory must not be the repository root"@,
            }),
    {
        match self {
            RelativeError::OutsideRepository => {
                let mut m = "'".to_owned();
                m.append(arg);
                m.append("' is outside the git repository at ");
                m.append(toplevel);
                m
            },
            RelativeError::RepositoryRoot => "subdirectory must not be the repository root".to_owned(),
        }
    }
}

// ------------------------------------------------ relative arguments --

proof fn lemma_comps_prefix_append(a: Seq<char>, rest: Seq<char>, n: int)
    requires
        0 <= n <= a.len(),
    ensures
        comps_prefix(a + rest, n) == comps_prefix(a, n),
    decreases n,
{
    if n > 0 {
        lemma_comps_prefix_append(a, rest, n - 1);
        assert((a + rest)[n - 1] == a[n - 1]);
    }
}

/// Reading `b` after a separator continues from the components of `a`.
proof fn lemma_comps_after_separator(a: Seq<char>, b: Seq<char>, n: int)
    requires
        0 <= n <= b.len(),
    ensures
        comps_prefix(a + seq!['/'] + b, a.len() + 1 + n) == (
            components(a) + comps_prefix(b, n).0,
            comps_prefix(b, n).1,
        ),
    decreases n,
{
    let s = a + seq!['/'] + b;
    if n == 0 {
        lemma_comps_prefix_append(a, seq!['/'] + b, a.len() as int);
        assert(a + (seq!['/'] + b) =~= s);
        assert(s[a.len() as int] == '/');
        assert(components(a) + Seq::<Seq<char>>::empty() =~= components(a));
    } else {
        lemma_comps_after_separator(a, b, n - 1);
        assert(s[a.len() + 1 + n - 1] == b[n - 1]);
        let prev = comps_prefix(b, n - 1);
        if b[n - 1] == '/' {
            if !(prev.1.len() == 0 || prev.1 == seq!['.']) {
                assert(components(a) + prev.0.push(prev.1) =~= (components(a) + prev.0).push(prev.1));
            }
        }
    }
}

/// The components of `a/b` are those of `a` followed by those of `b`.
proof fn lemma_components_join(a: Seq<char>, b: Seq<char>)
    ensures
        components(a + seq!['/'] + b) == components(a) + components(b),
{
    lemma_comps_after_separator(a, b, b.len() as int);
    let st = comps_prefix(b, b.len() as int);
    if !(st.1.len() == 0 || st.1 == seq!['.']) {
        assert(components(a) + st.0.push(st.1) =~= (components(a) + st.0).push(st.1));
    }
}

/// Directory arguments are relative to the current directory: naming a
/// path relative to a subdirectory `sub` of `dir` gives the same include as
/// naming `sub/arg` from `dir` itself.
pub proof fn lemma_arguments_follow_the_current_directory(
    dir: Seq<char>,
    sub: Seq<char>,
    toplevel: Seq<char>,
    arg: Seq<char>,
)
    requires
        sub.len() > 0 && sub[0] != '/',
        arg.len() == 0 || arg[0] != '/',
    ensures
        spec_relative_subdir(dir + seq!['/'] + sub, toplevel, arg) == spec_relative_subdir(
            dir,
            toplevel,
            sub + seq!['/'] + arg,
        ),
{
    lemma_components_join(dir, sub);
    lemma_components_join(sub, arg);
    assert((sub + seq!['/'] + arg)[0] == sub[0]);
    assert(components(dir) + components(sub) + components(arg) =~= components(dir) + (components(sub)
        + components(arg)));
}

/// An absolute directory argument names the same include whatever the
/// current directory is.
pub proof fn lemma_absolute_arguments_ignore_the_current_directory(
    cwd1: Seq<char>,
    cwd2: Seq<char>,
    toplevel: Seq<char>,
    arg: Seq<char>,
)
    requires
        arg.len() > 0 && arg[0] == '/',
    ensures
        spec_relative_subdir(cwd1, toplevel, arg) == spec_relative_subdir(cwd2, toplevel, arg),
{
}

} // verus!
