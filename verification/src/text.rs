//! Character-level text primitives (trimming, searching, line splitting)
//! with the specifications that the rest of the crate is stated over.
//!
//! Text is handled as `Seq<char>` in specifications and as `Vec<char>`
//! in executable code; `chars_of` and `string_of` convert at the edges.

use vstd::prelude::*;

verus! {

broadcast use vstd::string::group_string_axioms;

// ------------------------------------------------------------ whitespace --

/// Unicode `White_Space`, the property `char::is_whitespace` tests.
pub open spec fn is_ws(c: char) -> bool {
    ||| c == '\t'
    ||| c == '\n'
    ||| c == '\u{0B}'
    ||| c == '\u{0C}'
    ||| c == '\r'
    ||| c == ' '
    ||| c == '\u{85}'
    ||| c == '\u{A0}'
    ||| c == '\u{1680}'
    ||| ('\u{2000}' <= c && c <= '\u{200A}')
    ||| c == '\u{2028}'
    ||| c == '\u{2029}'
    ||| c == '\u{202F}'
    ||| c == '\u{205F}'
    ||| c == '\u{3000}'
}

pub fn is_whitespace(c: char) -> (r: bool)
    ensures
        r == is_ws(c),
{
    c == '\t' || c == '\n' || c == '\u{0B}' || c == '\u{0C}' || c == '\r' || c == ' ' || c
        == '\u{85}' || c == '\u{A0}' || c == '\u{1680}' || ('\u{2000}' <= c && c <= '\u{200A}')
        || c == '\u{2028}' || c == '\u{2029}' || c == '\u{202F}' || c == '\u{205F}' || c
        == '\u{3000}'
}

/// `s` without its leading whitespace.
pub open spec fn trim_start(s: Seq<char>) -> Seq<char>
    decreases s.len(),
{
    if s.len() > 0 && is_ws(s[0]) {
        trim_start(s.drop_first())
    } else {
        s
    }
}

/// `s` without its trailing whitespace.
pub open spec fn trim_end(s: Seq<char>) -> Seq<char>
    decreases s.len(),
{
    if s.len() > 0 && is_ws(s.last()) {
        trim_end(s.drop_last())
    } else {
        s
    }
}

/// `s` without leading and trailing whitespace (`str::trim`).
pub open spec fn trim(s: Seq<char>) -> Seq<char> {
    trim_end(trim_start(s))
}

/// Neither end of `s` is whitespace.
pub open spec fn is_trimmed(s: Seq<char>) -> bool {
    s.len() > 0 ==> !is_ws(s[0]) && !is_ws(s.last())
}

// ------------------------------------------------------------- searching --

/// The first index at or after `i` where `c` occurs in `s`.
pub open spec fn find_char_from(s: Seq<char>, c: char, i: int) -> Option<int>
    decreases s.len() - i,
{
    if i < 0 || i >= s.len() {
        None
    } else if s[i] == c {
        Some(i)
    } else {
        find_char_from(s, c, i + 1)
    }
}

/// Does `pat` occur in `s` at index `i`?
pub open spec fn occurs_at(s: Seq<char>, pat: Seq<char>, i: int) -> bool {
    0 <= i && i + pat.len() <= s.len() && s.subrange(i, i + pat.len()) == pat
}

/// The first index at or after `i` where `pat` occurs in `s`.
pub open spec fn find_from(s: Seq<char>, pat: Seq<char>, i: int) -> Option<int>
    decreases s.len() + 1 - i,
{
    if i < 0 || i + pat.len() > s.len() {
        None
    } else if occurs_at(s, pat, i) {
        Some(i)
    } else {
        find_from(s, pat, i + 1)
    }
}

pub open spec fn starts_with(s: Seq<char>, p: Seq<char>) -> bool {
    p.len() <= s.len() && s.take(p.len() as int) == p
}

pub open spec fn ends_with(s: Seq<char>, p: Seq<char>) -> bool {
    p.len() <= s.len() && s.skip(s.len() - p.len()) == p
}

/// `str::split_once` with a single-character separator.
pub open spec fn split_once(s: Seq<char>, c: char) -> Option<(Seq<char>, Seq<char>)> {
    match find_char_from(s, c, 0) {
        Some(j) => Some((s.take(j), s.skip(j + 1))),
        None => None,
    }
}

// ---------------------------------------------------------------- lines --

/// A line without the carriage return of a `\r\n` ending.
pub open spec fn strip_cr(l: Seq<char>) -> Seq<char> {
    if l.len() > 0 && l.last() == '\r' {
        l.drop_last()
    } else {
        l
    }
}

/// The lines of `s` from index `i` on, as `str::lines` yields them: split
/// at `\n`, a `\r` before the `\n` dropped, no empty line after a final
/// `\n`.
pub open spec fn lines_from(s: Seq<char>, i: int) -> Seq<Seq<char>>
    decreases s.len() - i,
{
    if i < 0 || i >= s.len() {
        Seq::empty()
    } else {
        proof {
            lemma_find_char_from_props(s, '\n', i);
        }
        match find_char_from(s, '\n', i) {
            Some(j) => seq![strip_cr(s.subrange(i, j))] + lines_from(s, j + 1),
            None => seq![s.subrange(i, s.len() as int)],
        }
    }
}

pub open spec fn lines(s: Seq<char>) -> Seq<Seq<char>> {
    lines_from(s, 0)
}

/// Each line followed by a newline: the inverse of `lines` for lines
/// that hold no newline and do not end in a carriage return.
pub open spec fn join_lines(ls: Seq<Seq<char>>) -> Seq<char>
    decreases ls.len(),
{
    if ls.len() == 0 {
        Seq::empty()
    } else {
        join_lines(ls.drop_last()) + ls.last() + seq!['\n']
    }
}

/// A line that `lines` gives back as it is: no newline inside, no
/// carriage return at the end.
pub open spec fn plain_line(l: Seq<char>) -> bool {
    &&& forall|k: int| 0 <= k < l.len() ==> l[k] != '\n'
    &&& (l.len() > 0 ==> l.last() != '\r')
}

// ------------------------------------------------------------- lemmas --

pub proof fn lemma_find_char_from_props(s: Seq<char>, c: char, i: int)
    requires
        0 <= i,
    ensures
        find_char_from(s, c, i) matches Some(j) ==> i <= j < s.len() && s[j] == c && forall|
            k: int,
        |
            i <= k < j ==> s[k] != c,
        find_char_from(s, c, i) is None ==> forall|k: int| i <= k < s.len() ==> s[k] != c,
    decreases s.len() - i,
{
    if i < s.len() && s[i] != c {
        lemma_find_char_from_props(s, c, i + 1);
    }
}

pub proof fn lemma_find_from_props(s: Seq<char>, pat: Seq<char>, i: int)
    requires
        0 <= i,
    ensures
        find_from(s, pat, i) matches Some(j) ==> i <= j && occurs_at(s, pat, j) && forall|k: int|
            i <= k < j ==> !occurs_at(s, pat, k),
        find_from(s, pat, i) is None ==> forall|k: int| i <= k ==> !occurs_at(s, pat, k),
    decreases s.len() + 1 - i,
{
    if i + pat.len() <= s.len() && !occurs_at(s, pat, i) {
        lemma_find_from_props(s, pat, i + 1);
    }
}

/// A search that starts past every occurrence-free prefix finds the same.
pub proof fn lemma_find_char_from_skip(s: Seq<char>, c: char, i: int, k: int)
    requires
        0 <= i <= k,
        forall|m: int| i <= m < k && m < s.len() ==> s[m] != c,
    ensures
        find_char_from(s, c, i) == find_char_from(s, c, k),
    decreases k - i,
{
    if i < k {
        lemma_find_char_from_skip(s, c, i + 1, k);
    }
}

pub proof fn lemma_trim_start_of_trimmed(s: Seq<char>)
    requires
        s.len() == 0 || !is_ws(s[0]),
    ensures
        trim_start(s) == s,
{
}

/// Leading whitespace does not change `trim_start`.
pub proof fn lemma_trim_start_ws_prefix(w: Seq<char>, s: Seq<char>)
    requires
        forall|k: int| 0 <= k < w.len() ==> is_ws(w[k]),
    ensures
        trim_start(w + s) == trim_start(s),
    decreases w.len(),
{
    if w.len() > 0 {
        assert((w + s).drop_first() =~= w.drop_first() + s);
        lemma_trim_start_ws_prefix(w.drop_first(), s);
    } else {
        assert(w + s =~= s);
    }
}

/// `trim_start` only looks at the front: a suffix passes through.
pub proof fn lemma_trim_start_append(s: Seq<char>, t: Seq<char>)
    requires
        s.len() > 0 && !is_ws(s.last()) || exists|k: int| 0 <= k < s.len() && !is_ws(s[k]),
    ensures
        trim_start(s + t) == trim_start(s) + t,
    decreases s.len(),
{
    if s.len() > 0 && is_ws(s[0]) {
        assert((s + t).drop_first() =~= s.drop_first() + t);
        if s.len() > 0 && !is_ws(s.last()) {
            assert(s.drop_first().last() == s.last());
        } else {
            let k = choose|k: int| 0 <= k < s.len() && !is_ws(s[k]);
            assert(k > 0);
            assert(s.drop_first()[k - 1] == s[k]);
        }
        lemma_trim_start_append(s.drop_first(), t);
    } else {
        assert(s.len() > 0);
        assert((s + t)[0] == s[0]);
    }
}

/// Trailing whitespace does not change `trim_end`.
pub proof fn lemma_trim_end_ws_suffix(s: Seq<char>, w: Seq<char>)
    requires
        forall|k: int| 0 <= k < w.len() ==> is_ws(w[k]),
    ensures
        trim_end(s + w) == trim_end(s),
    decreases w.len(),
{
    if w.len() > 0 {
        assert((s + w).drop_last() =~= s + w.drop_last());
        lemma_trim_end_ws_suffix(s, w.drop_last());
    } else {
        assert(s + w =~= s);
    }
}

/// `trim_end` only looks at the back: a prefix passes through.
pub proof fn lemma_trim_end_prepend(p: Seq<char>, s: Seq<char>)
    requires
        exists|k: int| 0 <= k < s.len() && !is_ws(s[k]),
    ensures
        trim_end(p + s) == p + trim_end(s),
    decreases s.len(),
{
    if is_ws(s.last()) {
        assert((p + s).drop_last() =~= p + s.drop_last());
        let k = choose|k: int| 0 <= k < s.len() && !is_ws(s[k]);
        assert(k < s.len() - 1);
        assert(s.drop_last()[k] == s[k]);
        lemma_trim_end_prepend(p, s.drop_last());
    } else {
        assert((p + s).last() == s.last());
    }
}


pub proof fn lemma_find_char_shift(p: Seq<char>, t: Seq<char>, c: char, k: int)
    requires
        0 <= k,
    ensures
        find_char_from(p + t, c, p.len() + k) == (match find_char_from(t, c, k) {
            Some(j) => Some(j + p.len()),
            None => None::<int>,
        }),
    decreases t.len() - k,
{
    if k < t.len() {
        assert((p + t)[p.len() + k] == t[k]);
        if t[k] != c {
            lemma_find_char_shift(p, t, c, k + 1);
        }
    }
}

pub proof fn lemma_lines_shift(p: Seq<char>, t: Seq<char>, k: int)
    requires
        0 <= k,
    ensures
        lines_from(p + t, p.len() + k) == lines_from(t, k),
    decreases t.len() - k,
{
    if k < t.len() {
        lemma_find_char_shift(p, t, '\n', k);
        lemma_find_char_from_props(t, '\n', k);
        match find_char_from(t, '\n', k) {
            Some(j) => {
                assert((p + t).subrange(p.len() + k, p.len() + j) =~= t.subrange(k, j));
                lemma_lines_shift(p, t, j + 1);
            },
            None => {
                assert((p + t).subrange(p.len() + k, (p + t).len() as int) =~= t.subrange(
                    k,
                    t.len() as int,
                ));
            },
        }
    }
}

pub proof fn lemma_lines_from_append(a: Seq<char>, b: Seq<char>, i: int)
    requires
        0 <= i <= a.len(),
        a.len() == 0 || a.last() == '\n',
    ensures
        lines_from(a + b, i) == lines_from(a, i) + lines(b),
    decreases a.len() - i,
{
    if i == a.len() {
        lemma_lines_shift(a, b, 0);
        assert(lines_from(a, i) =~= Seq::<Seq<char>>::empty());
        assert(Seq::<Seq<char>>::empty() + lines(b) =~= lines(b));
    } else {
        lemma_find_char_from_props(a, '\n', i);
        let j = find_char_from(a, '\n', i)->0;
        assert(forall|m: int| i <= m < j ==> (a + b)[m] == a[m]);
        assert((a + b)[j] == a[j]);
        lemma_find_char_from_props(a + b, '\n', i);
        assert(find_char_from(a + b, '\n', i) == Some(j));
        assert((a + b).subrange(i, j) =~= a.subrange(i, j));
        lemma_lines_from_append(a, b, j + 1);
        assert(lines_from(a + b, i) =~= seq![strip_cr(a.subrange(i, j))] + lines_from(a + b, j + 1));
        assert(lines_from(a, i) =~= seq![strip_cr(a.subrange(i, j))] + lines_from(a, j + 1));
        assert(lines_from(a + b, i) =~= lines_from(a, i) + lines(b));
    }
}

/// Splitting after a complete line: the lines of the rest follow.
pub proof fn lemma_lines_append(a: Seq<char>, b: Seq<char>)
    requires
        a.len() == 0 || a.last() == '\n',
    ensures
        lines(a + b) == lines(a) + lines(b),
{
    lemma_lines_from_append(a, b, 0);
}

pub proof fn lemma_lines_single(l: Seq<char>)
    requires
        plain_line(l),
    ensures
        lines(l + seq!['\n']) == seq![l],
{
    let s = l + seq!['\n'];
    assert(forall|m: int| 0 <= m < l.len() ==> s[m] == l[m]);
    assert(s[l.len() as int] == '\n');
    lemma_find_char_from_props(s, '\n', 0);
    assert(find_char_from(s, '\n', 0) == Some(l.len() as int));
    assert(s.subrange(0, l.len() as int) =~= l);
    assert(lines_from(s, l.len() as int + 1) =~= Seq::<Seq<char>>::empty());
    assert(lines(s) =~= seq![l]);
}

/// `lines` gives back what `join_lines` joined.
pub proof fn lemma_lines_join(ls: Seq<Seq<char>>)
    requires
        forall|i: int| 0 <= i < ls.len() ==> plain_line(#[trigger] ls[i]),
    ensures
        lines(join_lines(ls)) == ls,
    decreases ls.len(),
{
    if ls.len() == 0 {
        assert(lines_from(Seq::<char>::empty(), 0) =~= Seq::<Seq<char>>::empty());
    } else {
        let init = ls.drop_last();
        assert(forall|i: int| 0 <= i < init.len() ==> init[i] == ls[i]);
        lemma_lines_join(init);
        let a = join_lines(init);
        let l = ls.last();
        assert(plain_line(ls[ls.len() - 1]));
        lemma_lines_single(l);
        if init.len() > 0 {
            assert(a == join_lines(init.drop_last()) + init.last() + seq!['\n']);
            assert(a.last() == '\n');
        }
        assert(join_lines(ls) =~= a + (l + seq!['\n']));
        lemma_lines_append(a, l + seq!['\n']);
        assert(lines(join_lines(ls)) =~= init + seq![l]);
        assert(init + seq![l] =~= ls);
    }
}

/// Trimming keeps a first character that is not whitespace.
pub proof fn lemma_trim_keeps_first(s: Seq<char>)
    requires
        s.len() > 0,
        !is_ws(s[0]),
    ensures
        trim(s).len() > 0,
        trim(s)[0] == s[0],
    decreases s.len(),
{
    lemma_trim_end_keeps_first(s);
}

proof fn lemma_trim_end_keeps_first(s: Seq<char>)
    requires
        s.len() > 0,
        !is_ws(s[0]),
    ensures
        trim_end(s).len() > 0,
        trim_end(s)[0] == s[0],
    decreases s.len(),
{
    if is_ws(s.last()) {
        assert(s.len() > 1);
        assert(s.drop_last()[0] == s[0]);
        lemma_trim_end_keeps_first(s.drop_last());
    }
}

// ------------------------------------------------------------ executable --

/// The characters of `s`.
pub fn chars_of(s: &str) -> (v: Vec<char>)
    ensures
        v@ == s@,
{
    let mut v: Vec<char> = Vec::new();
    for c in it: s.chars()
        invariant
            v@ == it.seq().take(it.index() as int),
    {
        v.push(c);
    }
    v
}

/// `String::push`, which vstd leaves unspecified.
#[verifier::external_body]
fn push_char(s: &mut String, c: char)
    ensures
        final(s)@ == old(s)@.push(c),
{
    s.push(c);
}

/// The string made of the characters of `v`.
pub fn string_of(v: &[char]) -> (s: String)
    ensures
        s@ == v@,
{
    let mut s = String::new();
    let n = v.len();
    for i in 0..n
        invariant
            n == v@.len(),
            s@ == v@.take(i as int),
    {
        push_char(&mut s, v[i]);
        assert(v@.take(i + 1) =~= v@.take(i as int).push(v@[i as int]));
    }
    assert(v@.take(n as int) =~= v@);
    s
}

/// A copy of `v[lo..hi]`.
pub fn copy_range(v: &[char], lo: usize, hi: usize) -> (r: Vec<char>)
    requires
        lo <= hi <= v@.len(),
    ensures
        r@ == v@.subrange(lo as int, hi as int),
{
    vstd::slice::slice_to_vec(vstd::slice::slice_subrange(v, lo, hi))
}

/// Are `a` and `b` the same sequence of characters?
pub fn chars_eq(a: &[char], b: &[char]) -> (r: bool)
    ensures
        r == (a@ == b@),
{
    if a.len() != b.len() {
        return false;
    }
    let n = a.len();
    for i in 0..n
        invariant
            n == a@.len(),
            n == b@.len(),
            forall|k: int| 0 <= k < i ==> a@[k] == b@[k],
    {
        if a[i] != b[i] {
            return false;
        }
    }
    assert(a@ =~= b@);
    true
}

/// Does `pat` occur in `v` at index `i`?
pub fn matches_at(v: &[char], pat: &[char], i: usize) -> (r: bool)
    ensures
        r == occurs_at(v@, pat@, i as int),
{
    if i > v.len() || pat.len() > v.len() - i {
        return false;
    }
    let n = pat.len();
    for k in 0..n
        invariant
            n == pat@.len(),
            i + n <= v@.len(),
            i + n <= v.len(),
            forall|m: int| 0 <= m < k ==> v@[i + m] == pat@[m],
    {
        if v[i + k] != pat[k] {
            assert(v@.subrange(i as int, i + n)[k as int] == v@[i + k]);
            return false;
        }
    }
    assert(v@.subrange(i as int, i + n) =~= pat@);
    true
}

/// The first index at or after `from` where `pat` occurs in `v`.
pub fn find_from_exec(v: &[char], pat: &[char], from: usize) -> (r: Option<usize>)
    ensures
        r matches Some(j) ==> find_from(v@, pat@, from as int) == Some(j as int),
        r is None ==> find_from(v@, pat@, from as int) is None,
{
    let mut i = from;
    if i > v.len() || pat.len() > v.len() - i {
        return None;
    }
    while pat.len() <= v.len() - i
        invariant
            from <= i,
            i <= v@.len(),
            find_from(v@, pat@, from as int) == find_from(v@, pat@, i as int),
        decreases v@.len() - i,
    {
        if matches_at(v, pat, i) {
            return Some(i);
        }
        if i == v.len() {
            assert(v@.subrange(i as int, i as int) =~= pat@);
        }
        i = i + 1;
    }
    None
}

/// The first index at or after `from` where `c` occurs in `v`.
pub fn find_char_exec(v: &[char], c: char, from: usize) -> (r: Option<usize>)
    ensures
        r matches Some(j) ==> find_char_from(v@, c, from as int) == Some(j as int),
        r is None ==> find_char_from(v@, c, from as int) is None,
{
    let mut i = from;
    while i < v.len()
        invariant
            from <= i,
            find_char_from(v@, c, from as int) == find_char_from(v@, c, i as int),
        decreases v@.len() - i,
    {
        if v[i] == c {
            return Some(i);
        }
        i = i + 1;
    }
    None
}

/// The bounds of `v[lo..hi]` with surrounding whitespace removed.
pub fn trim_bounds(v: &[char], lo: usize, hi: usize) -> (r: (usize, usize))
    requires
        lo <= hi <= v@.len(),
    ensures
        lo <= r.0 <= r.1 <= hi,
        v@.subrange(r.0 as int, r.1 as int) == trim(v@.subrange(lo as int, hi as int)),
{
    let mut a = lo;
    while a < hi && is_whitespace(v[a])
        invariant
            lo <= a <= hi <= v@.len(),
            trim_start(v@.subrange(lo as int, hi as int)) == trim_start(
                v@.subrange(a as int, hi as int),
            ),
        decreases hi - a,
    {
        assert(v@.subrange(a as int, hi as int).drop_first() =~= v@.subrange(a + 1, hi as int));
        a = a + 1;
    }
    let mut b = hi;
    while b > a && is_whitespace(v[b - 1])
        invariant
            lo <= a <= b <= hi <= v@.len(),
            trim_start(v@.subrange(lo as int, hi as int)) == v@.subrange(a as int, hi as int),
            trim_end(v@.subrange(a as int, hi as int)) == trim_end(v@.subrange(a as int, b as int)),
        decreases b - a,
    {
        assert(v@.subrange(a as int, b as int).drop_last() =~= v@.subrange(a as int, b - 1));
        b = b - 1;
    }
    (a, b)
}

/// A trimmed copy of `v`.
pub fn trimmed(v: &[char]) -> (r: Vec<char>)
    ensures
        r@ == trim(v@),
{
    let (a, b) = trim_bounds(v, 0, v.len());
    assert(v@.subrange(0, v@.len() as int) =~= v@);
    copy_range(v, a, b)
}

/// The character sequences held by a vector of lines.
pub open spec fn views(v: Seq<Vec<char>>) -> Seq<Seq<char>> {
    v.map_values(|l: Vec<char>| l@)
}

/// The lines of `v`, as `str::lines` splits them.
pub fn split_lines(v: &[char]) -> (r: Vec<Vec<char>>)
    ensures
        views(r@) == lines(v@),
{
    let mut out: Vec<Vec<char>> = Vec::new();
    let n = v.len();
    let mut i: usize = 0;
    while i < n
        invariant
            n == v@.len(),
            i <= n,
            views(out@) + lines_from(v@, i as int) == lines(v@),
        decreases n - i,
    {
        let ghost before = views(out@);
        let ghost out0 = out@;
        match find_char_exec(v, '\n', i) {
            Some(j) => {
                proof {
                    lemma_find_char_from_props(v@, '\n', i as int);
                }
                let mut line = copy_range(v, i, j);
                if j > i && v[j - 1] == '\r' {
                    line = copy_range(v, i, j - 1);
                    assert(v@.subrange(i as int, j as int).drop_last() =~= v@.subrange(
                        i as int,
                        j - 1,
                    ));
                }
                out.push(line);
                assert(out@ =~= out0.push(line));
                assert(views(out@) =~= before.push(strip_cr(v@.subrange(i as int, j as int))));
                assert(before + lines_from(v@, i as int) =~= views(out@) + lines_from(
                    v@,
                    j + 1,
                ));
                i = j + 1;
            },
            None => {
                let line = copy_range(v, i, n);
                out.push(line);
                assert(out@ =~= out0.push(line));
                assert(views(out@) =~= before.push(v@.subrange(i as int, n as int)));
                assert(lines_from(v@, n as int) =~= Seq::<Seq<char>>::empty());
                assert(before + lines_from(v@, i as int) =~= views(out@) + lines_from(
                    v@,
                    n as int,
                ));
                i = n;
            },
        }
    }
    assert(lines_from(v@, i as int) =~= Seq::<Seq<char>>::empty());
    assert(views(out@) + Seq::<Seq<char>>::empty() =~= views(out@));
    out
}

/// The bounds of each line of `v`, as `str::lines` splits them.
pub fn line_ranges(v: &[char]) -> (r: Vec<(usize, usize)>)
    ensures
        r@.len() == lines(v@).len(),
        forall|k: int|
            0 <= k < r@.len() ==> (#[trigger] r@[k]).0 <= r@[k].1 <= v@.len() && v@.subrange(
                r@[k].0 as int,
                r@[k].1 as int,
            ) == lines(v@)[k],
{
    let mut out: Vec<(usize, usize)> = Vec::new();
    let ghost mut got: Seq<Seq<char>> = Seq::empty();
    let n = v.len();
    let mut i: usize = 0;
    while i < n
        invariant
            n == v@.len(),
            i <= n,
            got + lines_from(v@, i as int) == lines(v@),
            out@.len() == got.len(),
            forall|k: int|
                0 <= k < out@.len() ==> (#[trigger] out@[k]).0 <= out@[k].1 <= v@.len()
                    && v@.subrange(out@[k].0 as int, out@[k].1 as int) == got[k],
        decreases n - i,
    {
        match find_char_exec(v, '\n', i) {
            Some(j) => {
                proof {
                    lemma_find_char_from_props(v@, '\n', i as int);
                }
                let mut end = j;
                if j > i && v[j - 1] == '\r' {
                    end = j - 1;
                    assert(v@.subrange(i as int, j as int).drop_last() =~= v@.subrange(
                        i as int,
                        j - 1,
                    ));
                }
                let ghost o0 = out@;
                out.push((i, end));
                proof {
                    let g0 = got;
                    got = got.push(strip_cr(v@.subrange(i as int, j as int)));
                    assert(g0 + lines_from(v@, i as int) =~= got + lines_from(v@, j + 1));
                    assert forall|k: int| 0 <= k < out@.len() implies (#[trigger] out@[k]).0 <= out@[k].1
                        <= v@.len() && v@.subrange(out@[k].0 as int, out@[k].1 as int) == got[k] by {
                        if k < o0.len() {
                            assert(out@[k] == o0[k] && got[k] == g0[k]);
                        }
                    }
                }
                i = j + 1;
            },
            None => {
                let ghost o0 = out@;
                out.push((i, n));
                proof {
                    let g0 = got;
                    got = got.push(v@.subrange(i as int, n as int));
                    assert(lines_from(v@, n as int) =~= Seq::<Seq<char>>::empty());
                    assert(g0 + lines_from(v@, i as int) =~= got + lines_from(v@, n as int));
                    assert forall|k: int| 0 <= k < out@.len() implies (#[trigger] out@[k]).0 <= out@[k].1
                        <= v@.len() && v@.subrange(out@[k].0 as int, out@[k].1 as int) == got[k] by {
                        if k < o0.len() {
                            assert(out@[k] == o0[k] && got[k] == g0[k]);
                        }
                    }
                }
                i = n;
            },
        }
    }
    assert(lines_from(v@, i as int) =~= Seq::<Seq<char>>::empty());
    assert(got + Seq::<Seq<char>>::empty() =~= got);
    assert(got =~= lines(v@));
    out
}

} // verus!
