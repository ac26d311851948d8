//! Minimal Jinja-style templating for sync commit messages.
//!
//! Supports exactly one construct: `{{ variable }}` substitution. The
//! literal sequence `\n` becomes a newline, so multi-line templates can be
//! stored in single-line git config values:
//!
//! ```text
//! git config include.commitTemplate 'chore: {{ action }} {{ subdir }}\n\nsynced to {{ short_commit }}'
//! ```
//!
//! Unknown variables are left in place (making typos visible in the commit
//! message instead of silently vanishing).

use vstd::prelude::*;

use crate::text::{
    chars_eq, chars_of, copy_range, find_from, find_from_exec, lemma_find_from_props, string_of,
    trim, trimmed,
};

verus! {

/// `{{`
pub open spec fn open_tag() -> Seq<char> {
    seq!['{', '{']
}

/// `}}`
pub open spec fn close_tag() -> Seq<char> {
    seq!['}', '}']
}

/// `s` from index `i` on, each `\n` escape (a backslash followed by `n`)
/// replaced by a newline, scanning left to right.
pub open spec fn unescape_from(s: Seq<char>, i: int) -> Seq<char>
    decreases s.len() - i,
{
    if i < 0 || i >= s.len() {
        Seq::empty()
    } else if i + 1 < s.len() && s[i] == '\\' && s[i + 1] == 'n' {
        seq!['\n'] + unescape_from(s, i + 2)
    } else {
        seq![s[i]] + unescape_from(s, i + 1)
    }
}

pub open spec fn unescape(s: Seq<char>) -> Seq<char> {
    unescape_from(s, 0)
}

/// The value of the first variable named `key`.
pub open spec fn lookup(vars: Seq<(Seq<char>, Seq<char>)>, key: Seq<char>) -> Option<Seq<char>>
    decreases vars.len(),
{
    if vars.len() == 0 {
        None
    } else if vars[0].0 == key {
        Some(vars[0].1)
    } else {
        lookup(vars.drop_first(), key)
    }
}

/// What a tag with inner text `inner` renders to: the value of the
/// variable named by the trimmed text, or the tag itself when no variable
/// has that name.
pub open spec fn render_tag(vars: Seq<(Seq<char>, Seq<char>)>, inner: Seq<char>) -> Seq<char> {
    match lookup(vars, trim(inner)) {
        Some(v) => v,
        None => open_tag() + inner + close_tag(),
    }
}

/// The rendering of `t` from index `i` on. Text outside tags is copied;
/// an unterminated `{{` is kept verbatim.
pub open spec fn render_from(t: Seq<char>, i: int, vars: Seq<(Seq<char>, Seq<char>)>) -> Seq<char>
    decreases t.len() - i,
{
    if i < 0 || i > t.len() {
        Seq::empty()
    } else {
        proof {
            lemma_find_from_props(t, open_tag(), i);
        }
        match find_from(t, open_tag(), i) {
            None => t.subrange(i, t.len() as int),
            Some(start) => {
                let a = start + 2;
                proof {
                    lemma_find_from_props(t, close_tag(), a);
                }
                t.subrange(i, start) + match find_from(t, close_tag(), a) {
                    None => open_tag() + render_from(t, a, vars),
                    Some(end) => render_tag(vars, t.subrange(a, end)) + render_from(
                        t,
                        end + 2,
                        vars,
                    ),
                }
            },
        }
    }
}

pub open spec fn spec_render(template: Seq<char>, vars: Seq<(Seq<char>, Seq<char>)>) -> Seq<char> {
    render_from(unescape(template), 0, vars)
}

/// Variables as pairs of character sequences.
pub open spec fn var_views(vars: Seq<(&str, String)>) -> Seq<(Seq<char>, Seq<char>)> {
    vars.map_values(|p: (&str, String)| (p.0@, p.1@))
}

fn unescape_exec(s: &[char]) -> (r: Vec<char>)
    ensures
        r@ == unescape(s@),
{
    let mut out: Vec<char> = Vec::new();
    let n = s.len();
    let mut i: usize = 0;
    while i < n
        invariant
            n == s@.len(),
            i <= n + 1,
            out@ + unescape_from(s@, i as int) == unescape(s@),
        decreases n + 1 - i,
    {
        let ghost o = out@;
        if i + 1 < n && s[i] == '\\' && s[i + 1] == 'n' {
            out.push('\n');
            assert(out@ + unescape_from(s@, i + 2) =~= o + unescape_from(s@, i as int));
            i = i + 2;
        } else {
            out.push(s[i]);
            assert(out@ + unescape_from(s@, i + 1) =~= o + unescape_from(s@, i as int));
            i = i + 1;
        }
    }
    assert(unescape_from(s@, i as int) =~= Seq::<char>::empty());
    assert(out@ + Seq::<char>::empty() =~= out@);
    out
}

/// The value of the first variable named `key`.
fn lookup_exec<'a>(vars: &'a [(&str, String)], key: &[char]) -> (r: Option<&'a String>)
    ensures
        match r {
            Some(v) => lookup(var_views(vars@), key@) == Some(v@),
            None => lookup(var_views(vars@), key@) is None,
        },
{
    let n = vars.len();
    assert(var_views(vars@).skip(0) =~= var_views(vars@));
    for k in 0..n
        invariant
            n == vars@.len(),
            lookup(var_views(vars@), key@) == lookup(var_views(vars@).skip(k as int), key@),
    {
        let ghost rest = var_views(vars@).skip(k as int);
        assert(rest[0] == (vars@[k as int].0@, vars@[k as int].1@));
        assert(rest.drop_first() =~= var_views(vars@).skip(k + 1));
        if chars_eq(&chars_of(vars[k].0), key) {
            return Some(&vars[k].1);
        }
    }
    assert(var_views(vars@).skip(n as int) =~= Seq::<(Seq<char>, Seq<char>)>::empty());
    None
}

/// Append `v[lo..hi]` to `out`.
fn push_range(out: &mut Vec<char>, v: &[char], lo: usize, hi: usize)
    requires
        lo <= hi <= v@.len(),
    ensures
        final(out)@ == old(out)@ + v@.subrange(lo as int, hi as int),
{
    let mut piece = copy_range(v, lo, hi);
    out.append(&mut piece);
}

/// Render `template`, substituting `{{ name }}` tags from `vars`.
pub fn render(template: &str, vars: &[(&str, String)]) -> (r: String)
    ensures
        r@ == spec_render(template@, var_views(vars@)),
{
    let t = unescape_exec(&chars_of(template));
    let open = chars_of("{{");
    let close = chars_of("}}");
    proof {
        reveal_strlit("{{");
        reveal_strlit("}}");
        assert(open@ =~= open_tag());
        assert(close@ =~= close_tag());
    }
    let ghost vv = var_views(vars@);
    let ghost tv = t@;
    let mut out: Vec<char> = Vec::new();
    let mut pos: usize = 0;
    let tlen = t.len();
    loop
        invariant
            tlen == t@.len(),
            tv == t@,
            tv == unescape(template@),
            vv == var_views(vars@),
            open@ == open_tag(),
            close@ == close_tag(),
            pos <= t@.len(),
            out@ + render_from(tv, pos as int, vv) == render_from(tv, 0, vv),
        decreases t@.len() - pos,
    {
        let ghost o = out@;
        proof {
            lemma_find_from_props(tv, open_tag(), pos as int);
        }
        match find_from_exec(&t, &open, pos) {
            None => {
                push_range(&mut out, &t, pos, t.len());
                assert(out@ == render_from(tv, 0, vv));
                return string_of(&out);
            },
            Some(start) => {
                push_range(&mut out, &t, pos, start);
                assert(start + 2 <= tv.len());
                let a = start + 2;
                proof {
                    lemma_find_from_props(tv, close_tag(), a as int);
                }
                match find_from_exec(&t, &close, a) {
                    None => {
                        out.push('{');
                        out.push('{');
                        assert(out@ + render_from(tv, a as int, vv) =~= o + render_from(
                            tv,
                            pos as int,
                            vv,
                        ));
                        pos = a;
                    },
                    Some(end) => {
                        assert(end + 2 <= tv.len());
                        let inner = copy_range(&t, a, end);
                        let key = trimmed(&inner);
                        match lookup_exec(vars, &key) {
                            Some(value) => {
                                let vc = chars_of(value.as_str());
                                push_range(&mut out, &vc, 0, vc.len());
                                assert(vc@.subrange(0, vc@.len() as int) =~= vc@);
                            },
                            None => {
                                out.push('{');
                                out.push('{');
                                push_range(&mut out, &inner, 0, inner.len());
                                assert(inner@.subrange(0, inner@.len() as int) =~= inner@);
                                out.push('}');
                                out.push('}');
                            },
                        }
                        assert(out@ + render_from(tv, end + 2, vv) =~= o + render_from(
                            tv,
                            pos as int,
                            vv,
                        ));
                        pos = end + 2;
                    },
                }
            },
        }
    }
}

// -------------------------------------------------------------- laws --

proof fn lemma_render_from_no_vars(t: Seq<char>, i: int)
    requires
        0 <= i <= t.len(),
    ensures
        render_from(t, i, Seq::empty()) == t.subrange(i, t.len() as int),
    decreases t.len() - i,
{
    lemma_find_from_props(t, open_tag(), i);
    match find_from(t, open_tag(), i) {
        None => {},
        Some(start) => {
            let a = start + 2;
            assert(t.subrange(start, a) == open_tag());
            lemma_find_from_props(t, close_tag(), a);
            match find_from(t, close_tag(), a) {
                None => {
                    lemma_render_from_no_vars(t, a);
                    assert(t.subrange(i, start) + (open_tag() + t.subrange(a, t.len() as int))
                        =~= t.subrange(i, t.len() as int));
                },
                Some(end) => {
                    lemma_render_from_no_vars(t, end + 2);
                    assert(t.subrange(end, end + 2) == close_tag());
                    assert(lookup(Seq::empty(), trim(t.subrange(a, end))) is None);
                    assert(t.subrange(i, start) + ((open_tag() + t.subrange(a, end) + close_tag())
                        + t.subrange(end + 2, t.len() as int)) =~= t.subrange(
                        i,
                        t.len() as int,
                    ));
                },
            }
        },
    }
}

/// Unknown variables stay visible: with no variables defined, rendering
/// only turns `\n` escapes into newlines and leaves every tag in place.
pub proof fn lemma_render_without_variables(template: Seq<char>)
    ensures
        spec_render(template, Seq::empty()) == unescape(template),
{
    lemma_render_from_no_vars(unescape(template), 0);
    assert(unescape(template).subrange(0, unescape(template).len() as int) =~= unescape(
        template,
    ));
}

} // verus!
