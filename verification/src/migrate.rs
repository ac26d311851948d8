//! Converting git submodules into included repositories: reading
//! `.gitmodules`, choosing which submodules to migrate, and the
//! `.gitmodules` content left once a submodule is gone.

use vstd::prelude::*;

use crate::text::{
    chars_eq, chars_of, copy_range, find_char_exec, find_from, find_from_exec, lines,
    lemma_find_char_from_props, matches_at, split_lines, split_once, starts_with, ends_with,
    string_of, trim, trimmed, views,
};

verus! {

broadcast use vstd::string::group_string_axioms;

/// A submodule section of `.gitmodules` with both a path and a URL.
#[derive(Clone, Debug, PartialEq, Eq)]
pub struct Submodule {
    pub name: String,
    pub path: String,
    pub url: String,
}

pub struct SubmoduleView {
    pub name: Seq<char>,
    pub path: Seq<char>,
    pub url: Seq<char>,
}

impl View for Submodule {
    type V = SubmoduleView;

    open spec fn view(&self) -> SubmoduleView {
        SubmoduleView { name: self.name@, path: self.path@, url: self.url@ }
    }
}

pub open spec fn sub_views(v: Seq<Submodule>) -> Seq<SubmoduleView> {
    v.map_values(|s: Submodule| s@)
}

/// What the reader has collected after some lines.
pub struct ModState {
    pub out: Seq<SubmoduleView>,
    pub name: Option<Seq<char>>,
    pub path: Option<Seq<char>>,
    pub url: Option<Seq<char>>,
}

/// A section ends: it yields a submodule when it had a name, a path and a
/// URL; the collected values are dropped either way.
pub open spec fn flush(st: ModState) -> ModState {
    ModState {
        out: if st.name is Some && st.path is Some && st.url is Some {
            st.out.push(SubmoduleView { name: st.name->0, path: st.path->0, url: st.url->0 })
        } else {
            st.out
        },
        name: None,
        path: None,
        url: None,
    }
}

pub open spec fn section_open() -> Seq<char> {
    "[submodule \""@
}

pub open spec fn section_close() -> Seq<char> {
    "\"]"@
}

/// One line of `.gitmodules`: a `[submodule "name"]` header starts a new
/// section (a malformed header starts an unnamed one), any other `[...]`
/// header ends the current one, and `path = ...` / `url = ...` lines are
/// recorded (trimmed).
pub open spec fn module_line(st: ModState, line: Seq<char>) -> ModState {
    let l = trim(line);
    if starts_with(l, section_open()) {
        let rest = l.skip(section_open().len() as int);
        let f = flush(st);
        if ends_with(rest, section_close()) {
            ModState { name: Some(rest.take(rest.len() - 2)), ..f }
        } else {
            f
        }
    } else if l.len() > 0 && l[0] == '[' {
        flush(st)
    } else {
        match split_once(l, '=') {
            Some((k, v)) => if trim(k) == "path"@ {
                ModState { path: Some(trim(v)), ..st }
            } else if trim(k) == "url"@ {
                ModState { url: Some(trim(v)), ..st }
            } else {
                st
            },
            None => st,
        }
    }
}

pub open spec fn module_lines(st: ModState, ls: Seq<Seq<char>>) -> ModState
    decreases ls.len(),
{
    if ls.len() == 0 {
        st
    } else {
        module_line(module_lines(st, ls.drop_last()), ls.last())
    }
}

pub open spec fn empty_mod_state() -> ModState {
    ModState { out: Seq::empty(), name: None, path: None, url: None }
}

/// The complete submodule sections of a `.gitmodules` file, in order.
pub open spec fn spec_parse_gitmodules(content: Seq<char>) -> Seq<SubmoduleView> {
    flush(module_lines(empty_mod_state(), lines(content))).out
}

struct ModCursor {
    out: Vec<Submodule>,
    name: Option<Vec<char>>,
    path: Option<Vec<char>>,
    url: Option<Vec<char>>,
}

spec fn oc(o: Option<Vec<char>>) -> Option<Seq<char>> {
    match o {
        Some(v) => Some(v@),
        None => None,
    }
}

impl View for ModCursor {
    type V = ModState;

    closed spec fn view(&self) -> ModState {
        ModState { out: sub_views(self.out@), name: oc(self.name), path: oc(self.path), url: oc(self.url) }
    }
}

fn flush_exec(st: ModCursor) -> (r: ModCursor)
    ensures
        r@ == flush(st@),
{
    let ModCursor { out, name, path, url } = st;
    let mut out = out;
    match (name, path, url) {
        (Some(n), Some(p), Some(u)) => {
            let ghost o = out@;
            let s = Submodule { name: string_of(&n), path: string_of(&p), url: string_of(&u) };
            out.push(s);
            assert(sub_views(out@) =~= sub_views(o).push(SubmoduleView { name: n@, path: p@, url: u@ }));
        },
        _ => {},
    }
    ModCursor { out, name: None, path: None, url: None }
}

fn starts_with_exec(v: &Vec<char>, p: &Vec<char>) -> (r: bool)
    ensures
        r == starts_with(v@, p@),
{
    let r = matches_at(v, p, 0);
    proof {
        if r || starts_with(v@, p@) {
            assert(v@.subrange(0, p@.len() as int) =~= v@.take(p@.len() as int));
        }
    }
    r
}

fn ends_with_exec(v: &Vec<char>, p: &Vec<char>) -> (r: bool)
    ensures
        r == ends_with(v@, p@),
{
    if p.len() > v.len() {
        return false;
    }
    let at = v.len() - p.len();
    let r = matches_at(v, p, at);
    assert(v@.subrange(at as int, at + p@.len()) =~= v@.skip(at as int));
    r
}

fn module_line_exec(st: ModCursor, line: &Vec<char>) -> (r: ModCursor)
    ensures
        r@ == module_line(st@, line@),
{
    let l = trimmed(line);
    let open = chars_of("[submodule \"");
    if starts_with_exec(&l, &open) {
        let rest = copy_range(&l, open.len(), l.len());
        assert(rest@ =~= l@.skip(open@.len() as int));
        let mut f = flush_exec(st);
        let close = chars_of("\"]");
        proof {
            reveal_strlit("\"]");
        }
        if ends_with_exec(&rest, &close) {
            let nm = copy_range(&rest, 0, rest.len() - 2);
            assert(nm@ =~= rest@.take(rest@.len() - 2));
            f.name = Some(nm);
        }
        return f;
    }
    if l.len() > 0 && l[0] == '[' {
        return flush_exec(st);
    }
    match find_char_exec(&l, '=', 0) {
        Some(j) => {
            proof {
                lemma_find_char_from_props(l@, '=', 0);
            }
            let key = trimmed(&copy_range(&l, 0, j));
            let value = trimmed(&copy_range(&l, j + 1, l.len()));
            assert(l@.take(j as int) =~= l@.subrange(0, j as int));
            assert(l@.skip(j + 1) =~= l@.subrange(j + 1, l@.len() as int));
            let mut st = st;
            if chars_eq(&key, &chars_of("path")) {
                st.path = Some(value);
            } else if chars_eq(&key, &chars_of("url")) {
                st.url = Some(value);
            }
            st
        },
        None => st,
    }
}

/// The complete submodule sections of a `.gitmodules` file, in order.
/// Incomplete sections (missing path or URL) are skipped; reading never
/// fails.
pub fn parse_gitmodules(content: &str) -> (r: Result<Vec<Submodule>, ()>)
    ensures
        r matches Ok(v) && sub_views(v@) == spec_parse_gitmodules(content@),
{
    let chars = chars_of(content);
    let ls = split_lines(&chars);
    let mut st = ModCursor { out: Vec::new(), name: None, path: None, url: None };
    assert(sub_views(st.out@) =~= Seq::<SubmoduleView>::empty());
    let n = ls.len();
    for i in 0..n
        invariant
            n == ls@.len(),
            views(ls@) == lines(content@),
            st@ == module_lines(empty_mod_state(), views(ls@).take(i as int)),
    {
        assert(views(ls@).take(i + 1).drop_last() =~= views(ls@).take(i as int));
        st = module_line_exec(st, &ls[i]);
    }
    assert(views(ls@).take(n as int) =~= views(ls@));
    let st = flush_exec(st);
    Ok(st.out)
}

// ------------------------------------------------ remaining sections --

/// The header line of the section for submodule `name`.
pub open spec fn section_header(name: Seq<char>) -> Seq<char> {
    section_open() + name + section_close()
}

/// The lines kept after dropping the section of `header`, each followed by
/// a newline; `skipping` says whether that section is open.
pub open spec fn kept_lines(ls: Seq<Seq<char>>, header: Seq<char>) -> (Seq<char>, bool)
    decreases ls.len(),
{
    if ls.len() == 0 {
        (Seq::empty(), false)
    } else {
        let (kept, skipping) = kept_lines(ls.drop_last(), header);
        let line = ls.last();
        let t = trim(line);
        let skipping = if t.len() > 0 && t[0] == '[' {
            t == header
        } else {
            skipping
        };
        if skipping {
            (kept, skipping)
        } else {
            (kept + line + seq!['\n'], skipping)
        }
    }
}

/// `.gitmodules` with the section of submodule `name` removed; None when
/// no submodule section remains (the file should then be deleted).
pub open spec fn spec_remaining_gitmodules(content: Seq<char>, name: Seq<char>) -> Option<Seq<char>> {
    let kept = kept_lines(lines(content), section_header(name)).0;
    if find_from(kept, "[submodule "@, 0) is Some {
        Some(kept)
    } else {
        None
    }
}

pub fn remaining_gitmodules(content: &str, name: &str) -> (r: Option<String>)
    ensures
        match r {
            Some(s) => spec_remaining_gitmodules(content@, name@) == Some(s@),
            None => spec_remaining_gitmodules(content@, name@) is None,
        },
{
    let mut header = "[submodule \"".to_owned();
    header.append(name);
    header.append("\"]");
    let header = chars_of(header.as_str());
    let chars = chars_of(content);
    let ls = split_lines(&chars);
    let mut kept: Vec<char> = Vec::new();
    let mut skipping = false;
    let n = ls.len();
    for i in 0..n
        invariant
            n == ls@.len(),
            views(ls@) == lines(content@),
            header@ == section_header(name@),
            (kept@, skipping) == kept_lines(views(ls@).take(i as int), header@),
    {
        assert(views(ls@).take(i + 1).drop_last() =~= views(ls@).take(i as int));
        let t = trimmed(&ls[i]);
        if t.len() > 0 && t[0] == '[' {
            skipping = chars_eq(&t, &header);
        }
        if !skipping {
            let ghost k0 = kept@;
            let mut line = ls[i].clone();
            kept.append(&mut line);
            kept.push('\n');
            assert(kept@ =~= k0 + ls@[i as int]@ + seq!['\n']);
        }
    }
    assert(views(ls@).take(n as int) =~= views(ls@));
    if find_from_exec(&kept, &chars_of("[submodule "), 0).is_some() {
        Some(string_of(&kept))
    } else {
        None
    }
}

// ----------------------------------------------------- choosing targets --

/// `parts` joined with `sep` between them.
pub open spec fn join_with(parts: Seq<Seq<char>>, sep: Seq<char>) -> Seq<char>
    decreases parts.len(),
{
    if parts.len() == 0 {
        Seq::empty()
    } else if parts.len() == 1 {
        parts[0]
    } else {
        join_with(parts.drop_last(), sep) + sep + parts.last()
    }
}

/// The first submodule with path `p`.
pub open spec fn find_path(all: Seq<SubmoduleView>, p: Seq<char>, i: int) -> Option<int>
    decreases all.len() - i,
{
    if i < 0 || i >= all.len() {
        None
    } else if all[i].path == p {
        Some(i)
    } else {
        find_path(all, p, i + 1)
    }
}

/// The error for a path that is not a submodule: it names the path and
/// lists the known submodule paths.
pub open spec fn not_a_submodule_message(p: Seq<char>, all: Seq<SubmoduleView>) -> Seq<char> {
    "'"@ + p + "' is not a submodule; known submodules:\n  "@ + join_with(
        all.map_values(|s: SubmoduleView| s.path),
        "\n  "@,
    )
}

/// The submodules to migrate: all of them when no path is given,
/// otherwise the submodule of each given path, in the order given.
pub open spec fn spec_select(all: Seq<SubmoduleView>, paths: Seq<Seq<char>>) -> Result<
    Seq<SubmoduleView>,
    Seq<char>,
>
    decreases paths.len(),
{
    if paths.len() == 0 {
        Ok(all)
    } else {
        select_prefix(all, paths, paths.len() as int)
    }
}

pub open spec fn select_prefix(all: Seq<SubmoduleView>, paths: Seq<Seq<char>>, n: int) -> Result<
    Seq<SubmoduleView>,
    Seq<char>,
>
    decreases n,
{
    if n <= 0 {
        Ok(Seq::empty())
    } else {
        match select_prefix(all, paths, n - 1) {
            Err(e) => Err(e),
            Ok(prev) => match find_path(all, paths[n - 1], 0) {
                Some(i) => Ok(prev.push(all[i])),
                None => Err(not_a_submodule_message(paths[n - 1], all)),
            },
        }
    }
}

fn join_paths(all: &Vec<Submodule>, sep: &str) -> (r: Vec<char>)
    ensures
        r@ == join_with(sub_views(all@).map_values(|s: SubmoduleView| s.path), sep@),
{
    let ghost ps = sub_views(all@).map_values(|s: SubmoduleView| s.path);
    let sepc = chars_of(sep);
    let mut out: Vec<char> = Vec::new();
    let n = all.len();
    for i in 0..n
        invariant
            n == all@.len(),
            ps == sub_views(all@).map_values(|s: SubmoduleView| s.path),
            sepc@ == sep@,
            out@ == join_with(ps.take(i as int), sep@),
    {
        let ghost o = out@;
        assert(ps.take(i + 1).drop_last() =~= ps.take(i as int));
        assert(ps[i as int] == all@[i as int].path@);
        if i > 0 {
            let mut s = sepc.clone();
            out.append(&mut s);
        }
        let mut p = chars_of(all[i].path.as_str());
        out.append(&mut p);
        if i == 0 {
            assert(ps.take(1) =~= seq![ps[0]]);
            assert(out@ =~= ps[0]);
        } else {
            assert(out@ =~= o + sep@ + ps[i as int]);
        }
    }
    assert(ps.take(n as int) =~= ps);
    out
}

fn find_path_exec(all: &Vec<Submodule>, p: &String) -> (r: Option<usize>)
    ensures
        match r {
            Some(i) => find_path(sub_views(all@), p@, 0) == Some(i as int) && i < all@.len(),
            None => find_path(sub_views(all@), p@, 0) is None,
        },
{
    let n = all.len();
    for i in 0..n
        invariant
            n == all@.len(),
            find_path(sub_views(all@), p@, 0) == find_path(sub_views(all@), p@, i as int),
    {
        assert(sub_views(all@)[i as int] == all@[i as int]@);
        if all[i].path == *p {
            return Some(i);
        }
    }
    None
}

/// Choose the submodules to migrate (see `spec_select`); the error is the
/// message for the first path that is not a submodule.
pub fn select_submodules(all: &Vec<Submodule>, paths: &Vec<String>) -> (r: Result<Vec<Submodule>, String>)
    ensures
        match r {
            Ok(v) => spec_select(sub_views(all@), paths@.map_values(|s: String| s@)) == Ok::<
                Seq<SubmoduleView>,
                Seq<char>,
            >(sub_views(v@)),
            Err(e) => spec_select(sub_views(all@), paths@.map_values(|s: String| s@)) == Err::<
                Seq<SubmoduleView>,
                Seq<char>,
            >(e@),
        },
{
    let ghost pv = paths@.map_values(|s: String| s@);
    let ghost av = sub_views(all@);
    if paths.len() == 0 {
        let mut v: Vec<Submodule> = Vec::new();
        let n = all.len();
        for i in 0..n
            invariant
                n == all@.len(),
                av == sub_views(all@),
                sub_views(v@) == av.take(i as int),
        {
            let ghost v0 = v@;
            let s = Submodule {
                name: all[i].name.clone(),
                path: all[i].path.clone(),
                url: all[i].url.clone(),
            };
            assert(s@ == all@[i as int]@);
            assert(av[i as int] == all@[i as int]@);
            v.push(s);
            assert(sub_views(v@) =~= sub_views(v0).push(av[i as int]));
            assert(av.take(i + 1) =~= av.take(i as int).push(av[i as int]));
        }
        assert(av.take(n as int) =~= av);
        return Ok(v);
    }
    let mut out: Vec<Submodule> = Vec::new();
    let n = paths.len();
    assert(sub_views(out@) =~= Seq::<SubmoduleView>::empty());
    assert(select_prefix(av, pv, 0) == Ok::<Seq<SubmoduleView>, Seq<char>>(Seq::empty()));
    for i in 0..n
        invariant
            n == paths@.len(),
            n > 0,
            pv == paths@.map_values(|s: String| s@),
            av == sub_views(all@),
            select_prefix(av, pv, i as int) == Ok::<Seq<SubmoduleView>, Seq<char>>(sub_views(out@)),
    {
        assert(pv[i as int] == paths@[i as int]@);
        match find_path_exec(all, &paths[i]) {
            Some(k) => {
                let ghost o = out@;
                let s = Submodule {
                    name: all[k].name.clone(),
                    path: all[k].path.clone(),
                    url: all[k].url.clone(),
                };
                assert(s@ == all@[k as int]@);
                assert(av[k as int] == all@[k as int]@);
                out.push(s);
                assert(sub_views(out@) =~= sub_views(o).push(av[k as int]));
            },
            None => {
                let mut msg = "'".to_owned();
                msg.append(paths[i].as_str());
                msg.append("' is not a submodule; known submodules:\n  ");
                let joined = join_paths(all, "\n  ");
                let js = string_of(&joined);
                msg.append(js.as_str());
                proof {
                    let ghost k = i as int;
                    assert(select_prefix(av, pv, k + 1) == Err::<Seq<SubmoduleView>, Seq<char>>(
                        not_a_submodule_message(pv[k], av),
                    ));
                    lemma_select_prefix_err(av, pv, k + 1, n as int);
                }
                return Err(msg);
            },
        }
    }
    Ok(out)
}

proof fn lemma_select_prefix_err(all: Seq<SubmoduleView>, paths: Seq<Seq<char>>, k: int, n: int)
    requires
        0 <= k <= n,
        select_prefix(all, paths, k) is Err,
    ensures
        select_prefix(all, paths, n) == select_prefix(all, paths, k),
    decreases n - k,
{
    if k < n {
        lemma_select_prefix_err(all, paths, k, n - 1);
    }
}

/// The `.git/config` keys a migrated submodule leaves behind.
pub fn submodule_config_keys(name: &str) -> (r: Vec<String>)
    ensures
        r@.len() == 5,
        r@[0]@ == "submodule."@ + name@ + ".url"@,
        r@[1]@ == "submodule."@ + name@ + ".active"@,
        r@[2]@ == "submodule."@ + name@ + ".branch"@,
        r@[3]@ == "submodule."@ + name@ + ".update"@,
        r@[4]@ == "submodule."@ + name@ + ".ignore"@,
{
    let mut v: Vec<String> = Vec::new();
    let mut k = "submodule.".to_owned();
    k.append(name);
    k.append(".url");
    v.push(k);
    let mut k = "submodule.".to_owned();
    k.append(name);
    k.append(".active");
    v.push(k);
    let mut k = "submodule.".to_owned();
    k.append(name);
    k.append(".branch");
    v.push(k);
    let mut k = "submodule.".to_owned();
    k.append(name);
    k.append(".update");
    v.push(k);
    let mut k = "submodule.".to_owned();
    k.append(name);
    k.append(".ignore");
    v.push(k);
    v
}

/// The file mode git records for a submodule (a gitlink).
pub const GITLINK_MODE: i32 = 0o160000;

} // verus!
