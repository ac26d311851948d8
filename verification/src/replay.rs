//! Planning the upstream history that `push` publishes.
//!
//! Every host commit in `parent..HEAD` is mapped to its image in the
//! rebuilt upstream history: same message and author, the included
//! directory's tree taken verbatim (marker stripped), and the host parents
//! translated to their own images, so the host's branch and merge topology
//! carries over unchanged.
//!
//! Pruning keeps the result free of noise: commits that leave the
//! directory as their parent's image already has it reuse that image
//! (this also collapses merges whose other leg never touched the
//! directory), and history from before the include existed maps to
//! nothing at all. Sync commits (pull, switch, push bookkeeping) map to
//! the upstream commit they took; a pull that merged local work becomes a
//! real merge with upstream.
//!
//! The planner is driven one host commit at a time (oldest first) by the
//! caller, which reads the repository: `Replay::nodes` names the commits
//! whose ancestry and trees the decision needs, `Replay::decide` takes
//! those answers and says what to do with the host commit, and
//! `Replay::record` / `Replay::record_rebuilt` note the outcome.

use vstd::prelude::*;

use crate::ops::{changed_prefix, spec_changed_steps};
use crate::text::chars_eq;

verus! {

/// The rebuilt upstream history a push would create.
pub struct ReplayPlan {
    /// (host commit, its rebuilt upstream commit), oldest first. Pruned
    /// host commits do not appear.
    pub steps: Vec<(String, String)>,
    /// The rebuilt image of host HEAD: what push publishes. Equals the
    /// recorded upstream commit when there is nothing to push.
    pub tip: String,
}

/// What the caller read from the repository about one host commit.
pub struct CommitFacts {
    /// The host commit.
    pub commit: String,
    /// Its host parents, in order.
    pub parents: Vec<String>,
    /// For each host parent, the upstream image it has when it lies
    /// outside `parent..HEAD` (its own recorded sync point, the replay
    /// base, or None for history from before the include existed).
    pub hidden: Vec<Option<String>>,
    /// The included directory's tree in this commit, marker stripped; None
    /// when the directory does not exist in it.
    pub tree: Option<String>,
    /// Does any host parent contain the directory?
    pub parent_has_dir: bool,
    /// When this commit moved the marker to another obtainable upstream
    /// commit: that commit and its tree (if it resolves).
    pub sync: Option<(String, Option<String>)>,
}

/// What to do with one host commit.
pub enum ReplayStep {
    /// The commit deletes the whole directory: refuse to push.
    RefuseDeletion,
    /// No commit of its own: the image is the given upstream commit, or
    /// nothing (history from before the include existed).
    Reuse(Option<String>),
    /// Create a commit with the host commit's author and message, this
    /// tree, and these parents.
    Rebuild(Vec<String>, String),
}

/// The planner's state.
pub struct Replay {
    /// Host commit and its image, in the order they were mapped.
    pub images: Vec<(String, Option<String>)>,
    pub plan: ReplayPlan,
}

// ------------------------------------------------------------- views --

pub struct FactsView {
    pub commit: Seq<char>,
    pub parents: Seq<Seq<char>>,
    pub hidden: Seq<Option<Seq<char>>>,
    pub tree: Option<Seq<char>>,
    pub parent_has_dir: bool,
    pub sync: Option<(Seq<char>, Option<Seq<char>>)>,
}

pub enum StepView {
    RefuseDeletion,
    Reuse(Option<Seq<char>>),
    Rebuild(Seq<Seq<char>>, Seq<char>),
}

pub open spec fn ov(o: Option<String>) -> Option<Seq<char>> {
    match o {
        Some(s) => Some(s@),
        None => None,
    }
}

pub open spec fn strs(v: Seq<String>) -> Seq<Seq<char>> {
    v.map_values(|s: String| s@)
}

pub open spec fn image_views(v: Seq<(String, Option<String>)>) -> Seq<(Seq<char>, Option<Seq<char>>)> {
    v.map_values(|e: (String, Option<String>)| (e.0@, ov(e.1)))
}

pub open spec fn step_views(v: Seq<(String, String)>) -> Seq<(Seq<char>, Seq<char>)> {
    v.map_values(|e: (String, String)| (e.0@, e.1@))
}

impl View for CommitFacts {
    type V = FactsView;

    open spec fn view(&self) -> FactsView {
        FactsView {
            commit: self.commit@,
            parents: strs(self.parents@),
            hidden: self.hidden@.map_values(|o: Option<String>| ov(o)),
            tree: ov(self.tree),
            parent_has_dir: self.parent_has_dir,
            sync: match self.sync {
                Some((u, t)) => Some((u@, ov(t))),
                None => None,
            },
        }
    }
}

impl View for ReplayStep {
    type V = StepView;

    open spec fn view(&self) -> StepView {
        match self {
            ReplayStep::RefuseDeletion => StepView::RefuseDeletion,
            ReplayStep::Reuse(o) => StepView::Reuse(ov(*o)),
            ReplayStep::Rebuild(ps, t) => StepView::Rebuild(strs(ps@), t@),
        }
    }
}

// ------------------------------------------------------- specification --

/// The image of host commit `c`: the most recent mapping recorded for it.
pub open spec fn image_of(images: Seq<(Seq<char>, Option<Seq<char>>)>, c: Seq<char>) -> Option<
    Option<Seq<char>>,
>
    decreases images.len(),
{
    if images.len() == 0 {
        None
    } else if images.last().0 == c {
        Some(images.last().1)
    } else {
        image_of(images.drop_last(), c)
    }
}

/// The distinct images of the first `n` host parents, in order.
pub open spec fn candidates_prefix(
    images: Seq<(Seq<char>, Option<Seq<char>>)>,
    f: FactsView,
    n: int,
) -> Seq<Seq<char>>
    decreases n,
{
    if n <= 0 {
        Seq::empty()
    } else {
        let prev = candidates_prefix(images, f, n - 1);
        let image = match image_of(images, f.parents[n - 1]) {
            Some(im) => im,
            None => f.hidden[n - 1],
        };
        match image {
            Some(im) => if prev.contains(im) {
                prev
            } else {
                prev.push(im)
            },
            None => prev,
        }
    }
}

pub open spec fn candidates(images: Seq<(Seq<char>, Option<Seq<char>>)>, f: FactsView) -> Seq<
    Seq<char>,
> {
    candidates_prefix(images, f, f.parents.len() as int)
}

/// The commits the decision asks about: the candidate parents, then the
/// sync target if it is not among them.
pub open spec fn spec_nodes(images: Seq<(Seq<char>, Option<Seq<char>>)>, f: FactsView) -> Seq<
    Seq<char>,
> {
    let c = candidates(images, f);
    match f.sync {
        Some((up, _)) => if c.contains(up) {
            c
        } else {
            c.push(up)
        },
        None => c,
    }
}

/// The first position at or after `i` where `x` occurs in `s`.
pub open spec fn pos_from(s: Seq<Seq<char>>, x: Seq<char>, i: int) -> Option<int>
    decreases s.len() - i,
{
    if i < 0 || i >= s.len() {
        None
    } else if s[i] == x {
        Some(i)
    } else {
        pos_from(s, x, i + 1)
    }
}

/// The ancestry answers for `nodes`: `a` descends from `b`.
pub open spec fn descends(
    nodes: Seq<Seq<char>>,
    desc: Seq<Seq<bool>>,
    a: Seq<char>,
    b: Seq<char>,
) -> bool {
    match (pos_from(nodes, a, 0), pos_from(nodes, b, 0)) {
        (Some(i), Some(j)) => desc[i][j],
        _ => false,
    }
}

/// The tree of node `a`, as the caller resolved it.
pub open spec fn tree_of(nodes: Seq<Seq<char>>, trees: Seq<Option<Seq<char>>>, a: Seq<char>) -> Option<
    Seq<char>,
> {
    match pos_from(nodes, a, 0) {
        Some(i) => trees[i],
        None => None,
    }
}

proof fn lemma_pos_from_props(s: Seq<Seq<char>>, x: Seq<char>, i: int)
    requires
        0 <= i,
    ensures
        pos_from(s, x, i) matches Some(j) ==> i <= j < s.len() && s[j] == x,
    decreases s.len() - i,
{
    if i < s.len() && s[i] != x {
        lemma_pos_from_props(s, x, i + 1);
    }
}

/// `p` is an ancestor of another member of `ps`.
pub open spec fn redundant(
    nodes: Seq<Seq<char>>,
    desc: Seq<Seq<bool>>,
    ps: Seq<Seq<char>>,
    p: Seq<char>,
) -> bool {
    exists|k: int| 0 <= k < ps.len() && ps[k] != p && #[trigger] descends(nodes, desc, ps[k], p)
}

/// The members of the first `n` entries of `ps` that are not redundant.
pub open spec fn keep_prefix(
    nodes: Seq<Seq<char>>,
    desc: Seq<Seq<bool>>,
    ps: Seq<Seq<char>>,
    n: int,
) -> Seq<Seq<char>>
    decreases n,
{
    if n <= 0 {
        Seq::empty()
    } else {
        let prev = keep_prefix(nodes, desc, ps, n - 1);
        if redundant(nodes, desc, ps, ps[n - 1]) {
            prev
        } else {
            prev.push(ps[n - 1])
        }
    }
}

/// Drop parents that are ancestors of another parent: merges whose other
/// leg was pruned (or was already upstream) degrade to ordinary commits.
pub open spec fn drop_redundant(nodes: Seq<Seq<char>>, desc: Seq<Seq<bool>>, ps: Seq<Seq<char>>) -> Seq<
    Seq<char>,
> {
    if ps.len() < 2 {
        ps
    } else {
        keep_prefix(nodes, desc, ps, ps.len() as int)
    }
}

/// What the planner does with one host commit.
pub open spec fn spec_decide(
    images: Seq<(Seq<char>, Option<Seq<char>>)>,
    f: FactsView,
    nodes: Seq<Seq<char>>,
    desc: Seq<Seq<bool>>,
    trees: Seq<Option<Seq<char>>>,
) -> StepView {
    let parents = drop_redundant(nodes, desc, candidates(images, f));
    match f.tree {
        None => if f.parent_has_dir {
            StepView::RefuseDeletion
        } else {
            StepView::Reuse(None)
        },
        Some(tree) => {
            let synced = match f.sync {
                Some((up, up_tree)) => if up_tree == Some(tree) {
                    None
                } else if parents.contains(up) {
                    Some(parents)
                } else {
                    Some(drop_redundant(nodes, desc, parents.push(up)))
                },
                None => Some(parents),
            };
            match synced {
                None => StepView::Reuse(Some((f.sync->0).0)),
                Some(ps) => if ps.len() == 1 && tree_of(nodes, trees, ps[0]) == Some(tree) {
                    StepView::Reuse(Some(ps[0]))
                } else {
                    StepView::Rebuild(ps, tree)
                },
            }
        },
    }
}

/// The ancestry answers form a square matrix over the nodes.
pub open spec fn desc_fit(nodes: Seq<Seq<char>>, desc: Seq<Seq<bool>>) -> bool {
    &&& desc.len() == nodes.len()
    &&& forall|i: int| 0 <= i < desc.len() ==> #[trigger] desc[i].len() == nodes.len()
}

/// The caller's answers match the nodes asked about.
pub open spec fn answers_fit(
    nodes: Seq<Seq<char>>,
    desc: Seq<Seq<bool>>,
    trees: Seq<Option<Seq<char>>>,
) -> bool {
    &&& desc_fit(nodes, desc)
    &&& trees.len() == nodes.len()
}

/// The parents of a rebuilt commit: none is an ancestor of another.
pub open spec fn independent(nodes: Seq<Seq<char>>, desc: Seq<Seq<bool>>, ps: Seq<Seq<char>>) -> bool {
    forall|i: int, j: int|
        0 <= i < ps.len() && 0 <= j < ps.len() && ps[i] != ps[j] ==> !#[trigger] descends(
            nodes,
            desc,
            ps[i],
            ps[j],
        )
}

proof fn lemma_keep_prefix_members(
    nodes: Seq<Seq<char>>,
    desc: Seq<Seq<bool>>,
    ps: Seq<Seq<char>>,
    n: int,
)
    requires
        0 <= n <= ps.len(),
    ensures
        forall|x: int|
            0 <= x < keep_prefix(nodes, desc, ps, n).len() ==> exists|k: int|
                0 <= k < n && ps[k] == #[trigger] keep_prefix(nodes, desc, ps, n)[x] && !redundant(
                    nodes,
                    desc,
                    ps,
                    ps[k],
                ),
    decreases n,
{
    if n > 0 {
        lemma_keep_prefix_members(nodes, desc, ps, n - 1);
        let prev = keep_prefix(nodes, desc, ps, n - 1);
        let cur = keep_prefix(nodes, desc, ps, n);
        assert forall|x: int| 0 <= x < cur.len() implies exists|k: int|
            0 <= k < n && ps[k] == #[trigger] cur[x] && !redundant(nodes, desc, ps, ps[k]) by {
            if x < prev.len() {
                assert(cur[x] == prev[x]);
                let k = choose|k: int|
                    0 <= k < n - 1 && ps[k] == #[trigger] prev[x] && !redundant(nodes, desc, ps, ps[k]);
                assert(0 <= k < n && ps[k] == cur[x]);
            } else {
                assert(cur[x] == ps[n - 1]);
            }
        }
    }
}

/// What `drop_redundant` keeps is independent.
pub proof fn lemma_drop_redundant_independent(
    nodes: Seq<Seq<char>>,
    desc: Seq<Seq<bool>>,
    ps: Seq<Seq<char>>,
)
    ensures
        independent(nodes, desc, drop_redundant(nodes, desc, ps)),
{
    if ps.len() >= 2 {
        let r = drop_redundant(nodes, desc, ps);
        lemma_keep_prefix_members(nodes, desc, ps, ps.len() as int);
        assert forall|i: int, j: int|
            0 <= i < r.len() && 0 <= j < r.len() && r[i] != r[j] implies !#[trigger] descends(
            nodes,
            desc,
            r[i],
            r[j],
        ) by {
            let ki = choose|k: int| 0 <= k < ps.len() && ps[k] == #[trigger] r[i] && !redundant(nodes, desc, ps, ps[k]);
            let kj = choose|k: int| 0 <= k < ps.len() && ps[k] == #[trigger] r[j] && !redundant(nodes, desc, ps, ps[k]);
            if descends(nodes, desc, r[i], r[j]) {
                assert(ps[ki] != ps[kj] && descends(nodes, desc, ps[ki], ps[kj]));
                assert(redundant(nodes, desc, ps, ps[kj]));
            }
        }
    } else {
        let r = drop_redundant(nodes, desc, ps);
        assert forall|i: int, j: int|
            0 <= i < r.len() && 0 <= j < r.len() && r[i] != r[j] implies !#[trigger] descends(
            nodes,
            desc,
            r[i],
            r[j],
        ) by {
            assert(i == j);
        }
    }
}

// ------------------------------------------------------ fast-forward --

/// The caller's ancestry answers behave like git's: two distinct commits
/// are never each other's ancestors, and ancestry is transitive.
pub open spec fn ancestry_order(nodes: Seq<Seq<char>>, desc: Seq<Seq<bool>>) -> bool {
    &&& forall|a: Seq<char>, b: Seq<char>|
        a != b && #[trigger] descends(nodes, desc, a, b) ==> !descends(nodes, desc, b, a)
    &&& forall|a: Seq<char>, b: Seq<char>, c: Seq<char>|
        a != b && b != c && #[trigger] descends(nodes, desc, a, b) && #[trigger] descends(
            nodes,
            desc,
            b,
            c,
        ) ==> descends(nodes, desc, a, c)
}

/// `c` is one of `ps` or an ancestor of one of them: a commit whose
/// parents are `ps` contains `c`.
pub open spec fn covered(nodes: Seq<Seq<char>>, desc: Seq<Seq<bool>>, ps: Seq<Seq<char>>, c: Seq<char>) -> bool {
    ||| ps.contains(c)
    ||| exists|k: int| 0 <= k < ps.len() && ps[k] != c && #[trigger] descends(nodes, desc, ps[k], c)
}

/// How many of the first `n` entries of `ps` are other commits descending
/// from `x`.
spec fn count_above(nodes: Seq<Seq<char>>, desc: Seq<Seq<bool>>, ps: Seq<Seq<char>>, x: Seq<char>, n: int) -> nat
    decreases n,
{
    if n <= 0 {
        0
    } else {
        count_above(nodes, desc, ps, x, n - 1) + if ps[n - 1] != x && descends(nodes, desc, ps[n - 1], x) {
            1nat
        } else {
            0nat
        }
    }
}

spec fn count_eq(ps: Seq<Seq<char>>, x: Seq<char>, n: int) -> nat
    decreases n,
{
    if n <= 0 {
        0
    } else {
        count_eq(ps, x, n - 1) + if ps[n - 1] == x { 1nat } else { 0nat }
    }
}

proof fn lemma_count_above_drops(
    nodes: Seq<Seq<char>>,
    desc: Seq<Seq<bool>>,
    ps: Seq<Seq<char>>,
    q: Seq<char>,
    x: Seq<char>,
    n: int,
)
    requires
        ancestry_order(nodes, desc),
        q != x,
        descends(nodes, desc, q, x),
        0 <= n <= ps.len(),
    ensures
        count_above(nodes, desc, ps, q, n) + count_eq(ps, q, n) <= count_above(nodes, desc, ps, x, n),
    decreases n,
{
    if n > 0 {
        lemma_count_above_drops(nodes, desc, ps, q, x, n - 1);
        let y = ps[n - 1];
        if y != q && descends(nodes, desc, y, q) {
            if y == x {
                assert(!descends(nodes, desc, q, x));
            }
            assert(descends(nodes, desc, y, x));
        }
    }
}

proof fn lemma_count_eq_positive(ps: Seq<Seq<char>>, j: int, n: int)
    requires
        0 <= j < n <= ps.len(),
    ensures
        count_eq(ps, ps[j], n) >= 1,
    decreases n,
{
    if n - 1 > j {
        lemma_count_eq_positive(ps, j, n - 1);
    }
}

proof fn lemma_keep_prefix_keeps(nodes: Seq<Seq<char>>, desc: Seq<Seq<bool>>, ps: Seq<Seq<char>>, i: int, n: int)
    requires
        0 <= i < n <= ps.len(),
        !redundant(nodes, desc, ps, ps[i]),
    ensures
        keep_prefix(nodes, desc, ps, n).contains(ps[i]),
    decreases n,
{
    let prev = keep_prefix(nodes, desc, ps, n - 1);
    if n - 1 == i {
        assert(keep_prefix(nodes, desc, ps, n) == prev.push(ps[i]));
        assert(prev.push(ps[i])[prev.len() as int] == ps[i]);
    } else {
        lemma_keep_prefix_keeps(nodes, desc, ps, i, n - 1);
        let k = choose|k: int| 0 <= k < prev.len() && prev[k] == ps[i];
        if !redundant(nodes, desc, ps, ps[n - 1]) {
            assert(prev.push(ps[n - 1])[k] == ps[i]);
        }
    }
}

/// Every entry of `ps` is covered by the entries that dropping the
/// redundant ones keeps.
proof fn lemma_kept_cover(nodes: Seq<Seq<char>>, desc: Seq<Seq<bool>>, ps: Seq<Seq<char>>, i: int)
    requires
        ancestry_order(nodes, desc),
        0 <= i < ps.len(),
    ensures
        covered(nodes, desc, keep_prefix(nodes, desc, ps, ps.len() as int), ps[i]),
    decreases count_above(nodes, desc, ps, ps[i], ps.len() as int),
{
    let kept = keep_prefix(nodes, desc, ps, ps.len() as int);
    let x = ps[i];
    if !redundant(nodes, desc, ps, x) {
        lemma_keep_prefix_keeps(nodes, desc, ps, i, ps.len() as int);
    } else {
        let k = choose|k: int| 0 <= k < ps.len() && ps[k] != x && #[trigger] descends(nodes, desc, ps[k], x);
        let q = ps[k];
        lemma_count_above_drops(nodes, desc, ps, q, x, ps.len() as int);
        lemma_count_eq_positive(ps, k, ps.len() as int);
        lemma_kept_cover(nodes, desc, ps, k);
        if kept.contains(q) {
            let m = choose|m: int| 0 <= m < kept.len() && kept[m] == q;
            assert(kept[m] != x && descends(nodes, desc, kept[m], x));
        } else {
            let m = choose|m: int| 0 <= m < kept.len() && kept[m] != q && #[trigger] descends(nodes, desc, kept[m], q);
            if kept[m] == x {
                assert(!descends(nodes, desc, q, x));
            }
            assert(descends(nodes, desc, kept[m], x));
        }
    }
}

proof fn lemma_drop_redundant_covers(nodes: Seq<Seq<char>>, desc: Seq<Seq<bool>>, ps: Seq<Seq<char>>, i: int)
    requires
        ancestry_order(nodes, desc),
        0 <= i < ps.len(),
    ensures
        covered(nodes, desc, drop_redundant(nodes, desc, ps), ps[i]),
{
    if ps.len() >= 2 {
        lemma_kept_cover(nodes, desc, ps, i);
    } else {
        assert(ps[i] == ps[i]);
        assert(ps.contains(ps[i]));
    }
}

/// What covers `q` also covers the ancestors of `q`.
proof fn lemma_cover_ancestor(
    nodes: Seq<Seq<char>>,
    desc: Seq<Seq<bool>>,
    ps: Seq<Seq<char>>,
    q: Seq<char>,
    c: Seq<char>,
)
    requires
        ancestry_order(nodes, desc),
        covered(nodes, desc, ps, q),
        q != c,
        descends(nodes, desc, q, c),
    ensures
        covered(nodes, desc, ps, c),
{
    if ps.contains(q) {
        let m = choose|m: int| 0 <= m < ps.len() && ps[m] == q;
        assert(ps[m] != c && descends(nodes, desc, ps[m], c));
    } else {
        let m = choose|m: int| 0 <= m < ps.len() && ps[m] != q && #[trigger] descends(nodes, desc, ps[m], q);
        if ps[m] == c {
            assert(!descends(nodes, desc, q, c));
        }
        assert(descends(nodes, desc, ps[m], c));
    }
}

proof fn lemma_drop_redundant_keeps_cover(
    nodes: Seq<Seq<char>>,
    desc: Seq<Seq<bool>>,
    ps: Seq<Seq<char>>,
    c: Seq<char>,
)
    requires
        ancestry_order(nodes, desc),
        covered(nodes, desc, ps, c),
    ensures
        covered(nodes, desc, drop_redundant(nodes, desc, ps), c),
{
    if ps.contains(c) {
        let i = choose|i: int| 0 <= i < ps.len() && ps[i] == c;
        lemma_drop_redundant_covers(nodes, desc, ps, i);
    } else {
        let k = choose|k: int| 0 <= k < ps.len() && ps[k] != c && #[trigger] descends(nodes, desc, ps[k], c);
        lemma_drop_redundant_covers(nodes, desc, ps, k);
        lemma_cover_ancestor(nodes, desc, drop_redundant(nodes, desc, ps), ps[k], c);
    }
}

/// The sync commit took its upstream commit verbatim (e.g. a forced pull).
pub open spec fn took_upstream_verbatim(f: FactsView) -> bool {
    &&& f.tree is Some
    &&& (f.sync matches Some((_, t)) && t == f.tree)
}

/// Publishing the rebuilt history fast-forwards upstream. The image of
/// every host commit contains the images of its host parents and the
/// upstream commit its marker moved to: a rebuilt commit has each of them
/// as a parent or as an ancestor of a parent, and a reused image is each
/// of them or descends from it (by the caller's ancestry answers). So the
/// image of HEAD descends from the upstream commit the marker records.
/// The one exception is a sync commit that took upstream verbatim (a
/// forced pull discarding local work), whose image is that upstream
/// commit itself.
pub proof fn lemma_images_contain_parents_and_sync(
    images: Seq<(Seq<char>, Option<Seq<char>>)>,
    f: FactsView,
    nodes: Seq<Seq<char>>,
    desc: Seq<Seq<bool>>,
    trees: Seq<Option<Seq<char>>>,
)
    requires
        ancestry_order(nodes, desc),
    ensures
        match spec_decide(images, f, nodes, desc, trees) {
            StepView::Rebuild(ps, _) => {
                &&& forall|c: Seq<char>| #[trigger] candidates(images, f).contains(c) ==> covered(nodes, desc, ps, c)
                &&& f.sync matches Some((up, _)) ==> covered(nodes, desc, ps, up)
            },
            StepView::Reuse(Some(x)) => {
                &&& f.sync matches Some((up, _)) ==> covered(nodes, desc, seq![x], up)
                &&& !took_upstream_verbatim(f) ==> forall|c: Seq<char>| #[trigger] candidates(images, f).contains(c)
                    ==> covered(nodes, desc, seq![x], c)
            },
            _ => true,
        },
{
    let cands = candidates(images, f);
    let parents = drop_redundant(nodes, desc, cands);
    assert forall|c: Seq<char>| cands.contains(c) implies covered(nodes, desc, parents, c) by {
        let i = choose|i: int| 0 <= i < cands.len() && cands[i] == c;
        lemma_drop_redundant_covers(nodes, desc, cands, i);
    }
    if let Some(tree) = f.tree {
        let synced = match f.sync {
            Some((up, up_tree)) => if up_tree == Some(tree) {
                None
            } else if parents.contains(up) {
                Some(parents)
            } else {
                Some(drop_redundant(nodes, desc, parents.push(up)))
            },
            None => Some(parents),
        };
        match synced {
            None => {
                let up = (f.sync->0).0;
                assert(seq![up][0] == up);
            },
            Some(ps) => {
                if let Some((up, up_tree)) = f.sync {
                    if !parents.contains(up) {
                        let p2 = parents.push(up);
                        assert forall|c: Seq<char>| cands.contains(c) implies covered(nodes, desc, ps, c) by {
                            if parents.contains(c) {
                                let j = choose|j: int| 0 <= j < parents.len() && parents[j] == c;
                                assert(p2[j] == c);
                            } else {
                                let k = choose|k: int|
                                    0 <= k < parents.len() && parents[k] != c && #[trigger] descends(
                                        nodes,
                                        desc,
                                        parents[k],
                                        c,
                                    );
                                assert(p2[k] == parents[k]);
                            }
                            lemma_drop_redundant_keeps_cover(nodes, desc, p2, c);
                        }
                        assert(p2[parents.len() as int] == up);
                        lemma_drop_redundant_keeps_cover(nodes, desc, p2, up);
                    }
                }
                if ps.len() == 1 && tree_of(nodes, trees, ps[0]) == Some(tree) {
                    assert(ps =~= seq![ps[0]]);
                }
            },
        }
    }
}

// ---------------------------------------------- whole-push fast-forward --

/// An ancestry relation on commits as git has it: `anc(a, b)` when `a`
/// descends from `b`; transitive, and never both ways between distinct
/// commits.
pub open spec fn ancestry_relation(anc: spec_fn(Seq<char>, Seq<char>) -> bool) -> bool {
    &&& forall|a: Seq<char>, b: Seq<char>| a != b && #[trigger] anc(a, b) ==> !anc(b, a)
    &&& forall|a: Seq<char>, b: Seq<char>, c: Seq<char>|
        #[trigger] anc(a, b) && #[trigger] anc(b, c) ==> anc(a, c)
}

/// The ancestry answers the caller gives for `nodes` when it reads them
/// from `anc`.
pub open spec fn anc_matrix(nodes: Seq<Seq<char>>, anc: spec_fn(Seq<char>, Seq<char>) -> bool) -> Seq<Seq<bool>> {
    Seq::new(nodes.len(), |i: int| Seq::new(nodes.len(), |j: int| anc(nodes[i], nodes[j])))
}

/// The tree answers the caller gives for `nodes` when it reads them from
/// `treef`.
pub open spec fn tree_answers(nodes: Seq<Seq<char>>, treef: spec_fn(Seq<char>) -> Option<Seq<char>>) -> Seq<
    Option<Seq<char>>,
> {
    Seq::new(nodes.len(), |i: int| treef(nodes[i]))
}

/// The planner's decision for the commit of `f`, given the images so far
/// and answers read from `anc` and `treef`.
pub open spec fn run_step(
    images: Seq<(Seq<char>, Option<Seq<char>>)>,
    f: FactsView,
    anc: spec_fn(Seq<char>, Seq<char>) -> bool,
    treef: spec_fn(Seq<char>) -> Option<Seq<char>>,
) -> StepView {
    let nodes = spec_nodes(images, f);
    spec_decide(images, f, nodes, anc_matrix(nodes, anc), tree_answers(nodes, treef))
}

/// The images recorded after driving the planner over the first `n`
/// commits of `facts` (in walk order) from the boundary `parent`, upstream
/// at `base`; `rebuilt[k]` names the commit created when step `k` is
/// rebuilt. A refused step records nothing.
pub open spec fn run_images(
    parent: Seq<char>,
    base: Seq<char>,
    facts: Seq<FactsView>,
    anc: spec_fn(Seq<char>, Seq<char>) -> bool,
    treef: spec_fn(Seq<char>) -> Option<Seq<char>>,
    rebuilt: Seq<Seq<char>>,
    n: int,
) -> Seq<(Seq<char>, Option<Seq<char>>)>
    decreases n,
{
    if n <= 0 {
        seq![(parent, Some(base))]
    } else {
        let images = run_images(parent, base, facts, anc, treef, rebuilt, n - 1);
        match run_step(images, facts[n - 1], anc, treef) {
            StepView::Rebuild(_, _) => images.push((facts[n - 1].commit, Some(rebuilt[n - 1]))),
            StepView::Reuse(x) => images.push((facts[n - 1].commit, x)),
            StepView::RefuseDeletion => images,
        }
    }
}

/// The created commit of a rebuilt step descends from each of its parents.
pub open spec fn rebuilt_descends(
    parent: Seq<char>,
    base: Seq<char>,
    facts: Seq<FactsView>,
    anc: spec_fn(Seq<char>, Seq<char>) -> bool,
    treef: spec_fn(Seq<char>) -> Option<Seq<char>>,
    rebuilt: Seq<Seq<char>>,
    k: int,
) -> bool {
    match run_step(run_images(parent, base, facts, anc, treef, rebuilt, k), facts[k], anc, treef) {
        StepView::Rebuild(ps, _) => forall|i: int| 0 <= i < ps.len() ==> anc(rebuilt[k], #[trigger] ps[i]),
        _ => true,
    }
}

/// The upstream commit the marker of commit `k` records: the one its sync
/// moved to, else its first parent's (`fpi[k]` indexes the first parent
/// among earlier commits, negative for the boundary, which records
/// `base`).
pub open spec fn recorded_at(base: Seq<char>, facts: Seq<FactsView>, fpi: Seq<int>, k: int) -> Seq<char>
    decreases k,
{
    if k < 0 || k >= facts.len() {
        base
    } else {
        match facts[k].sync {
            Some((up, _)) => up,
            None => if 0 <= fpi[k] < k {
                recorded_at(base, facts, fpi, fpi[k])
            } else {
                base
            },
        }
    }
}

/// Commit `k` and every commit on its first-parent line back to the
/// boundary contain the directory.
pub open spec fn first_parent_line_has_dir(facts: Seq<FactsView>, fpi: Seq<int>, k: int) -> bool
    decreases k,
{
    if k < 0 || k >= facts.len() {
        false
    } else {
        &&& facts[k].tree is Some
        &&& if 0 <= fpi[k] < k {
            first_parent_line_has_dir(facts, fpi, fpi[k])
        } else {
            true
        }
    }
}

/// `x` is `r` or descends from it.
pub open spec fn contains_commit(anc: spec_fn(Seq<char>, Seq<char>) -> bool, x: Seq<char>, r: Seq<char>) -> bool {
    x == r || anc(x, r)
}

proof fn lemma_matrix_descends(
    nodes: Seq<Seq<char>>,
    anc: spec_fn(Seq<char>, Seq<char>) -> bool,
    a: Seq<char>,
    b: Seq<char>,
)
    requires
        descends(nodes, anc_matrix(nodes, anc), a, b),
    ensures
        anc(a, b),
        pos_from(nodes, a, 0) is Some,
        pos_from(nodes, b, 0) is Some,
{
    lemma_pos_from_props(nodes, a, 0);
    lemma_pos_from_props(nodes, b, 0);
}

proof fn lemma_matrix_order(nodes: Seq<Seq<char>>, anc: spec_fn(Seq<char>, Seq<char>) -> bool)
    requires
        ancestry_relation(anc),
    ensures
        ancestry_order(nodes, anc_matrix(nodes, anc)),
{
    let desc = anc_matrix(nodes, anc);
    assert forall|a: Seq<char>, b: Seq<char>| a != b && #[trigger] descends(nodes, desc, a, b) implies !descends(
        nodes,
        desc,
        b,
        a,
    ) by {
        lemma_matrix_descends(nodes, anc, a, b);
        if descends(nodes, desc, b, a) {
            lemma_matrix_descends(nodes, anc, b, a);
        }
    }
    assert forall|a: Seq<char>, b: Seq<char>, c: Seq<char>|
        a != b && b != c && #[trigger] descends(nodes, desc, a, b) && #[trigger] descends(
            nodes,
            desc,
            b,
            c,
        ) implies descends(nodes, desc, a, c) by {
        lemma_matrix_descends(nodes, anc, a, b);
        lemma_matrix_descends(nodes, anc, b, c);
        assert(anc(a, c));
        lemma_pos_from_props(nodes, a, 0);
        lemma_pos_from_props(nodes, c, 0);
    }
}

proof fn lemma_candidates_keep(
    images: Seq<(Seq<char>, Option<Seq<char>>)>,
    f: FactsView,
    y: Seq<char>,
    n: int,
)
    requires
        1 <= n,
        f.parents.len() > 0,
        image_of(images, f.parents[0]) == Some(Some(y)),
    ensures
        candidates_prefix(images, f, n).contains(y),
    decreases n,
{
    if n == 1 {
        assert(candidates_prefix(images, f, 0) =~= Seq::<Seq<char>>::empty());
        assert(candidates_prefix(images, f, 1) =~= seq![y]);
        assert(seq![y][0] == y);
    } else {
        lemma_candidates_keep(images, f, y, n - 1);
        let prev = candidates_prefix(images, f, n - 1);
        let i = choose|i: int| 0 <= i < prev.len() && prev[i] == y;
        let image = match image_of(images, f.parents[n - 1]) {
            Some(im) => im,
            None => f.hidden[n - 1],
        };
        if let Some(im) = image {
            if !prev.contains(im) {
                assert(prev.push(im)[i] == y);
            }
        }
    }
}

/// The first parent of commit `k` is the commit `fpi[k]` names, or the
/// boundary `parent`.
pub open spec fn first_parent_known(parent: Seq<char>, facts: Seq<FactsView>, fpi: Seq<int>, k: int) -> bool {
    &&& facts[k].parents.len() > 0
    &&& if 0 <= fpi[k] < k {
        facts[k].parents[0] == facts[fpi[k]].commit
    } else {
        facts[k].parents[0] == parent
    }
}

/// The host commits of a walk: distinct, none of them the boundary.
pub open spec fn distinct_commits(parent: Seq<char>, facts: Seq<FactsView>) -> bool {
    &&& forall|i: int, j: int| 0 <= i < j < facts.len() ==> #[trigger] facts[i].commit != #[trigger] facts[j].commit
    &&& forall|k: int| 0 <= k < facts.len() ==> #[trigger] facts[k].commit != parent
}

proof fn lemma_run_keeps_images(
    parent: Seq<char>,
    base: Seq<char>,
    facts: Seq<FactsView>,
    anc: spec_fn(Seq<char>, Seq<char>) -> bool,
    treef: spec_fn(Seq<char>) -> Option<Seq<char>>,
    rebuilt: Seq<Seq<char>>,
    c: Seq<char>,
    from: int,
    m: int,
)
    requires
        0 <= from <= m <= facts.len(),
        forall|j: int| from <= j < m ==> #[trigger] facts[j].commit != c,
    ensures
        image_of(run_images(parent, base, facts, anc, treef, rebuilt, m), c) == image_of(
            run_images(parent, base, facts, anc, treef, rebuilt, from),
            c,
        ),
    decreases m,
{
    if m > from {
        lemma_run_keeps_images(parent, base, facts, anc, treef, rebuilt, c, from, m - 1);
        assert(facts[m - 1].commit != c);
        let images = run_images(parent, base, facts, anc, treef, rebuilt, m - 1);
        match run_step(images, facts[m - 1], anc, treef) {
            StepView::Rebuild(_, _) => {
                assert(images.push((facts[m - 1].commit, Some(rebuilt[m - 1]))).drop_last() =~= images);
            },
            StepView::Reuse(x) => {
                assert(images.push((facts[m - 1].commit, x)).drop_last() =~= images);
            },
            StepView::RefuseDeletion => {},
        }
    }
}

proof fn lemma_run_image_good(
    parent: Seq<char>,
    base: Seq<char>,
    facts: Seq<FactsView>,
    fpi: Seq<int>,
    anc: spec_fn(Seq<char>, Seq<char>) -> bool,
    treef: spec_fn(Seq<char>) -> Option<Seq<char>>,
    rebuilt: Seq<Seq<char>>,
    k: int,
)
    requires
        ancestry_relation(anc),
        0 <= k < facts.len(),
        forall|j: int| 0 <= j < facts.len() ==> #[trigger] first_parent_known(parent, facts, fpi, j),
        distinct_commits(parent, facts),
        forall|j: int| 0 <= j < facts.len() ==> #[trigger] rebuilt_descends(parent, base, facts, anc, treef, rebuilt, j),
        first_parent_line_has_dir(facts, fpi, k),
    ensures
        image_of(run_images(parent, base, facts, anc, treef, rebuilt, k + 1), facts[k].commit) matches Some(Some(x))
            && contains_commit(anc, x, recorded_at(base, facts, fpi, k)),
    decreases k,
{
    let images = run_images(parent, base, facts, anc, treef, rebuilt, k);
    let f = facts[k];
    assert(first_parent_known(parent, facts, fpi, k));
    let fp = f.parents[0];
    // The image of the first parent, and what its marker records.
    let (y, ry) = if 0 <= fpi[k] < k {
        let j = fpi[k];
        lemma_run_image_good(parent, base, facts, fpi, anc, treef, rebuilt, j);
        assert forall|i: int| j + 1 <= i < k implies #[trigger] facts[i].commit != facts[j].commit by {
            assert(facts[j].commit != facts[i].commit);
        }
        lemma_run_keeps_images(parent, base, facts, anc, treef, rebuilt, facts[j].commit, j + 1, k);
        let y = image_of(run_images(parent, base, facts, anc, treef, rebuilt, j + 1), facts[j].commit)->0->0;
        (y, recorded_at(base, facts, fpi, j))
    } else {
        assert forall|i: int| 0 <= i < k implies #[trigger] facts[i].commit != parent by {}
        lemma_run_keeps_images(parent, base, facts, anc, treef, rebuilt, parent, 0, k);
        (base, base)
    };
    assert(image_of(images, fp) == Some(Some(y)));
    assert(contains_commit(anc, y, ry));
    lemma_candidates_keep(images, f, y, f.parents.len() as int);
    assert(candidates(images, f).contains(y));
    let nodes = spec_nodes(images, f);
    let desc = anc_matrix(nodes, anc);
    let trees = tree_answers(nodes, treef);
    lemma_matrix_order(nodes, anc);
    lemma_images_contain_parents_and_sync(images, f, nodes, desc, trees);
    let r = recorded_at(base, facts, fpi, k);
    assert(r == match f.sync {
        Some((up, _)) => up,
        None => ry,
    });
    assert(rebuilt_descends(parent, base, facts, anc, treef, rebuilt, k));
    match spec_decide(images, f, nodes, desc, trees) {
        StepView::Rebuild(ps, _) => {
            let x = rebuilt[k];
            // x descends from everything its parents cover.
            assert forall|c: Seq<char>| covered(nodes, desc, ps, c) implies anc(x, c) by {
                if ps.contains(c) {
                    let i = choose|i: int| 0 <= i < ps.len() && ps[i] == c;
                    assert(anc(x, ps[i]));
                } else {
                    let m = choose|m: int| 0 <= m < ps.len() && ps[m] != c && #[trigger] descends(nodes, desc, ps[m], c);
                    lemma_matrix_descends(nodes, anc, ps[m], c);
                    assert(anc(x, ps[m]));
                }
            }
            match f.sync {
                Some((up, _)) => {
                    assert(covered(nodes, desc, ps, up));
                },
                None => {
                    assert(covered(nodes, desc, ps, y));
                    assert(anc(x, y));
                },
            }
        },
        StepView::Reuse(Some(x)) => {
            assert forall|c: Seq<char>| covered(nodes, desc, seq![x], c) implies contains_commit(anc, x, c) by {
                if seq![x].contains(c) {
                    let i = choose|i: int| 0 <= i < 1 && seq![x][i] == c;
                } else {
                    let m = choose|m: int| 0 <= m < 1 && seq![x][m] != c && #[trigger] descends(nodes, desc, seq![x][m], c);
                    lemma_matrix_descends(nodes, anc, seq![x][m], c);
                }
            }
            match f.sync {
                Some((up, _)) => {
                    assert(covered(nodes, desc, seq![x], up));
                },
                None => {
                    assert(!took_upstream_verbatim(f));
                    assert(covered(nodes, desc, seq![x], y));
                    assert(contains_commit(anc, x, y));
                },
            }
        },
        _ => {},
    }
}

/// Publishing the rebuilt history fast-forwards upstream: driving the
/// planner over a host history in walk order, with the caller's ancestry
/// answers read from a real ancestry relation and every rebuilt commit
/// descending from its parents, the image of each commit whose
/// first-parent line back to the boundary keeps the directory is the
/// upstream commit its marker records, or descends from it. For HEAD
/// this is the pushed tip (`Replay::finish`) and the commit `push`
/// checked upstream still is (`check_upstream_unmoved`).
pub proof fn lemma_push_fast_forwards(
    parent: Seq<char>,
    base: Seq<char>,
    facts: Seq<FactsView>,
    fpi: Seq<int>,
    anc: spec_fn(Seq<char>, Seq<char>) -> bool,
    treef: spec_fn(Seq<char>) -> Option<Seq<char>>,
    rebuilt: Seq<Seq<char>>,
)
    requires
        ancestry_relation(anc),
        forall|j: int| 0 <= j < facts.len() ==> #[trigger] first_parent_known(parent, facts, fpi, j),
        distinct_commits(parent, facts),
        forall|j: int| 0 <= j < facts.len() ==> #[trigger] rebuilt_descends(parent, base, facts, anc, treef, rebuilt, j),
    ensures
        forall|k: int|
            0 <= k < facts.len() && #[trigger] first_parent_line_has_dir(facts, fpi, k) ==> (image_of(
                run_images(parent, base, facts, anc, treef, rebuilt, facts.len() as int),
                facts[k].commit,
            ) matches Some(Some(x)) && contains_commit(anc, x, recorded_at(base, facts, fpi, k))),
{
    assert forall|k: int| 0 <= k < facts.len() && #[trigger] first_parent_line_has_dir(facts, fpi, k) implies (image_of(
        run_images(parent, base, facts, anc, treef, rebuilt, facts.len() as int),
        facts[k].commit,
    ) matches Some(Some(x)) && contains_commit(anc, x, recorded_at(base, facts, fpi, k))) by {
        lemma_run_image_good(parent, base, facts, fpi, anc, treef, rebuilt, k);
        assert forall|i: int| k + 1 <= i < facts.len() implies #[trigger] facts[i].commit != facts[k].commit by {
            assert(facts[k].commit != facts[i].commit);
        }
        lemma_run_keeps_images(
            parent,
            base,
            facts,
            anc,
            treef,
            rebuilt,
            facts[k].commit,
            k + 1,
            facts.len() as int,
        );
    }
}

// -------------------------------------------------------- executable --

fn seq_contains(v: &Vec<String>, x: &String) -> (r: bool)
    ensures
        r == strs(v@).contains(x@),
{
    let n = v.len();
    for i in 0..n
        invariant
            n == v@.len(),
            forall|k: int| 0 <= k < i ==> strs(v@)[k] != x@,
    {
        if v[i] == *x {
            assert(strs(v@)[i as int] == x@);
            return true;
        }
    }
    false
}

fn index_in(v: &Vec<String>, x: &String) -> (r: Option<usize>)
    ensures
        match r {
            Some(i) => pos_from(strs(v@), x@, 0) == Some(i as int) && i < v@.len(),
            None => pos_from(strs(v@), x@, 0) is None,
        },
{
    let n = v.len();
    for i in 0..n
        invariant
            n == v@.len(),
            pos_from(strs(v@), x@, 0) == pos_from(strs(v@), x@, i as int),
    {
        assert(strs(v@)[i as int] == v@[i as int]@);
        if v[i] == *x {
            return Some(i);
        }
    }
    None
}

fn clone_opt(o: &Option<String>) -> (r: Option<String>)
    ensures
        ov(r) == ov(*o),
{
    match o {
        Some(s) => Some(s.clone()),
        None => None,
    }
}

fn image_lookup(images: &Vec<(String, Option<String>)>, c: &String) -> (r: Option<Option<String>>)
    ensures
        match r {
            Some(im) => image_of(image_views(images@), c@) == Some(ov(im)),
            None => image_of(image_views(images@), c@) is None,
        },
{
    let mut i = images.len();
    assert(image_views(images@).take(i as int) =~= image_views(images@));
    while i > 0
        invariant
            i <= images@.len(),
            image_of(image_views(images@), c@) == image_of(image_views(images@).take(i as int), c@),
        decreases i,
    {
        let ghost pre = image_views(images@).take(i as int);
        assert(pre.drop_last() =~= image_views(images@).take(i - 1));
        assert(pre.last() == (images@[i - 1].0@, ov(images@[i - 1].1)));
        if images[i - 1].0 == *c {
            return Some(clone_opt(&images[i - 1].1));
        }
        i = i - 1;
    }
    assert(image_views(images@).take(0) =~= Seq::<(Seq<char>, Option<Seq<char>>)>::empty());
    None
}

fn descends_exec(nodes: &Vec<String>, desc: &Vec<Vec<bool>>, a: &String, b: &String) -> (r: bool)
    requires
        desc_fit(strs(nodes@), desc.deep_view()),
    ensures
        r == descends(strs(nodes@), desc.deep_view(), a@, b@),
{
    match (index_in(nodes, a), index_in(nodes, b)) {
        (Some(i), Some(j)) => {
            proof {
                lemma_pos_from_props(strs(nodes@), a@, 0);
                lemma_pos_from_props(strs(nodes@), b@, 0);
            }
            assert(desc.deep_view()[i as int].len() == nodes@.len());
            assert(desc.deep_view()[i as int] == desc@[i as int]@);
            desc[i][j]
        },
        _ => false,
    }
}

fn drop_redundant_exec(nodes: &Vec<String>, desc: &Vec<Vec<bool>>, ps: &Vec<String>) -> (r: Vec<String>)
    requires
        desc_fit(strs(nodes@), desc.deep_view()),
    ensures
        strs(r@) == drop_redundant(strs(nodes@), desc.deep_view(), strs(ps@)),
{
    let ghost nv = strs(nodes@);
    let ghost dv = desc.deep_view();
    let ghost pv = strs(ps@);
    if ps.len() < 2 {
        return ps.clone();
    }
    let mut kept: Vec<String> = Vec::new();
    let n = ps.len();
    for i in 0..n
        invariant
            n == ps@.len(),
            n >= 2,
            nv == strs(nodes@),
            dv == desc.deep_view(),
            pv == strs(ps@),
            desc_fit(nv, dv),
            strs(kept@) == keep_prefix(nv, dv, pv, i as int),
    {
        let mut red = false;
        for k in 0..n
            invariant
                n == ps@.len(),
                nv == strs(nodes@),
                dv == desc.deep_view(),
                pv == strs(ps@),
                i < n,
                desc_fit(nv, dv),
                red == exists|m: int|
                    0 <= m < k && pv[m] != pv[i as int] && #[trigger] descends(nv, dv, pv[m], pv[i as int]),
        {
            let d = ps[k] != ps[i] && descends_exec(nodes, desc, &ps[k], &ps[i]);
            proof {
                assert(pv[k as int] == ps@[k as int]@);
                assert(pv[i as int] == ps@[i as int]@);
            }
            red = red || d;
        }
        if !red {
            let ghost before = kept@;
            kept.push(ps[i].clone());
            assert(strs(kept@) =~= strs(before).push(pv[i as int]));
        }
    }
    kept
}

impl Replay {
    /// A planner whose range starts after host commit `parent`, already
    /// upstream at `base`; `start_commit` is the tip when nothing changes.
    pub fn start(parent: &str, base: &str, start_commit: &str) -> (r: Replay)
        ensures
            image_views(r.images@) == seq![(parent@, Some(base@))],
            step_views(r.plan.steps@) == Seq::<(Seq<char>, Seq<char>)>::empty(),
            r.plan.tip@ == start_commit@,
    {
        let mut images: Vec<(String, Option<String>)> = Vec::new();
        images.push((parent.to_owned(), Some(base.to_owned())));
        let r = Replay {
            images,
            plan: ReplayPlan { steps: Vec::new(), tip: start_commit.to_owned() },
        };
        assert(image_views(r.images@) =~= seq![(parent@, Some(base@))]);
        assert(step_views(r.plan.steps@) =~= Seq::<(Seq<char>, Seq<char>)>::empty());
        r
    }

    /// A planner for the range after the marker's `parent`; without a
    /// parent there is nothing to replay and the plan is the starting
    /// commit unchanged.
    pub fn start_from(parent: Option<&str>, base: &str, start_commit: &str) -> (r: Result<Replay, ReplayPlan>)
        ensures
            match parent {
                Some(p) => r matches Ok(rp) && image_views(rp.images@) == seq![(p@, Some(base@))]
                    && step_views(rp.plan.steps@) == Seq::<(Seq<char>, Seq<char>)>::empty() && rp.plan.tip@
                    == start_commit@,
                None => r matches Err(plan) && plan.steps@.len() == 0 && plan.tip@ == start_commit@,
            },
    {
        match parent {
            Some(p) => Ok(Replay::start(p, base, start_commit)),
            None => Err(ReplayPlan { steps: Vec::new(), tip: start_commit.to_owned() }),
        }
    }

    /// The distinct images of the parents of `facts`' commit.
    fn candidates_exec(&self, facts: &CommitFacts) -> (r: Vec<String>)
        requires
            facts.hidden@.len() == facts.parents@.len(),
        ensures
            strs(r@) == candidates(image_views(self.images@), facts@),
    {
        let ghost iv = image_views(self.images@);
        let ghost fv = facts@;
        let mut cands: Vec<String> = Vec::new();
        let n = facts.parents.len();
        for i in 0..n
            invariant
                n == facts.parents@.len(),
                facts.hidden@.len() == n,
                iv == image_views(self.images@),
                fv == facts@,
                strs(cands@) == candidates_prefix(iv, fv, i as int),
        {
            let image = match image_lookup(&self.images, &facts.parents[i]) {
                Some(im) => im,
                None => clone_opt(&facts.hidden[i]),
            };
            proof {
                assert(fv.parents[i as int] == facts.parents@[i as int]@);
                assert(fv.hidden[i as int] == ov(facts.hidden@[i as int]));
            }
            if let Some(im) = image {
                if !seq_contains(&cands, &im) {
                    let ghost before = cands@;
                    cands.push(im);
                    assert(strs(cands@) =~= strs(before).push(im@));
                }
            }
        }
        cands
    }

    /// The commits whose ancestry and trees `decide` needs for `facts`:
    /// the distinct images of its parents, then its sync target.
    pub fn nodes(&self, facts: &CommitFacts) -> (r: Vec<String>)
        requires
            facts.hidden@.len() == facts.parents@.len(),
        ensures
            strs(r@) == spec_nodes(image_views(self.images@), facts@),
    {
        let mut cands = self.candidates_exec(facts);
        match &facts.sync {
            Some((up, _)) => {
                if !seq_contains(&cands, up) {
                    let ghost before = cands@;
                    cands.push(up.clone());
                    assert(strs(cands@) =~= strs(before).push(up@));
                }
            },
            None => {},
        }
        cands
    }

    /// Decide what to do with the host commit of `facts`, given for each
    /// of `nodes` (as returned by `Replay::nodes`) which others it
    /// descends from (`desc[i][j]`: node i descends from node j) and its
    /// tree.
    pub fn decide(
        &self,
        facts: &CommitFacts,
        nodes: &Vec<String>,
        desc: &Vec<Vec<bool>>,
        trees: &Vec<Option<String>>,
    ) -> (r: ReplayStep)
        requires
            facts.hidden@.len() == facts.parents@.len(),
            strs(nodes@) == spec_nodes(image_views(self.images@), facts@),
            answers_fit(strs(nodes@), desc.deep_view(), trees@.map_values(|o: Option<String>| ov(o))),
        ensures
            r@ == spec_decide(
                image_views(self.images@),
                facts@,
                strs(nodes@),
                desc.deep_view(),
                trees@.map_values(|o: Option<String>| ov(o)),
            ),
            r@ matches StepView::Rebuild(ps, _) ==> independent(strs(nodes@), desc.deep_view(), ps),
    {
        let ghost nv = strs(nodes@);
        let ghost dv = desc.deep_view();
        let ghost tv = trees@.map_values(|o: Option<String>| ov(o));
        let cands = self.candidates_exec(facts);
        let parents = drop_redundant_exec(nodes, desc, &cands);
        proof {
            lemma_drop_redundant_independent(nv, dv, strs(cands@));
        }
        let tree = match &facts.tree {
            None => {
                if facts.parent_has_dir {
                    return ReplayStep::RefuseDeletion;
                } else {
                    return ReplayStep::Reuse(None);
                }
            },
            Some(t) => t,
        };
        let ps = match &facts.sync {
            Some((up, up_tree)) => {
                let same = match up_tree {
                    Some(t) => *t == *tree,
                    None => false,
                };
                if same {
                    return ReplayStep::Reuse(Some(up.clone()));
                }
                if seq_contains(&parents, up) {
                    parents
                } else {
                    let mut p2 = parents;
                    let ghost before = p2@;
                    p2.push(up.clone());
                    assert(strs(p2@) =~= strs(before).push(up@));
                    let r = drop_redundant_exec(nodes, desc, &p2);
                    proof {
                        lemma_drop_redundant_independent(nv, dv, strs(p2@));
                    }
                    r
                }
            },
            None => parents,
        };
        if ps.len() == 1 {
            if let Some(i) = index_in(nodes, &ps[0]) {
                proof {
                    lemma_pos_from_props(strs(nodes@), ps@[0]@, 0);
                    assert(tv[i as int] == ov(trees@[i as int]));
                }
                let same = match &trees[i] {
                    Some(t) => *t == *tree,
                    None => false,
                };
                if same {
                    return ReplayStep::Reuse(Some(ps[0].clone()));
                }
            }
        }
        ReplayStep::Rebuild(ps, tree.clone())
    }

    /// Note that host commit `commit` maps to `image` without a commit of
    /// its own.
    pub fn record(&mut self, commit: &str, image: Option<String>)
        ensures
            image_views(final(self).images@) == image_views(old(self).images@).push(
                (commit@, ov(image)),
            ),
            final(self).plan.steps@ == old(self).plan.steps@,
            final(self).plan.tip == old(self).plan.tip,
    {
        let ghost before = self.images@;
        self.images.push((commit.to_owned(), image));
        assert(image_views(self.images@) =~= image_views(before).push((commit@, ov(image))));
    }

    /// Note that host commit `commit` was rebuilt as `rebuilt`.
    pub fn record_rebuilt(&mut self, commit: &str, rebuilt: &str)
        ensures
            image_views(final(self).images@) == image_views(old(self).images@).push(
                (commit@, Some(rebuilt@)),
            ),
            step_views(final(self).plan.steps@) == step_views(old(self).plan.steps@).push(
                (commit@, rebuilt@),
            ),
            final(self).plan.tip == old(self).plan.tip,
    {
        let ghost before = self.images@;
        let ghost steps = self.plan.steps@;
        self.images.push((commit.to_owned(), Some(rebuilt.to_owned())));
        self.plan.steps.push((commit.to_owned(), rebuilt.to_owned()));
        assert(image_views(self.images@) =~= image_views(before).push((commit@, Some(rebuilt@))));
        assert(step_views(self.plan.steps@) =~= step_views(steps).push((commit@, rebuilt@)));
    }

    /// The finished plan: its tip is the image of host HEAD when HEAD has
    /// one, the starting tip otherwise.
    pub fn finish(self, head: &str) -> (r: ReplayPlan)
        ensures
            step_views(r.steps@) == step_views(self.plan.steps@),
            r.tip@ == (match image_of(image_views(self.images@), head@) {
                Some(Some(t)) => t,
                _ => self.plan.tip@,
            }),
    {
        let h = head.to_owned();
        let found = image_lookup(&self.images, &h);
        let mut plan = self.plan;
        if let Some(Some(t)) = found {
            plan.tip = t;
        }
        plan
    }
}

// ------------------------------------------------ linear histories --

/// What the caller reads about step `k` of a linear host history: the
/// commit's sole parent is the previous commit (`parent` for the first),
/// it keeps the directory with tree `trees[k]`, and it moves no marker.
pub open spec fn linear_facts(parent: Seq<char>, commits: Seq<Seq<char>>, trees: Seq<Seq<char>>, k: int) -> FactsView {
    FactsView {
        commit: commits[k],
        parents: seq![if k == 0 { parent } else { commits[k - 1] }],
        hidden: seq![None],
        tree: Some(trees[k]),
        parent_has_dir: true,
        sync: None,
    }
}

/// The planner driven over the first `n` commits of a linear history,
/// with the caller answering truthfully (a node's tree is the tree it was
/// built with; no node descends from itself): the recorded images, the tip
/// image and its tree, and how many commits were rebuilt. `rebuilt[k]`
/// names the commit created when step `k` is rebuilt.
pub open spec fn linear_run(
    parent: Seq<char>,
    base: Seq<char>,
    base_tree: Seq<char>,
    commits: Seq<Seq<char>>,
    trees: Seq<Seq<char>>,
    rebuilt: Seq<Seq<char>>,
    n: int,
) -> (Seq<(Seq<char>, Option<Seq<char>>)>, Seq<char>, Seq<char>, nat)
    decreases n,
{
    if n <= 0 {
        (seq![(parent, Some(base))], base, base_tree, 0)
    } else {
        let (images, tip, tip_tree, count) = linear_run(parent, base, base_tree, commits, trees, rebuilt, n - 1);
        let f = linear_facts(parent, commits, trees, n - 1);
        let nodes = spec_nodes(images, f);
        match spec_decide(images, f, nodes, seq![seq![false]], seq![Some(tip_tree)]) {
            StepView::Rebuild(_, t) => (
                images.push((commits[n - 1], Some(rebuilt[n - 1]))),
                rebuilt[n - 1],
                t,
                count + 1,
            ),
            StepView::Reuse(Some(x)) => (images.push((commits[n - 1], Some(x))), x, tip_tree, count),
            _ => (images, tip, tip_tree, count),
        }
    }
}

proof fn lemma_linear_run_prefix(
    parent: Seq<char>,
    base: Seq<char>,
    base_tree: Seq<char>,
    commits: Seq<Seq<char>>,
    trees: Seq<Seq<char>>,
    rebuilt: Seq<Seq<char>>,
    n: int,
)
    requires
        0 <= n <= trees.len(),
        commits.len() == trees.len(),
    ensures
        ({
            let (images, tip, tip_tree, count) = linear_run(parent, base, base_tree, commits, trees, rebuilt, n);
            let (steps, last) = changed_prefix(base_tree, trees.map_values(|t: Seq<char>| Some(t)), None, n);
            &&& images.len() > 0
            &&& images.last() == (if n == 0 { parent } else { commits[n - 1] }, Some(tip))
            &&& tip_tree == last
            &&& count == steps.len()
        }),
    decreases n,
{
    if n > 0 {
        lemma_linear_run_prefix(parent, base, base_tree, commits, trees, rebuilt, n - 1);
        let (images, tip, tip_tree, count) = linear_run(parent, base, base_tree, commits, trees, rebuilt, n - 1);
        let f = linear_facts(parent, commits, trees, n - 1);
        let prev = if n - 1 == 0 { parent } else { commits[n - 2] };
        assert(f.parents[0] == prev);
        assert(image_of(images, prev) == Some(Some(tip)));
        assert(candidates_prefix(images, f, 0) =~= Seq::<Seq<char>>::empty());
        assert(candidates(images, f) =~= seq![tip]);
        let nodes = spec_nodes(images, f);
        assert(nodes =~= seq![tip]);
        assert(pos_from(nodes, tip, 0) == Some(0int));
        assert(tree_of(nodes, seq![Some(tip_tree)], tip) == Some(tip_tree));
        assert(drop_redundant(nodes, seq![seq![false]], seq![tip]) =~= seq![tip]);
        let tv = trees.map_values(|t: Seq<char>| Some(t));
        assert(tv[n - 1] == Some(trees[n - 1]));
    }
}

/// The number of local commits `status` reports as "to push" is the
/// number of commits the push planner rebuilds, for a linear history in
/// which every commit keeps the directory and none moves the marker.
pub proof fn lemma_unpushed_count_matches_linear_push(
    parent: Seq<char>,
    base: Seq<char>,
    base_tree: Seq<char>,
    commits: Seq<Seq<char>>,
    trees: Seq<Seq<char>>,
    rebuilt: Seq<Seq<char>>,
)
    requires
        commits.len() == trees.len(),
    ensures
        linear_run(parent, base, base_tree, commits, trees, rebuilt, trees.len() as int).3
            == spec_changed_steps(base_tree, trees.map_values(|t: Seq<char>| Some(t)), None).len(),
{
    lemma_linear_run_prefix(parent, base, base_tree, commits, trees, rebuilt, trees.len() as int);
}

// ------------------------------------------------- boundary images --

/// The upstream commit the rebuilt history grows from: the commit the
/// marker recorded at the range boundary `parent`, when it could be read
/// and obtained (`recorded`), the starting commit otherwise.
pub fn replay_base(recorded: Option<&str>, start_commit: &str) -> (r: String)
    ensures
        r@ == (match recorded {
            Some(c) => c@,
            None => start_commit@,
        }),
{
    match recorded {
        Some(c) => c.to_owned(),
        None => start_commit.to_owned(),
    }
}

/// The image of a host commit outside the replayed range (so already
/// upstream): nothing when the directory does not exist in it (history
/// from before the include), its own recorded sync point when its marker
/// names one that exists locally (`recorded`), the replay base otherwise.
pub fn hidden_image(has_dir: bool, recorded: Option<&str>, base: &str) -> (r: Option<String>)
    ensures
        ov(r) == (if !has_dir {
            None
        } else {
            match recorded {
                Some(c) => Some(c@),
                None => Some(base@),
            }
        }),
{
    if !has_dir {
        None
    } else {
        match recorded {
            Some(c) => Some(c.to_owned()),
            None => Some(base.to_owned()),
        }
    }
}

/// The upstream commit a commit's marker moved to: its recorded commit
/// `now`, unless its first parent's marker records the same commit (the
/// marker did not move) or it has no readable marker.
pub fn moved_marker_commit<'a>(now: Option<&'a str>, before: Option<&str>) -> (r: Option<&'a str>)
    ensures
        match now {
            None => r is None,
            Some(n) => match before {
                Some(b) => if b@ == n@ {
                    r is None
                } else {
                    r == Some(n)
                },
                None => r == Some(n),
            },
        },
{
    match now {
        None => None,
        Some(n) => match before {
            Some(b) => {
                if b.to_owned() == n.to_owned() {
                    None
                } else {
                    Some(n)
                }
            },
            None => Some(n),
        },
    }
}

} // verus!
