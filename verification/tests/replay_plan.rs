use std::collections::HashMap;

use git_include::replay::{hidden_image, moved_marker_commit, replay_base, CommitFacts, Replay, ReplayStep};

fn s(v: &str) -> String {
    v.to_string()
}

fn facts(commit: &str, parents: &[&str], hidden: &[Option<&str>], tree: Option<&str>) -> CommitFacts {
    CommitFacts {
        commit: s(commit),
        parents: parents.iter().map(|p| s(p)).collect(),
        hidden: hidden.iter().map(|h| h.map(s)).collect(),
        tree: tree.map(s),
        parent_has_dir: true,
        sync: None,
    }
}

#[test]
fn changed_commits_are_rebuilt_and_unchanged_ones_reuse_their_parent() {
    let mut replay = Replay::start("P", "B", "B");

    let c1 = facts("C1", &["P"], &[None], Some("T1"));
    let nodes = replay.nodes(&c1);
    assert_eq!(nodes, vec![s("B")]);
    let step = replay.decide(&c1, &nodes, &vec![vec![false]], &vec![Some(s("TB"))]);
    match step {
        ReplayStep::Rebuild(ps, tree) => {
            assert_eq!(ps, vec![s("B")]);
            assert_eq!(tree, "T1");
        }
        _ => panic!("expected a rebuilt commit"),
    }
    replay.record_rebuilt("C1", "R1");

    let c2 = facts("C2", &["C1"], &[None], Some("T1"));
    let nodes = replay.nodes(&c2);
    assert_eq!(nodes, vec![s("R1")]);
    let step = replay.decide(&c2, &nodes, &vec![vec![false]], &vec![Some(s("T1"))]);
    assert!(matches!(step, ReplayStep::Reuse(Some(ref r)) if r == "R1"));
    replay.record("C2", Some(s("R1")));

    let plan = replay.finish("C2");
    assert_eq!(plan.steps, vec![(s("C1"), s("R1"))]);
    assert_eq!(plan.tip, "R1");
}

#[test]
fn nothing_to_push_keeps_the_recorded_tip() {
    let replay = Replay::start("P", "B", "B");
    let plan = replay.finish("P");
    assert!(plan.steps.is_empty());
    assert_eq!(plan.tip, "B");
}

#[test]
fn deleting_the_directory_is_refused_and_older_history_maps_to_nothing() {
    let replay = Replay::start("P", "B", "B");
    let gone = facts("D", &["P"], &[None], None);
    let nodes = replay.nodes(&gone);
    let step = replay.decide(&gone, &nodes, &vec![vec![false]], &vec![Some(s("TB"))]);
    assert!(matches!(step, ReplayStep::RefuseDeletion));

    let mut before = facts("OLD", &[], &[], None);
    before.parent_has_dir = false;
    let nodes = replay.nodes(&before);
    assert!(nodes.is_empty());
    let step = replay.decide(&before, &nodes, &Vec::new(), &Vec::new());
    assert!(matches!(step, ReplayStep::Reuse(None)));
}

#[test]
fn sync_commits_map_to_the_upstream_commit_they_took() {
    let replay = Replay::start("P", "B", "B");
    let mut pull = facts("S", &["P"], &[None], Some("TU"));
    pull.sync = Some((s("U"), Some(s("TU"))));
    let nodes = replay.nodes(&pull);
    assert_eq!(nodes, vec![s("B"), s("U")]);
    let step = replay.decide(&pull, &nodes, &vec![vec![false, false], vec![true, false]], &vec![Some(s("TB")), Some(s("TU"))]);
    assert!(matches!(step, ReplayStep::Reuse(Some(ref u)) if u == "U"));
}

#[test]
fn a_pull_that_merged_local_work_becomes_a_merge_with_upstream() {
    let mut replay = Replay::start("P", "B", "B");
    replay.record_rebuilt("L", "RL");
    let mut pull = facts("S", &["L"], &[None], Some("TM"));
    pull.sync = Some((s("U"), Some(s("TU"))));
    let nodes = replay.nodes(&pull);
    assert_eq!(nodes, vec![s("RL"), s("U")]);
    // Neither descends from the other: both stay parents.
    let step = replay.decide(&pull, &nodes, &vec![vec![false, false], vec![false, false]], &vec![Some(s("TL")), Some(s("TU"))]);
    match step {
        ReplayStep::Rebuild(ps, tree) => {
            assert_eq!(ps, vec![s("RL"), s("U")]);
            assert_eq!(tree, "TM");
        }
        _ => panic!("expected a merge"),
    }
    // When upstream already contains the local image, the local parent is
    // redundant and only upstream remains.
    let step = replay.decide(&pull, &nodes, &vec![vec![false, false], vec![true, false]], &vec![Some(s("TL")), Some(s("TU"))]);
    match step {
        ReplayStep::Rebuild(ps, _) => assert_eq!(ps, vec![s("U")]),
        _ => panic!("expected a rebuilt commit"),
    }
}

#[test]
fn merge_whose_other_leg_is_older_history_collapses() {
    let mut replay = Replay::start("P", "B", "B");
    replay.record_rebuilt("C1", "R1");
    let merge = facts("M", &["C1", "X"], &[None, None], Some("T1"));
    let nodes = replay.nodes(&merge);
    assert_eq!(nodes, vec![s("R1")]);
    let step = replay.decide(&merge, &nodes, &vec![vec![false]], &vec![Some(s("T1"))]);
    assert!(matches!(step, ReplayStep::Reuse(Some(ref r)) if r == "R1"));
}

#[test]
fn boundary_images() {
    assert_eq!(replay_base(Some("R"), "S"), "R");
    assert_eq!(replay_base(None, "S"), "S");
    assert_eq!(hidden_image(false, Some("R"), "B"), None);
    assert_eq!(hidden_image(true, Some("R"), "B"), Some(s("R")));
    assert_eq!(hidden_image(true, None, "B"), Some(s("B")));
    assert_eq!(moved_marker_commit(Some("c2"), Some("c1")), Some("c2"));
    assert_eq!(moved_marker_commit(Some("c1"), Some("c1")), None);
    assert_eq!(moved_marker_commit(Some("c1"), None), Some("c1"));
    assert_eq!(moved_marker_commit(None, Some("c1")), None);
}

#[test]
fn status_count_matches_the_commits_push_rebuilds_on_a_linear_history() {
    let trees = ["T1", "T1", "T2", "TB"];
    let mut tree_of: HashMap<String, String> = HashMap::new();
    tree_of.insert(s("B"), s("TB"));
    let mut replay = Replay::start("P", "B", "B");
    let mut rebuilt = 0;
    let mut prev = s("P");
    for (k, t) in trees.iter().enumerate() {
        let commit = format!("C{k}");
        let f = facts(&commit, &[prev.as_str()], &[None], Some(t));
        let nodes = replay.nodes(&f);
        let desc = vec![vec![false; nodes.len()]; nodes.len()];
        let node_trees: Vec<Option<String>> = nodes.iter().map(|n| tree_of.get(n).cloned()).collect();
        match replay.decide(&f, &nodes, &desc, &node_trees) {
            ReplayStep::Rebuild(_, tree) => {
                let r = format!("R{k}");
                tree_of.insert(r.clone(), tree);
                replay.record_rebuilt(&commit, &r);
                rebuilt += 1;
            }
            ReplayStep::Reuse(image) => replay.record(&commit, image),
            ReplayStep::RefuseDeletion => panic!("no deletion here"),
        }
        prev = commit;
    }
    let host_trees: Vec<Option<String>> = trees.iter().map(|t| Some(s(t))).collect();
    assert_eq!(git_include::ops::count_unpushed("TB", &host_trees), 3);
    assert_eq!(rebuilt, 3);
    let plan = replay.finish("C3");
    assert_eq!(plan.tip, "R3");
    assert_eq!(plan.steps.len(), 3);
}

#[test]
fn a_marker_without_parent_has_nothing_to_replay() {
    match Replay::start_from(None, "B", "S") {
        Err(plan) => {
            assert!(plan.steps.is_empty());
            assert_eq!(plan.tip, "S");
        }
        Ok(_) => panic!("no planner without a parent"),
    }
    assert!(Replay::start_from(Some("P"), "B", "S").is_ok());
}

// The image of a sync commit that merged local work has the upstream
// commit as a parent, so the pushed tip fast-forwards upstream; a forced
// pull that took upstream verbatim maps to upstream itself.
#[test]
fn rebuilt_history_contains_the_recorded_upstream_commit() {
    let mut replay = Replay::start("P", "B", "B");
    replay.record_rebuilt("L", "RL");
    let mut pull = facts("S", &["L"], &[None], Some("TM"));
    pull.sync = Some((s("U"), Some(s("TU"))));
    let nodes = replay.nodes(&pull);
    // U descends from B, RL descends from B; neither from the other.
    let step = replay.decide(&pull, &nodes, &vec![vec![false, false], vec![false, false]], &vec![Some(s("TL")), Some(s("TU"))]);
    match step {
        ReplayStep::Rebuild(ps, _) => assert!(ps.contains(&s("U")) && ps.contains(&s("RL"))),
        _ => panic!("expected a merge with upstream"),
    }
    let mut forced = facts("F", &["L"], &[None], Some("TU"));
    forced.sync = Some((s("U"), Some(s("TU"))));
    let nodes = replay.nodes(&forced);
    let step = replay.decide(&forced, &nodes, &vec![vec![false, false], vec![false, false]], &vec![Some(s("TL")), Some(s("TU"))]);
    assert!(matches!(step, ReplayStep::Reuse(Some(ref u)) if u == "U"));
}

// Off a linear history the status count and the commits push rebuilds
// can differ: a side branch that left the directory alone, merged back.
#[test]
fn status_count_and_push_differ_after_a_merge_of_an_untouched_branch() {
    // Walk order A (tree T1), B (T0, side branch from P), M (merge, T1).
    let host_trees = vec![Some(s("T1")), Some(s("T0")), Some(s("T1"))];
    assert_eq!(git_include::ops::count_unpushed("T0", &host_trees), 3);

    let mut replay = Replay::start("P", "B", "B");
    let a = facts("A", &["P"], &[None], Some("T1"));
    let nodes = replay.nodes(&a);
    assert!(matches!(replay.decide(&a, &nodes, &vec![vec![false]], &vec![Some(s("T0"))]), ReplayStep::Rebuild(..)));
    replay.record_rebuilt("A", "RA");
    let b = facts("B1", &["P"], &[None], Some("T0"));
    let nodes = replay.nodes(&b);
    assert!(matches!(replay.decide(&b, &nodes, &vec![vec![false]], &vec![Some(s("T0"))]), ReplayStep::Reuse(Some(_))));
    replay.record("B1", Some(s("B")));
    let m = facts("M", &["A", "B1"], &[None, None], Some("T1"));
    let nodes = replay.nodes(&m);
    assert_eq!(nodes, vec![s("RA"), s("B")]);
    // RA descends from B.
    let step = replay.decide(&m, &nodes, &vec![vec![false, true], vec![false, false]], &vec![Some(s("T1")), Some(s("T0"))]);
    assert!(matches!(step, ReplayStep::Reuse(Some(ref r)) if r == "RA"));
    // One commit rebuilt, three counted.
}

fn reaches(parents: &HashMap<String, Vec<String>>, from: &str, to: &str) -> bool {
    if from == to {
        return true;
    }
    parents.get(from).map_or(false, |ps| ps.iter().any(|p| reaches(parents, p, to)))
}

// After local work, a pull that merged upstream U, and more local work,
// the pushed tip descends from U: publishing it fast-forwards upstream.
#[test]
fn whole_push_fast_forwards_from_the_recorded_commit() {
    let mut graph: HashMap<String, Vec<String>> = HashMap::new();
    graph.insert(s("U"), vec![s("B")]);
    let mut replay = Replay::start("P", "B", "B");

    let l = facts("L", &["P"], &[None], Some("TL"));
    let nodes = replay.nodes(&l);
    match replay.decide(&l, &nodes, &vec![vec![false]], &vec![Some(s("TB"))]) {
        ReplayStep::Rebuild(ps, _) => {
            graph.insert(s("RL"), ps);
            replay.record_rebuilt("L", "RL");
        }
        _ => panic!("expected a rebuilt commit"),
    }

    let mut pull = facts("S", &["L"], &[None], Some("TM"));
    pull.sync = Some((s("U"), Some(s("TU"))));
    let nodes = replay.nodes(&pull);
    assert_eq!(nodes, vec![s("RL"), s("U")]);
    match replay.decide(&pull, &nodes, &vec![vec![false, false], vec![false, false]], &vec![Some(s("TL")), Some(s("TU"))]) {
        ReplayStep::Rebuild(ps, _) => {
            graph.insert(s("RS"), ps);
            replay.record_rebuilt("S", "RS");
        }
        _ => panic!("expected a merge with upstream"),
    }

    let c = facts("C", &["S"], &[None], Some("TC"));
    let nodes = replay.nodes(&c);
    match replay.decide(&c, &nodes, &vec![vec![false]], &vec![Some(s("TM"))]) {
        ReplayStep::Rebuild(ps, _) => {
            graph.insert(s("RC"), ps);
            replay.record_rebuilt("C", "RC");
        }
        _ => panic!("expected a rebuilt commit"),
    }

    let plan = replay.finish("C");
    assert_eq!(plan.tip, "RC");
    assert!(reaches(&graph, &plan.tip, "U"));
}
