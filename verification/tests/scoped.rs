//! The multi-tenant forest.

use blaze::graph::{EdgeEvent, NodeId, ScopeId, ScopeList, ScopedForest, Visibility, GLOBAL_SCOPE};
use rand::rngs::StdRng;
use rand::{RngExt, SeedableRng};

fn global_edge(u: NodeId, v: NodeId) -> EdgeEvent {
    EdgeEvent {
        src: u,
        dst: v,
        visibility: Visibility::Global,
        event_time_ms: 0,
        props: None,
    }
}

fn scoped_edge(u: NodeId, v: NodeId, scopes: &[ScopeId]) -> EdgeEvent {
    EdgeEvent {
        src: u,
        dst: v,
        visibility: Visibility::Scoped(ScopeList::from_vec(scopes.to_vec())),
        event_time_ms: 0,
        props: None,
    }
}

#[test]
fn global_edges_visible_to_all_scopes() {
    let mut f = ScopedForest::new();
    f.apply(&global_edge(500, 105));
    assert!(f.connected(GLOBAL_SCOPE, 500, 105));
    assert!(f.connected(42, 500, 105));
    assert!(f.connected(2999, 500, 105));
}

#[test]
fn scoped_edges_invisible_elsewhere() {
    let mut f = ScopedForest::new();
    f.apply(&scoped_edge(1, 2, &[7]));
    assert!(f.connected(7, 1, 2));
    assert!(!f.connected(GLOBAL_SCOPE, 1, 2));
    assert!(!f.connected(8, 1, 2));
}

#[test]
fn multi_scope_edge() {
    let mut f = ScopedForest::new();
    f.apply(&scoped_edge(1, 2, &[3, 9]));
    assert!(f.connected(3, 1, 2));
    assert!(f.connected(9, 1, 2));
    assert!(!f.connected(4, 1, 2));
}

#[test]
fn global_merge_after_scope_edge_keeps_overlay_reachable() {
    let mut f = ScopedForest::new();
    f.apply(&scoped_edge(1, 2, &[7]));
    f.apply(&global_edge(1, 3));
    assert!(f.connected(7, 3, 2));
    assert!(f.connected(7, 3, 1));
    assert!(f.connected(GLOBAL_SCOPE, 1, 3));
    assert!(!f.connected(GLOBAL_SCOPE, 2, 3));
    assert!(f.connected(11, 1, 3));
    assert!(!f.connected(11, 2, 3));
}

#[test]
fn repeated_global_collapses() {
    let mut f = ScopedForest::new();
    f.apply(&scoped_edge(10, 20, &[5]));
    f.apply(&scoped_edge(30, 40, &[5]));
    f.apply(&global_edge(10, 30)); // bridges the two scope islands globally
    assert!(f.connected(5, 20, 40));
    assert!(!f.connected(6, 20, 40));
    f.apply(&global_edge(10, 99));
    f.apply(&global_edge(99, 98));
    assert!(f.connected(5, 98, 20));
    assert!(f.connected(5, 98, 40));
    assert!(!f.connected(GLOBAL_SCOPE, 98, 20));
}

struct Model {
    global_edges: Vec<(NodeId, NodeId)>,
    scope_edges: Vec<(ScopeId, NodeId, NodeId)>,
}

impl Model {
    fn connected(&self, scope: ScopeId, u: NodeId, v: NodeId) -> bool {
        if u == v {
            return true;
        }
        let mut adj: std::collections::HashMap<NodeId, Vec<NodeId>> =
            std::collections::HashMap::new();
        let add = |a: NodeId, b: NodeId, adj: &mut std::collections::HashMap<_, Vec<_>>| {
            adj.entry(a).or_default().push(b);
            adj.entry(b).or_default().push(a);
        };
        for &(a, b) in &self.global_edges {
            add(a, b, &mut adj);
        }
        for &(s, a, b) in &self.scope_edges {
            if s == scope {
                add(a, b, &mut adj);
            }
        }
        let mut seen = std::collections::HashSet::new();
        let mut stack = vec![u];
        seen.insert(u);
        while let Some(x) = stack.pop() {
            if x == v {
                return true;
            }
            for &n in adj.get(&x).map(|v| v.as_slice()).unwrap_or(&[]) {
                if seen.insert(n) {
                    stack.push(n);
                }
            }
        }
        false
    }

    fn component(&self, scope: ScopeId, u: NodeId) -> Vec<NodeId> {
        let mut adj: std::collections::HashMap<NodeId, Vec<NodeId>> =
            std::collections::HashMap::new();
        let add = |a: NodeId, b: NodeId, adj: &mut std::collections::HashMap<_, Vec<_>>| {
            adj.entry(a).or_default().push(b);
            adj.entry(b).or_default().push(a);
        };
        for &(a, b) in &self.global_edges {
            add(a, b, &mut adj);
        }
        for &(s, a, b) in &self.scope_edges {
            if s == scope {
                add(a, b, &mut adj);
            }
        }
        let mut seen = std::collections::HashSet::new();
        let mut stack = vec![u];
        seen.insert(u);
        while let Some(x) = stack.pop() {
            for &n in adj.get(&x).map(|v| v.as_slice()).unwrap_or(&[]) {
                if seen.insert(n) {
                    stack.push(n);
                }
            }
        }
        let mut out: Vec<NodeId> = seen.into_iter().collect();
        out.sort_unstable();
        out
    }

    fn component_min(&self, scope: ScopeId, u: NodeId) -> NodeId {
        let mut adj: std::collections::HashMap<NodeId, Vec<NodeId>> =
            std::collections::HashMap::new();
        let add = |a: NodeId, b: NodeId, adj: &mut std::collections::HashMap<_, Vec<_>>| {
            adj.entry(a).or_default().push(b);
            adj.entry(b).or_default().push(a);
        };
        for &(a, b) in &self.global_edges {
            add(a, b, &mut adj);
        }
        for &(s, a, b) in &self.scope_edges {
            if s == scope {
                add(a, b, &mut adj);
            }
        }
        let mut seen = std::collections::HashSet::new();
        let mut stack = vec![u];
        seen.insert(u);
        let mut min = u;
        while let Some(x) = stack.pop() {
            min = min.min(x);
            for &n in adj.get(&x).map(|v| v.as_slice()).unwrap_or(&[]) {
                if seen.insert(n) {
                    stack.push(n);
                }
            }
        }
        min
    }
}

#[test]
fn randomized_against_reference_model() {
    let mut rng = StdRng::seed_from_u64(0xB1A2E);
    const NODES: u64 = 60;
    const SCOPES: [ScopeId; 4] = [1, 2, 3, 4];

    for round in 0..8 {
        let mut f = ScopedForest::new();
        let mut model = Model {
            global_edges: vec![],
            scope_edges: vec![],
        };
        for _ in 0..300 {
            let u = rng.random_range(0..NODES);
            let v = rng.random_range(0..NODES);
            if rng.random_range(0..100) < 25 {
                f.apply(&global_edge(u, v));
                model.global_edges.push((u, v));
            } else {
                let scope = SCOPES[rng.random_range(0..SCOPES.len())];
                if rng.random_range(0..10) == 0 {
                    let scope2 = SCOPES[rng.random_range(0..SCOPES.len())];
                    f.apply(&scoped_edge(u, v, &[scope, scope2]));
                    model.scope_edges.push((scope, u, v));
                    model.scope_edges.push((scope2, u, v));
                } else {
                    f.apply(&scoped_edge(u, v, &[scope]));
                    model.scope_edges.push((scope, u, v));
                }
            }
            for _ in 0..4 {
                let a = rng.random_range(0..NODES);
                let b = rng.random_range(0..NODES);
                let s = if rng.random_range(0..4) == 0 {
                    GLOBAL_SCOPE
                } else {
                    SCOPES[rng.random_range(0..SCOPES.len())]
                };
                assert_eq!(
                    f.connected(s, a, b),
                    model.connected(s, a, b),
                    "round {round}: scope {s} connectivity({a},{b}) diverged"
                );
                assert_eq!(
                    f.scope_root(s, a),
                    model.component_min(s, a),
                    "round {round}: scope {s} root({a}) is not the component min"
                );
            }
        }

        let snap = f.snapshot();
        let mut f2 = ScopedForest::new();
        f2.hydrate(&snap);
        for _ in 0..400 {
            let a = rng.random_range(0..NODES);
            let b = rng.random_range(0..NODES);
            let s = SCOPES[rng.random_range(0..SCOPES.len())];
            assert_eq!(f2.connected(s, a, b), model.connected(s, a, b));
            assert_eq!(
                f2.connected(GLOBAL_SCOPE, a, b),
                model.connected(GLOBAL_SCOPE, a, b)
            );
            assert_eq!(f2.scope_root(s, a), model.component_min(s, a));
        }

        let u = rng.random_range(0..NODES);
        let v = rng.random_range(0..NODES);
        f2.apply(&global_edge(u, v));
        model.global_edges.push((u, v));
        for _ in 0..200 {
            let a = rng.random_range(0..NODES);
            let b = rng.random_range(0..NODES);
            let s = SCOPES[rng.random_range(0..SCOPES.len())];
            assert_eq!(
                f2.connected(s, a, b),
                model.connected(s, a, b),
                "round {round}: post-hydration merge diverged in scope {s} ({a},{b})"
            );
        }
    }
}

fn members_of(f: &mut ScopedForest, scope: ScopeId, node: NodeId, cap: usize) -> Vec<NodeId> {
    let m = f.members(scope, node, cap).expect("the index is on");
    assert!(!m.is_truncated(), "cap {cap} was not meant to bite");
    let mut v = m.into_nodes();
    let before = v.len();
    v.sort_unstable();
    v.dedup();
    assert_eq!(before, v.len(), "members must not repeat a node");
    v
}

#[test]
fn members_match_the_reference_model() {
    let mut rng = StdRng::seed_from_u64(0x11E11BE12);
    const NODES: u64 = 60;
    const SCOPES: [ScopeId; 4] = [1, 2, 3, 4];

    for round in 0..6 {
        let mut f = ScopedForest::new().tracking_members();
        let mut model = Model {
            global_edges: vec![],
            scope_edges: vec![],
        };
        for step in 0..200 {
            let u = rng.random_range(0..NODES);
            let v = rng.random_range(0..NODES);
            if rng.random_range(0..100) < 25 {
                f.apply(&global_edge(u, v));
                model.global_edges.push((u, v));
            } else {
                let scope = SCOPES[rng.random_range(0..SCOPES.len())];
                f.apply(&scoped_edge(u, v, &[scope]));
                model.scope_edges.push((scope, u, v));
            }
            if step % 10 != 0 {
                continue;
            }
            for _ in 0..4 {
                let a = rng.random_range(0..NODES);
                let s = if rng.random_range(0..4) == 0 {
                    GLOBAL_SCOPE
                } else {
                    SCOPES[rng.random_range(0..SCOPES.len())]
                };
                assert_eq!(
                    members_of(&mut f, s, a, NODES as usize),
                    model.component(s, a),
                    "round {round} step {step}: scope {s} members({a}) diverged"
                );
            }
        }

        let snap = f.snapshot();
        let mut f2 = ScopedForest::new().tracking_members();
        f2.hydrate(&snap);
        for a in 0..NODES {
            for s in [GLOBAL_SCOPE, 1, 2, 3, 4] {
                assert_eq!(
                    members_of(&mut f2, s, a, NODES as usize),
                    model.component(s, a),
                    "round {round}: hydrated scope {s} members({a}) diverged"
                );
            }
        }
    }
}

#[test]
fn an_untouched_node_is_a_singleton() {
    let mut f = ScopedForest::new().tracking_members();
    f.apply(&global_edge(1, 2));
    assert_eq!(members_of(&mut f, GLOBAL_SCOPE, 9999, 10), vec![9999]);
    assert_eq!(members_of(&mut f, 7, 9999, 10), vec![9999]);
}

#[test]
fn a_component_over_the_cap_truncates_to_real_members() {
    let mut f = ScopedForest::new().tracking_members();
    for i in 1..100u64 {
        f.apply(&global_edge(0, i));
    }
    let all = f.members(GLOBAL_SCOPE, 50, 1000).unwrap();
    assert!(!all.is_truncated());
    assert_eq!(all.nodes().len(), 100);

    let capped = f.members(GLOBAL_SCOPE, 50, 10).unwrap();
    assert!(capped.is_truncated(), "100 members do not fit in 10");
    assert_eq!(capped.nodes().len(), 10, "exactly the cap, not one more");
    for &m in capped.nodes() {
        assert_eq!(
            f.scope_root(GLOBAL_SCOPE, m),
            0,
            "truncation must not invent members"
        );
    }

    assert!(!f.members(GLOBAL_SCOPE, 50, 100).unwrap().is_truncated());
    assert!(f.members(GLOBAL_SCOPE, 50, 99).unwrap().is_truncated());
}

#[test]
fn a_scoped_walk_descends_through_the_shared_tier() {
    let mut f = ScopedForest::new().tracking_members();
    f.apply(&global_edge(10, 11));
    f.apply(&global_edge(10, 12));
    f.apply(&global_edge(30, 31));
    f.apply(&scoped_edge(11, 31, &[5]));

    assert_eq!(members_of(&mut f, 5, 12, 100), vec![10, 11, 12, 30, 31]);
    assert_eq!(members_of(&mut f, GLOBAL_SCOPE, 12, 100), vec![10, 11, 12]);
    assert_eq!(members_of(&mut f, 6, 31, 100), vec![30, 31]);
}

#[test]
fn a_component_whose_root_moved_still_lists_completely() {
    let mut f = ScopedForest::new().tracking_members();
    for i in 501..510u64 {
        f.apply(&global_edge(500, i));
    }
    assert_eq!(f.scope_root(GLOBAL_SCOPE, 505), 500);
    f.apply(&global_edge(505, 3));
    assert_eq!(f.scope_root(GLOBAL_SCOPE, 505), 3);

    let mut expected: Vec<NodeId> = (500..510).collect();
    expected.push(3);
    expected.sort_unstable();
    assert_eq!(members_of(&mut f, GLOBAL_SCOPE, 509, 100), expected);
    assert_eq!(members_of(&mut f, GLOBAL_SCOPE, 3, 100), expected);
}

#[test]
fn without_the_index_there_is_no_answer() {
    let mut f = ScopedForest::new();
    f.apply(&global_edge(1, 2));
    assert!(!f.tracks_members());
    assert!(f.members(GLOBAL_SCOPE, 1, 10).is_none());
    assert_eq!(f.scope_root(GLOBAL_SCOPE, 2), 1, "queries are unaffected");
}

#[test]
fn visibility_normalize_folds_global_scope_id() {
    let v = Visibility::Scoped(ScopeList::from_vec(vec![GLOBAL_SCOPE, 3]));
    assert_eq!(v.normalize(), Visibility::Global);
}

#[test]
fn stats_count_what_was_applied() {
    let mut f = ScopedForest::new().tracking_members();
    f.apply(&global_edge(1, 2));
    f.apply(&scoped_edge(3, 4, &[7, 9]));
    f.apply(&global_edge(3, 1));
    let s = f.stats();
    assert_eq!(s.events_applied, 3);
    assert_eq!(s.global_merges, 2);
    assert_eq!(s.global_links, 2);
    assert_eq!(s.active_scopes, 2);
    assert!(s.members_available);
    assert_eq!(s.base_shared_pairs, 0);
    assert_eq!(s.folds, 0);
    assert_eq!(f.memtable_links(), 2 + 4);
    assert!(f.base_stats().is_none());
    assert!(f.members_available());
}

#[test]
fn the_order_of_edges_does_not_matter() {
    let edges = [
        global_edge(9, 4),
        scoped_edge(4, 2, &[1]),
        global_edge(2, 8),
        scoped_edge(8, 6, &[1, 2]),
    ];
    let mut forwards = ScopedForest::new();
    let mut backwards = ScopedForest::new();
    for e in edges.iter() {
        forwards.apply(e);
    }
    for e in edges.iter().rev() {
        backwards.apply(e);
        backwards.apply(e);
    }
    for scope in 0..4u32 {
        for node in 0..12u64 {
            assert_eq!(forwards.scope_root(scope, node), backwards.scope_root(scope, node));
        }
    }
    assert_eq!(forwards.scope_root(1, 9), 2);
    assert_eq!(forwards.scope_root(0, 9), 4);
}

#[test]
fn the_root_is_listed_first() {
    let mut f = ScopedForest::new().tracking_members();
    for i in 1..20u64 {
        f.apply(&global_edge(i, i + 1));
    }
    f.apply(&scoped_edge(15, 40, &[3]));
    for cap in [1usize, 5, 100] {
        assert_eq!(f.members(GLOBAL_SCOPE, 9, cap).unwrap().nodes()[0], 1);
        assert_eq!(f.members(3, 40, cap).unwrap().nodes()[0], 1);
    }
    assert!(f.members(3, 40, 0).unwrap().nodes().is_empty());
}

#[test]
fn a_scope_listed_twice_counts_once() {
    let v = Visibility::Scoped(ScopeList::from_vec(vec![5, 3, 5])).normalize();
    assert_eq!(v, Visibility::Scoped(ScopeList::from_vec(vec![5, 3])));
    let everyone = Visibility::Scoped(ScopeList::from_vec(vec![])).normalize();
    assert_eq!(everyone, Visibility::Global);
}

#[test]
fn a_scoped_component_over_the_cap_is_cut_at_it() {
    let mut f = ScopedForest::new().tracking_members();
    for n in 2..=6 {
        f.apply(&EdgeEvent {
            src: 1,
            dst: n,
            visibility: Visibility::Scoped(ScopeList::from_vec(vec![7])),
            event_time_ms: 0,
            props: None,
        });
    }
    let three = f.members(7, 1, 3).unwrap();
    assert!(three.is_truncated());
    assert_eq!(three.nodes().len(), 3);
    let all = f.members(7, 1, 6).unwrap();
    assert!(!all.is_truncated());
    assert_eq!(all.nodes().len(), 6);
    assert_eq!(f.members(8, 1, 3).unwrap().nodes().to_vec(), vec![1]);
}
