use std::collections::{HashMap, HashSet};

use graphwalk::adjacency::{AdjacencyGraph, Control, Time};
use graphwalk::dfs::{depth_first_search, DfsEvent};

fn sample_edges() -> Vec<(usize, usize, i32)> {
    vec![
        (0, 5, 10),
        (0, 2, 20),
        (0, 3, 30),
        (0, 1, 40),
        (1, 3, 50),
        (2, 3, 60),
        (2, 4, 70),
        (4, 0, 80),
        (4, 5, 90),
    ]
}

/// Verify event invariants (discover/finish times, edge classification)
/// on a hand-crafted weighted directed graph.
#[test]
fn event_invariants() {
    let edges = sample_edges();
    let gr = AdjacencyGraph::from_directed_edges(&edges);

    let invalid_time = Time(!0);
    let mut discover_time = vec![invalid_time; gr.node_count()];
    let mut finish_time = vec![invalid_time; gr.node_count()];
    let mut has_tree_edge = vec![false; gr.node_count()];
    let mut seen_edges = HashSet::new();
    let mut edge_weights = HashMap::new();

    depth_first_search(&gr, &[0], |evt| {
        match evt {
            DfsEvent::Discover(n, t) => discover_time[n] = t,
            DfsEvent::Finish(n, t) => finish_time[n] = t,
            DfsEvent::TreeEdge(u, v, w) => {
                assert!(!has_tree_edge[v], "Two tree edges to {v:?}!");
                has_tree_edge[v] = true;
                assert!(discover_time[v] == invalid_time);
                assert!(discover_time[u] != invalid_time);
                assert!(finish_time[u] == invalid_time);
                seen_edges.insert((u, v));
                edge_weights.insert((u, v), w);
            }
            DfsEvent::BackEdge(u, v, w) => {
                assert!(discover_time[v] != invalid_time);
                assert!(finish_time[v] == invalid_time);
                seen_edges.insert((u, v));
                edge_weights.insert((u, v), w);
            }
            DfsEvent::CrossForwardEdge(u, v, w) => {
                seen_edges.insert((u, v));
                edge_weights.insert((u, v), w);
            }
        }
        Control::<()>::Continue
    });

    assert!(discover_time.iter().all(|x| *x != invalid_time));
    assert!(finish_time.iter().all(|x| *x != invalid_time));
    assert_eq!(seen_edges.len(), edges.len());
    let expected: HashSet<(usize, usize)> = edges.iter().map(|e| (e.0, e.1)).collect();
    assert_eq!(seen_edges, expected);
    // Verify weights were passed through correctly.
    for e in &edges {
        assert_eq!(edge_weights[&(e.0, e.1)], e.2);
    }
}

/// Find a path using Control::Break, verify early termination.
#[test]
fn path_finding_with_break() {
    let gr = AdjacencyGraph::from_directed_edges(&sample_edges());

    let end = usize::MAX;
    let mut predecessor = vec![end; gr.node_count()];
    let start = 0;
    let goal = 4;
    let ret = depth_first_search(&gr, &[start], |event| {
        if let DfsEvent::TreeEdge(u, v, _) = event {
            predecessor[v] = u;
            if v == goal {
                return Control::Break(u);
            }
        }
        Control::Continue
    });
    assert!(ret.break_value().is_some());
    assert!(predecessor.iter().any(|x| *x == end));

    let mut next = goal;
    let mut path = vec![next];
    while next != start {
        let pred = predecessor[next];
        path.push(pred);
        next = pred;
    }
    path.reverse();
    assert_eq!(&path, &[0, 2, 4]);
}

/// Prune a node and verify its subtree is not reached.
#[test]
fn pruning() {
    let gr = AdjacencyGraph::from_directed_edges(&sample_edges());

    let start = 0;
    let prune = 2;
    let nongoal = 4;
    let ret = depth_first_search(&gr, &[start], |event| {
        if let DfsEvent::Discover(n, _) = event {
            if n == prune {
                return Control::Prune;
            }
        } else if let DfsEvent::TreeEdge(_, v, _) = event {
            if v == nongoal {
                return Control::Break(v);
            }
        }
        Control::Continue
    });
    assert!(ret.break_value().is_none());
}

/// Forward and cross edges both arrive as `CrossForwardEdge`.
#[test]
fn forward_and_cross_edges_are_merged() {
    // 0 -> 1, 0 -> 1 (forward), 2 -> 1 (cross, from a later start).
    let gr = AdjacencyGraph::from_directed_edges(&[(0, 1, 'a'), (0, 1, 'b'), (2, 1, 'c')]);
    let mut merged = vec![];
    depth_first_search(&gr, &[0, 2], |event| {
        if let DfsEvent::CrossForwardEdge(u, v, w) = event {
            merged.push((u, v, w));
        }
        Control::<()>::Continue
    });
    assert_eq!(merged, vec![(0, 1, 'b'), (2, 1, 'c')]);
}
