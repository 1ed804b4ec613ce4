use std::collections::HashSet;

use graphwalk::adjacency::{AdjacencyGraph, Control, Time};
use graphwalk::graph::{arbitrary_tree, depth_first_search, prufer_decode, prufer_encode, DfsEvent};

fn sample_edges() -> Vec<(usize, usize, i32)> {
    vec![
        (0, 5, 10),
        (0, 2, 20),
        (0, 3, 30),
        (0, 1, 40),
        (1, 3, 50),
        (2, 3, 60),
        (2, 4, 70),
        (4, 0, 80),
        (4, 5, 90),
    ]
}

/// Parallel edges 0→1, 0→1: first is a tree edge, second is a forward edge.
#[test]
fn dfs_classifies_parallel_edges_as_one_tree_and_one_forward() {
    let gr = AdjacencyGraph::from_directed_edges(&[(0, 1, ()), (0, 1, ())]);

    let mut tree_edges = vec![];
    let mut forward_edges = vec![];

    depth_first_search(&gr, &[0], |evt| {
        match evt {
            DfsEvent::TreeEdge(u, v, _) => tree_edges.push((u, v)),
            DfsEvent::ForwardEdge(u, v, _) => forward_edges.push((u, v)),
            DfsEvent::CrossEdge(_, _, _) | DfsEvent::BackEdge(_, _, _) => unreachable!(),
            _ => {}
        }
        Control::<()>::Continue
    });

    assert_eq!(tree_edges, vec![(0, 1)]);
    assert_eq!(forward_edges, vec![(0, 1)]);
}

/// Cycle 0→1, 1→0: tree edge to 1, back edge to 0.
#[test]
fn dfs_classifies_cycle_as_one_tree_and_one_back() {
    let gr = AdjacencyGraph::from_directed_edges(&[(0, 1, ()), (1, 0, ())]);

    let mut tree_edges = vec![];
    let mut back_edges = vec![];

    depth_first_search(&gr, &[0], |evt| {
        match evt {
            DfsEvent::TreeEdge(u, v, _) => tree_edges.push((u, v)),
            DfsEvent::BackEdge(u, v, _) => back_edges.push((u, v)),
            DfsEvent::CrossEdge(_, _, _) | DfsEvent::ForwardEdge(_, _, _) => unreachable!(),
            _ => {}
        }
        Control::<()>::Continue
    });

    assert_eq!(tree_edges, vec![(0, 1)]);
    assert_eq!(back_edges, vec![(1, 0)]);
}

/// Verify event invariants (discover/finish times, edge classification)
/// on a hand-crafted weighted directed graph.
#[test]
fn dfs_events_satisfy_invariants() {
    let edges = sample_edges();
    let gr = AdjacencyGraph::from_directed_edges(&edges);

    let invalid_time = Time(!0);
    let mut discover_time = vec![invalid_time; gr.node_count()];
    let mut finish_time = vec![invalid_time; gr.node_count()];
    let mut has_tree_edge = vec![false; gr.node_count()];
    let mut seen = HashSet::new();

    depth_first_search(&gr, &[0], |evt| {
        match evt {
            DfsEvent::Discover(n, t) => discover_time[n] = t,
            DfsEvent::Finish(n, t) => finish_time[n] = t,
            DfsEvent::TreeEdge(u, v, w) => {
                assert!(!has_tree_edge[v], "Two tree edges to {v:?}!");
                has_tree_edge[v] = true;
                assert!(discover_time[v] == invalid_time);
                assert!(discover_time[u] != invalid_time);
                assert!(finish_time[u] == invalid_time);
                seen.insert((u, v, w));
            }
            DfsEvent::BackEdge(u, v, w) => {
                assert!(discover_time[v] != invalid_time);
                assert!(finish_time[v] == invalid_time);
                seen.insert((u, v, w));
            }
            DfsEvent::ForwardEdge(u, v, w) | DfsEvent::CrossEdge(u, v, w) => {
                seen.insert((u, v, w));
            }
        }
        Control::<()>::Continue
    });

    assert!(discover_time.iter().all(|x| *x != invalid_time));
    assert!(finish_time.iter().all(|x| *x != invalid_time));
    assert_eq!(seen.len(), edges.len());
    let expected: HashSet<(usize, usize, i32)> = edges.iter().copied().collect();
    assert_eq!(seen, expected);
}

/// Find a path using Control::Break, verify early termination.
#[test]
fn dfs_break_finds_path_via_early_termination() {
    let gr = AdjacencyGraph::from_directed_edges(&sample_edges());

    let end = usize::MAX;
    let mut predecessor = vec![end; gr.node_count()];
    let start = 0;
    let goal = 4;
    let ret = depth_first_search(&gr, &[start], |event| {
        if let DfsEvent::TreeEdge(u, v, _) = event {
            predecessor[v] = u;
            if v == goal {
                return Control::Break(u);
            }
        }
        Control::Continue
    });
    assert!(ret.break_value().is_some());
    assert!(predecessor.iter().any(|x| *x == end));

    let mut next = goal;
    let mut path = vec![next];
    while next != start {
        let pred = predecessor[next];
        path.push(pred);
        next = pred;
    }
    path.reverse();
    assert_eq!(&path, &[0, 2, 4]);
}

/// Prune a node and verify its subtree is not reached.
#[test]
fn dfs_prune_skips_subtree() {
    let gr = AdjacencyGraph::from_directed_edges(&sample_edges());

    let start = 0;
    let prune = 2;
    let nongoal = 4;
    let ret = depth_first_search(&gr, &[start], |event| {
        if let DfsEvent::Discover(n, _) = event {
            if n == prune {
                return Control::Prune;
            }
        } else if let DfsEvent::TreeEdge(u, v, _) = event {
            if v == nongoal {
                return Control::Break(u);
            }
        }
        Control::Continue
    });
    assert!(ret.break_value().is_none());
}

fn ungraph(edges: &[(usize, usize)]) -> petgraph::graph::UnGraph<(), (), usize> {
    petgraph::graph::UnGraph::<(), (), usize>::from_edges(edges.iter().copied())
}

/// Prüfer encoding of the path 0-1-2-3-4 is [1, 2, 3].
#[test]
fn prufer_encode_produces_correct_path_sequence() {
    let graph = ungraph(&[(0, 1), (1, 2), (2, 3), (3, 4)]);
    assert_eq!(prufer_encode(&graph).unwrap(), vec![1, 2, 3]);
}

/// Prüfer encoding of the star graph (center=0, leaves=1..5) is [0, 0, 0].
#[test]
fn prufer_encode_produces_correct_star_sequence() {
    let graph = ungraph(&[(0, 1), (0, 2), (0, 3), (0, 4)]);
    assert_eq!(prufer_encode(&graph).unwrap(), vec![0, 0, 0]);
}

/// Decode([1, 2, 3]) reconstructs a path graph, and re-encoding yields [1, 2, 3].
#[test]
fn prufer_decode_roundtrips_path_sequence() {
    let sequence = vec![1, 2, 3];
    let graph = prufer_decode(&sequence);
    assert_eq!(graph.node_count(), 5);
    assert_eq!(graph.edge_count(), 4);
    assert_eq!(prufer_encode(&graph).unwrap(), sequence);
}

/// Edge case: empty sequence decodes to a single-edge tree on 2 nodes.
#[test]
fn prufer_decode_handles_two_node_edge_case() {
    let empty: Vec<usize> = vec![];

    let g = prufer_decode(&empty[..]);
    assert_eq!(g.node_count(), 2);
    assert_eq!(g.edge_count(), 1);
    assert_eq!(prufer_encode(&g).unwrap(), empty);
}

fn runner() -> proptest::test_runner::TestRunner {
    proptest::test_runner::TestRunner::new(proptest::test_runner::Config::default())
}

#[test]
fn prufer_encode_decode_roundtrips_arbitrary_sequences() {
    let n = 20;
    let strategy = proptest::collection::vec(0..n, n - 2);

    runner()
        .run(&strategy, |sequence| {
            let graph = prufer_decode(&sequence);
            if graph.node_count() != n {
                return Err(proptest::test_runner::TestCaseError::fail("node count"));
            }
            if graph.edge_count() != n - 1 {
                return Err(proptest::test_runner::TestCaseError::fail("edge count"));
            }
            let re_encoded = prufer_encode(&graph).unwrap();
            if re_encoded != sequence {
                return Err(proptest::test_runner::TestCaseError::fail("sequence"));
            }
            Ok(())
        })
        .unwrap();
}

#[test]
fn prufer_encode_handles_arbitrary_tree() {
    runner()
        .run(&arbitrary_tree(20), |tree| {
            if prufer_encode(&tree).is_err() {
                return Err(proptest::test_runner::TestCaseError::fail("not a tree"));
            }
            Ok(())
        })
        .unwrap();
}
