use graphwalk::adjacency::{AdjacencyGraph, Control, Time};
use graphwalk::graph::{
    arbitrary_tree, depth_first_search, prufer_decode, prufer_encode, DfsEvent, PruferEncodeError,
};
use graphwalk::traversal::DfsTraversal;
use graphwalk::util::SetMinMax;
use petgraph::visit::EdgeRef;
use proptest::strategy::{Strategy, ValueTree};

/// A small deterministic generator of pseudo-random numbers.
struct Lcg(u64);

impl Lcg {
    fn next(&mut self, bound: usize) -> usize {
        self.0 = self.0.wrapping_mul(6364136223846793005).wrapping_add(1442695040888963407);
        ((self.0 >> 33) as usize) % bound
    }
}

fn random_edges(rng: &mut Lcg, nodes: usize, edges: usize) -> Vec<(usize, usize, i32)> {
    let mut out = vec![(nodes - 1, nodes - 1, -1)];
    for k in 0..edges {
        out.push((rng.next(nodes), rng.next(nodes), k as i32));
    }
    out
}

fn ungraph(n: usize, edges: &[(usize, usize)]) -> petgraph::graph::UnGraph<(), (), usize> {
    let mut g = petgraph::graph::UnGraph::<(), (), usize>::default();
    for _ in 0..n {
        g.add_node(());
    }
    for &(a, b) in edges {
        g.add_edge(petgraph::graph::NodeIndex::new(a), petgraph::graph::NodeIndex::new(b), ());
    }
    g
}

#[test]
fn random_directed_graphs_satisfy_event_invariants() {
    let mut rng = Lcg(7);
    for round in 0..40 {
        let nodes = 1 + rng.next(9);
        let count = rng.next(20);
        let edges = random_edges(&mut rng, nodes, count);
        let gr = AdjacencyGraph::from_directed_edges(&edges);
        let n = gr.node_count();
        let start = round % n;
        let starts: Vec<usize> = std::iter::once(start).chain(0..n).collect();
        let invalid = Time(!0);
        let mut discover = vec![invalid; n];
        let mut finish = vec![invalid; n];
        let mut tree_parent = vec![usize::MAX; n];
        let mut seen = std::collections::HashSet::new();
        depth_first_search(&gr, &starts, |evt| {
            match evt {
                DfsEvent::Discover(v, t) => discover[v] = t,
                DfsEvent::Finish(v, t) => finish[v] = t,
                DfsEvent::TreeEdge(u, v, w) => {
                    assert_eq!(tree_parent[v], usize::MAX);
                    tree_parent[v] = u;
                    assert!(discover[v] == invalid);
                    assert!(discover[u] != invalid && finish[u] == invalid);
                    seen.insert((u, v, w));
                }
                DfsEvent::BackEdge(u, v, w) => {
                    assert!(discover[v] != invalid && finish[v] == invalid);
                    seen.insert((u, v, w));
                }
                DfsEvent::ForwardEdge(u, v, w) => {
                    assert!(finish[v] != invalid && discover[u].0 < discover[v].0);
                    seen.insert((u, v, w));
                }
                DfsEvent::CrossEdge(u, v, w) => {
                    assert!(finish[v] != invalid && discover[u].0 > discover[v].0);
                    seen.insert((u, v, w));
                }
            }
            Control::<()>::Continue
        });
        assert!(discover.iter().all(|t| *t != invalid));
        assert!(finish.iter().all(|t| *t != invalid));
        let all: std::collections::HashSet<_> = edges.iter().copied().collect();
        assert_eq!(seen, all);
        // Parenthesis theorem, and containment exactly for tree ancestors.
        let is_ancestor = |a: usize, mut d: usize| {
            while d != usize::MAX {
                if d == a {
                    return true;
                }
                d = tree_parent[d];
            }
            false
        };
        for u in 0..n {
            let (du, fu) = (discover[u].0, finish[u].0);
            assert!(du < fu);
            for v in (u + 1)..n {
                let (dv, fv) = (discover[v].0, finish[v].0);
                let disjoint = fu <= dv || fv <= du;
                let u_contains_v = du < dv && fv <= fu;
                let v_contains_u = dv < du && fu <= fv;
                assert!(disjoint || u_contains_v || v_contains_u);
                assert_eq!(u_contains_v, is_ancestor(u, v));
                assert_eq!(v_contains_u, is_ancestor(v, u));
            }
        }
    }
}

#[test]
fn undirected_back_edges_pair_with_tree_and_forward_edges() {
    let mut rng = Lcg(11);
    for _ in 0..40 {
        let nodes = 1 + rng.next(8);
        let count = rng.next(15);
        let edges = random_edges(&mut rng, nodes, count);
        let gr = AdjacencyGraph::from_undirected_edges(&edges);
        let starts: Vec<usize> = (0..gr.node_count()).collect();
        let norm = |u: usize, v: usize| (u.min(v), u.max(v));
        let mut down = vec![];
        let mut up = vec![];
        depth_first_search(&gr, &starts, |evt| {
            match evt {
                DfsEvent::TreeEdge(u, v, _) | DfsEvent::ForwardEdge(u, v, _) => down.push(norm(u, v)),
                DfsEvent::BackEdge(u, v, _) if u != v => up.push(norm(u, v)),
                DfsEvent::CrossEdge(_, _, _) => unreachable!(),
                _ => {}
            }
            Control::<()>::Continue
        });
        down.sort();
        up.sort();
        assert_eq!(down, up);
    }
}

#[test]
fn stepping_a_search_to_its_end_discovers_the_reachable_nodes() {
    // 0 -> 1 -> 2, 3 -> 0; from 0 the nodes 0, 1, 2 are reachable, 3 is not.
    let gr = AdjacencyGraph::from_directed_edges(&[(0, 1, ()), (1, 2, ()), (3, 0, ())]);
    let mut search = DfsTraversal::new(&gr, &[0]);
    let mut events = vec![];
    while let Some(e) = search.advance() {
        events.push(match e {
            DfsEvent::Discover(v, t) => format!("d{v}@{}", t.0),
            DfsEvent::TreeEdge(u, v, _) => format!("t{u}{v}"),
            DfsEvent::BackEdge(u, v, _) => format!("b{u}{v}"),
            DfsEvent::ForwardEdge(u, v, _) => format!("f{u}{v}"),
            DfsEvent::CrossEdge(u, v, _) => format!("c{u}{v}"),
            DfsEvent::Finish(v, t) => format!("x{v}@{}", t.0),
        });
        search.reply(false);
    }
    assert_eq!(events, vec!["d0@0", "t01", "d1@1", "t12", "d2@2", "x2@3", "x1@3", "x0@3"]);
}

#[test]
fn pruning_a_tree_edge_skips_the_node_it_leads_to() {
    let gr = AdjacencyGraph::from_directed_edges(&[(0, 1, ()), (1, 2, ()), (0, 2, ())]);
    let mut discovered = vec![];
    let r = depth_first_search(&gr, &[0], |evt| {
        match evt {
            DfsEvent::Discover(v, _) => discovered.push(v),
            DfsEvent::TreeEdge(_, 1, _) => return Control::Prune,
            _ => {}
        }
        Control::<()>::Continue
    });
    assert!(r.break_value().is_none());
    assert_eq!(discovered, vec![0, 2]);
}

#[test]
fn break_stops_at_once_and_returns_its_value() {
    let gr = AdjacencyGraph::from_directed_edges(&[(0, 1, ()), (1, 2, ())]);
    let mut count = 0;
    let r = depth_first_search(&gr, &[0], |evt| {
        count += 1;
        if let DfsEvent::Discover(1, _) = evt {
            return Control::Break("found");
        }
        Control::Continue
    });
    assert_eq!(r.break_value(), Some("found"));
    assert_eq!(count, 3);
}

#[test]
fn starts_already_discovered_are_skipped() {
    let gr = AdjacencyGraph::from_directed_edges(&[(0, 1, ()), (2, 2, ())]);
    let mut discovered = vec![];
    depth_first_search(&gr, &[1, 0, 1, 2], |evt| {
        if let DfsEvent::Discover(v, t) = evt {
            discovered.push((v, t.0));
        }
        Control::<()>::Continue
    });
    assert_eq!(discovered, vec![(1, 0), (0, 1), (2, 2)]);
}

#[test]
fn adjacency_lists_follow_the_edge_order() {
    let edges = [(0, 2, 'a'), (2, 1, 'b'), (1, 1, 'c'), (0, 1, 'd')];
    let d = AdjacencyGraph::from_directed_edges(&edges);
    assert_eq!(d.node_count(), 3);
    assert_eq!(d.incident_edges(0), &vec![(0, 2, 'a'), (0, 1, 'd')]);
    assert_eq!(d.incident_edges(1), &vec![(1, 1, 'c')]);
    let u = AdjacencyGraph::from_undirected_edges(&edges);
    assert_eq!(u.incident_edges(1), &vec![(2, 1, 'b'), (1, 1, 'c'), (0, 1, 'd')]);
    let mut g = AdjacencyGraph::with_nodes(2);
    g.add_undirected_edge(0, 1, 5u8);
    g.add_directed_edge(1, 1, 6u8);
    assert_eq!(g.incident_edges(1), &vec![(0, 1, 5), (1, 1, 6)]);
}

#[test]
fn control_accessors() {
    assert_eq!(Control::Break(3).break_value(), Some(3));
    assert_eq!(Control::<i32>::Prune.break_value(), None);
    assert!(Control::<()>::Prune.should_prune());
    assert!(!Control::<()>::Continue.should_break());
}

#[test]
fn prufer_encode_rejects_too_few_nodes() {
    for n in 0..2 {
        match prufer_encode(&ungraph(n, &[])) {
            Err(PruferEncodeError::TooFewNodes { node_count }) => assert_eq!(node_count, n),
            other => panic!("unexpected {other:?}"),
        }
    }
}

#[test]
fn prufer_encode_rejects_wrong_edge_count() {
    match prufer_encode(&ungraph(5, &[(0, 1), (1, 2), (2, 3)])) {
        Err(PruferEncodeError::WrongEdgeCount { node_count, expected, actual }) => {
            assert_eq!((node_count, expected, actual), (5, 4, 3));
        }
        other => panic!("unexpected {other:?}"),
    }
}

#[test]
fn prufer_encode_rejects_disconnected_graph() {
    // A triangle and an isolated node: 4 nodes, 3 edges.
    assert!(matches!(
        prufer_encode(&ungraph(4, &[(0, 1), (1, 2), (2, 0)])),
        Err(PruferEncodeError::Disconnected)
    ));
}

#[test]
fn prufer_encode_of_a_known_tree() {
    // The classic example: edges of a tree on 6 nodes.
    let g = ungraph(6, &[(3, 0), (3, 1), (3, 2), (3, 4), (4, 5)]);
    assert_eq!(prufer_encode(&g).unwrap(), vec![3, 3, 3, 4]);
    let two = ungraph(2, &[(1, 0)]);
    assert_eq!(prufer_encode(&two).unwrap(), Vec::<usize>::new());
}

#[test]
fn prufer_decode_gives_the_known_edges() {
    let g = prufer_decode(&[3, 3, 3, 4]);
    let edges: Vec<(usize, usize)> = g
        .edge_indices()
        .map(|e| {
            let (a, b) = g.edge_endpoints(e).unwrap();
            (a.index(), b.index())
        })
        .collect();
    assert_eq!(edges, vec![(0, 3), (1, 3), (2, 3), (3, 4), (4, 5)]);
}

#[test]
fn every_short_sequence_roundtrips() {
    for n in 2..6usize {
        let len = n - 2;
        let total = n.pow(len as u32);
        for code in 0..total {
            let mut c = code;
            let seq: Vec<usize> = (0..len)
                .map(|_| {
                    let d = c % n;
                    c /= n;
                    d
                })
                .collect();
            let g = prufer_decode(&seq);
            assert_eq!(g.node_count(), n);
            assert_eq!(g.edge_count(), n - 1);
            assert_eq!(prufer_encode(&g).unwrap(), seq);
        }
    }
}

fn normalized_edges(g: &petgraph::graph::UnGraph<(), (), usize>) -> Vec<(usize, usize)> {
    let mut edges: Vec<(usize, usize)> = g
        .edge_indices()
        .map(|e| {
            let (a, b) = g.edge_endpoints(e).unwrap();
            (a.index().min(b.index()), a.index().max(b.index()))
        })
        .collect();
    edges.sort();
    edges
}

#[test]
fn encoding_then_decoding_gives_the_tree_back() {
    let trees: Vec<(usize, Vec<(usize, usize)>)> = vec![
        (6, vec![(3, 0), (3, 1), (3, 2), (3, 4), (4, 5)]),
        (5, vec![(4, 3), (0, 1), (2, 1), (3, 2)]),
        (2, vec![(1, 0)]),
        (7, vec![(6, 0), (0, 5), (5, 1), (1, 4), (2, 4), (3, 2)]),
    ];
    for (n, edges) in trees {
        let g = ungraph(n, &edges);
        let code = prufer_encode(&g).unwrap();
        assert_eq!(code.len() + 2, n);
        let back = prufer_decode(&code);
        assert_eq!(back.node_count(), n);
        assert_eq!(normalized_edges(&back), normalized_edges(&g));
    }
}

#[test]
fn arbitrary_tree_on_few_nodes_has_those_nodes() {
    let mut runner = proptest::test_runner::TestRunner::default();
    for n in 0..3 {
        let tree = arbitrary_tree(n).new_tree(&mut runner).unwrap().current();
        assert_eq!(tree.node_count(), n);
        assert_eq!(tree.edge_count(), n.saturating_sub(1));
    }
}

#[test]
fn setmin_and_setmax() {
    let mut x = 5;
    assert!(x.setmin(3));
    assert_eq!(x, 3);
    assert!(!x.setmin(4));
    assert_eq!(x, 3);
    assert!(x.setmax(9));
    assert_eq!(x, 9);
    assert!(!x.setmax(9));
    assert_eq!(x, 9);
}

/// The library's graph of a petgraph graph, with each node's edges in the
/// order petgraph's `edges` yields them.
fn petgraph_order<Ty: petgraph::EdgeType>(
    g: &petgraph::Graph<(), i32, Ty>,
) -> AdjacencyGraph<i32> {
    let mut adjacency = AdjacencyGraph::with_nodes(g.node_count());
    for u in g.node_indices() {
        for e in g.edges(u) {
            adjacency.push_incident(u.index(), e.source().index(), e.target().index(), *e.weight());
        }
    }
    adjacency
}

#[test]
fn searches_in_petgraph_edge_order() {
    let edges = [
        (0u32, 5u32, 10),
        (0, 2, 20),
        (0, 3, 30),
        (0, 1, 40),
        (1, 3, 50),
        (2, 3, 60),
        (2, 4, 70),
        (4, 0, 80),
        (4, 5, 90),
    ];
    let gr = petgraph::Graph::<(), i32>::from_edges(edges);
    let g = petgraph_order(&gr);
    // petgraph lists the edges of a node newest first.
    assert_eq!(g.incident_edges(0), &vec![(0, 1, 40), (0, 3, 30), (0, 2, 20), (0, 5, 10)]);
    let mut events = Vec::new();
    let r = depth_first_search(&g, &[0], |e| {
        events.push(e);
        Control::<()>::Continue
    });
    assert!(r.break_value().is_none());
    let tree: Vec<(usize, usize)> = events
        .iter()
        .filter_map(|e| match e {
            DfsEvent::TreeEdge(u, v, _) => Some((*u, *v)),
            _ => None,
        })
        .collect();
    assert_eq!(tree, vec![(0, 1), (1, 3), (0, 2), (2, 4), (4, 5)]);
    let mut seen: Vec<(usize, usize, i32)> = events
        .iter()
        .filter_map(|e| match e {
            DfsEvent::TreeEdge(u, v, w)
            | DfsEvent::BackEdge(u, v, w)
            | DfsEvent::ForwardEdge(u, v, w)
            | DfsEvent::CrossEdge(u, v, w) => Some((*u, *v, *w)),
            _ => None,
        })
        .collect();
    seen.sort();
    let mut expected: Vec<(usize, usize, i32)> =
        edges.iter().map(|&(a, b, w)| (a as usize, b as usize, w)).collect();
    expected.sort();
    assert_eq!(seen, expected);

    let cycle = petgraph::Graph::<(), i32>::from_edges([(0u32, 1u32, 1), (1, 0, 2)]);
    let g = petgraph_order(&cycle);
    let mut kinds = Vec::new();
    depth_first_search(&g, &[0], |e| {
        match e {
            DfsEvent::TreeEdge(u, v, _) => kinds.push(("tree", u, v)),
            DfsEvent::BackEdge(u, v, _) => kinds.push(("back", u, v)),
            DfsEvent::ForwardEdge(u, v, _) => kinds.push(("forward", u, v)),
            DfsEvent::CrossEdge(u, v, _) => kinds.push(("cross", u, v)),
            _ => {}
        }
        Control::<()>::Continue
    });
    assert_eq!(kinds, vec![("tree", 0, 1), ("back", 1, 0)]);
}

#[test]
fn undirected_petgraph_search_pairs_back_edges() {
    let ug = petgraph::Graph::<(), i32, petgraph::Undirected>::from_edges([
        (0u32, 1u32, 1),
        (1, 2, 2),
        (2, 0, 3),
        (2, 1, 4),
        (3, 2, 5),
    ]);
    let g = petgraph_order(&ug);
    let mut back = Vec::new();
    let mut tree_forward = Vec::new();
    depth_first_search(&g, &[0, 1, 2, 3], |e| {
        match e {
            DfsEvent::TreeEdge(u, v, _) | DfsEvent::ForwardEdge(u, v, _) => {
                tree_forward.push((u.min(v), u.max(v)))
            }
            DfsEvent::BackEdge(u, v, _) if u != v => back.push((u.min(v), u.max(v))),
            DfsEvent::CrossEdge(..) => panic!("cross edge in an undirected graph"),
            _ => {}
        }
        Control::<()>::Continue
    });
    back.sort();
    tree_forward.sort();
    assert_eq!(back, tree_forward);
}

#[test]
fn code_depends_only_on_the_pairs_joined() {
    let a = ungraph(6, &[(3, 0), (3, 1), (3, 2), (3, 4), (4, 5)]);
    let b = ungraph(6, &[(5, 4), (2, 3), (4, 3), (0, 3), (1, 3)]);
    assert_eq!(prufer_encode(&a).unwrap(), prufer_encode(&b).unwrap());
    let c = ungraph(6, &[(3, 0), (3, 1), (3, 2), (3, 5), (4, 5)]);
    assert_ne!(prufer_encode(&a).unwrap(), prufer_encode(&c).unwrap());
}

#[test]
fn decoding_is_injective_on_short_sequences() {
    for n in 2..7usize {
        let len = n - 2;
        let total = n.pow(len as u32);
        let mut trees = std::collections::HashSet::new();
        for code in 0..total {
            let mut c = code;
            let seq: Vec<usize> = (0..len)
                .map(|_| {
                    let d = c % n;
                    c /= n;
                    d
                })
                .collect();
            assert!(trees.insert(normalized_edges(&prufer_decode(&seq))));
        }
        assert_eq!(trees.len(), total);
    }
}

#[test]
fn setmin_and_setmax_twice_change_nothing() {
    let mut a = 9i32;
    assert!(a.setmin(4));
    assert!(!a.setmin(4));
    assert_eq!(a, 4);
    let mut b = -3i64;
    assert!(b.setmax(8));
    assert!(!b.setmax(8));
    assert_eq!(b, 8);
}
