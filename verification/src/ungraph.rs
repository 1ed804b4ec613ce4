//! The undirected petgraph graphs that labelled trees are stored in, and the
//! few of their operations the tree codes use.

use vstd::prelude::*;

use petgraph::visit::EdgeRef;

verus! {

/// An undirected graph on nodes `0..n` with `usize` indices and no weights.
pub type TreeGraph = petgraph::Graph<(), (), petgraph::Undirected, usize>;

#[verifier::external_type_specification]
#[verifier::external_body]
#[verifier::reject_recursive_types(N)]
#[verifier::reject_recursive_types(E)]
#[verifier::reject_recursive_types(Ty)]
#[verifier::reject_recursive_types(Ix)]
pub struct ExGraph<N, E, Ty, Ix>(petgraph::Graph<N, E, Ty, Ix>);

#[verifier::external_type_specification]
#[verifier::external_body]
pub struct ExUndirected(petgraph::Undirected);

/// The number of nodes of `g`; its nodes are `0..n`.
pub uninterp spec fn node_total(g: TreeGraph) -> nat;

/// The edges of `g` in index order, each as its two endpoints in the order
/// they were given when it was added.
pub uninterp spec fn edge_list(g: TreeGraph) -> Seq<(usize, usize)>;

/// `a` and `b` are the endpoints of some edge of `edges`.
pub open spec fn linked(edges: Seq<(usize, usize)>, a: int, b: int) -> bool {
    exists|i: int|
        0 <= i < edges.len() && ((#[trigger] edges[i]).0 == a && edges[i].1 == b || edges[i].0 == b
            && edges[i].1 == a)
}

/// `p` is a non-empty walk along `edges`.
pub open spec fn is_walk_in(edges: Seq<(usize, usize)>, p: Seq<int>) -> bool {
    &&& p.len() > 0
    &&& forall|i: int| 0 <= i < p.len() - 1 ==> #[trigger] linked(edges, p[i], p[i + 1])
}

/// Some walk along `edges` leads from `a` to `b`.
pub open spec fn connected_in(edges: Seq<(usize, usize)>, a: int, b: int) -> bool {
    exists|p: Seq<int>| #[trigger] is_walk_in(edges, p) && p[0] == a && p.last() == b
}

/// Every endpoint is a node of the graph.
pub open spec fn endpoints_below(edges: Seq<(usize, usize)>, n: nat) -> bool {
    forall|i: int| 0 <= i < edges.len() ==> (#[trigger] edges[i]).0 < n && edges[i].1 < n
}

/// `Graph::with_capacity`: an empty graph (the capacities only reserve room).
#[verifier::external_body]
pub(crate) fn graph_with_capacity(nodes: usize, edges: usize) -> (g: TreeGraph)
    ensures
        node_total(g) == 0,
        edge_list(g) == Seq::<(usize, usize)>::empty(),
{
    petgraph::Graph::with_capacity(nodes, edges)
}

/// `Graph::default`: an empty graph.
#[verifier::external_body]
pub(crate) fn graph_default() -> (g: TreeGraph)
    ensures
        node_total(g) == 0,
        edge_list(g) == Seq::<(usize, usize)>::empty(),
{
    petgraph::Graph::default()
}

/// `Graph::add_node`: appends a node, whose index it returns (with `usize`
/// indices it never reaches the index limit).
#[verifier::external_body]
pub(crate) fn graph_add_node(g: &mut TreeGraph) -> (i: usize)
    ensures
        i == node_total(*old(g)),
        node_total(*final(g)) == node_total(*old(g)) + 1,
        edge_list(*final(g)) == edge_list(*old(g)),
{
    g.add_node(()).index()
}

/// `Graph::add_edge`: appends the edge `(a, b)`; both must be nodes (else it
/// panics).
#[verifier::external_body]
pub(crate) fn graph_add_edge(g: &mut TreeGraph, a: usize, b: usize)
    requires
        a < node_total(*old(g)),
        b < node_total(*old(g)),
    ensures
        node_total(*final(g)) == node_total(*old(g)),
        edge_list(*final(g)) == edge_list(*old(g)).push((a, b)),
{
    g.add_edge(petgraph::graph::NodeIndex::new(a), petgraph::graph::NodeIndex::new(b), ());
}

/// `Graph::node_count`.  The nodes live in a `Vec` of non-zero-sized entries,
/// so there are at most `isize::MAX` of them.
#[verifier::external_body]
pub(crate) fn graph_node_count(g: &TreeGraph) -> (n: usize)
    ensures
        n == node_total(*g),
        n <= isize::MAX,
{
    g.node_count()
}

/// `Graph::edge_count`.
#[verifier::external_body]
pub(crate) fn graph_edge_count(g: &TreeGraph) -> (m: usize)
    ensures
        m == edge_list(*g).len(),
{
    g.edge_count()
}

/// `Graph::edge_references`, each edge as its endpoints: the edges in index
/// order, every endpoint a node of the graph.
#[verifier::external_body]
pub(crate) fn graph_edge_endpoints(g: &TreeGraph) -> (r: Vec<
    (usize, usize),
>)
    ensures
        r@ == edge_list(*g),
        endpoints_below(r@, node_total(*g)),
{
    g.edge_references().map(|e| (e.source().index(), e.target().index())).collect()
}

/// `Graph::neighbors` of an undirected graph: the nodes sharing an edge with
/// `a` (the order is not stated).
#[verifier::external_body]
pub(crate) fn graph_neighbors(g: &TreeGraph, a: usize) -> (r: Vec<
    usize,
>)
    ensures
        forall|w: usize| r@.contains(w) <==> linked(edge_list(*g), a as int, w as int),
{
    g.neighbors(petgraph::graph::NodeIndex::new(a)).map(|v| v.index()).collect()
}

/// `petgraph::visit::depth_first_search` from node 0, collecting the node of
/// every `Discover` event: each node connected to node 0, once each.
#[verifier::external_body]
pub(crate) fn graph_discovered_from_first(g: &TreeGraph) -> (r: Vec<usize>)
    requires
        node_total(*g) > 0,
    ensures
        r@.no_duplicates(),
        forall|v: usize|
            #[trigger] r@.contains(v) <==> (v < node_total(*g) && connected_in(
                edge_list(*g),
                0,
                v as int,
            )),
{
    let mut found = Vec::new();
    petgraph::visit::depth_first_search(
        g,
        Some(petgraph::graph::NodeIndex::new(0)),
        |event| {
            if let petgraph::visit::DfsEvent::Discover(v, _) = event {
                found.push(v.index());
            }
        },
    );
    found
}

} // verus!
