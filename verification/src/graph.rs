use vstd::prelude::*;

use crate::adjacency::{AdjacencyGraph, Control, EdgeRef, Time};
use crate::forest::{
    all_true, contribution, degree_of, degree_upto, degrees, far_end, first_touching,
    lemma_degree_drop, lemma_initial_tree, lemma_leaf_neighbor, lemma_remove_leaf,
    lemma_tree_has_leaf, live_tree,
};
use crate::prufer_spec::{
    decode_steps, first_one, initial_degrees, is_labelled_tree, lemma_all_present,
    lemma_decode_then_encode, lemma_first_one, lemma_first_one_skip, lemma_occurrences_bound,
    lemma_occurrences_drop_first,
    lemma_unused_live_node, occurrences, prufer_sequence, prufer_steps, prufer_tree_edges,
};
use crate::prufer_inverse::lemma_encode_then_decode;
use crate::traversal::{count_true, lemma_count_set, DfsTraversal};
use crate::ungraph::{
    connected_in, edge_list, endpoints_below, graph_add_edge, graph_add_node, graph_default, graph_discovered_from_first,
    graph_edge_count, graph_edge_endpoints, graph_neighbors, graph_node_count,
    graph_with_capacity, linked, node_total, TreeGraph,
};

verus! {

/// A DFS visitor event that includes edge weights.
///
/// For edge events, the first node is the one closer to the tree root (the
/// node whose edges are being examined) and the second is the node the edge
/// leads to, regardless of how the edge is stored in the graph.
#[derive(Copy, Clone, Debug)]
pub enum DfsEvent<N, W> {
    Discover(N, Time),
    TreeEdge(N, N, W),
    BackEdge(N, N, W),
    ForwardEdge(N, N, W),
    CrossEdge(N, N, W),
    Finish(N, Time),
}

/// The outcome `r` of a search of `g` from `starts` whose events went to
/// `visitor`: the run `ts`, `us`, `es`, `cs` of the search in which each
/// event `es[i]` got an answer `cs[i]` that `visitor` may give to it; `r` is
/// `Break(b)` when the last answer was `Break(b)`, and `Continue` when no
/// answer was `Break` and the search ran to its end.
pub open spec fn visited_run<'a, W: Copy, B, F: FnMut(DfsEvent<usize, W>) -> Control<B>>(
    g: Seq<Seq<EdgeRef<W>>>,
    starts: Seq<usize>,
    visitor: F,
    ts: Seq<DfsTraversal<'a, W>>,
    us: Seq<DfsTraversal<'a, W>>,
    es: Seq<DfsEvent<usize, W>>,
    cs: Seq<Control<B>>,
    r: Control<B>,
) -> bool {
    &&& DfsTraversal::is_run(g, starts, ts, us, es, cs)
    &&& forall|i: int| 0 <= i < es.len() ==> call_ensures(visitor, (es[i],), #[trigger] cs[i])
    &&& match r {
        Control::Continue => (es.len() == 0 || !(cs.last() is Break)) && ts.last().search_over(),
        Control::Break(b) => es.len() > 0 && cs.last() == Control::<B>::Break(b),
        Control::Prune => false,
    }
}

/// A depth first search that provides edge weights in visitor events.
///
/// The search takes up `starts` in order, skipping those already discovered,
/// and from each explores depth-first, examining the edges of a node in the
/// order the graph lists them.  Every event is handed to `visitor`; its answer
/// `Break(b)` ends the search, which returns `Break(b)`; `Prune` after a
/// `Discover` skips that node's edges, and after a `TreeEdge` skips the node it
/// leads to.  A search that runs to its end returns `Continue`.  The events
/// are those of a run of [`DfsTraversal`] over `graph` and `starts`
/// ([`DfsTraversal::is_run`]): every state of it searches this graph, each
/// step is the one [`DfsTraversal::advanced_from`] states, and the laws of
/// [`DfsTraversal`] hold at every state ([`DfsTraversal::lemma_run_states`]).
pub fn depth_first_search<'a, W: Copy, B, F: FnMut(DfsEvent<usize, W>) -> Control<B>>(
    graph: &'a AdjacencyGraph<W>,
    starts: &[usize],
    visitor: F,
) -> (r: Control<B>)
    requires
        forall|i: int| 0 <= i < starts@.len() ==> (#[trigger] starts@[i]) < graph@.len(),
        forall|e: DfsEvent<usize, W>| call_requires(visitor, (e,)),
    ensures
        !(r is Prune),
        r matches Control::Break(b) ==> exists|e: DfsEvent<usize, W>|
            call_ensures(visitor, (e,), Control::<B>::Break(b)),
        exists|
            ts: Seq<DfsTraversal<'a, W>>,
            us: Seq<DfsTraversal<'a, W>>,
            es: Seq<DfsEvent<usize, W>>,
            cs: Seq<Control<B>>,
        | #[trigger] visited_run(graph@, starts@, visitor, ts, us, es, cs, r),
{
    let ghost v0 = visitor;
    let mut visit = visitor;
    let mut search = DfsTraversal::new(graph, starts);
    let ghost mut ts: Seq<DfsTraversal<'a, W>> = seq![search];
    let ghost mut us: Seq<DfsTraversal<'a, W>> = Seq::empty();
    let ghost mut es: Seq<DfsEvent<usize, W>> = Seq::empty();
    let ghost mut cs: Seq<Control<B>> = Seq::empty();
    loop
        invariant
            search.wf(),
            !search.awaiting_reply(),
            forall|e: DfsEvent<usize, W>| call_requires(v0, (e,)),
            visit == v0,
            v0 == visitor,
            DfsTraversal::is_run(graph@, starts@, ts, us, es, cs),
            ts.last() == search,
            forall|i: int| 0 <= i < es.len() ==> !(#[trigger] cs[i] is Break),
            forall|i: int| 0 <= i < es.len() ==> call_ensures(v0, (es[i],), #[trigger] cs[i]),
        decreases search.starts_left(), search.undiscovered(), search.path_work(),
    {
        match search.advance() {
            None => {
                proof {
                    assert(visited_run(graph@, starts@, v0, ts, us, es, cs, Control::<B>::Continue));
                }
                return Control::Continue;
            },
            Some(event) => {
                let ghost mid = search;
                let answer = visit(event);
                let ghost ts0 = ts;
                let ghost us0 = us;
                let ghost cs0 = cs;
                proof {
                    us = us.push(mid);
                    es = es.push(event);
                    cs = cs.push(answer);
                    assert forall|i: int| #![trigger us0[i]] 0 <= i < us0.len() implies us[i] == us0[i] && cs[i] == cs0[i] by {}
                }
                match answer {
                    Control::Break(b) => {
                        proof {
                            ts = ts.push(mid);
                            assert forall|i: int| #![trigger ts0[i]] 0 <= i <= us0.len() implies ts[i] == ts0[i] by {}
                            assert(DfsTraversal::is_run(graph@, starts@, ts, us, es, cs));
                            assert(visited_run(graph@, starts@, v0, ts, us, es, cs, Control::<B>::Break(b)));
                        }
                        return Control::Break(b);
                    },
                    Control::Prune => {
                        search.reply(true);
                        proof {
                            ts = ts.push(search);
                            assert forall|i: int| #![trigger ts0[i]] 0 <= i <= us0.len() implies ts[i] == ts0[i] by {}
                        }
                    },
                    Control::Continue => {
                        search.reply(false);
                        proof {
                            ts = ts.push(search);
                            assert forall|i: int| #![trigger ts0[i]] 0 <= i <= us0.len() implies ts[i] == ts0[i] by {}
                        }
                    },
                }
            },
        }
    }
}

/// The entries of `s` as integers.
pub open spec fn as_ints(s: Seq<usize>) -> Seq<int> {
    s.map_values(|x: usize| x as int)
}

/// The pointers after the smallest leaf `leaf` was removed and the degree
/// of its neighbour `v` went down by one (the degrees were `d`, now
/// `degree`): the new smallest leaf, and where the forward scan for leaves
/// stands.  `v` is taken at once when it has become a leaf below the scan;
/// otherwise the scan goes on from where it stood.
fn next_pointers(
    degree: &Vec<usize>,
    leaf: usize,
    index: usize,
    v: usize,
    Ghost(d): Ghost<Seq<int>>,
) -> (r: (usize, usize))
    requires
        d.len() == degree@.len(),
        as_ints(degree@) == d.update(leaf as int, 0).update(v as int, d[v as int] - 1),
        leaf == first_one(d, 0),
        leaf <= index < d.len(),
        leaf < index ==> d[index as int] == 0,
        forall|u: int| 0 <= u < index && u != leaf ==> #[trigger] d[u] != 1,
        v < d.len(),
        v != leaf,
        d[v as int] >= 1,
        first_one(as_ints(degree@), 0) < d.len(),
    ensures
        r.0 == first_one(as_ints(degree@), 0),
        r.0 <= r.1 < d.len(),
        r.0 < r.1 ==> as_ints(degree@)[r.1 as int] == 0,
        forall|u: int| 0 <= u < r.1 && u != r.0 ==> #[trigger] as_ints(degree@)[u] != 1,
{
    let ghost d2 = as_ints(degree@);
    if degree[v] == 1 && v < index {
        proof {
            assert forall|u: int| 0 <= u < v && u < d2.len() implies d2[u] != 1 by {
                if u != leaf {
                    assert(d2[u] == d[u]);
                }
            }
            lemma_first_one_skip(d2, 0, v as int);
            assert forall|u: int| 0 <= u < index && u != v implies #[trigger] d2[u] != 1 by {
                if u != leaf {
                    assert(d2[u] == d[u]);
                }
            }
        }
        (v, index)
    } else {
        proof {
            assert forall|u: int| 0 <= u < index + 1 && u < d2.len() implies d2[u] != 1 by {
                if u == index && u != leaf {
                    assert(d[u] == 0);
                }
                if u != leaf && u != v {
                    assert(d2[u] == d[u]);
                }
            }
            lemma_first_one_skip(d2, 0, index as int + 1);
            lemma_first_one(d2, 0);
        }
        let len = degree.len();
        assert(index < len);
        let i = next_leaf(degree, index + 1);
        (i, i)
    }
}

/// The first node at or after `from` whose degree is one (`degree.len()` when
/// there is none).
fn next_leaf(degree: &Vec<usize>, from: usize) -> (r: usize)
    requires
        from <= degree@.len(),
    ensures
        r == first_one(as_ints(degree@), from as int),
{
    let ghost d = as_ints(degree@);
    let mut i = from;
    while i < degree.len() && degree[i] != 1
        invariant
            from <= i <= degree@.len(),
            d == as_ints(degree@),
            first_one(d, from as int) == first_one(d, i as int),
        decreases degree@.len() - i,
    {
        assert(d[i as int] != 1);
        i += 1;
    }
    i
}

/// Decode a Prüfer sequence into a labeled tree.
///
/// `sequence` must contain values in `0..n` where `n = sequence.len() + 2`.
/// Returns an undirected graph on `n` nodes with `n - 1` edges: the tree
/// [`prufer_tree_edges`] describes.
///
/// Runs in O(n) time using the inverse of the encoding pointer algorithm: a
/// scan pointer only moves forward, and a node that becomes a leaf below it
/// is taken at once.
pub fn prufer_decode(sequence: &[usize]) -> (graph: TreeGraph)
    requires
        sequence@.len() + 2 <= usize::MAX,
        forall|j: int| 0 <= j < sequence@.len() ==> (#[trigger] sequence@[j]) < sequence@.len() + 2,
    ensures
        node_total(graph) == sequence@.len() + 2,
        edge_list(graph) == prufer_tree_edges(sequence@),
{
    let n = sequence.len() + 2;
    let ghost s = sequence@;
    let mut graph = graph_with_capacity(n, n.saturating_sub(1));
    let mut i: usize = 0;
    while i < n
        invariant
            i <= n,
            node_total(graph) == i,
            edge_list(graph) == Seq::<(usize, usize)>::empty(),
        decreases n - i,
    {
        graph_add_node(&mut graph);
        i += 1;
    }
    if n == 2 {
        graph_add_edge(&mut graph, 0, 1);
        proof {
            let d = initial_degrees(s, n as nat);
            assert(s.len() == 0);
            assert(d[0] == 1 && d[1] == 1);
            assert(first_one(d, 0) == 0);
            assert(first_one(d, 1) == 1);
            assert(edge_list(graph) =~= prufer_tree_edges(s));
        }
        return graph;
    }
    // The degree of each node in the tree: one more than its occurrences.

    let mut degree: Vec<usize> = Vec::new();
    let mut k: usize = 0;
    while k < n
        invariant
            k <= n,
            degree@.len() == k,
            forall|v: int| 0 <= v < k ==> degree@[v] == 1,
        decreases n - k,
    {
        degree.push(1);
        k += 1;
    }
    let mut j: usize = 0;
    while j < sequence.len()
        invariant
            n == s.len() + 2,
            s == sequence@,
            j <= s.len(),
            degree@.len() == n,
            forall|j2: int| 0 <= j2 < s.len() ==> (#[trigger] s[j2]) < n,
            forall|v: int| 0 <= v < n ==> degree@[v] == 1 + occurrences(s.take(j as int), v),
        decreases s.len() - j,
    {
        let v = sequence[j];
        proof {
            lemma_occurrences_bound(s.take(j as int), v as int);
            assert(s.take(j as int + 1).drop_last() =~= s.take(j as int));
            assert(s.take(j as int + 1).last() == v);
        }
        degree.set(v, degree[v] + 1);
        j += 1;
    }
    proof {
        assert(s.take(s.len() as int) =~= s);
        assert(as_ints(degree@) =~= initial_degrees(s, n as nat));
    }
    let ghost mut alive: Seq<bool> = Seq::new(n as nat, |v: int| true);
    proof {
        lemma_count_all_true(n as nat);
        lemma_leaf_exists(as_ints(degree@), s, alive);
    }
    let mut leaf = next_leaf(&degree, 0);
    // Where the forward scan for leaves stands; `leaf` may step back below it.
    let mut index = leaf;
    proof {
        lemma_first_one(as_ints(degree@), 0);
    }
    let mut j: usize = 0;
    while j < sequence.len()
        invariant
            n == s.len() + 2,
            s == sequence@,
            j <= s.len(),
            degree@.len() == n,
            alive.len() == n,
            node_total(graph) == n,
            forall|j2: int| 0 <= j2 < s.len() ==> (#[trigger] s[j2]) < n,
            forall|v: int|
                0 <= v < n ==> #[trigger] degree@[v] == if alive[v] {
                    1 + occurrences(s.subrange(j as int, s.len() as int), v)
                } else {
                    0
                },
            forall|j2: int| j as int <= j2 < s.len() ==> #[trigger] alive[s[j2] as int],
            count_true(alive) == n - j,
            leaf == first_one(as_ints(degree@), 0),
            leaf < n,
            leaf <= index < n,
            leaf < index ==> as_ints(degree@)[index as int] == 0,
            forall|u: int| 0 <= u < index && u != leaf ==> #[trigger] as_ints(degree@)[u] != 1,
            edge_list(graph) + decode_steps(as_ints(degree@), s.subrange(j as int, s.len() as int))
                == prufer_tree_edges(s),
        decreases s.len() - j,
    {
        let v = sequence[j];
        let ghost d = as_ints(degree@);
        let ghost rest = s.subrange(j as int, s.len() as int);
        proof {
            lemma_first_one(d, 0);
            assert(rest[0] == v);
            assert(rest.drop_first() =~= s.subrange(j as int + 1, s.len() as int));
            lemma_occurrences_drop_first(rest, v as int);
            lemma_occurrences_drop_first(rest, leaf as int);
            assert(d[leaf as int] == 1);
            assert(alive[leaf as int]);
            assert(v != leaf);
            assert(degree@[v as int] >= 2);
        }
        graph_add_edge(&mut graph, leaf, v);
        degree.set(leaf, 0);
        degree.set(v, degree[v] - 1);
        let ghost d2 = as_ints(degree@);
        proof {
            assert(d2 =~= d.update(leaf as int, 0).update(v as int, d[v as int] - 1));
            let old_alive = alive;
            alive = alive.update(leaf as int, false);
            assert(old_alive =~= alive.update(leaf as int, true));
            lemma_count_set(alive, leaf as int);
            let rest2 = s.subrange(j as int + 1, s.len() as int);
            assert forall|u: int| 0 <= u < n implies #[trigger] degree@[u] == if alive[u] {
                1 + occurrences(rest2, u)
            } else {
                0
            } by {
                lemma_occurrences_drop_first(rest, u);
            }
            assert forall|j2: int| j as int + 1 <= j2 < s.len() implies #[trigger] alive[s[j2]
                as int] by {
                assert(old_alive[s[j2] as int]);
                if s[j2] == leaf {
                    assert(rest[j2 - j] == leaf);
                    lemma_occurrences_bound(rest, leaf as int);
                }
            }
            assert(decode_steps(d, rest) == seq![(leaf, v)] + decode_steps(d2, rest2));
            assert(edge_list(graph) == edge_list(graph).drop_last().push((leaf, v)));
            assert(edge_list(graph) + decode_steps(d2, rest2) =~= (edge_list(graph).drop_last()
                + decode_steps(d, rest)));
        }
        proof {
            lemma_first_one(d2, 0);
            let rest2 = s.subrange(j as int + 1, s.len() as int);
            assert forall|j2: int| 0 <= j2 < rest2.len() implies rest2[j2] < alive.len() && alive[
                rest2[j2] as int] by {
                assert(rest2[j2] == s[j + 1 + j2]);
            }
            lemma_unused_live_node(rest2, alive);
            let w = choose|w: int| 0 <= w < alive.len() && alive[w] && occurrences(rest2, w) == 0;
            assert(d2[w] == 1);
            lemma_first_one(d2, 0);
        }
        let (l2, i2) = next_pointers(&degree, leaf, index, v, Ghost(d));
        leaf = l2;
        index = i2;
        j += 1;
    }
    let ghost d = as_ints(degree@);
    proof {
        assert(s.subrange(s.len() as int, s.len() as int).len() == 0);
        lemma_first_one(d, 0);
        lemma_second_leaf(d, alive, leaf as int);
    }
    let second = next_leaf(&degree, leaf + 1);
    graph_add_edge(&mut graph, leaf, second);
    proof {
        let rest = s.subrange(s.len() as int, s.len() as int);
        assert(decode_steps(d, rest) == seq![(leaf, second)]);
    }
    graph
}

proof fn lemma_count_all_true(n: nat)
    ensures
        count_true(Seq::new(n, |v: int| true)) == n,
    decreases n,
{
    if n > 0 {
        assert(Seq::new(n, |v: int| true).drop_last() =~= Seq::new((n - 1) as nat, |v: int| true));
        lemma_count_all_true((n - 1) as nat);
    }
}

/// At the start of decoding some node has degree one.
proof fn lemma_leaf_exists(d: Seq<int>, s: Seq<usize>, alive: Seq<bool>)
    requires
        d == initial_degrees(s, (s.len() + 2) as nat),
        alive == Seq::new((s.len() + 2) as nat, |v: int| true),
        count_true(alive) == s.len() + 2,
        forall|j: int| 0 <= j < s.len() ==> (#[trigger] s[j]) < s.len() + 2,
    ensures
        first_one(d, 0) < d.len(),
{
    lemma_unused_live_node(s, alive);
    let w = choose|w: int| 0 <= w < alive.len() && alive[w] && occurrences(s, w) == 0;
    assert(d[w] == 1);
    lemma_first_one(d, 0);
}

/// With two live nodes, all of degree one, the second follows the first.
proof fn lemma_second_leaf(d: Seq<int>, alive: Seq<bool>, a: int)
    requires
        d.len() == alive.len(),
        count_true(alive) == 2,
        forall|v: int| 0 <= v < d.len() ==> d[v] == if alive[v] { 1int } else { 0int },
        a == first_one(d, 0),
        a < d.len(),
    ensures
        a < first_one(d, a + 1) < d.len(),
{
    lemma_first_one(d, 0);
    assert(alive[a]);
    let rest = alive.update(a, false);
    assert(alive =~= rest.update(a, true));
    lemma_count_set(rest, a);
    lemma_some_true(rest);
    let b = choose|b: int| 0 <= b < rest.len() && rest[b];
    assert(b != a && alive[b] && d[b] == 1);
    assert(b > a);
    lemma_first_one(d, a + 1);
}

proof fn lemma_some_true(s: Seq<bool>)
    requires
        count_true(s) > 0,
    ensures
        exists|b: int| 0 <= b < s.len() && s[b],
    decreases s.len(),
{
    if s.len() > 0 {
        if s.last() {
            assert(s[s.len() - 1]);
        } else {
            lemma_some_true(s.drop_last());
            let b = choose|b: int| 0 <= b < s.drop_last().len() && s.drop_last()[b];
            assert(s[b]);
        }
    }
}

/// Why a graph has no Prüfer sequence.
#[derive(Debug)]
pub enum PruferEncodeError {
    /// Fewer than two nodes.
    TooFewNodes { node_count: usize },
    /// Not `node_count - 1` edges.
    WrongEdgeCount { node_count: usize, expected: usize, actual: usize },
    /// Some node is not connected to node 0.
    Disconnected,
}

/// Encode a labeled tree as its Prüfer sequence.
///
/// The input must be a tree: an undirected, connected graph on nodes `0..n`
/// with exactly `n - 1` edges. Returns an error if any of these conditions
/// are violated, checked in that order; otherwise the sequence
/// [`prufer_sequence`] describes.
///
/// Runs in O(n) time using the "pointer" algorithm of Heinz Prüfer (1918): a
/// scan pointer only moves forward, and a neighbour that becomes a leaf below
/// it is taken at once.
pub fn prufer_encode(tree: &TreeGraph) -> (r: Result<Vec<usize>, PruferEncodeError>)
    ensures
        ({
            let n = node_total(*tree);
            let edges = edge_list(*tree);
            match r {
                Err(PruferEncodeError::TooFewNodes { node_count }) => n < 2 && node_count == n,
                Err(PruferEncodeError::WrongEdgeCount { node_count, expected, actual }) => {
                    &&& n >= 2
                    &&& edges.len() + 1 != n
                    &&& node_count == n
                    &&& expected == n - 1
                    &&& actual == edges.len()
                },
                Err(PruferEncodeError::Disconnected) => n >= 2 && edges.len() + 1 == n && !(forall|
                    v: int,
                | 0 <= v < n ==> connected_in(edges, 0, v)),
                Ok(sequence) => is_labelled_tree(edges, n) && sequence@ == prufer_sequence(edges, n),
            }
        }),
{
    let n = graph_node_count(tree);
    if n < 2 {
        return Err(PruferEncodeError::TooFewNodes { node_count: n });
    }
    let expected_edge_count = n - 1;
    let actual = graph_edge_count(tree);
    if actual != expected_edge_count {
        return Err(PruferEncodeError::WrongEdgeCount {
            node_count: n,
            expected: expected_edge_count,
            actual,
        });
    }
    // Check connectivity via DFS.

    let found = graph_discovered_from_first(tree);
    let count = found.len();
    let edges = graph_edge_endpoints(tree);
    let ghost e = edges@;
    proof {
        assert forall|j: int| 0 <= j < found@.len() implies found@[j] < n by {
            assert(found@.contains(found@[j]));
        }
        lemma_all_present(found@, n as nat);
    }
    if count != n {
        proof {
            let v = choose|v: usize| v < n && !#[trigger] found@.contains(v);
            assert(!connected_in(e, 0, v as int));
        }
        return Err(PruferEncodeError::Disconnected);
    }
    proof {
        assert forall|v: int| 0 <= v < n implies connected_in(e, 0, v) by {
            assert(found@.contains(v as usize));
        }
        assert(is_labelled_tree(e, n as nat));
    }
    if n == 2 {
        return Ok(Vec::new());
    }
    let mut degree: Vec<usize> = Vec::new();
    let mut k: usize = 0;
    while k < n
        invariant
            k <= n,
            degree@.len() == k,
            forall|v: int| 0 <= v < k ==> degree@[v] == 0,
        decreases n - k,
    {
        degree.push(0);
        k += 1;
    }
    let ghost all = all_true(e.len());
    let mut k: usize = 0;
    while k < edges.len()
        invariant
            e == edges@,
            e.len() + 1 == n,
            n <= isize::MAX,
            all == all_true(e.len()),
            k <= e.len(),
            degree@.len() == n,
            forall|j: int| 0 <= j < e.len() ==> (#[trigger] e[j]).0 < n && e[j].1 < n,
            forall|v: int| 0 <= v < n ==> degree@[v] == degree_upto(e, all, v, k as int),
            forall|v: int| 0 <= v < n ==> degree@[v] <= 2 * k,
        decreases e.len() - k,
    {
        let (a, b) = edges[k];
        proof {
            assert(e[k as int] == (a, b));
        }
        degree.set(a, degree[a] + 1);
        degree.set(b, degree[b] + 1);
        k += 1;
    }
    proof {
        assert(as_ints(degree@) =~= degrees(e, all, n as nat));
    }
    let mut sequence: Vec<usize> = Vec::with_capacity(n - 2);
    let ghost mut kept = all;
    let ghost mut alive = all_true(n as nat);
    proof {
        lemma_initial_tree(e, n as nat);
        crate::forest::lemma_count_all_true(n as nat);
        lemma_tree_has_leaf(e, kept, alive, n as nat);
    }
    // The smallest leaf, and where the forward scan for leaves stands.
    let mut leaf = next_leaf(&degree, 0);
    let mut index = leaf;
    proof {
        lemma_first_one(as_ints(degree@), 0);
    }
    let mut t: usize = 0;
    while t < n - 2
        invariant
            n == node_total(*tree),
            e == edge_list(*tree),
            e == edges@,
            e.len() + 1 == n,
            n >= 3,
            t <= n - 2,
            degree@.len() == n,
            live_tree(e, kept, alive, n as nat),
            count_true(alive) == n - t,
            as_ints(degree@) == degrees(e, kept, n as nat),
            leaf == first_one(as_ints(degree@), 0),
            leaf < n,
            alive[leaf as int],
            leaf <= index < n,
            leaf < index ==> as_ints(degree@)[index as int] == 0,
            forall|u: int| 0 <= u < index && u != leaf ==> #[trigger] as_ints(degree@)[u] != 1,
            sequence@ + prufer_steps(e, kept, n as nat, (n - 2 - t) as nat) == prufer_sequence(
                e,
                n as nat,
            ),
        decreases n - 2 - t,
    {
        let ghost d = as_ints(degree@);
        let ghost i = first_touching(e, kept, leaf as int, 0);
        let ghost p = far_end(e[i], leaf as int);
        proof {
            lemma_tree_has_leaf(e, kept, alive, n as nat);
            lemma_first_one(d, 0);
            assert(d[leaf as int] == 1);
            lemma_remove_leaf(e, kept, alive, n as nat, leaf as int);
        }
        // Find the neighbor of the current leaf.
        let neighbors = graph_neighbors(tree, leaf);
        proof {
            assert forall|j: int| 0 <= j < neighbors@.len() implies #[trigger] neighbors@[j] < n by {
                assert(neighbors@.contains(neighbors@[j]));
                assert(linked(e, leaf as int, neighbors@[j] as int));
            }
            assert(linked(e, leaf as int, p)) by {
                assert(e[i] == e[i]);
            }
            assert(neighbors@.contains(p as usize));
            crate::forest::lemma_degree_at_least(e, kept, p, i, e.len() as int);
        }
        let mut j: usize = 0;
        while j < neighbors.len() && degree[neighbors[j]] == 0
            invariant
                j <= neighbors@.len(),
                degree@.len() == n,
                forall|j2: int| 0 <= j2 < neighbors@.len() ==> #[trigger] neighbors@[j2] < n,
                forall|j2: int| 0 <= j2 < j ==> degree@[#[trigger] neighbors@[j2] as int] == 0,
            decreases neighbors@.len() - j,
        {
            j += 1;
        }
        proof {
            let jp = choose|jp: int| 0 <= jp < neighbors@.len() && neighbors@[jp] == p as usize;
            assert(d[p] == degree_of(e, kept, p) as int);
            assert(degree_of(e, kept, p) >= contribution(e[i], p));
            assert(d[p] == degree@[p] as int);
            assert(degree@[p] > 0);
            if j >= neighbors@.len() {
                assert(degree@[neighbors@[jp] as int] == 0);
            }
        }
        let neighbor = neighbors[j];
        proof {
            assert(neighbors@.contains(neighbor));
            assert(d[neighbor as int] == degree_of(e, kept, neighbor as int) as int);
            assert(d[neighbor as int] == degree@[neighbor as int] as int);
            lemma_leaf_neighbor(e, kept, alive, n as nat, leaf as int, neighbor as int);
            assert(neighbor == p);
        }
        sequence.push(neighbor);
        degree.set(leaf, 0);
        degree.set(neighbor, degree[neighbor] - 1);
        let ghost d2 = as_ints(degree@);
        proof {
            let kept2 = kept.update(i, false);
            assert(d2 =~= d.update(leaf as int, 0).update(p, d[p] - 1));
            assert forall|v: int| 0 <= v < n implies #[trigger] d2[v] == degrees(
                e,
                kept2,
                n as nat,
            )[v] by {
                lemma_degree_drop(e, kept, v, i, e.len() as int);
                assert(d[v] == degree_of(e, kept, v) as int);
                if v != leaf && v != p {
                    assert(contribution(e[i], v) == 0);
                }
            }
            assert(d2 =~= degrees(e, kept2, n as nat));
            let steps = prufer_steps(e, kept, n as nat, (n - 2 - t) as nat);
            assert(steps == seq![p as usize] + prufer_steps(
                e,
                kept2,
                n as nat,
                (n - 2 - t - 1) as nat,
            ));
            assert(sequence@ + prufer_steps(e, kept2, n as nat, (n - 2 - t - 1) as nat)
                =~= sequence@.drop_last() + steps);
            let alive2 = alive.update(leaf as int, false);
            assert(alive =~= alive2.update(leaf as int, true));
            crate::traversal::lemma_count_set(alive2, leaf as int);
            kept = kept2;
            alive = alive2;
        }
        // If the neighbour became a leaf below the scan pointer, it is the
        // smallest leaf; otherwise the scan goes on from where it stood.
        proof {
            lemma_tree_has_leaf(e, kept, alive, n as nat);
            assert(d[p] >= 1);
        }
        let (l2, i2) = next_pointers(&degree, leaf, index, neighbor, Ghost(d));
        leaf = l2;
        index = i2;
        proof {
            lemma_tree_has_leaf(e, kept, alive, n as nat);
        }
        t += 1;
    }
    proof {
        assert(sequence@ + prufer_steps(e, kept, n as nat, 0) =~= sequence@);
    }
    Ok(sequence)
}

#[verifier::external_type_specification]
#[verifier::external_body]
#[verifier::reject_recursive_types(T)]
pub struct ExBoxedStrategy<T>(proptest::strategy::BoxedStrategy<T>);

/// The trees the strategy `s` can yield, each as its number of nodes and
/// its edges: those it draws with positive probability under the
/// distribution proptest documents for it, and those it shrinks to.
pub uninterp spec fn yielded_trees(s: proptest::strategy::BoxedStrategy<TreeGraph>) -> Set<
    (nat, Seq<(usize, usize)>),
>;

/// The vectors the strategy `s` can yield: those it draws with positive
/// probability under the distribution proptest documents for it, and those
/// it shrinks to.
pub uninterp spec fn yielded_sequences(s: proptest::strategy::BoxedStrategy<Vec<usize>>) -> Set<
    Seq<usize>,
>;

/// The vectors of `len` entries below `n`.
pub open spec fn node_vectors(n: nat, len: nat) -> Set<Seq<usize>> {
    Set::new(|v: Seq<usize>| v.len() == len && forall|j: int| 0 <= j < v.len() ==> v[j] < n)
}

/// The trees, as node count and edges, that the vectors of `vs` code.
pub open spec fn decoded_trees(vs: Set<Seq<usize>>) -> Set<(nat, Seq<(usize, usize)>)> {
    Set::new(
        |t: (nat, Seq<(usize, usize)>)|
            exists|v: Seq<usize>|
                #[trigger] vs.contains(v) && t == ((v.len() + 2) as nat, prufer_tree_edges(v)),
    )
}

/// `proptest::strategy::Just`, boxed: the strategy that always yields a
/// clone of `g`, so the same nodes and edges.
#[verifier::external_body]
fn just_tree(g: TreeGraph) -> (r: proptest::strategy::BoxedStrategy<TreeGraph>)
    ensures
        yielded_trees(r) == set![(node_total(g), edge_list(g))],
{
    proptest::strategy::Strategy::boxed(proptest::strategy::Just(g))
}

/// `proptest::collection::vec(0..n, len)`, boxed: vectors of exactly `len`
/// entries, each drawn uniformly from `0..n`, so every such vector can come
/// (shrinking keeps the length and the entries within `0..n`).
#[verifier::external_body]
fn node_sequences(n: usize, len: usize) -> (r: proptest::strategy::BoxedStrategy<Vec<usize>>)
    requires
        n > 0,
    ensures
        yielded_sequences(r) == node_vectors(n as nat, len as nat),
{
    proptest::strategy::Strategy::boxed(proptest::collection::vec(0..n, len))
}

/// `Strategy::prop_map` with [`prufer_decode`], boxed: the trees it yields
/// are exactly the decodings of the vectors `sequences` yields, which must
/// all be sequences `prufer_decode` accepts.
#[verifier::external_body]
fn decode_each(sequences: proptest::strategy::BoxedStrategy<Vec<usize>>) -> (r:
    proptest::strategy::BoxedStrategy<TreeGraph>)
    requires
        forall|v: Seq<usize>|
            #[trigger] yielded_sequences(sequences).contains(v) ==> v.len() + 2 <= usize::MAX
                && forall|j: int| 0 <= j < v.len() ==> v[j] < v.len() + 2,
    ensures
        yielded_trees(r) == decoded_trees(yielded_sequences(sequences)),
{
    proptest::strategy::Strategy::boxed(
        proptest::strategy::Strategy::prop_map(sequences, |seq: Vec<usize>| prufer_decode(&seq)),
    )
}

/// A strategy for labelled trees on `n` nodes: with at most one node the
/// graph on `n` nodes without edges; otherwise the decoding of a Prüfer
/// sequence of `n - 2` nodes below `n`, each equally likely.  With two or
/// more nodes it yields exactly the trees those sequences code, and so
/// every labelled tree on `n` nodes (as the pairs of nodes its edges join).
pub fn arbitrary_tree(n: usize) -> (r: proptest::strategy::BoxedStrategy<TreeGraph>)
    ensures
        n <= 1 ==> yielded_trees(r) == set![(n as nat, Seq::<(usize, usize)>::empty())],
        n >= 2 ==> yielded_trees(r) == decoded_trees(node_vectors(n as nat, (n - 2) as nat)),
        n >= 2 ==> forall|t: (nat, Seq<(usize, usize)>)|
            #[trigger] yielded_trees(r).contains(t) ==> is_labelled_tree(t.1, n as nat),
        n >= 2 ==> forall|edges: Seq<(usize, usize)>|
            #[trigger] is_labelled_tree(edges, n as nat) && endpoints_below(edges, n as nat)
                ==> exists|t: (nat, Seq<(usize, usize)>)|
                #[trigger] yielded_trees(r).contains(t) && t.1.len() == edges.len() && forall|
                    a: int,
                    b: int,
                | linked(t.1, a, b) <==> linked(edges, a, b),
{
    if n <= 1 {
        let mut g = graph_default();
        let mut i: usize = 0;
        while i < n
            invariant
                i <= n,
                node_total(g) == i,
                edge_list(g) == Seq::<(usize, usize)>::empty(),
            decreases n - i,
        {
            graph_add_node(&mut g);
            i += 1;
        }
        just_tree(g)
    } else {
        let sequences = node_sequences(n, n - 2);
        let r = decode_each(sequences);
        proof {
            let vs = node_vectors(n as nat, (n - 2) as nat);
            assert(yielded_trees(r) == decoded_trees(vs));
            assert forall|t: (nat, Seq<(usize, usize)>)|
                #[trigger] yielded_trees(r).contains(t) implies is_labelled_tree(t.1, n as nat) by {
                let v = choose|v: Seq<usize>|
                    #[trigger] vs.contains(v) && t == ((v.len() + 2) as nat, prufer_tree_edges(v));
                lemma_decode_then_encode(v);
            }
            assert forall|edges: Seq<(usize, usize)>|
                #[trigger] is_labelled_tree(edges, n as nat) && endpoints_below(edges, n as nat)
                    implies exists|t: (nat, Seq<(usize, usize)>)|
                #[trigger] yielded_trees(r).contains(t) && t.1.len() == edges.len() && forall|
                    a: int,
                    b: int,
                | linked(t.1, a, b) <==> linked(edges, a, b) by {
                lemma_encode_then_decode(edges, n as nat);
                let s = prufer_sequence(edges, n as nat);
                assert(vs.contains(s));
                let t = (n as nat, prufer_tree_edges(s));
                assert(decoded_trees(vs).contains(t));
            }
        }
        r
    }
}

} // verus!
