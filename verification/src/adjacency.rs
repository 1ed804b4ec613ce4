use vstd::prelude::*;

verus! {

/// A point on the clock of a depth-first search: the number of nodes
/// discovered before it.
#[derive(Clone, Copy, Debug, PartialEq, Eq, Structural, Hash)]
pub struct Time(pub usize);

/// What a visitor answers to an event of a search.
///
/// `Continue` goes on; `Prune` skips what the event would lead into (the
/// edges of a node just discovered, or the node a tree edge reaches);
/// `Break` stops the search at once, which then returns that value.
#[derive(Clone, Copy, Debug)]
pub enum Control<B> {
    Continue,
    Prune,
    Break(B),
}

impl<B> Control<B> {
    /// The value carried by `Break`, if this is one.
    pub fn break_value(self) -> (r: Option<B>)
        ensures
            r == (match self {
                Control::Break(b) => Some(b),
                _ => None,
            }),
    {
        match self {
            Control::Break(b) => Some(b),
            _ => None,
        }
    }

    /// Whether this answer stops the search.
    pub fn should_break(&self) -> (r: bool)
        ensures
            r == (*self is Break),
    {
        match self {
            Control::Break(_) => true,
            _ => false,
        }
    }

    /// Whether this answer prunes what the event leads into.
    pub fn should_prune(&self) -> (r: bool)
        ensures
            r == (*self is Prune),
    {
        match self {
            Control::Prune => true,
            _ => false,
        }
    }
}

/// An incident edge as a search reads it: `(source, target, weight)`.
pub type EdgeRef<W> = (usize, usize, W);

/// The endpoint of `e` that is not `u` (the target when `u` is the source).
pub open spec fn other_end<W>(u: int, e: EdgeRef<W>) -> int {
    if e.0 == u {
        e.1 as int
    } else {
        e.0 as int
    }
}

/// Every endpoint of every listed edge is a node of the graph.
pub open spec fn graph_wf<W>(g: Seq<Seq<EdgeRef<W>>>) -> bool {
    forall|u: int, k: int|
        0 <= u < g.len() && 0 <= k < g[u].len() ==> (#[trigger] g[u][k]).0 < g.len() && g[u][k].1
            < g.len()
}

/// `b` is reached from `a` over one of the edges listed at `a`.
pub open spec fn adjacent<W>(g: Seq<Seq<EdgeRef<W>>>, a: int, b: int) -> bool {
    exists|k: int| 0 <= k < g[a].len() && other_end(a, #[trigger] g[a][k]) == b
}

/// `p` is a non-empty walk: each node is adjacent to the one before it.
pub open spec fn is_walk<W>(g: Seq<Seq<EdgeRef<W>>>, p: Seq<int>) -> bool {
    &&& p.len() > 0
    &&& forall|i: int| 0 <= i < p.len() - 1 ==> #[trigger] adjacent(g, p[i], p[i + 1])
}

/// Some walk leads from one of `starts` to `v`.
pub open spec fn reachable_from<W>(g: Seq<Seq<EdgeRef<W>>>, starts: Seq<usize>, v: int) -> bool {
    exists|p: Seq<int>, j: int|
        #![trigger is_walk(g, p), starts[j]]
        is_walk(g, p) && 0 <= j < starts.len() && starts[j] == p[0] && p.last() == v
}

/// One more than the largest endpoint in `edges` (0 when there is none): the
/// number of nodes a graph built from `edges` alone has.
pub open spec fn node_bound<W>(edges: Seq<EdgeRef<W>>) -> nat
    decreases edges.len(),
{
    if edges.len() == 0 {
        0
    } else {
        let rest = node_bound(edges.drop_last());
        let e = edges.last();
        let m = if e.0 >= e.1 { e.0 + 1 } else { e.1 + 1 };
        if rest >= m { rest } else { m as nat }
    }
}

/// The edges of `edges` leaving `u`, in the given order.
pub open spec fn directed_list<W>(edges: Seq<EdgeRef<W>>, u: int) -> Seq<EdgeRef<W>> {
    edges.filter(|e: EdgeRef<W>| e.0 == u)
}

/// The edges of `edges` with `u` as an endpoint, in the given order.
pub open spec fn undirected_list<W>(edges: Seq<EdgeRef<W>>, u: int) -> Seq<EdgeRef<W>> {
    edges.filter(|e: EdgeRef<W>| e.0 == u || e.1 == u)
}

/// The edges of `list` that lead from `a` to `b`.
pub open spec fn leading_to<W>(list: Seq<EdgeRef<W>>, a: int, b: int) -> Seq<EdgeRef<W>> {
    list.filter(|e: EdgeRef<W>| other_end(a, e) == b)
}

proof fn lemma_leading_to_push<W>(list: Seq<EdgeRef<W>>, x: EdgeRef<W>, a: int, b: int)
    ensures
        leading_to(list.push(x), a, b).len() == leading_to(list, a, b).len() + if other_end(a, x)
            == b {
            1int
        } else {
            0int
        },
{
    reveal_with_fuel(Seq::<_>::filter, 1);
    assert(list.push(x).drop_last() =~= list);
}

/// Some edge of `list` leads from `a` to `b` exactly when one is counted.
proof fn lemma_leading_to_some<W>(list: Seq<EdgeRef<W>>, a: int, b: int)
    ensures
        leading_to(list, a, b).len() > 0 <==> exists|k: int|
            0 <= k < list.len() && other_end(a, #[trigger] list[k]) == b,
    decreases list.len(),
{
    if list.len() > 0 {
        let s = list.drop_last();
        let x = list.last();
        lemma_leading_to_some(s, a, b);
        assert(s.push(x) =~= list);
        lemma_leading_to_push(s, x, a, b);
        if exists|k: int| 0 <= k < s.len() && other_end(a, #[trigger] s[k]) == b {
            let k = choose|k: int| 0 <= k < s.len() && other_end(a, #[trigger] s[k]) == b;
            assert(list[k] == s[k]);
        }
        if exists|k: int| 0 <= k < list.len() && other_end(a, #[trigger] list[k]) == b {
            let k = choose|k: int| 0 <= k < list.len() && other_end(a, #[trigger] list[k]) == b;
            if k < s.len() {
                assert(s[k] == list[k]);
            }
        }
        if other_end(a, x) == b {
            assert(list[list.len() - 1] == x);
        }
    }
}

proof fn lemma_undirected_list_push<W>(s: Seq<EdgeRef<W>>, x: EdgeRef<W>, u: int)
    ensures
        undirected_list(s.push(x), u) == if x.0 == u || x.1 == u {
            undirected_list(s, u).push(x)
        } else {
            undirected_list(s, u)
        },
{
    reveal_with_fuel(Seq::<_>::filter, 1);
    assert(s.push(x).drop_last() =~= s);
}

/// Undirected edges join two nodes both ways equally often: of the edges
/// listed at `a`, as many lead to `b` as edges listed at `b` lead to `a`.
pub proof fn lemma_undirected_symmetric<W>(edges: Seq<EdgeRef<W>>, a: int, b: int)
    ensures
        leading_to(undirected_list(edges, a), a, b).len() == leading_to(
            undirected_list(edges, b),
            b,
            a,
        ).len(),
    decreases edges.len(),
{
    if edges.len() > 0 && a != b {
        let s = edges.drop_last();
        let x = edges.last();
        lemma_undirected_symmetric(s, a, b);
        assert(s.push(x) =~= edges);
        lemma_undirected_list_push(s, x, a);
        lemma_undirected_list_push(s, x, b);
        lemma_leading_to_push(undirected_list(s, a), x, a, b);
        lemma_leading_to_push(undirected_list(s, b), x, b, a);
    }
}

/// Every two nodes are joined as often one way as the other: of the edges
/// listed at `a`, as many lead to `b` as edges listed at `b` lead to `a`.
/// Undirected graphs are so, whatever order their lists take.
pub open spec fn two_way<W>(g: Seq<Seq<EdgeRef<W>>>) -> bool {
    forall|a: int, b: int|
        0 <= a < g.len() && 0 <= b < g.len() ==> #[trigger] leading_to(g[a], a, b).len()
            == leading_to(g[b], b, a).len()
}

/// A graph whose lists are those of undirected `edges` joins every two
/// nodes both ways equally often.
pub proof fn lemma_undirected_two_way<W>(g: Seq<Seq<EdgeRef<W>>>, edges: Seq<EdgeRef<W>>)
    requires
        forall|u: int| 0 <= u < g.len() ==> #[trigger] g[u] == undirected_list(edges, u),
    ensures
        two_way(g),
{
    assert forall|a: int, b: int| 0 <= a < g.len() && 0 <= b < g.len() implies #[trigger] leading_to(
        g[a],
        a,
        b,
    ).len() == leading_to(g[b], b, a).len() by {
        assert(g[a] == undirected_list(edges, a));
        assert(g[b] == undirected_list(edges, b));
        lemma_undirected_symmetric(edges, a, b);
    }
}

/// In a graph that joins every two nodes both ways equally often, an edge
/// listed at `a` that leads to `b` has a partner listed at `b` that leads
/// back to `a`.
pub proof fn lemma_two_way_adjacent<W>(g: Seq<Seq<EdgeRef<W>>>, a: int, b: int)
    requires
        two_way(g),
        0 <= a < g.len(),
        0 <= b < g.len(),
        adjacent(g, a, b),
    ensures
        adjacent(g, b, a),
{
    assert(leading_to(g[a], a, b).len() == leading_to(g[b], b, a).len());
    lemma_leading_to_some(g[a], a, b);
    lemma_leading_to_some(g[b], b, a);
    let k = choose|k: int| 0 <= k < g[b].len() && other_end(b, #[trigger] g[b][k]) == a;
    assert(other_end(b, g[b][k]) == a);
}

/// A graph on nodes `0..n`, stored as the list of edges incident to each node
/// in the order in which a search examines them.
///
/// A directed edge `a -> b` is listed at `a`; an undirected edge `{a, b}` is
/// listed at both endpoints (once when `a == b`).
pub struct AdjacencyGraph<W> {
    incident: Vec<Vec<EdgeRef<W>>>,
}

impl<W> View for AdjacencyGraph<W> {
    type V = Seq<Seq<EdgeRef<W>>>;

    closed spec fn view(&self) -> Seq<Seq<EdgeRef<W>>> {
        self.incident@.map_values(|l: Vec<EdgeRef<W>>| l@)
    }
}

impl<W> AdjacencyGraph<W> {
    #[verifier::type_invariant]
    closed spec fn inv(&self) -> bool {
        graph_wf(self@)
    }
}

impl<W: Copy> AdjacencyGraph<W> {
    /// A graph on `n` nodes without edges.
    pub fn with_nodes(n: usize) -> (g: Self)
        ensures
            g@.len() == n,
            forall|u: int| 0 <= u < n ==> (#[trigger] g@[u]).len() == 0,
    {
        let mut incident: Vec<Vec<EdgeRef<W>>> = Vec::new();
        let mut i: usize = 0;
        while i < n
            invariant
                i <= n,
                incident@.len() == i,
                forall|u: int| 0 <= u < i ==> (#[trigger] incident@[u])@.len() == 0,
            decreases n - i,
        {
            incident.push(Vec::new());
            i += 1;
        }
        let g = AdjacencyGraph { incident };
        assert(g@.len() == n);
        g
    }

    /// The number of nodes.
    pub fn node_count(&self) -> (r: usize)
        ensures
            r == self@.len(),
            graph_wf(self@),
    {
        proof {
            use_type_invariant(self);
        }
        self.incident.len()
    }

    /// The edges incident to `u`, in examination order.
    pub fn incident_edges(&self, u: usize) -> (r: &Vec<EdgeRef<W>>)
        requires
            u < self@.len(),
        ensures
            r@ == self@[u as int],
            graph_wf(self@),
    {
        proof {
            use_type_invariant(self);
        }
        &self.incident[u]
    }

    /// Adds the directed edge `a -> b`: it is listed last at `a`.
    pub fn add_directed_edge(&mut self, a: usize, b: usize, weight: W)
        requires
            a < old(self)@.len(),
            b < old(self)@.len(),
        ensures
            final(self)@ == old(self)@.update(a as int, old(self)@[a as int].push((a, b, weight))),
    {
        proof {
            use_type_invariant(&*self);
        }
        let mut incident: Vec<Vec<EdgeRef<W>>> = Vec::new();
        std::mem::swap(&mut incident, &mut self.incident);
        incident[a].push((a, b, weight));
        proof {
            let g = incident@.map_values(|l: Vec<EdgeRef<W>>| l@);
            assert(g =~= old(self)@.update(a as int, old(self)@[a as int].push((a, b, weight))));
        }
        self.incident = incident;
    }

    /// Lists the edge `(a, b, weight)` last at `u`, whichever of its
    /// endpoints `u` is (a graph may list an edge at a node it does not touch;
    /// a search then reaches its source from `u`).
    pub fn push_incident(&mut self, u: usize, a: usize, b: usize, weight: W)
        requires
            u < old(self)@.len(),
            a < old(self)@.len(),
            b < old(self)@.len(),
        ensures
            final(self)@ == old(self)@.update(u as int, old(self)@[u as int].push((a, b, weight))),
    {
        proof {
            use_type_invariant(&*self);
        }
        let mut incident: Vec<Vec<EdgeRef<W>>> = Vec::new();
        std::mem::swap(&mut incident, &mut self.incident);
        incident[u].push((a, b, weight));
        proof {
            let g = incident@.map_values(|l: Vec<EdgeRef<W>>| l@);
            assert(g =~= old(self)@.update(u as int, old(self)@[u as int].push((a, b, weight))));
        }
        self.incident = incident;
    }

    /// Adds the undirected edge `{a, b}`: it is listed last at `a` and, when
    /// `b != a`, last at `b`.
    pub fn add_undirected_edge(&mut self, a: usize, b: usize, weight: W)
        requires
            a < old(self)@.len(),
            b < old(self)@.len(),
        ensures
            a == b ==> final(self)@ == old(self)@.update(
                a as int,
                old(self)@[a as int].push((a, b, weight)),
            ),
            a != b ==> final(self)@ == old(self)@.update(
                a as int,
                old(self)@[a as int].push((a, b, weight)),
            ).update(b as int, old(self)@[b as int].push((a, b, weight))),
    {
        self.add_directed_edge(a, b, weight);
        if a != b {
            let ghost mid = self@;
            proof {
                use_type_invariant(&*self);
                assert(self.incident@.len() == mid.len());
            }
            let mut incident: Vec<Vec<EdgeRef<W>>> = Vec::new();
            std::mem::swap(&mut incident, &mut self.incident);
            incident[b].push((a, b, weight));
            proof {
                let g = incident@.map_values(|l: Vec<EdgeRef<W>>| l@);
                assert(g =~= mid.update(b as int, mid[b as int].push((a, b, weight))));
            }
            self.incident = incident;
        }
    }

    /// The directed graph with the given edges, on nodes `0..m` where `m` is
    /// one more than the largest endpoint; each node lists its outgoing edges
    /// in the order given.
    pub fn from_directed_edges(edges: &[EdgeRef<W>]) -> (g: Self)
        requires
            forall|i: int| 0 <= i < edges@.len() ==> (#[trigger] edges@[i]).0 < usize::MAX
                && edges@[i].1 < usize::MAX,
        ensures
            g@.len() == node_bound(edges@),
            forall|u: int| 0 <= u < g@.len() ==> #[trigger] g@[u] == directed_list(edges@, u),
    {
        let n = Self::bound_of(edges);
        let mut g = Self::with_nodes(n);
        let mut i: usize = 0;
        while i < edges.len()
            invariant
                i <= edges@.len(),
                n == node_bound(edges@),
                g@.len() == n,
                forall|j: int| 0 <= j < edges@.len() ==> (#[trigger] edges@[j]).0 < n && edges@[j].1 < n,
                forall|u: int| 0 <= u < n ==> #[trigger] g@[u] == directed_list(edges@.take(i as int), u),
            decreases edges@.len() - i,
        {
            let e = edges[i];
            let ghost old_g = g@;
            g.add_directed_edge(e.0, e.1, e.2);
            proof {
                assert(edges@.take(i as int + 1).drop_last() =~= edges@.take(i as int));
                assert forall|u: int| 0 <= u < n implies #[trigger] g@[u] == directed_list(
                    edges@.take(i as int + 1),
                    u,
                ) by {
                    reveal_with_fuel(Seq::<_>::filter, 1);
                    assert(edges@.take(i as int + 1).last() == e);
                }
            }
            i += 1;
        }
        proof {
            assert(edges@.take(edges@.len() as int) =~= edges@);
        }
        g
    }

    /// The undirected graph with the given edges, on nodes `0..m` where `m` is
    /// one more than the largest endpoint; each node lists the edges it is an
    /// endpoint of in the order given.
    pub fn from_undirected_edges(edges: &[EdgeRef<W>]) -> (g: Self)
        requires
            forall|i: int| 0 <= i < edges@.len() ==> (#[trigger] edges@[i]).0 < usize::MAX
                && edges@[i].1 < usize::MAX,
        ensures
            g@.len() == node_bound(edges@),
            forall|u: int| 0 <= u < g@.len() ==> #[trigger] g@[u] == undirected_list(edges@, u),
            two_way(g@),
    {
        let n = Self::bound_of(edges);
        let mut g = Self::with_nodes(n);
        let mut i: usize = 0;
        while i < edges.len()
            invariant
                i <= edges@.len(),
                n == node_bound(edges@),
                g@.len() == n,
                forall|j: int| 0 <= j < edges@.len() ==> (#[trigger] edges@[j]).0 < n && edges@[j].1 < n,
                forall|u: int| 0 <= u < n ==> #[trigger] g@[u] == undirected_list(edges@.take(i as int), u),
            decreases edges@.len() - i,
        {
            let e = edges[i];
            g.add_undirected_edge(e.0, e.1, e.2);
            proof {
                assert(edges@.take(i as int + 1).drop_last() =~= edges@.take(i as int));
                assert forall|u: int| 0 <= u < n implies #[trigger] g@[u] == undirected_list(
                    edges@.take(i as int + 1),
                    u,
                ) by {
                    reveal_with_fuel(Seq::<_>::filter, 1);
                    assert(edges@.take(i as int + 1).last() == e);
                }
            }
            i += 1;
        }
        proof {
            assert(edges@.take(edges@.len() as int) =~= edges@);
            lemma_undirected_two_way(g@, edges@);
        }
        g
    }

    /// `node_bound` of the given edges, with every endpoint below it.
    fn bound_of(edges: &[EdgeRef<W>]) -> (n: usize)
        requires
            forall|i: int| 0 <= i < edges@.len() ==> (#[trigger] edges@[i]).0 < usize::MAX
                && edges@[i].1 < usize::MAX,
        ensures
            n == node_bound(edges@),
            forall|j: int| 0 <= j < edges@.len() ==> (#[trigger] edges@[j]).0 < n && edges@[j].1 < n,
    {
        let mut n: usize = 0;
        let mut i: usize = 0;
        while i < edges.len()
            invariant
                i <= edges@.len(),
                n == node_bound(edges@.take(i as int)),
                forall|j: int| 0 <= j < i ==> (#[trigger] edges@[j]).0 < n && edges@[j].1 < n,
                forall|j: int| 0 <= j < edges@.len() ==> (#[trigger] edges@[j]).0 < usize::MAX
                    && edges@[j].1 < usize::MAX,
            decreases edges@.len() - i,
        {
            let e = edges[i];
            let m = if e.0 >= e.1 { e.0 + 1 } else { e.1 + 1 };
            proof {
                assert(edges@.take(i as int + 1).drop_last() =~= edges@.take(i as int));
                assert(edges@.take(i as int + 1).last() == e);
            }
            if n < m {
                n = m;
            }
            i += 1;
        }
        proof {
            assert(edges@.take(edges@.len() as int) =~= edges@);
        }
        n
    }
}

} // verus!
