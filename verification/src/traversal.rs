use vstd::prelude::*;

use crate::adjacency::{
    adjacent, graph_wf, is_walk, lemma_two_way_adjacent, leading_to, other_end, reachable_from,
    two_way, AdjacencyGraph, Control, EdgeRef, Time,
};
use crate::graph::DfsEvent;

verus! {

/// The number of `true` entries.
pub open spec fn count_true(s: Seq<bool>) -> nat
    decreases s.len(),
{
    if s.len() == 0 {
        0
    } else {
        count_true(s.drop_last()) + if s.last() {
            1nat
        } else {
            0nat
        }
    }
}

pub proof fn lemma_count_bound(s: Seq<bool>)
    ensures
        count_true(s) <= s.len(),
    decreases s.len(),
{
    if s.len() > 0 {
        lemma_count_bound(s.drop_last());
    }
}

pub proof fn lemma_count_set(s: Seq<bool>, i: int)
    requires
        0 <= i < s.len(),
        !s[i],
    ensures
        count_true(s.update(i, true)) == count_true(s) + 1,
        count_true(s) < s.len(),
    decreases s.len(),
{
    let t = s.update(i, true);
    if i == s.len() - 1 {
        assert(t.drop_last() =~= s.drop_last());
        lemma_count_bound(s.drop_last());
    } else {
        assert(t.drop_last() =~= s.drop_last().update(i, true));
        lemma_count_set(s.drop_last(), i);
    }
}

/// Reads the clock and advances it by one.
fn time_post_inc(time: &mut usize) -> (t: usize)
    requires
        *old(time) < usize::MAX,
    ensures
        t == *old(time),
        *final(time) == t + 1,
{
    let t = *time;
    *time = t + 1;
    t
}

/// A node on the search path: its edges examined so far, and whether its
/// edges are skipped.
#[derive(Clone, Copy)]
struct Frame {
    node: usize,
    cursor: usize,
    pruned: bool,
}

/// What the search waits for before its next event.
#[derive(Clone, Copy)]
enum Awaiting {
    /// Nothing: the next event can be produced.
    Nothing,
    /// The answer to the `Discover` event of the node on top of the path.
    Discovery,
    /// The answer to a `TreeEdge` event towards this node.
    TreeEdge(usize),
    /// The tree edge towards this node was followed: it is discovered next.
    Enter(usize),
}

/// A depth-first search in progress, driven one event at a time.
///
/// [`advance`](DfsTraversal::advance) produces the next event;
/// after a `Discover` or `TreeEdge` event, [`reply`](DfsTraversal::reply)
/// says whether the visitor pruned it.  A visitor that stops simply stops
/// calling `advance`.
pub struct DfsTraversal<'a, W> {
    graph: &'a AdjacencyGraph<W>,
    starts: Vec<usize>,
    next_start: usize,
    time: usize,
    discovered: Vec<bool>,
    finished: Vec<bool>,
    discover_time: Vec<usize>,
    finish_time: Ghost<Seq<nat>>,
    stack: Vec<Frame>,
    awaiting: Awaiting,
    pruned_any: Ghost<bool>,
    parent: Ghost<Seq<int>>,
    ancestors: Ghost<Seq<Set<int>>>,
    reported: Ghost<Seq<nat>>,
    log: Ghost<Seq<Seq<DfsEvent<usize, W>>>>,
}

impl<'a, W> DfsTraversal<'a, W> {
    /// The graph being searched.
    pub closed spec fn graph_view(&self) -> Seq<Seq<EdgeRef<W>>> {
        self.graph@
    }

    /// The start nodes, in order.
    pub closed spec fn starts_view(&self) -> Seq<usize> {
        self.starts@
    }

    /// How many start nodes have been taken up.
    pub closed spec fn starts_taken(&self) -> nat {
        self.next_start as nat
    }

    /// The clock: the number of nodes discovered so far.
    pub closed spec fn clock(&self) -> nat {
        self.time as nat
    }

    /// For each node, whether it has been discovered.
    pub closed spec fn discovered_flags(&self) -> Seq<bool> {
        self.discovered@
    }

    /// For each node, whether it has been finished.
    pub closed spec fn finished_flags(&self) -> Seq<bool> {
        self.finished@
    }

    /// For each discovered node, the time of its `Discover` event.
    pub closed spec fn discover_times(&self) -> Seq<usize> {
        self.discover_time@
    }

    /// For each finished node, the time of its `Finish` event.
    pub closed spec fn finish_times(&self) -> Seq<nat> {
        self.finish_time@
    }

    /// The current search path, from its root to the node whose edges are
    /// being examined.
    pub closed spec fn path(&self) -> Seq<usize> {
        self.stack@.map_values(|f: Frame| f.node)
    }

    /// For each node of the path, how many of its edges have been examined.
    pub closed spec fn examined(&self) -> Seq<nat> {
        self.stack@.map_values(|f: Frame| f.cursor as nat)
    }

    /// For each node of the path, whether its edges are skipped.
    pub closed spec fn skipped(&self) -> Seq<bool> {
        self.stack@.map_values(|f: Frame| f.pruned)
    }

    /// The last event was a `Discover` that has not been answered yet.
    pub closed spec fn awaiting_discovery_reply(&self) -> bool {
        self.awaiting is Discovery
    }

    /// The last event was a `TreeEdge` to this node that has not been
    /// answered yet.
    pub closed spec fn awaiting_tree_edge_reply(&self) -> Option<usize> {
        match self.awaiting {
            Awaiting::TreeEdge(v) => Some(v),
            _ => None,
        }
    }

    /// A followed tree edge leads to this node, which the next event discovers.
    pub closed spec fn entering(&self) -> Option<usize> {
        match self.awaiting {
            Awaiting::Enter(v) => Some(v),
            _ => None,
        }
    }

    /// Some event has been pruned so far.
    pub closed spec fn pruned_any(&self) -> bool {
        self.pruned_any@
    }

    closed spec fn sizes_ok(&self) -> bool {
        let n = self.graph@.len();
        &&& graph_wf(self.graph@)
        &&& self.discovered@.len() == n
        &&& self.finished@.len() == n
        &&& self.discover_time@.len() == n
        &&& self.finish_time@.len() == n
        &&& self.next_start <= self.starts@.len()
        &&& forall|i: int| 0 <= i < self.starts@.len() ==> (#[trigger] self.starts@[i]) < n
    }

    closed spec fn clock_ok(&self) -> bool {
        let n = self.graph@.len();
        &&& self.time == count_true(self.discovered@)
        &&& forall|v: int| 0 <= v < n && #[trigger] self.finished@[v] ==> self.discovered@[v]
        &&& forall|v: int|
            0 <= v < n && #[trigger] self.discovered@[v] ==> self.discover_time@[v] < self.time
        &&& forall|v: int|
            0 <= v < n && #[trigger] self.finished@[v] ==> self.discover_time@[v]
                < self.finish_time@[v] <= self.time
        &&& forall|u: int, v: int|
            0 <= u < n && 0 <= v < n && #[trigger] self.discovered@[u] && #[trigger] self.discovered@[v]
                && self.discover_time@[u] == self.discover_time@[v] ==> u == v
    }

    closed spec fn nesting_ok(&self) -> bool {
        let n = self.graph@.len();
        forall|u: int, v: int|
            0 <= u < n && 0 <= v < n && #[trigger] self.discovered@[u] && #[trigger] self.discovered@[v]
                && self.discover_time@[u] < self.discover_time@[v] && self.finished@[u] ==> (
            self.finish_time@[u] <= self.discover_time@[v] || (self.finished@[v]
                && self.finish_time@[v] <= self.finish_time@[u]))
    }

    closed spec fn stack_ok(&self) -> bool {
        let n = self.graph@.len();
        &&& forall|i: int|
            0 <= i < self.stack@.len() ==> {
                let f = #[trigger] self.stack@[i];
                &&& f.node < n
                &&& self.discovered@[f.node as int]
                &&& !self.finished@[f.node as int]
                &&& f.cursor <= self.graph@[f.node as int].len()
                &&& f.pruned ==> f.cursor == 0
            }
        &&& forall|i: int, j: int|
            0 <= i < j < self.stack@.len() ==> self.discover_time@[(#[trigger] self.stack@[i]).node as int]
                < self.discover_time@[(#[trigger] self.stack@[j]).node as int]
        &&& forall|v: int|
            0 <= v < n && #[trigger] self.discovered@[v] && !self.finished@[v] ==> exists|i: int|
                0 <= i < self.stack@.len() && (#[trigger] self.stack@[i]).node == v
    }

    closed spec fn awaiting_ok(&self) -> bool {
        let n = self.graph@.len();
        let top = self.stack@.last();
        match self.awaiting {
            Awaiting::Nothing => true,
            Awaiting::Discovery => self.stack@.len() > 0 && top.cursor == 0 && !top.pruned,
            Awaiting::TreeEdge(v) | Awaiting::Enter(v) => {
                &&& self.stack@.len() > 0
                &&& v < n
                &&& !self.discovered@[v as int]
                &&& !top.pruned
                &&& top.cursor > 0
                &&& other_end(top.node as int, self.graph@[top.node as int][top.cursor - 1]) == v
            },
        }
    }

    closed spec fn starts_ok(&self) -> bool {
        forall|i: int| 0 <= i < self.next_start ==> self.discovered@[#[trigger] self.starts@[i] as int]
    }

    closed spec fn closure_ok(&self) -> bool {
        let n = self.graph@.len();
        let g = self.graph@;
        !self.pruned_any@ ==> {
            &&& forall|i: int| 0 <= i < self.stack@.len() ==> !(#[trigger] self.stack@[i]).pruned
            &&& forall|u: int, k: int|
                0 <= u < n && self.finished@[u] && 0 <= k < self.graph@[u].len()
                    ==> self.discovered@[other_end(u, #[trigger] self.graph@[u][k])]
            &&& forall|i: int, k: int|
                #![trigger self.graph@[self.stack@[i].node as int][k]]
                0 <= i < self.stack@.len() && 0 <= k < self.stack@[i].cursor ==> (
                self.discovered@[other_end(self.stack@[i].node as int, self.graph@[self.stack@[i].node as int][k])]
                    || ((self.awaiting is TreeEdge || self.awaiting is Enter) && i
                    == self.stack@.len() - 1 && k == self.stack@[i].cursor - 1))
        }
    }

    /// The nodes on the path.
    closed spec fn path_set(&self) -> Set<int> {
        Set::new(|w: int| exists|j: int| 0 <= j < self.stack@.len() && self.stack@[j].node == w)
    }

    #[verifier::opaque]
    closed spec fn ancestry_ok(&self) -> bool {
        let n = self.graph@.len();
        &&& self.parent@.len() == n
        &&& self.ancestors@.len() == n
        &&& forall|v: int, w: int|
            0 <= v < n && self.discovered@[v] && #[trigger] self.ancestors@[v].contains(w) ==> 0 <= w
                < n && self.discovered@[w]
        &&& forall|u: int, v: int|
            0 <= u < n && 0 <= v < n && #[trigger] self.discovered@[u] && #[trigger] self.discovered@[v]
                ==> (self.ancestors@[v].contains(u) <==> (self.discover_time@[u]
                < self.discover_time@[v] && (!self.finished@[u] || self.discover_time@[v]
                < self.finish_time@[u])))
        &&& forall|i: int, w: int|
            0 <= i < self.stack@.len() ==> (#[trigger] self.ancestors@[self.stack@[i].node as int].contains(
                w,
            ) <==> exists|j: int| 0 <= j < i && self.stack@[j].node == w)
        &&& forall|v: int|
            0 <= v < n && #[trigger] self.discovered@[v] ==> if self.parent@[v] < 0 {
                self.ancestors@[v] == Set::<int>::empty()
            } else {
                &&& self.parent@[v] < n
                &&& self.discovered@[self.parent@[v]]
                &&& self.ancestors@[v] == self.ancestors@[self.parent@[v]].insert(self.parent@[v])
            }
    }

    /// For each discovered node, the node whose tree edge led to it, or -1
    /// for a start node.
    pub closed spec fn tree_parents(&self) -> Seq<int> {
        self.parent@
    }

    /// For each discovered node, the nodes on the path when it was
    /// discovered: its ancestors in the search forest.
    pub closed spec fn ancestor_sets(&self) -> Seq<Set<int>> {
        self.ancestors@
    }

    closed spec fn reach_ok(&self) -> bool {
        let n = self.graph@.len();
        forall|v: int|
            0 <= v < n && #[trigger] self.discovered@[v] ==> reachable_from(
                self.graph@,
                self.starts@,
                v,
            )
    }

    proof fn lemma_ancestry_same_path(&self, o: &Self)
        requires
            o.ancestry_ok(),
            self.graph@ == o.graph@,
            self.discovered@ == o.discovered@,
            self.finished@ == o.finished@,
            self.discover_time@ == o.discover_time@,
            self.finish_time@ == o.finish_time@,
            self.parent@ == o.parent@,
            self.ancestors@ == o.ancestors@,
            self.stack@.len() == o.stack@.len(),
            forall|i: int| 0 <= i < o.stack@.len() ==> (#[trigger] self.stack@[i]).node == o.stack@[i].node,
        ensures
            self.ancestry_ok(),
    {
        reveal(DfsTraversal::ancestry_ok);
        assert forall|i: int, w: int| 0 <= i < self.stack@.len() implies (
        #[trigger] self.ancestors@[self.stack@[i].node as int].contains(w) <==> exists|j: int|
            0 <= j < i && self.stack@[j].node == w) by {
            assert(self.stack@[i].node == o.stack@[i].node);
            assert(o.ancestors@[o.stack@[i].node as int].contains(w) <==> exists|j: int|
                0 <= j < i && o.stack@[j].node == w);
            if exists|j: int| 0 <= j < i && o.stack@[j].node == w {
                let j = choose|j: int| 0 <= j < i && o.stack@[j].node == w;
                assert(self.stack@[j].node == w);
            }
            if exists|j: int| 0 <= j < i && self.stack@[j].node == w {
                let j = choose|j: int| 0 <= j < i && self.stack@[j].node == w;
                assert(o.stack@[j].node == w);
            }
        }
    }

    proof fn lemma_ancestry_finish(&self, o: &Self)
        requires
            o.sizes_ok(),
            o.clock_ok(),
            o.stack_ok(),
            o.ancestry_ok(),
            o.stack@.len() > 0,
            self.graph@ == o.graph@,
            self.discovered@ == o.discovered@,
            self.discover_time@ == o.discover_time@,
            self.time == o.time,
            self.finished@ == o.finished@.update(o.stack@.last().node as int, true),
            self.finish_time@ == o.finish_time@.update(o.stack@.last().node as int, o.time as nat),
            self.parent@ == o.parent@,
            self.ancestors@ == o.ancestors@,
            self.stack@ == o.stack@.drop_last(),
        ensures
            self.ancestry_ok(),
    {
        reveal(DfsTraversal::ancestry_ok);
        let n = o.graph@.len();
        let u = o.stack@.last().node as int;
        assert forall|a: int, b: int|
            0 <= a < n && 0 <= b < n && #[trigger] self.discovered@[a] && #[trigger] self.discovered@[b]
                implies (self.ancestors@[b].contains(a) <==> (self.discover_time@[a]
            < self.discover_time@[b] && (!self.finished@[a] || self.discover_time@[b]
            < self.finish_time@[a]))) by {
            assert(o.ancestors@[b].contains(a) <==> (o.discover_time@[a] < o.discover_time@[b] && (
            !o.finished@[a] || o.discover_time@[b] < o.finish_time@[a])));
            if a == u {
                assert(!o.finished@[a]);
            }
        }
        assert forall|i: int, w: int| 0 <= i < self.stack@.len() implies (
        #[trigger] self.ancestors@[self.stack@[i].node as int].contains(w) <==> exists|j: int|
            0 <= j < i && self.stack@[j].node == w) by {
            assert(self.stack@[i] == o.stack@[i]);
            assert(o.ancestors@[o.stack@[i].node as int].contains(w) <==> exists|j: int|
                0 <= j < i && o.stack@[j].node == w);
            if exists|j: int| 0 <= j < i && o.stack@[j].node == w {
                let j = choose|j: int| 0 <= j < i && o.stack@[j].node == w;
                assert(self.stack@[j].node == w);
            }
        }
    }

    proof fn lemma_ancestry_discover(&self, o: &Self, v: int)
        requires
            o.sizes_ok(),
            o.clock_ok(),
            o.stack_ok(),
            o.ancestry_ok(),
            0 <= v < o.graph@.len(),
            v <= usize::MAX,
            !o.discovered@[v],
            self.graph@ == o.graph@,
            self.discovered@ == o.discovered@.update(v, true),
            self.discover_time@ == o.discover_time@.update(v, o.time),
            self.time == o.time + 1,
            self.finished@ == o.finished@,
            self.finish_time@ == o.finish_time@,
            self.stack@ == o.stack@.push(Frame { node: v as usize, cursor: 0, pruned: false }),
            self.ancestors@ == o.ancestors@.update(v, o.path_set()),
            self.parent@ == o.parent@.update(
                v,
                if o.stack@.len() == 0 {
                    -1int
                } else {
                    o.stack@.last().node as int
                },
            ),
        ensures
            self.ancestry_ok(),
    {
        reveal(DfsTraversal::ancestry_ok);
        let n = o.graph@.len();
        let len = o.stack@.len() as int;
        assert forall|x: int, w: int|
            0 <= x < n && self.discovered@[x] && #[trigger] self.ancestors@[x].contains(w) implies 0
            <= w < n && self.discovered@[w] by {
            if x == v {
                let j = choose|j: int| 0 <= j < o.stack@.len() && o.stack@[j].node == w;
                assert(o.stack@[j].node < n);
            }
        }
        assert forall|a: int, b: int|
            0 <= a < n && 0 <= b < n && #[trigger] self.discovered@[a] && #[trigger] self.discovered@[b]
                implies (self.ancestors@[b].contains(a) <==> (self.discover_time@[a]
            < self.discover_time@[b] && (!self.finished@[a] || self.discover_time@[b]
            < self.finish_time@[a]))) by {
            if b == v && a != v {
                assert(o.discovered@[a]);
                if self.ancestors@[b].contains(a) {
                    let j = choose|j: int| 0 <= j < o.stack@.len() && o.stack@[j].node == a;
                    assert(!o.finished@[a]);
                } else if !o.finished@[a] {
                    let j = choose|j: int| 0 <= j < o.stack@.len() && (#[trigger] o.stack@[j]).node == a;
                    assert(o.path_set().contains(a));
                }
            } else if b == v && a == v {
                if o.path_set().contains(v) {
                    let j = choose|j: int| 0 <= j < o.stack@.len() && o.stack@[j].node == v;
                    assert(o.discovered@[o.stack@[j].node as int]);
                }
            } else if a == v {
                assert(o.discovered@[b]);
                if o.ancestors@[b].contains(v) {
                    assert(o.discovered@[v]);
                }
            } else {
                assert(o.discovered@[a] && o.discovered@[b]);
                assert(o.ancestors@[b].contains(a) <==> (o.discover_time@[a] < o.discover_time@[b]
                    && (!o.finished@[a] || o.discover_time@[b] < o.finish_time@[a])));
            }
        }
        assert forall|i: int, w: int| 0 <= i < self.stack@.len() implies (
        #[trigger] self.ancestors@[self.stack@[i].node as int].contains(w) <==> exists|j: int|
            0 <= j < i && self.stack@[j].node == w) by {
            if i < len {
                assert(self.stack@[i] == o.stack@[i]);
                assert(o.stack@[i].node != v);
                assert(o.ancestors@[o.stack@[i].node as int].contains(w) <==> exists|j: int|
                    0 <= j < i && o.stack@[j].node == w);
                if exists|j: int| 0 <= j < i && o.stack@[j].node == w {
                    let j = choose|j: int| 0 <= j < i && o.stack@[j].node == w;
                    assert(self.stack@[j].node == w);
                }
                if exists|j: int| 0 <= j < i && self.stack@[j].node == w {
                    let j = choose|j: int| 0 <= j < i && self.stack@[j].node == w;
                    assert(o.stack@[j].node == w);
                }
            } else {
                assert(self.stack@[i].node == v);
                if exists|j: int| 0 <= j < i && self.stack@[j].node == w {
                    let j = choose|j: int| 0 <= j < i && self.stack@[j].node == w;
                    assert(o.stack@[j].node == w);
                }
                if o.path_set().contains(w) {
                    let j = choose|j: int| 0 <= j < o.stack@.len() && o.stack@[j].node == w;
                    assert(self.stack@[j].node == w);
                }
            }
        }
        assert forall|x: int| 0 <= x < n && #[trigger] self.discovered@[x] implies if self.parent@[x] < 0 {
            self.ancestors@[x] == Set::<int>::empty()
        } else {
            &&& self.parent@[x] < n
            &&& self.discovered@[self.parent@[x]]
            &&& self.ancestors@[x] == self.ancestors@[self.parent@[x]].insert(self.parent@[x])
        } by {
            if x == v {
                if len == 0 {
                    assert(o.path_set() =~= Set::<int>::empty());
                } else {
                    let t = o.stack@[len - 1].node as int;
                    assert(self.parent@[x] == t);
                    assert(o.discovered@[t]);
                    assert(t != v);
                    assert forall|w: int| o.path_set().contains(w) <==> o.ancestors@[t].insert(t).contains(w) by {
                        assert(o.ancestors@[o.stack@[len - 1].node as int].contains(w) <==> exists|j: int|
                            0 <= j < len - 1 && o.stack@[j].node == w);
                        if o.path_set().contains(w) && w != t {
                            let j = choose|j: int| 0 <= j < o.stack@.len() && o.stack@[j].node == w;
                            assert(j != len - 1);
                        }
                        if w == t {
                            assert(o.stack@[len - 1].node == w);
                        }
                        if o.ancestors@[t].contains(w) {
                            let j = choose|j: int| 0 <= j < len - 1 && o.stack@[j].node == w;
                        }
                    }
                    assert(o.path_set() =~= o.ancestors@[t].insert(t));
                }
            } else {
                assert(o.discovered@[x]);
                if o.parent@[x] >= 0 {
                    assert(o.parent@[x] != v) by {
                        assert(o.discovered@[o.parent@[x]]);
                    }
                }
            }
        }
    }

    #[verifier::opaque]
    closed spec fn report_ok(&self) -> bool {
        let n = self.graph@.len();
        &&& self.reported@.len() == n
        &&& forall|v: int| 0 <= v < n ==> #[trigger] self.reported@[v] <= self.graph@[v].len()
        &&& forall|v: int| 0 <= v < n && !#[trigger] self.discovered@[v] ==> self.reported@[v] == 0
        &&& forall|i: int|
            0 <= i < self.stack@.len() ==> self.reported@[(#[trigger] self.stack@[i]).node as int]
                == self.stack@[i].cursor
        &&& forall|v: int|
            0 <= v < n && #[trigger] self.finished@[v] ==> self.reported@[v] <= self.graph@[v].len()
                && (!self.pruned_any@ ==> self.reported@[v] == self.graph@[v].len())
    }

    /// For each node, how many of its edges have been reported by edge
    /// events: those at the front of its incident list.
    pub closed spec fn edges_reported(&self) -> Seq<nat> {
        self.reported@
    }

    proof fn lemma_report_same(&self, o: &Self)
        requires
            o.report_ok(),
            self.graph@ == o.graph@,
            self.discovered@ == o.discovered@,
            self.finished@ == o.finished@,
            self.reported@ == o.reported@,
            o.pruned_any@ ==> self.pruned_any@,
            self.stack@.len() == o.stack@.len(),
            forall|i: int|
                0 <= i < o.stack@.len() ==> (#[trigger] self.stack@[i]).node == o.stack@[i].node
                    && self.stack@[i].cursor == o.stack@[i].cursor,
        ensures
            self.report_ok(),
    {
        reveal(DfsTraversal::report_ok);
        assert forall|i: int| 0 <= i < self.stack@.len() implies self.reported@[(
        #[trigger] self.stack@[i]).node as int] == self.stack@[i].cursor by {
            assert(self.stack@[i].node == o.stack@[i].node);
            assert(o.reported@[o.stack@[i].node as int] == o.stack@[i].cursor);
        }
    }

    proof fn lemma_report_discover(&self, o: &Self, v: int)
        requires
            o.sizes_ok(),
            o.report_ok(),
            0 <= v < o.graph@.len(),
            v <= usize::MAX,
            !o.discovered@[v],
            self.graph@ == o.graph@,
            self.discovered@ == o.discovered@.update(v, true),
            self.finished@ == o.finished@,
            self.reported@ == o.reported@,
            self.pruned_any@ == o.pruned_any@,
            self.stack@ == o.stack@.push(Frame { node: v as usize, cursor: 0, pruned: false }),
        ensures
            self.report_ok(),
    {
        reveal(DfsTraversal::report_ok);
        assert forall|i: int| 0 <= i < self.stack@.len() implies self.reported@[(
        #[trigger] self.stack@[i]).node as int] == self.stack@[i].cursor by {
            if i < o.stack@.len() {
                assert(self.stack@[i] == o.stack@[i]);
            }
        }
    }

    proof fn lemma_report_examine(&self, o: &Self)
        requires
            o.sizes_ok(),
            o.clock_ok(),
            o.stack_ok(),
            o.report_ok(),
            o.stack@.len() > 0,
            self.graph@ == o.graph@,
            self.discovered@ == o.discovered@,
            self.finished@ == o.finished@,
            self.pruned_any@ == o.pruned_any@,
            self.stack@ == o.stack@.update(
                o.stack@.len() - 1,
                Frame {
                    node: o.stack@.last().node,
                    cursor: (o.stack@.last().cursor + 1) as usize,
                    pruned: false,
                },
            ),
            o.stack@.last().cursor + 1 <= usize::MAX,
            o.stack@.last().cursor < o.graph@[o.stack@.last().node as int].len(),
            self.reported@ == o.reported@.update(
                o.stack@.last().node as int,
                o.reported@[o.stack@.last().node as int] + 1,
            ),
        ensures
            self.report_ok(),
            o.reported@[o.stack@.last().node as int] == o.stack@.last().cursor,
    {
        reveal(DfsTraversal::report_ok);
        let top = o.stack@.len() - 1;
        let u = o.stack@[top].node as int;
        assert(o.reported@[u] == o.stack@[top].cursor);
        assert forall|i: int| 0 <= i < self.stack@.len() implies self.reported@[(
        #[trigger] self.stack@[i]).node as int] == self.stack@[i].cursor by {
            if i < top {
                assert(self.stack@[i] == o.stack@[i]);
                assert(o.discover_time@[o.stack@[i].node as int] < o.discover_time@[o.stack@[top].node as int]);
                assert(o.stack@[i].node != o.stack@[top].node);
            }
        }
        assert forall|w: int| 0 <= w < o.graph@.len() && #[trigger] self.finished@[w] implies self.reported@[w]
            <= self.graph@[w].len() && (!self.pruned_any@ ==> self.reported@[w] == self.graph@[w].len()) by {
            assert(!o.finished@[u]);
        }
    }

    proof fn lemma_report_finish(&self, o: &Self)
        requires
            o.sizes_ok(),
            o.clock_ok(),
            o.stack_ok(),
            o.closure_ok(),
            o.report_ok(),
            o.stack@.len() > 0,
            o.stack@.last().pruned || o.stack@.last().cursor == o.graph@[o.stack@.last().node as int].len(),
            self.graph@ == o.graph@,
            self.discovered@ == o.discovered@,
            self.finished@ == o.finished@.update(o.stack@.last().node as int, true),
            self.reported@ == o.reported@,
            self.pruned_any@ == o.pruned_any@,
            self.stack@ == o.stack@.drop_last(),
        ensures
            self.report_ok(),
    {
        reveal(DfsTraversal::report_ok);
        let top = o.stack@.len() - 1;
        let u = o.stack@[top].node as int;
        assert(o.reported@[u] == o.stack@[top].cursor);
        assert forall|i: int| 0 <= i < self.stack@.len() implies self.reported@[(
        #[trigger] self.stack@[i]).node as int] == self.stack@[i].cursor by {
            assert(self.stack@[i] == o.stack@[i]);
        }
        if !o.pruned_any@ {
            assert(!o.stack@[top].pruned);
        }
    }

    /// What the event reported for edge `k` of `u` says, in terms that stay
    /// true for the rest of the search.
    closed spec fn entry_ok(&self, u: int, k: int) -> bool {
        let edge = self.graph@[u][k];
        let v = other_end(u, edge);
        let e = self.log@[u][k];
        &&& (e is BackEdge <==> (v == u || self.ancestors@[u].contains(v)))
        &&& match e {
            DfsEvent::TreeEdge(a, b, w) => a as int == u && b as int == v && w == edge.2 && (
            self.discovered@[v] ==> self.discover_time@[u] < self.discover_time@[v]),
            DfsEvent::BackEdge(a, b, w) => a as int == u && b as int == v && w == edge.2,
            DfsEvent::ForwardEdge(a, b, w) => a as int == u && b as int == v && w == edge.2
                && self.discovered@[v] && self.discover_time@[u] < self.discover_time@[v],
            DfsEvent::CrossEdge(a, b, w) => a as int == u && b as int == v && w == edge.2
                && self.discovered@[v] && self.discover_time@[v] < self.discover_time@[u],
            _ => false,
        }
    }

    #[verifier::opaque]
    closed spec fn log_ok(&self) -> bool {
        let n = self.graph@.len();
        &&& self.log@.len() == n
        &&& forall|u: int| 0 <= u < n ==> (#[trigger] self.log@[u]).len() == self.graph@[u].len()
        &&& forall|u: int, k: int|
            0 <= u < n && self.discovered@[u] && 0 <= k < self.reported@[u] ==> #[trigger] self.entry_ok(
                u,
                k,
            )
        &&& !self.pruned_any@ ==> forall|u: int, k: int|
            0 <= u < n && self.finished@[u] && 0 <= k < self.graph@[u].len() ==> self.discovered@[other_end(
                u,
                #[trigger] self.graph@[u][k],
            )] && self.discover_time@[other_end(u, self.graph@[u][k])] < self.finish_time@[u]
    }

    /// For each node, the event reported for each of its edges examined so
    /// far (the first `edges_reported()` entries count).
    pub closed spec fn edge_events(&self) -> Seq<Seq<DfsEvent<usize, W>>> {
        self.log@
    }

    proof fn lemma_log_same(&self, o: &Self)
        requires
            o.log_ok(),
            self.graph@ == o.graph@,
            self.discovered@ == o.discovered@,
            self.finished@ == o.finished@,
            self.discover_time@ == o.discover_time@,
            self.finish_time@ == o.finish_time@,
            self.ancestors@ == o.ancestors@,
            self.reported@ == o.reported@,
            self.log@ == o.log@,
            o.pruned_any@ ==> self.pruned_any@,
        ensures
            self.log_ok(),
    {
        reveal(DfsTraversal::log_ok);
        let n = self.graph@.len();
        assert forall|u: int, k: int|
            0 <= u < n && self.discovered@[u] && 0 <= k < self.reported@[u] implies #[trigger] self.entry_ok(
            u,
            k,
        ) by {
            assert(o.entry_ok(u, k));
        }
    }

    proof fn lemma_log_discover(&self, o: &Self, v: int)
        requires
            o.sizes_ok(),
            o.clock_ok(),
            o.report_ok(),
            o.log_ok(),
            0 <= v < o.graph@.len(),
            !o.discovered@[v],
            self.graph@ == o.graph@,
            self.discovered@ == o.discovered@.update(v, true),
            self.discover_time@ == o.discover_time@.update(v, o.time),
            self.finished@ == o.finished@,
            self.finish_time@ == o.finish_time@,
            o.ancestors@.len() == o.graph@.len(),
            self.ancestors@.len() == o.ancestors@.len(),
            forall|u: int| 0 <= u < o.ancestors@.len() && u != v ==> self.ancestors@[u] == o.ancestors@[u],
            self.reported@ == o.reported@,
            self.log@ == o.log@,
            self.pruned_any@ == o.pruned_any@,
        ensures
            self.log_ok(),
    {
        reveal(DfsTraversal::log_ok);
        reveal(DfsTraversal::report_ok);
        let n = self.graph@.len();
        assert forall|u: int, k: int|
            0 <= u < n && self.discovered@[u] && 0 <= k < self.reported@[u] implies #[trigger] self.entry_ok(
            u,
            k,
        ) by {
            assert(u != v);
            assert(o.entry_ok(u, k));
            assert(o.discover_time@[u] < o.time);
            let w = other_end(u, o.graph@[u][k]);
            assert(0 <= w < n);
            assert(self.ancestors@[u] == o.ancestors@[u]);
            assert(self.discover_time@[u] == o.discover_time@[u]);
            if w != v {
                assert(self.discovered@[w] == o.discovered@[w]);
                assert(self.discover_time@[w] == o.discover_time@[w]);
            }
        }
        if !self.pruned_any@ {
            assert forall|u: int, k: int|
                0 <= u < n && self.finished@[u] && 0 <= k < self.graph@[u].len() implies self.discovered@[other_end(
                u,
                #[trigger] self.graph@[u][k],
            )] && self.discover_time@[other_end(u, self.graph@[u][k])] < self.finish_time@[u] by {
                assert(o.discovered@[other_end(u, o.graph@[u][k])]);
            }
        }
    }

    proof fn lemma_log_finish(&self, o: &Self)
        requires
            o.sizes_ok(),
            o.clock_ok(),
            o.stack_ok(),
            o.closure_ok(),
            o.log_ok(),
            o.awaiting is Nothing,
            o.stack@.len() > 0,
            o.stack@.last().pruned || o.stack@.last().cursor == o.graph@[o.stack@.last().node as int].len(),
            self.graph@ == o.graph@,
            self.discovered@ == o.discovered@,
            self.discover_time@ == o.discover_time@,
            self.finished@ == o.finished@.update(o.stack@.last().node as int, true),
            self.finish_time@ == o.finish_time@.update(o.stack@.last().node as int, o.time as nat),
            self.ancestors@ == o.ancestors@,
            self.reported@ == o.reported@,
            self.log@ == o.log@,
            self.pruned_any@ == o.pruned_any@,
        ensures
            self.log_ok(),
    {
        reveal(DfsTraversal::log_ok);
        let n = self.graph@.len();
        let top = o.stack@.len() - 1;
        let x = o.stack@[top].node as int;
        assert forall|u: int, k: int|
            0 <= u < n && self.discovered@[u] && 0 <= k < self.reported@[u] implies #[trigger] self.entry_ok(
            u,
            k,
        ) by {
            assert(o.entry_ok(u, k));
        }
        if !self.pruned_any@ {
            assert(!o.stack@[top].pruned);
            assert forall|u: int, k: int|
                0 <= u < n && self.finished@[u] && 0 <= k < self.graph@[u].len() implies self.discovered@[other_end(
                u,
                #[trigger] self.graph@[u][k],
            )] && self.discover_time@[other_end(u, self.graph@[u][k])] < self.finish_time@[u] by {
                if u == x {
                    assert(k < o.stack@[top].cursor);
                    assert(o.discovered@[other_end(
                        o.stack@[top].node as int,
                        o.graph@[o.stack@[top].node as int][k],
                    )]);
                } else {
                    assert(o.finished@[u]);
                }
            }
        }
    }

    proof fn lemma_log_examine(&self, o: &Self, e: DfsEvent<usize, W>)
        requires
            o.wf(),
            o.awaiting is Nothing,
            o.stack@.len() > 0,
            !o.stack@.last().pruned,
            o.stack@.last().cursor < o.graph@[o.stack@.last().node as int].len(),
            ({
                let top = o.stack@.last();
                let u = top.node as int;
                let edge = o.graph@[u][top.cursor as int];
                let v = other_end(u, edge);
                match e {
                    DfsEvent::TreeEdge(a, b, w) => a as int == u && b as int == v && w == edge.2
                        && !o.discovered@[v],
                    DfsEvent::BackEdge(a, b, w) => a as int == u && b as int == v && w == edge.2
                        && o.discovered@[v] && !o.finished@[v],
                    DfsEvent::ForwardEdge(a, b, w) => a as int == u && b as int == v && w == edge.2
                        && o.finished@[v] && o.discover_time@[u] < o.discover_time@[v],
                    DfsEvent::CrossEdge(a, b, w) => a as int == u && b as int == v && w == edge.2
                        && o.finished@[v] && o.discover_time@[u] >= o.discover_time@[v],
                    _ => false,
                }
            }),
            self.graph@ == o.graph@,
            self.discovered@ == o.discovered@,
            self.finished@ == o.finished@,
            self.discover_time@ == o.discover_time@,
            self.finish_time@ == o.finish_time@,
            self.ancestors@ == o.ancestors@,
            self.pruned_any@ == o.pruned_any@,
            self.reported@ == o.reported@.update(
                o.stack@.last().node as int,
                o.reported@[o.stack@.last().node as int] + 1,
            ),
            self.log@ == o.log@.update(
                o.stack@.last().node as int,
                o.log@[o.stack@.last().node as int].update(o.stack@.last().cursor as int, e),
            ),
        ensures
            self.log_ok(),
    {
        reveal(DfsTraversal::log_ok);
        reveal(DfsTraversal::report_ok);
        reveal(DfsTraversal::ancestry_ok);
        let n = self.graph@.len();
        let top = o.stack@.len() - 1;
        let u = o.stack@[top].node as int;
        let c = o.stack@[top].cursor as int;
        let edge = o.graph@[u][c];
        let v = other_end(u, edge);
        assert(o.reported@[u] == c);
        assert(0 <= v < n);
        assert(self.entry_ok(u, c)) by {
            assert(self.log@[u][c] == e);
            match e {
                DfsEvent::TreeEdge(a, b, w) => {
                    if o.ancestors@[u].contains(v) {
                        assert(o.discovered@[v]);
                    }
                },
                DfsEvent::BackEdge(a, b, w) => {
                    let j = choose|j: int| 0 <= j < o.stack@.len() && (#[trigger] o.stack@[j]).node == v;
                    if j < top {
                        assert(o.ancestors@[o.stack@[top].node as int].contains(v));
                    } else {
                        assert(j == top);
                    }
                },
                DfsEvent::ForwardEdge(a, b, w) => {
                    assert(!o.finished@[u]);
                    if o.ancestors@[u].contains(v) {
                        assert(o.ancestors@[o.stack@[top].node as int].contains(v));
                        let j = choose|j: int| 0 <= j < top && o.stack@[j].node == v;
                        assert(!o.finished@[o.stack@[j].node as int]);
                    }
                },
                DfsEvent::CrossEdge(a, b, w) => {
                    assert(!o.finished@[u]);
                    if o.ancestors@[u].contains(v) {
                        assert(o.ancestors@[o.stack@[top].node as int].contains(v));
                        let j = choose|j: int| 0 <= j < top && o.stack@[j].node == v;
                        assert(!o.finished@[o.stack@[j].node as int]);
                    }
                    assert(o.discovered@[v]);
                },
                _ => {},
            }
        }
        assert forall|x: int, k: int|
            0 <= x < n && self.discovered@[x] && 0 <= k < self.reported@[x] implies #[trigger] self.entry_ok(
            x,
            k,
        ) by {
            if x == u && k == c {
            } else {
                assert(k < o.reported@[x]);
                assert(o.entry_ok(x, k));
                assert(self.log@[x][k] == o.log@[x][k]);
            }
        }
    }

    /// The search's internal state is consistent.
    pub closed spec fn wf(&self) -> bool {
        &&& self.sizes_ok()
        &&& self.clock_ok()
        &&& self.nesting_ok()
        &&& self.stack_ok()
        &&& self.awaiting_ok()
        &&& self.starts_ok()
        &&& self.closure_ok()
        &&& self.reach_ok()
        &&& self.ancestry_ok()
        &&& self.report_ok()
        &&& self.log_ok()
    }

    /// Waiting for the answer to a `Discover` or `TreeEdge` event.
    pub open spec fn awaiting_reply(&self) -> bool {
        self.awaiting_discovery_reply() || self.awaiting_tree_edge_reply() is Some
    }
}

impl<'a, W: Copy> DfsTraversal<'a, W> {
    /// A search of `graph` that starts from each of `starts` in turn (those
    /// already discovered when their turn comes are skipped).
    pub fn new(graph: &'a AdjacencyGraph<W>, starts: &[usize]) -> (t: Self)
        requires
            forall|i: int| 0 <= i < starts@.len() ==> (#[trigger] starts@[i]) < graph@.len(),
        ensures
            t.wf(),
            t.graph_view() == graph@,
            t.starts_view() == starts@,
            t.starts_taken() == 0,
            t.clock() == 0,
            t.discovered_flags() == Seq::new(graph@.len(), |i: int| false),
            t.finished_flags() == Seq::new(graph@.len(), |i: int| false),
            t.path().len() == 0,
            !t.awaiting_reply(),
            t.entering() is None,
            !t.pruned_any(),
            t.is_fresh(graph@, starts@),
    {
        let n = graph.node_count();
        let mut start_list: Vec<usize> = Vec::new();
        let mut i: usize = 0;
        while i < starts.len()
            invariant
                i <= starts@.len(),
                start_list@ == starts@.take(i as int),
            decreases starts@.len() - i,
        {
            start_list.push(starts[i]);
            proof {
                assert(starts@.take(i as int + 1) =~= starts@.take(i as int).push(starts@[i as int]));
            }
            i += 1;
        }
        proof {
            assert(starts@.take(starts@.len() as int) =~= starts@);
        }
        let mut discovered: Vec<bool> = Vec::new();
        let mut finished: Vec<bool> = Vec::new();
        let mut discover_time: Vec<usize> = Vec::new();
        let mut j: usize = 0;
        while j < n
            invariant
                j <= n,
                discovered@ == Seq::new(j as nat, |i: int| false),
                finished@ == Seq::new(j as nat, |i: int| false),
                discover_time@.len() == j,
            decreases n - j,
        {
            discovered.push(false);
            finished.push(false);
            discover_time.push(0);
            proof {
                assert(discovered@ =~= Seq::new(j as nat + 1, |i: int| false));
                assert(finished@ =~= Seq::new(j as nat + 1, |i: int| false));
            }
            j += 1;
        }
        proof {
            lemma_count_zero(n as nat);
        }
        let ghost parent0 = Seq::new(n as nat, |i: int| -1int);
        let ghost ancestors0 = Seq::new(n as nat, |i: int| Set::<int>::empty());
        let t = DfsTraversal {
            graph,
            starts: start_list,
            next_start: 0,
            time: 0,
            discovered,
            finished,
            discover_time,
            finish_time: Ghost(Seq::new(n as nat, |i: int| 0nat)),
            stack: Vec::new(),
            awaiting: Awaiting::Nothing,
            pruned_any: Ghost(false),
            parent: Ghost(parent0),
            ancestors: Ghost(ancestors0),
            reported: Ghost(Seq::new(n as nat, |i: int| 0nat)),
            log: Ghost(
                Seq::new(
                    n as nat,
                    |u: int| Seq::new(graph@[u].len(), |k: int| DfsEvent::Finish(0usize, Time(0usize))),
                ),
            ),
        };
        proof {
            reveal(DfsTraversal::ancestry_ok);
            reveal(DfsTraversal::report_ok);
            reveal(DfsTraversal::log_ok);
            assert(t.ancestry_ok());
            assert(t.report_ok());
            assert(t.log_ok());
        }
        t
    }
}

proof fn lemma_count_zero(k: nat)
    ensures
        count_true(Seq::new(k, |i: int| false)) == 0,
    decreases k,
{
    if k > 0 {
        assert(Seq::new(k, |i: int| false).drop_last() =~= Seq::new((k - 1) as nat, |i: int| false));
        lemma_count_zero((k - 1) as nat);
    }
}

impl<'a, W: Copy> DfsTraversal<'a, W> {
    /// Discovers `v` now: it goes on top of the path, with no edge examined.
    fn discover(&mut self, v: usize) -> (e: DfsEvent<usize, W>)
        requires
            old(self).sizes_ok(),
            old(self).clock_ok(),
            old(self).nesting_ok(),
            old(self).stack_ok(),
            old(self).awaiting_ok(),
            old(self).closure_ok(),
            old(self).reach_ok(),
            old(self).ancestry_ok(),
            old(self).report_ok(),
            old(self).log_ok(),
            v < old(self).graph@.len(),
            !old(self).discovered@[v as int],
            forall|i: int|
                0 <= i < old(self).next_start ==> old(self).discovered@[#[trigger] old(
                    self,
                ).starts@[i] as int] || old(self).starts@[i] == v,
            (old(self).awaiting matches Awaiting::Enter(x) && x == v) || (old(self).awaiting is Nothing
                && old(self).stack@.len() == 0 && old(self).next_start > 0 && old(self).starts@[old(
                self,
            ).next_start - 1] == v),
        ensures
            final(self).wf(),
            e == DfsEvent::<usize, W>::Discover(v, Time(old(self).time)),
            final(self).graph == old(self).graph,
            final(self).starts == old(self).starts,
            final(self).next_start == old(self).next_start,
            final(self).pruned_any == old(self).pruned_any,
            final(self).time == old(self).time + 1,
            final(self).discovered@ == old(self).discovered@.update(v as int, true),
            final(self).discover_time@ == old(self).discover_time@.update(v as int, old(self).time),
            final(self).finished@ == old(self).finished@,
            final(self).finish_time@ == old(self).finish_time@,
            final(self).stack@ == old(self).stack@.push(Frame { node: v, cursor: 0, pruned: false }),
            final(self).awaiting is Discovery,
            final(self).reported@ == old(self).reported@,
            final(self).log@ == old(self).log@,
            final(self).parent@ == old(self).parent@.update(
                v as int,
                if old(self).stack@.len() == 0 {
                    -1int
                } else {
                    old(self).stack@.last().node as int
                },
            ),
    {
        let ghost g = self.graph@;
        let ghost n = self.graph@.len();
        let ghost old_self = *self;
        proof {
            lemma_count_set(self.discovered@, v as int);
            if !(self.awaiting is Nothing) {
                let top = self.stack@.last();
                let u = top.node as int;
                assert(self.discovered@[u]);
                assert(reachable_from(g, self.starts@, u));
                let (p, j) = choose|p: Seq<int>, j: int|
                    #![trigger is_walk(g, p), self.starts@[j]]
                    is_walk(g, p) && 0 <= j < self.starts@.len() && self.starts@[j] == p[0]
                        && p.last() == u;
                let q = p.push(v as int);
                assert(adjacent(g, u, v as int)) by {
                    let k = top.cursor - 1;
                    assert(other_end(u, g[u][k]) == v);
                }
                assert forall|i: int| 0 <= i < q.len() - 1 implies #[trigger] adjacent(
                    g,
                    q[i],
                    q[i + 1],
                ) by {
                    if i < p.len() - 1 {
                        assert(q[i] == p[i] && q[i + 1] == p[i + 1]);
                        assert(adjacent(g, p[i], p[i + 1]));
                    }
                }
                assert(is_walk(g, q));
                assert(q[0] == p[0]);
                assert(self.starts@[j] == q[0]);
                assert(reachable_from(g, self.starts@, v as int));
            } else {
                let q = seq![v as int];
                assert(is_walk(g, q));
                let j = self.next_start - 1;
                assert(self.starts@[j] == q[0]);
                assert(is_walk(g, q) && 0 <= j < self.starts@.len());
                assert(reachable_from(g, self.starts@, v as int));
            }
        }
        assert(self.time < self.discovered.len());
        let t = time_post_inc(&mut self.time);
        self.discovered.set(v, true);
        self.discover_time.set(v, t);
        let ghost path_before = old_self.path_set();
        let ghost parent_of_v: int = if old_self.stack@.len() == 0 {
            -1int
        } else {
            old_self.stack@.last().node as int
        };
        self.stack.push(Frame { node: v, cursor: 0, pruned: false });
        self.awaiting = Awaiting::Discovery;
        self.parent = Ghost(self.parent@.update(v as int, parent_of_v));
        self.ancestors = Ghost(self.ancestors@.update(v as int, path_before));
        proof {
            self.lemma_ancestry_discover(&old_self, v as int);
            self.lemma_report_discover(&old_self, v as int);
            assert(old_self.ancestors@.len() == n) by {
                reveal(DfsTraversal::ancestry_ok);
            }
            self.lemma_log_discover(&old_self, v as int);
            assert(self.sizes_ok());
            assert(self.clock_ok());
            assert(self.nesting_ok());
            assert(self.stack_ok()) by {
                assert forall|vv: int|
                    0 <= vv < n && #[trigger] self.discovered@[vv] && !self.finished@[vv] implies exists|i: int|
                    0 <= i < self.stack@.len() && (#[trigger] self.stack@[i]).node == vv by {
                    if vv == v {
                        assert(self.stack@[self.stack@.len() - 1].node == vv);
                    } else {
                        assert(old_self.discovered@[vv]);
                        let i = choose|i: int|
                            0 <= i < old_self.stack@.len() && (#[trigger] old_self.stack@[i]).node == vv;
                        assert(self.stack@[i] == old_self.stack@[i]);
                    }
                }
            }
            assert(self.awaiting_ok());
            assert(self.starts_ok());
            assert(self.closure_ok());
            assert(self.reach_ok());
        }
        DfsEvent::Discover(v, Time(t))
    }
}

impl<'a, W: Copy> DfsTraversal<'a, W> {
    /// Examines the next edge of the node on top of the path.
    fn examine(&mut self) -> (e: DfsEvent<usize, W>)
        requires
            old(self).wf(),
            old(self).awaiting is Nothing,
            old(self).stack@.len() > 0,
            !old(self).stack@.last().pruned,
            old(self).stack@.last().cursor < old(self).graph@[old(self).stack@.last().node as int].len(),
        ensures
            final(self).wf(),
            final(self).graph == old(self).graph,
            final(self).starts == old(self).starts,
            final(self).next_start == old(self).next_start,
            final(self).pruned_any == old(self).pruned_any,
            final(self).time == old(self).time,
            final(self).discovered@ == old(self).discovered@,
            final(self).discover_time@ == old(self).discover_time@,
            final(self).finished@ == old(self).finished@,
            final(self).finish_time@ == old(self).finish_time@,
            final(self).parent@ == old(self).parent@,
            final(self).ancestors@ == old(self).ancestors@,
            old(self).reported@[old(self).stack@.last().node as int] == old(self).stack@.last().cursor,
            final(self).reported@ == old(self).reported@.update(
                old(self).stack@.last().node as int,
                old(self).reported@[old(self).stack@.last().node as int] + 1,
            ),
            final(self).log@ == old(self).log@.update(
                old(self).stack@.last().node as int,
                old(self).log@[old(self).stack@.last().node as int].update(
                    old(self).stack@.last().cursor as int,
                    e,
                ),
            ),
            ({
                let top = old(self).stack@.last();
                let u = top.node;
                let edge = old(self).graph@[u as int][top.cursor as int];
                let v = other_end(u as int, edge);
                &&& final(self).stack@ == old(self).stack@.update(
                    old(self).stack@.len() - 1,
                    Frame { node: u, cursor: (top.cursor + 1) as usize, pruned: false },
                )
                &&& 0 <= v < old(self).graph@.len()
                &&& match e {
                    DfsEvent::TreeEdge(a, b, w) => a == u && b == v && w == edge.2
                        && !old(self).discovered@[v] && final(self).awaiting == Awaiting::TreeEdge(
                        b,
                    ),
                    DfsEvent::BackEdge(a, b, w) => a == u && b == v && w == edge.2
                        && old(self).discovered@[v] && !old(self).finished@[v]
                        && final(self).awaiting is Nothing,
                    DfsEvent::ForwardEdge(a, b, w) => a == u && b == v && w == edge.2
                        && old(self).finished@[v] && old(self).discover_time@[u as int]
                        < old(self).discover_time@[v] && final(self).awaiting is Nothing,
                    DfsEvent::CrossEdge(a, b, w) => a == u && b == v && w == edge.2
                        && old(self).finished@[v] && old(self).discover_time@[u as int]
                        >= old(self).discover_time@[v] && final(self).awaiting is Nothing,
                    _ => false,
                }
            }),
    {
        let ghost old_self = *self;
        let ghost n = self.graph@.len();
        let top = self.stack.len() - 1;
        let f = self.stack[top];
        let u = f.node;
        let edges = self.graph.incident_edges(u);
        assert(f.cursor < edges.len());
        let edge = edges[f.cursor];
        let v = if edge.0 == u {
            edge.1
        } else {
            edge.0
        };
        let w = edge.2;
        self.stack.set(top, Frame { node: u, cursor: f.cursor + 1, pruned: false });
        self.reported = Ghost(self.reported@.update(u as int, self.reported@[u as int] + 1));
        let e = if !self.discovered[v] {
            self.awaiting = Awaiting::TreeEdge(v);
            DfsEvent::TreeEdge(u, v, w)
        } else if !self.finished[v] {
            DfsEvent::BackEdge(u, v, w)
        } else if self.discover_time[u] < self.discover_time[v] {
            DfsEvent::ForwardEdge(u, v, w)
        } else {
            DfsEvent::CrossEdge(u, v, w)
        };
        self.log = Ghost(self.log@.update(u as int, self.log@[u as int].update(f.cursor as int, e)));
        proof {
            self.lemma_ancestry_same_path(&old_self);
            self.lemma_report_examine(&old_self);
            self.lemma_log_examine(&old_self, e);
            assert(self.sizes_ok());
            assert(self.clock_ok());
            assert(self.nesting_ok());
            assert(self.stack_ok()) by {
                assert forall|vv: int|
                    0 <= vv < n && #[trigger] self.discovered@[vv] && !self.finished@[vv] implies exists|i: int|
                    0 <= i < self.stack@.len() && (#[trigger] self.stack@[i]).node == vv by {
                    let i = choose|i: int|
                        0 <= i < old_self.stack@.len() && (#[trigger] old_self.stack@[i]).node == vv;
                    assert(self.stack@[i].node == vv);
                }
                assert forall|i: int, j: int|
                    0 <= i < j < self.stack@.len() implies self.discover_time@[(
                    #[trigger] self.stack@[i]).node as int] < self.discover_time@[(
                    #[trigger] self.stack@[j]).node as int] by {
                    assert(old_self.stack@[i].node == self.stack@[i].node);
                    assert(old_self.stack@[j].node == self.stack@[j].node);
                }
            }
            assert(self.awaiting_ok());
            assert(self.starts_ok());
            assert(self.closure_ok()) by {
                if !self.pruned_any@ {
                    assert forall|i: int, k: int|
                        #![trigger self.graph@[self.stack@[i].node as int][k]]
                        0 <= i < self.stack@.len() && 0 <= k < self.stack@[i].cursor implies (
                        self.discovered@[other_end(
                            self.stack@[i].node as int,
                            self.graph@[self.stack@[i].node as int][k],
                        )] || ((self.awaiting is TreeEdge || self.awaiting is Enter) && i
                            == self.stack@.len() - 1 && k == self.stack@[i].cursor - 1)) by {
                        if i == top && k == f.cursor {
                        } else {
                            assert(old_self.stack@[i].node == self.stack@[i].node);
                            assert(k < old_self.stack@[i].cursor);
                        }
                    }
                    assert forall|i: int| 0 <= i < self.stack@.len() implies !(
                    #[trigger] self.stack@[i]).pruned by {
                        assert(!old_self.stack@[i].pruned);
                    }
                }
            }
            assert(self.reach_ok());
        }
        e
    }

    /// Finishes the node on top of the path and removes it from the path.
    fn finish(&mut self) -> (e: DfsEvent<usize, W>)
        requires
            old(self).wf(),
            old(self).awaiting is Nothing,
            old(self).stack@.len() > 0,
            old(self).stack@.last().pruned || old(self).stack@.last().cursor == old(
                self,
            ).graph@[old(self).stack@.last().node as int].len(),
        ensures
            final(self).wf(),
            e == DfsEvent::<usize, W>::Finish(old(self).stack@.last().node, Time(old(self).time)),
            final(self).graph == old(self).graph,
            final(self).starts == old(self).starts,
            final(self).next_start == old(self).next_start,
            final(self).pruned_any == old(self).pruned_any,
            final(self).time == old(self).time,
            final(self).discovered@ == old(self).discovered@,
            final(self).discover_time@ == old(self).discover_time@,
            final(self).finished@ == old(self).finished@.update(
                old(self).stack@.last().node as int,
                true,
            ),
            final(self).finish_time@ == old(self).finish_time@.update(
                old(self).stack@.last().node as int,
                old(self).time as nat,
            ),
            final(self).stack@ == old(self).stack@.drop_last(),
            final(self).awaiting is Nothing,
            final(self).parent@ == old(self).parent@,
            final(self).ancestors@ == old(self).ancestors@,
            final(self).reported@ == old(self).reported@,
            final(self).log@ == old(self).log@,
    {
        let ghost old_self = *self;
        let ghost n = self.graph@.len();
        let ghost top = self.stack@.len() - 1;
        let f = self.stack.pop().unwrap();
        let u = f.node;
        self.finished.set(u, true);
        self.finish_time = Ghost(self.finish_time@.update(u as int, self.time as nat));
        proof {
            self.lemma_ancestry_finish(&old_self);
            self.lemma_report_finish(&old_self);
            self.lemma_log_finish(&old_self);
            assert(self.sizes_ok());
            assert(self.clock_ok());
            assert(self.nesting_ok()) by {
                assert forall|a: int, b: int|
                    0 <= a < n && 0 <= b < n && #[trigger] self.discovered@[a]
                        && #[trigger] self.discovered@[b] && self.discover_time@[a]
                        < self.discover_time@[b] && self.finished@[a] implies (self.finish_time@[a]
                    <= self.discover_time@[b] || (self.finished@[b] && self.finish_time@[b]
                    <= self.finish_time@[a])) by {
                    if a == u {
                        if !old_self.finished@[b] {
                            let i = choose|i: int|
                                0 <= i < old_self.stack@.len() && (#[trigger] old_self.stack@[i]).node
                                    == b;
                            if i < top {
                                assert(old_self.stack@[top].node == u);
                            }
                        }
                    }
                }
            }
            assert(self.stack_ok()) by {
                assert forall|vv: int|
                    0 <= vv < n && #[trigger] self.discovered@[vv] && !self.finished@[vv] implies exists|i: int|
                    0 <= i < self.stack@.len() && (#[trigger] self.stack@[i]).node == vv by {
                    let i = choose|i: int|
                        0 <= i < old_self.stack@.len() && (#[trigger] old_self.stack@[i]).node == vv;
                    assert(i != top);
                    assert(self.stack@[i] == old_self.stack@[i]);
                }
            }
            assert(self.awaiting_ok());
            assert(self.starts_ok());
            assert(self.closure_ok()) by {
                if !self.pruned_any@ {
                    assert(!old_self.stack@[top].pruned);
                    assert forall|uu: int, k: int|
                        0 <= uu < n && self.finished@[uu] && 0 <= k < self.graph@[uu].len()
                            implies self.discovered@[other_end(uu, #[trigger] self.graph@[uu][k])] by {
                        if uu == u {
                            assert(old_self.stack@[top].node == u);
                            assert(k < old_self.stack@[top].cursor);
                        }
                    }
                }
            }
            assert(self.reach_ok());
        }
        DfsEvent::Finish(u, Time(self.time))
    }
}


/// The events still to come for one node of the path: its unexamined edges
/// (none when skipped) and its `Finish`.
spec fn frame_work<W>(g: Seq<Seq<EdgeRef<W>>>, f: Frame) -> nat {
    if f.pruned || f.cursor >= g[f.node as int].len() {
        1
    } else {
        (1 + g[f.node as int].len() - f.cursor) as nat
    }
}

spec fn stack_work<W>(g: Seq<Seq<EdgeRef<W>>>, s: Seq<Frame>) -> nat
    decreases s.len(),
{
    if s.len() == 0 {
        0
    } else {
        stack_work(g, s.drop_last()) + frame_work(g, s.last())
    }
}

impl<'a, W> DfsTraversal<'a, W> {
    /// Start nodes not yet taken up.
    pub closed spec fn starts_left(&self) -> nat {
        (self.starts@.len() - self.next_start) as nat
    }

    /// Nodes not yet discovered.
    pub closed spec fn undiscovered(&self) -> nat {
        (self.graph@.len() - self.time) as nat
    }

    /// Events still to come for the nodes on the path.
    pub closed spec fn path_work(&self) -> nat {
        stack_work(self.graph@, self.stack@)
    }

    /// The search made progress from `o` to `self`: lexicographically fewer
    /// start nodes left, undiscovered nodes, and events left on the path.
    pub open spec fn progressed_from(&self, o: &Self) -> bool {
        ||| self.starts_left() < o.starts_left()
        ||| self.starts_left() == o.starts_left() && self.undiscovered() < o.undiscovered()
        ||| self.starts_left() == o.starts_left() && self.undiscovered() == o.undiscovered()
            && self.path_work() < o.path_work()
    }

    /// `self` and `o` are at the same point of the same search, except
    /// perhaps for what they wait for.
    pub open spec fn same_progress(&self, o: &Self) -> bool {
        &&& self.graph_view() == o.graph_view()
        &&& self.starts_view() == o.starts_view()
        &&& self.starts_taken() == o.starts_taken()
        &&& self.clock() == o.clock()
        &&& self.discovered_flags() == o.discovered_flags()
        &&& self.finished_flags() == o.finished_flags()
        &&& self.discover_times() == o.discover_times()
        &&& self.finish_times() == o.finish_times()
        &&& self.path() == o.path()
        &&& self.examined() == o.examined()
    }

    /// The edge event `(u, v, w)` examines the next edge of the node on top
    /// of the path of `o`, and `self` records that it was examined.
    pub open spec fn examines(&self, o: &Self, u: usize, v: usize, w: W) -> bool {
        let last = o.path().len() - 1;
        let k = o.examined()[last];
        let edge = o.graph_view()[u as int][k as int];
        &&& o.path().len() > 0
        &&& u == o.path()[last]
        &&& !o.skipped()[last]
        &&& k < o.graph_view()[u as int].len()
        &&& v == other_end(u as int, edge)
        &&& w == edge.2
        &&& self.graph_view() == o.graph_view()
        &&& self.starts_view() == o.starts_view()
        &&& self.starts_taken() == o.starts_taken()
        &&& self.clock() == o.clock()
        &&& self.discovered_flags() == o.discovered_flags()
        &&& self.finished_flags() == o.finished_flags()
        &&& self.discover_times() == o.discover_times()
        &&& self.finish_times() == o.finish_times()
        &&& self.path() == o.path()
        &&& self.skipped() == o.skipped()
        &&& self.examined() == o.examined().update(last, k + 1)
        &&& o.edges_reported()[u as int] == k
        &&& self.edges_reported() == o.edges_reported().update(u as int, k + 1)
    }

    /// `self` records `e` as the event of the next edge of `u` in `o`.
    pub open spec fn logs(&self, o: &Self, u: usize, e: DfsEvent<usize, W>) -> bool {
        let k = o.edges_reported()[u as int];
        self.edge_events() == o.edge_events().update(
            u as int,
            o.edge_events()[u as int].update(k as int, e),
        )
    }
}

/// `e` is the `Discover` event of `v`.
pub open spec fn discovers<W>(e: DfsEvent<usize, W>, v: int) -> bool {
    e matches DfsEvent::Discover(x, _) && x as int == v
}

/// `e` is the `Finish` event of `v`.
pub open spec fn finishes<W>(e: DfsEvent<usize, W>, v: int) -> bool {
    e matches DfsEvent::Finish(x, _) && x as int == v
}

/// The node a `Discover` or `Finish` event names (the source of an edge
/// event).
pub open spec fn event_node<W>(e: DfsEvent<usize, W>) -> int {
    match e {
        DfsEvent::Discover(x, _) => x as int,
        DfsEvent::Finish(x, _) => x as int,
        DfsEvent::TreeEdge(u, _, _) => u as int,
        DfsEvent::BackEdge(u, _, _) => u as int,
        DfsEvent::ForwardEdge(u, _, _) => u as int,
        DfsEvent::CrossEdge(u, _, _) => u as int,
    }
}

/// The source, target and weight of an edge event.
pub open spec fn edge_of<W>(e: DfsEvent<usize, W>) -> Option<(usize, usize, W)> {
    match e {
        DfsEvent::TreeEdge(u, v, w) => Some((u, v, w)),
        DfsEvent::BackEdge(u, v, w) => Some((u, v, w)),
        DfsEvent::ForwardEdge(u, v, w) => Some((u, v, w)),
        DfsEvent::CrossEdge(u, v, w) => Some((u, v, w)),
        _ => None,
    }
}

/// The time a `Discover` or `Finish` event carries (0 for edge events).
pub open spec fn event_time<W>(e: DfsEvent<usize, W>) -> nat {
    match e {
        DfsEvent::Discover(_, t) => t.0 as nat,
        DfsEvent::Finish(_, t) => t.0 as nat,
        _ => 0,
    }
}

impl<'a, W: Copy> DfsTraversal<'a, W> {
    /// `self` is a search of `g` from `starts` that has produced no event yet.
    pub open spec fn is_fresh(&self, g: Seq<Seq<EdgeRef<W>>>, starts: Seq<usize>) -> bool {
        &&& self.wf()
        &&& self.graph_view() == g
        &&& self.starts_view() == starts
        &&& self.starts_taken() == 0
        &&& self.clock() == 0
        &&& self.discovered_flags() == Seq::new(g.len(), |i: int| false)
        &&& self.finished_flags() == Seq::new(g.len(), |i: int| false)
        &&& self.path().len() == 0
        &&& !self.awaiting_reply()
        &&& self.entering() is None
        &&& !self.pruned_any()
    }

    /// `self` is `o` after `reply(prune)`.
    pub open spec fn replied(&self, o: &Self, prune: bool) -> bool {
        &&& self.wf()
        &&& self.same_progress(o)
        &&& self.tree_parents() == o.tree_parents()
        &&& self.edges_reported() == o.edges_reported()
        &&& self.edge_events() == o.edge_events()
        &&& !self.awaiting_reply()
        &&& self.starts_left() == o.starts_left()
        &&& self.undiscovered() == o.undiscovered()
        &&& self.path_work() <= o.path_work()
        &&& !o.awaiting_reply() ==> *self == *o
        &&& o.awaiting_discovery_reply() ==> {
            &&& self.entering() is None
            &&& self.skipped() == if prune {
                o.skipped().update(o.path().len() - 1, true)
            } else {
                o.skipped()
            }
            &&& self.pruned_any() == (o.pruned_any() || prune)
        }
        &&& o.awaiting_tree_edge_reply() matches Some(v) ==> {
            &&& self.entering() == if prune {
                None
            } else {
                Some(v)
            }
            &&& self.skipped() == o.skipped()
            &&& self.pruned_any() == (o.pruned_any() || prune)
        }
    }

    /// The search has nothing left to do: `advance` now ends it.
    pub open spec fn search_over(&self) -> bool {
        &&& self.entering() is None
        &&& self.path().len() == 0
        &&& forall|i: int|
            self.starts_taken() <= i < self.starts_view().len() ==> self.discovered_flags()[
                #[trigger] self.starts_view()[i] as int]
    }

    /// A search of `g` from `starts` as it went: from the fresh state
    /// `ts[0]`, each `advance` took `ts[i]` to `us[i]` and produced the event
    /// `es[i]`, which got the answer `cs[i]`; unless that answer was `Break`,
    /// `reply` (pruning on `Prune`) then took `us[i]` to `ts[i + 1]`.  Only the
    /// last answer may be `Break`.
    pub open spec fn is_run<B>(
        g: Seq<Seq<EdgeRef<W>>>,
        starts: Seq<usize>,
        ts: Seq<Self>,
        us: Seq<Self>,
        es: Seq<DfsEvent<usize, W>>,
        cs: Seq<Control<B>>,
    ) -> bool {
        &&& ts.len() == es.len() + 1
        &&& us.len() == es.len()
        &&& cs.len() == es.len()
        &&& ts[0].is_fresh(g, starts)
        &&& forall|i: int|
            #![trigger us[i]]
            0 <= i < es.len() ==> us[i].advanced_from(&ts[i], Some(es[i]))
        &&& forall|i: int|
            #![trigger us[i]]
            0 <= i < es.len() && !(cs[i] is Break) ==> ts[i + 1].replied(&us[i], cs[i] is Prune)
        &&& forall|i: int| 0 <= i < es.len() - 1 ==> !(#[trigger] cs[i] is Break)
    }

    /// Every state of a run of a search of `g` from `starts` is consistent
    /// and searches `g` from `starts`, so the laws of this type hold of each
    /// of them; the events fix their times: `Discover(v, t)` gives `v` the
    /// discover time `t`, `Finish(u, t)` gives `u` the finish time `t`.
    pub proof fn lemma_run_states<B>(
        g: Seq<Seq<EdgeRef<W>>>,
        starts: Seq<usize>,
        ts: Seq<Self>,
        us: Seq<Self>,
        es: Seq<DfsEvent<usize, W>>,
        cs: Seq<Control<B>>,
        i: int,
    )
        requires
            Self::is_run(g, starts, ts, us, es, cs),
            0 <= i <= es.len(),
            i == 0 || !(cs[i - 1] is Break),
        ensures
            ts[i].wf(),
            ts[i].graph_view() == g,
            ts[i].starts_view() == starts,
            i < es.len() ==> us[i].wf() && us[i].graph_view() == g && us[i].starts_view() == starts,
            i < es.len() ==> match es[i] {
                DfsEvent::Discover(v, t) => us[i].discover_times()[v as int] == t.0 && us[i].discovered_flags()[v as int],
                DfsEvent::Finish(u, t) => us[i].finish_times()[u as int] == t.0 && us[i].finished_flags()[u as int],
                _ => true,
            },
        decreases i,
    {
        if i > 0 {
            if i - 1 > 0 {
                assert(!(cs[i - 2] is Break));
            }
            Self::lemma_run_states(g, starts, ts, us, es, cs, i - 1);
            assert(us[i - 1].advanced_from(&ts[i - 1], Some(es[i - 1])));
            assert(ts[i].replied(&us[i - 1], cs[i - 1] is Prune));
        }
        if i < es.len() {
            assert(us[i].advanced_from(&ts[i], Some(es[i])));
        }
    }

    /// Over a run, a state has discovered (finished) a node exactly when an
    /// earlier event discovered (finished) it, and each discovered node keeps
    /// the time its `Discover` event carried.
    pub proof fn lemma_run_history<B>(
        g: Seq<Seq<EdgeRef<W>>>,
        starts: Seq<usize>,
        ts: Seq<Self>,
        us: Seq<Self>,
        es: Seq<DfsEvent<usize, W>>,
        cs: Seq<Control<B>>,
        i: int,
    )
        requires
            Self::is_run(g, starts, ts, us, es, cs),
            0 <= i <= es.len(),
            i == 0 || !(cs[i - 1] is Break),
        ensures
            forall|v: int|
                0 <= v < g.len() ==> (ts[i].discovered_flags()[v] <==> exists|j: int|
                    0 <= j < i && #[trigger] discovers(es[j], v)),
            forall|v: int|
                0 <= v < g.len() ==> (ts[i].finished_flags()[v] <==> exists|j: int|
                    0 <= j < i && #[trigger] finishes(es[j], v)),
            forall|j: int|
                0 <= j < i && #[trigger] es[j] is Discover ==> ts[i].discover_times()[event_node(
                    es[j],
                )] == event_time(es[j]),
        decreases i,
    {
        Self::lemma_run_states(g, starts, ts, us, es, cs, i);
        if i == 0 {
            assert(ts[0].is_fresh(g, starts));
        } else {
            let k = i - 1;
            if k > 0 {
                assert(!(cs[k - 1] is Break));
            }
            Self::lemma_run_history(g, starts, ts, us, es, cs, k);
            Self::lemma_run_states(g, starts, ts, us, es, cs, k);
            let o = ts[k];
            let u = us[k];
            let t = ts[i];
            assert(u.advanced_from(&o, Some(es[k])));
            assert(t.replied(&u, cs[k] is Prune));
            assert(t.discovered_flags() == u.discovered_flags());
            assert(t.finished_flags() == u.finished_flags());
            assert(t.discover_times() == u.discover_times());
            assert forall|v: int| 0 <= v < g.len() implies (t.discovered_flags()[v] <==> exists|j: int|
                0 <= j < i && #[trigger] discovers(es[j], v)) by {
                if exists|j: int| 0 <= j < i && #[trigger] discovers(es[j], v) {
                    let j = choose|j: int| 0 <= j < i && #[trigger] discovers(es[j], v);
                    if j < k {
                        assert(o.discovered_flags()[v]);
                    }
                }
                if t.discovered_flags()[v] && !o.discovered_flags()[v] {
                    assert(discovers(es[k], v));
                }
            }
            assert forall|v: int| 0 <= v < g.len() implies (t.finished_flags()[v] <==> exists|j: int|
                0 <= j < i && #[trigger] finishes(es[j], v)) by {
                if exists|j: int| 0 <= j < i && #[trigger] finishes(es[j], v) {
                    let j = choose|j: int| 0 <= j < i && #[trigger] finishes(es[j], v);
                    if j < k {
                        assert(o.finished_flags()[v]);
                    }
                }
                if t.finished_flags()[v] && !o.finished_flags()[v] {
                    assert(finishes(es[k], v));
                }
            }
            assert forall|j: int| 0 <= j < i && #[trigger] es[j] is Discover implies t.discover_times()[event_node(
                es[j],
            )] == event_time(es[j]) by {
                let x = event_node(es[j]);
                if j > 0 {
                    assert(!(cs[j - 1] is Break));
                }
                Self::lemma_run_states(g, starts, ts, us, es, cs, j);
                assert(us[j].advanced_from(&ts[j], Some(es[j])));
                assert(0 <= x < g.len());
                assert(discovers(es[j], x));
                if j < k {
                    assert(o.discovered_flags()[x]);
                    assert(o.discover_times()[x] == event_time(es[j]));
                    assert(x != event_node(es[k]) || !(es[k] is Discover));
                } else {
                    assert(u.discover_times()[x] == event_time(es[j]));
                }
            }
        }
    }

    /// The events of a run in order: a `Discover` is of a node no earlier
    /// event discovered; an edge event comes from a node discovered and not
    /// finished before it, and is a tree edge to a node not discovered
    /// before, a back edge to one discovered and not finished, a forward edge
    /// to one finished and discovered later than its source, or a cross edge
    /// to one finished and discovered no later; a tree edge answered with
    /// `Continue` is followed by the `Discover` of the node it leads to, and
    /// one answered with `Prune` leaves that node undiscovered; a `Finish` is
    /// of a node discovered and not finished before it.  An edge event
    /// `(u, v, w)` names an edge listed at `u` in the graph, of weight `w`,
    /// whose other end is `v`.
    pub proof fn lemma_run_events<B>(
        g: Seq<Seq<EdgeRef<W>>>,
        starts: Seq<usize>,
        ts: Seq<Self>,
        us: Seq<Self>,
        es: Seq<DfsEvent<usize, W>>,
        cs: Seq<Control<B>>,
        i: int,
    )
        requires
            Self::is_run(g, starts, ts, us, es, cs),
            0 <= i < es.len(),
        ensures
            ({
                let seen = |v: int| exists|j: int| 0 <= j < i && #[trigger] discovers(es[j], v);
                let done = |v: int| exists|j: int| 0 <= j < i && #[trigger] finishes(es[j], v);
                match es[i] {
                    DfsEvent::Discover(x, _) => !seen(x as int),
                    DfsEvent::Finish(x, _) => seen(x as int) && !done(x as int),
                    DfsEvent::TreeEdge(u, v, _) => {
                        &&& seen(u as int) && !done(u as int)
                        &&& !seen(v as int)
                        &&& (cs[i] is Continue && i + 1 < es.len()) ==> discovers(es[i + 1], v as int)
                        &&& cs[i] is Prune ==> !ts[i + 1].discovered_flags()[v as int]
                    },
                    DfsEvent::BackEdge(u, v, _) => {
                        &&& seen(u as int) && !done(u as int)
                        &&& seen(v as int) && !done(v as int)
                    },
                    DfsEvent::ForwardEdge(u, v, _) => {
                        &&& seen(u as int) && !done(u as int)
                        &&& done(v as int)
                        &&& exists|j1: int, j2: int|
                            0 <= j1 < i && 0 <= j2 < i && #[trigger] discovers(es[j1], u as int)
                                && #[trigger] discovers(es[j2], v as int) && event_time(es[j1])
                                < event_time(es[j2])
                    },
                    DfsEvent::CrossEdge(u, v, _) => {
                        &&& seen(u as int) && !done(u as int)
                        &&& done(v as int)
                        &&& exists|j1: int, j2: int|
                            0 <= j1 < i && 0 <= j2 < i && #[trigger] discovers(es[j1], u as int)
                                && #[trigger] discovers(es[j2], v as int) && event_time(es[j2])
                                <= event_time(es[j1])
                    },
                }
            }),
            edge_of(es[i]) matches Some((a, b, w)) ==> exists|k: int|
                0 <= k < g[a as int].len() && other_end(a as int, #[trigger] g[a as int][k]) == b
                    && g[a as int][k].2 == w,
    {
        if i > 0 {
            assert(!(cs[i - 1] is Break));
        }
        Self::lemma_run_states(g, starts, ts, us, es, cs, i);
        Self::lemma_run_history(g, starts, ts, us, es, cs, i);
        let o = ts[i];
        let u = us[i];
        assert(u.advanced_from(&o, Some(es[i])));
        o.lemma_path_views();
        if let Some((a, b, w)) = edge_of(es[i]) {
            let last = o.path().len() - 1;
            let k = o.examined()[last] as int;
            assert(0 <= k < g[a as int].len() && other_end(a as int, g[a as int][k]) == b && g[
                a as int][k].2 == w);
        }
        match es[i] {
            DfsEvent::Discover(x, _) => {},
            DfsEvent::Finish(x, _) => {
                assert(o.path()[o.path().len() - 1] == x);
            },
            DfsEvent::TreeEdge(a, b, _) => {
                assert(o.path()[o.path().len() - 1] == a);
                if !(cs[i] is Break) {
                    assert(ts[i + 1].replied(&u, cs[i] is Prune));
                    if cs[i] is Continue && i + 1 < es.len() {
                        Self::lemma_run_states(g, starts, ts, us, es, cs, i + 1);
                        assert(us[i + 1].advanced_from(&ts[i + 1], Some(es[i + 1])));
                        assert(ts[i + 1].entering() == Some(b));
                    }
                }
            },
            DfsEvent::BackEdge(a, b, _) => {
                assert(o.path()[o.path().len() - 1] == a);
            },
            DfsEvent::ForwardEdge(a, b, _) => {
                assert(o.path()[o.path().len() - 1] == a);
                let j1 = choose|j: int| 0 <= j < i && #[trigger] discovers(es[j], a as int);
                let j2 = choose|j: int| 0 <= j < i && #[trigger] discovers(es[j], b as int);
                assert(es[j1] is Discover && es[j2] is Discover);
            },
            DfsEvent::CrossEdge(a, b, _) => {
                assert(o.path()[o.path().len() - 1] == a);
                let j1 = choose|j: int| 0 <= j < i && #[trigger] discovers(es[j], a as int);
                let j2 = choose|j: int| 0 <= j < i && #[trigger] discovers(es[j], b as int);
                assert(es[j1] is Discover && es[j2] is Discover);
            },
        }
    }

    /// `r` is what `advance` may produce from `o`, leading to `self`.
    pub open spec fn advanced_from(&self, o: &Self, r: Option<DfsEvent<usize, W>>) -> bool {
        &&& self.wf()
        &&& self.graph_view() == o.graph_view()
        &&& self.starts_view() == o.starts_view()
        &&& self.pruned_any() == o.pruned_any()
        &&& match r {
            None => {
                &&& o.entering() is None
                &&& o.path().len() == 0
                &&& forall|i: int|
                    o.starts_taken() <= i < o.starts_view().len()
                        ==> o.discovered_flags()[#[trigger] o.starts_view()[i] as int]
                &&& self.starts_taken() == o.starts_view().len()
                &&& self.clock() == o.clock()
                &&& self.discovered_flags() == o.discovered_flags()
                &&& self.finished_flags() == o.finished_flags()
                &&& self.discover_times() == o.discover_times()
                &&& self.finish_times() == o.finish_times()
                &&& self.path().len() == 0
                &&& self.edges_reported() == o.edges_reported()
                &&& self.edge_events() == o.edge_events()
                &&& !self.awaiting_reply()
            },
            Some(DfsEvent::Discover(v, t)) => {
                &&& v < o.graph_view().len()
                &&& !o.discovered_flags()[v as int]
                &&& t.0 == o.clock()
                &&& self.clock() == o.clock() + 1
                &&& self.discovered_flags() == o.discovered_flags().update(
                    v as int,
                    true,
                )
                &&& self.discover_times() == o.discover_times().update(
                    v as int,
                    t.0,
                )
                &&& self.finished_flags() == o.finished_flags()
                &&& self.finish_times() == o.finish_times()
                &&& self.path() == o.path().push(v)
                &&& self.examined() == o.examined().push(0)
                &&& self.skipped() == o.skipped().push(false)
                &&& self.edges_reported() == o.edges_reported()
                &&& self.edge_events() == o.edge_events()
                &&& self.awaiting_discovery_reply()
                &&& (o.entering() == Some(v) && self.starts_taken() == o.starts_taken()) || (o.entering() is None && o.path().len()
                    == 0 && o.starts_taken() < self.starts_taken() && o.starts_view()[self.starts_taken() - 1] == v && forall|i: int|
                    o.starts_taken() <= i < self.starts_taken() - 1
                        ==> o.discovered_flags()[#[trigger] o.starts_view()[i] as int])
            },
            Some(DfsEvent::TreeEdge(u, v, w)) => {
                &&& o.entering() is None
                &&& self.examines(o, u, v, w)
                &&& self.logs(o, u, DfsEvent::TreeEdge(u, v, w))
                &&& !o.discovered_flags()[v as int]
                &&& self.awaiting_tree_edge_reply() == Some(v)
            },
            Some(DfsEvent::BackEdge(u, v, w)) => {
                &&& o.entering() is None
                &&& self.examines(o, u, v, w)
                &&& self.logs(o, u, DfsEvent::BackEdge(u, v, w))
                &&& o.discovered_flags()[v as int]
                &&& !o.finished_flags()[v as int]
                &&& !self.awaiting_reply()
            },
            Some(DfsEvent::ForwardEdge(u, v, w)) => {
                &&& o.entering() is None
                &&& self.examines(o, u, v, w)
                &&& self.logs(o, u, DfsEvent::ForwardEdge(u, v, w))
                &&& o.finished_flags()[v as int]
                &&& o.discover_times()[u as int] < o.discover_times()[v as int]
                &&& !self.awaiting_reply()
            },
            Some(DfsEvent::CrossEdge(u, v, w)) => {
                &&& o.entering() is None
                &&& self.examines(o, u, v, w)
                &&& self.logs(o, u, DfsEvent::CrossEdge(u, v, w))
                &&& o.finished_flags()[v as int]
                &&& o.discover_times()[u as int] >= o.discover_times()[v as int]
                &&& !self.awaiting_reply()
            },
            Some(DfsEvent::Finish(u, t)) => {
                let last = o.path().len() - 1;
                &&& o.entering() is None
                &&& o.path().len() > 0
                &&& u == o.path()[last]
                &&& (o.skipped()[last] || o.examined()[last] == o.graph_view()[u as int].len())
                &&& t.0 == o.clock()
                &&& self.clock() == o.clock()
                &&& self.starts_taken() == o.starts_taken()
                &&& self.discovered_flags() == o.discovered_flags()
                &&& self.discover_times() == o.discover_times()
                &&& self.finished_flags() == o.finished_flags().update(
                    u as int,
                    true,
                )
                &&& self.finish_times() == o.finish_times().update(
                    u as int,
                    t.0 as nat,
                )
                &&& self.path() == o.path().drop_last()
                &&& self.examined() == o.examined().drop_last()
                &&& self.skipped() == o.skipped().drop_last()
                &&& self.edges_reported() == o.edges_reported()
                &&& self.edge_events() == o.edge_events()
                &&& !self.awaiting_reply()
            },
        }
    }

    /// Produces the next event of the search, or `None` once every start
    /// node has been taken up and the path is empty.
    pub fn advance(&mut self) -> (r: Option<DfsEvent<usize, W>>)
        requires
            old(self).wf(),
            !old(self).awaiting_reply(),
        ensures
            final(self).wf(),
            final(self).graph_view() == old(self).graph_view(),
            final(self).starts_view() == old(self).starts_view(),
            final(self).pruned_any() == old(self).pruned_any(),
            final(self).entering() is None,
            r is Some ==> final(self).progressed_from(&*old(self)),
            final(self).advanced_from(&*old(self), r),
            final(self).tree_parents() == match r {
                Some(DfsEvent::Discover(v, _)) => old(self).tree_parents().update(
                    v as int,
                    if old(self).path().len() == 0 {
                        -1int
                    } else {
                        old(self).path().last() as int
                    },
                ),
                _ => old(self).tree_parents(),
            },
    {
        let ghost old_self = *self;
        if let Awaiting::Enter(v) = self.awaiting {
            let e = self.discover(v);
            proof {
                lemma_count_set(old_self.discovered@, v as int);
                self.lemma_views_push(&old_self, Frame { node: v, cursor: 0, pruned: false });
            }
            return Some(e);
        }
        if self.stack.len() > 0 {
            Some(self.step_path())
        } else {
            self.take_start()
        }
    }

    /// The next event from the node on top of the path.
    #[verifier::rlimit(30)]
    fn step_path(&mut self) -> (e: DfsEvent<usize, W>)
        requires
            old(self).wf(),
            old(self).awaiting is Nothing,
            old(self).stack@.len() > 0,
        ensures
            final(self).wf(),
            final(self).graph_view() == old(self).graph_view(),
            final(self).starts_view() == old(self).starts_view(),
            final(self).pruned_any() == old(self).pruned_any(),
            final(self).entering() is None,
            final(self).progressed_from(&*old(self)),
            final(self).advanced_from(&*old(self), Some(e)),
            final(self).tree_parents() == old(self).tree_parents(),
    {
        let ghost old_self = *self;
        let top = self.stack.len() - 1;
        let f = self.stack[top];
        let len = self.graph.incident_edges(f.node).len();
        if !f.pruned && f.cursor < len {
            assert(f.cursor < usize::MAX);
            let e = self.examine();
            proof {
                self.lemma_views_update(&old_self, top as int);
            }
            e
        } else {
            let e = self.finish();
            proof {
                self.lemma_views_pop(&old_self);
            }
            e
        }
    }

    /// With the path empty: discovers the next start node not yet
    /// discovered, or ends the search.
    #[verifier::rlimit(30)]
    fn take_start(&mut self) -> (r: Option<DfsEvent<usize, W>>)
        requires
            old(self).wf(),
            old(self).awaiting is Nothing,
            old(self).stack@.len() == 0,
        ensures
            final(self).wf(),
            final(self).graph_view() == old(self).graph_view(),
            final(self).starts_view() == old(self).starts_view(),
            final(self).pruned_any() == old(self).pruned_any(),
            final(self).entering() is None,
            r is Some ==> final(self).progressed_from(&*old(self)),
            final(self).advanced_from(&*old(self), r),
            final(self).tree_parents() == match r {
                Some(DfsEvent::Discover(v, _)) => old(self).tree_parents().update(v as int, -1int),
                _ => old(self).tree_parents(),
            },
    {
        let ghost old_self = *self;
        assert(old_self.path().len() == 0);
        loop
            invariant
                old_self == *old(self),
                self.wf(),
                self.awaiting is Nothing,
                old_self.wf(),
                old_self.awaiting is Nothing,
                old_self.stack@.len() == 0,
                self.graph == old_self.graph,
                self.starts == old_self.starts,
                self.pruned_any == old_self.pruned_any,
                self.time == old_self.time,
                self.discovered@ == old_self.discovered@,
                self.finished@ == old_self.finished@,
                self.discover_time@ == old_self.discover_time@,
                self.finish_time@ == old_self.finish_time@,
                self.stack@ == old_self.stack@,
                self.parent@ == old_self.parent@,
                self.reported@ == old_self.reported@,
                self.log@ == old_self.log@,
                old_self.next_start <= self.next_start,
                forall|i: int|
                    old_self.next_start <= i < self.next_start ==> old_self.discovered@[
                        #[trigger] old_self.starts@[i] as int],
            decreases self.starts@.len() - self.next_start,
        {
            if self.next_start >= self.starts.len() {
                proof {
                    assert(self.path() =~= old_self.path());
                }
                return None;
            }
            let s = self.starts[self.next_start];
            let ghost before = *self;
            self.next_start = self.next_start + 1;
            proof {
                self.lemma_ancestry_same_path(&before);
                self.lemma_report_same(&before);
                self.lemma_log_same(&before);
            }
            if !self.discovered[s] {
                let e = self.discover(s);
                proof {
                    lemma_count_set(old_self.discovered@, s as int);
                    self.lemma_views_push(&old_self, Frame { node: s, cursor: 0, pruned: false });
                }
                return Some(e);
            }
        }
    }

    /// Answers the last event: `prune` skips the edges of the node just
    /// discovered, or the node a tree edge leads to.  Without a pending
    /// `Discover` or `TreeEdge` event, nothing changes.
    pub fn reply(&mut self, prune: bool)
        requires
            old(self).wf(),
        ensures
            final(self).wf(),
            final(self).same_progress(&*old(self)),
            final(self).tree_parents() == old(self).tree_parents(),
            final(self).edges_reported() == old(self).edges_reported(),
            final(self).edge_events() == old(self).edge_events(),
            !final(self).awaiting_reply(),
            final(self).starts_left() == old(self).starts_left(),
            final(self).undiscovered() == old(self).undiscovered(),
            final(self).path_work() <= old(self).path_work(),
            !old(self).awaiting_reply() ==> *final(self) == *old(self),
            old(self).awaiting_discovery_reply() ==> {
                &&& final(self).entering() is None
                &&& final(self).skipped() == if prune {
                    old(self).skipped().update(old(self).path().len() - 1, true)
                } else {
                    old(self).skipped()
                }
                &&& final(self).pruned_any() == (old(self).pruned_any() || prune)
            },
            old(self).awaiting_tree_edge_reply() matches Some(v) ==> {
                &&& final(self).entering() == if prune {
                    None
                } else {
                    Some(v)
                }
                &&& final(self).skipped() == old(self).skipped()
                &&& final(self).pruned_any() == (old(self).pruned_any() || prune)
            },
            final(self).replied(&*old(self), prune),
    {
        let ghost old_self = *self;
        match self.awaiting {
            Awaiting::Discovery => {
                self.awaiting = Awaiting::Nothing;
                if prune {
                    let top = self.stack.len() - 1;
                    let f = self.stack[top];
                    self.stack.set(top, Frame { node: f.node, cursor: f.cursor, pruned: true });
                    self.pruned_any = Ghost(true);
                    proof {
                        self.lemma_ancestry_same_path(&old_self);
                        assert(self.path() =~= old_self.path());
                        assert(self.examined() =~= old_self.examined());
                        assert(self.skipped() =~= old_self.skipped().update(top as int, true));
                        assert(self.stack@.drop_last() =~= old_self.stack@.drop_last());
                        assert(self.stack_ok()) by {
                            assert forall|vv: int|
                                0 <= vv < self.graph@.len() && #[trigger] self.discovered@[vv]
                                    && !self.finished@[vv] implies exists|i: int|
                                0 <= i < self.stack@.len() && (#[trigger] self.stack@[i]).node == vv by {
                                let i = choose|i: int|
                                    0 <= i < old_self.stack@.len() && (
                                    #[trigger] old_self.stack@[i]).node == vv;
                                assert(self.stack@[i].node == vv);
                            }
                            assert forall|i: int, j: int|
                                0 <= i < j < self.stack@.len() implies self.discover_time@[(
                                #[trigger] self.stack@[i]).node as int] < self.discover_time@[(
                                #[trigger] self.stack@[j]).node as int] by {
                                assert(old_self.stack@[i].node == self.stack@[i].node);
                                assert(old_self.stack@[j].node == self.stack@[j].node);
                            }
                        }
                    }
                }
            },
            Awaiting::TreeEdge(v) => {
                if prune {
                    self.awaiting = Awaiting::Nothing;
                    self.pruned_any = Ghost(true);
                } else {
                    self.awaiting = Awaiting::Enter(v);
                }
            },
            _ => {},
        }
        proof {
            self.lemma_ancestry_same_path(&old_self);
            self.lemma_report_same(&old_self);
            self.lemma_log_same(&old_self);
        }
    }
}

impl<'a, W> DfsTraversal<'a, W> {
    proof fn lemma_views_push(&self, o: &Self, f: Frame)
        requires
            self.stack@ == o.stack@.push(f),
            self.graph@ == o.graph@,
            f.cursor == 0,
            !f.pruned,
        ensures
            self.path() == o.path().push(f.node),
            self.examined() == o.examined().push(0),
            self.skipped() == o.skipped().push(false),
            self.path_work() == o.path_work() + frame_work(o.graph@, f),
    {
        assert(self.path() =~= o.path().push(f.node));
        assert(self.examined() =~= o.examined().push(0));
        assert(self.skipped() =~= o.skipped().push(false));
        assert(self.stack@.drop_last() =~= o.stack@);
    }

    proof fn lemma_views_update(&self, o: &Self, i: int)
        requires
            o.stack@.len() > 0,
            i == o.stack@.len() - 1,
            self.graph@ == o.graph@,
            self.stack@ == o.stack@.update(
                i,
                Frame { node: o.stack@[i].node, cursor: (o.stack@[i].cursor + 1) as usize, pruned: false },
            ),
            !o.stack@[i].pruned,
            o.stack@[i].cursor < o.graph@[o.stack@[i].node as int].len(),
            o.stack@[i].cursor + 1 <= usize::MAX,
        ensures
            self.path() == o.path(),
            self.skipped() == o.skipped(),
            self.examined() == o.examined().update(i, o.examined()[i] + 1),
            self.path_work() < o.path_work(),
    {
        assert(self.path() =~= o.path());
        assert(self.skipped() =~= o.skipped());
        assert(self.examined() =~= o.examined().update(i, o.examined()[i] + 1));
        assert(self.stack@.drop_last() =~= o.stack@.drop_last());
    }

    proof fn lemma_views_pop(&self, o: &Self)
        requires
            o.stack@.len() > 0,
            self.stack@ == o.stack@.drop_last(),
            self.graph@ == o.graph@,
        ensures
            self.path() == o.path().drop_last(),
            self.skipped() == o.skipped().drop_last(),
            self.examined() == o.examined().drop_last(),
            self.path_work() < o.path_work(),
    {
        assert(self.path() =~= o.path().drop_last());
        assert(self.skipped() =~= o.skipped().drop_last());
        assert(self.examined() =~= o.examined().drop_last());
    }
}

impl<'a, W> DfsTraversal<'a, W> {
    /// Discover times are distinct and lie before the clock; a finished node
    /// finished after it was discovered and no later than the clock; a node
    /// discovered but not finished is on the path.
    pub proof fn lemma_times(&self, u: int, v: int)
        requires
            self.wf(),
            0 <= u < self.graph_view().len(),
            0 <= v < self.graph_view().len(),
            self.discovered_flags()[u],
        ensures
            self.discover_times()[u] < self.clock(),
            self.finished_flags()[u] ==> self.discover_times()[u] < self.finish_times()[u]
                <= self.clock(),
            !self.finished_flags()[u] ==> self.path().contains(u as usize),
            self.discovered_flags()[v] && u != v ==> self.discover_times()[u]
                != self.discover_times()[v],
            self.finished_flags()[v] ==> self.discovered_flags()[v],
    {
        if !self.finished@[u] {
            let i = choose|i: int| 0 <= i < self.stack@.len() && (#[trigger] self.stack@[i]).node == u;
            assert(self.path()[i] == u as usize);
        }
    }

    /// Parenthesis theorem: of two discovered nodes, if the one discovered
    /// first is finished, then either it finished no later than the other was
    /// discovered (disjoint intervals), or the other is finished too, no later
    /// than it (nested intervals).
    pub proof fn lemma_parenthesis(&self, u: int, v: int)
        requires
            self.wf(),
            0 <= u < self.graph_view().len(),
            0 <= v < self.graph_view().len(),
            self.discovered_flags()[u],
            self.discovered_flags()[v],
            self.discover_times()[u] < self.discover_times()[v],
            self.finished_flags()[u],
        ensures
            self.finish_times()[u] <= self.discover_times()[v] || (self.finished_flags()[v]
                && self.discover_times()[v] < self.finish_times()[v] <= self.finish_times()[u]),
    {
    }

    /// Ancestry in the search forest: of two discovered nodes, `u` is an
    /// ancestor of `v` exactly when `u` was discovered before `v` and had not
    /// finished when `v` was discovered.  A start node has no ancestors; any
    /// other node has its tree parent and the parent's ancestors.
    pub proof fn lemma_ancestors(&self, u: int, v: int)
        requires
            self.wf(),
            0 <= u < self.graph_view().len(),
            0 <= v < self.graph_view().len(),
            self.discovered_flags()[u],
            self.discovered_flags()[v],
        ensures
            self.ancestor_sets()[v].contains(u) <==> (self.discover_times()[u]
                < self.discover_times()[v] && (!self.finished_flags()[u]
                || self.discover_times()[v] < self.finish_times()[u])),
            self.tree_parents()[v] < 0 ==> self.ancestor_sets()[v] == Set::<int>::empty(),
            self.tree_parents()[v] >= 0 ==> {
                let p = self.tree_parents()[v];
                &&& p < self.graph_view().len()
                &&& self.discovered_flags()[p]
                &&& self.ancestor_sets()[v] == self.ancestor_sets()[p].insert(p)
            },
    {
        reveal(DfsTraversal::ancestry_ok);
    }

    /// The views of the path have one entry per node on the path; every node
    /// on the path is discovered and not finished; a search that pruned
    /// nothing skips no node's edges.
    pub proof fn lemma_path_views(&self)
        ensures
            self.examined().len() == self.path().len(),
            self.skipped().len() == self.path().len(),
            self.wf() ==> forall|i: int|
                0 <= i < self.path().len() ==> #[trigger] self.path()[i] < self.graph_view().len()
                    && self.discovered_flags()[self.path()[i] as int]
                    && !self.finished_flags()[self.path()[i] as int],
            self.wf() && !self.pruned_any() ==> forall|i: int|
                0 <= i < self.path().len() ==> !#[trigger] self.skipped()[i],
    {
        if self.wf() {
            assert forall|i: int| 0 <= i < self.path().len() implies #[trigger] self.path()[i]
                < self.graph_view().len() && self.discovered_flags()[self.path()[i] as int]
                && !self.finished_flags()[self.path()[i] as int] by {
                assert(self.path()[i] == self.stack@[i].node);
            }
        }
        if self.wf() && !self.pruned_any() {
            assert forall|i: int| 0 <= i < self.path().len() implies !#[trigger] self.skipped()[i] by {
                assert(!self.stack@[i].pruned);
            }
        }
    }

    /// The nodes on the path were discovered in path order, and none is
    /// finished.
    pub proof fn lemma_path(&self, i: int, j: int)
        requires
            self.wf(),
            0 <= i < j < self.path().len(),
        ensures
            self.path()[j] < self.graph_view().len(),
            self.discovered_flags()[self.path()[j] as int],
            !self.finished_flags()[self.path()[j] as int],
            self.discover_times()[self.path()[i] as int] < self.discover_times()[self.path()[j] as int],
    {
        assert(self.path()[i] == self.stack@[i].node);
        assert(self.path()[j] == self.stack@[j].node);
    }

    /// Edge reports: a node's count of reported edges is zero until the node
    /// is discovered, equals the number of its edges examined while it is on
    /// the path, never exceeds its degree, and equals its degree once it
    /// finishes in a search that pruned nothing.
    pub proof fn lemma_edges_reported(&self, v: int)
        requires
            self.wf(),
            0 <= v < self.graph_view().len(),
        ensures
            self.edges_reported().len() == self.graph_view().len(),
            self.edges_reported()[v] <= self.graph_view()[v].len(),
            !self.discovered_flags()[v] ==> self.edges_reported()[v] == 0,
            forall|i: int|
                0 <= i < self.path().len() && #[trigger] self.path()[i] == v
                    ==> self.edges_reported()[v] == self.examined()[i],
            self.finished_flags()[v] && !self.pruned_any() ==> self.edges_reported()[v]
                == self.graph_view()[v].len(),
    {
        reveal(DfsTraversal::report_ok);
        assert forall|i: int|
            0 <= i < self.path().len() && #[trigger] self.path()[i] == v implies self.edges_reported()[v]
            == self.examined()[i] by {
            assert(self.stack@[i].node == v);
        }
        if self.discovered@[v] && !self.finished@[v] {
            let i = choose|i: int| 0 <= i < self.stack@.len() && (#[trigger] self.stack@[i]).node == v;
            assert(self.reported@[v] == self.stack@[i].cursor);
        }
    }

    /// The event reported for edge `k` of `u`, once examined, names `u`, the
    /// node the edge leads to and its weight, and classifies the edge for
    /// good: it is a back edge exactly when it leads to `u` itself or to an
    /// ancestor of `u`; a tree edge leads to a node discovered after `u` (if
    /// at all); a forward edge to a node discovered after `u`, a cross edge
    /// to one discovered before.
    pub proof fn lemma_edge_events(&self, u: int, k: int)
        requires
            self.wf(),
            0 <= u < self.graph_view().len(),
            self.discovered_flags()[u],
            0 <= k < self.edges_reported()[u],
        ensures
            ({
                let edge = self.graph_view()[u][k];
                let v = other_end(u, edge);
                let e = self.edge_events()[u][k];
                &&& 0 <= v < self.graph_view().len()
                &&& (e is BackEdge <==> (v == u || self.ancestor_sets()[u].contains(v)))
                &&& match e {
                    DfsEvent::TreeEdge(a, b, w) => a as int == u && b as int == v && w == edge.2 && (
                    self.discovered_flags()[v] ==> self.discover_times()[u]
                        < self.discover_times()[v]),
                    DfsEvent::BackEdge(a, b, w) => a as int == u && b as int == v && w == edge.2,
                    DfsEvent::ForwardEdge(a, b, w) => a as int == u && b as int == v && w == edge.2
                        && self.discovered_flags()[v] && self.discover_times()[u]
                        < self.discover_times()[v],
                    DfsEvent::CrossEdge(a, b, w) => a as int == u && b as int == v && w == edge.2
                        && self.discovered_flags()[v] && self.discover_times()[v]
                        < self.discover_times()[u],
                    _ => false,
                }
            }),
    {
        reveal(DfsTraversal::log_ok);
        reveal(DfsTraversal::report_ok);
        assert(self.entry_ok(u, k));
    }

    /// Two nodes joined by an edge each way, in a search that pruned nothing
    /// and has emptied its path: the edge at the node discovered first is
    /// reported as a tree or forward edge, the one at the node discovered
    /// later as a back edge.
    pub proof fn lemma_two_way_edges(&self, a: int, ka: int, b: int, kb: int)
        requires
            self.wf(),
            !self.pruned_any(),
            self.path().len() == 0,
            0 <= a < self.graph_view().len(),
            0 <= b < self.graph_view().len(),
            a != b,
            self.discovered_flags()[a],
            self.discovered_flags()[b],
            self.discover_times()[a] < self.discover_times()[b],
            0 <= ka < self.graph_view()[a].len(),
            other_end(a, self.graph_view()[a][ka]) == b,
            0 <= kb < self.graph_view()[b].len(),
            other_end(b, self.graph_view()[b][kb]) == a,
        ensures
            ka < self.edges_reported()[a],
            kb < self.edges_reported()[b],
            self.edge_events()[a][ka] is TreeEdge || self.edge_events()[a][ka] is ForwardEdge,
            self.edge_events()[b][kb] is BackEdge,
    {
        reveal(DfsTraversal::log_ok);
        reveal(DfsTraversal::report_ok);
        reveal(DfsTraversal::ancestry_ok);
        assert(self.finished@[a]) by {
            if !self.finished@[a] {
                let i = choose|i: int| 0 <= i < self.stack@.len() && (#[trigger] self.stack@[i]).node == a;
            }
        }
        assert(self.finished@[b]) by {
            if !self.finished@[b] {
                let i = choose|i: int| 0 <= i < self.stack@.len() && (#[trigger] self.stack@[i]).node == b;
            }
        }
        assert(self.discover_time@[b] < self.finish_time@[a]) by {
            assert(self.discovered@[other_end(a, self.graph@[a][ka])]);
        }
        assert(self.ancestors@[b].contains(a));
        assert(!self.ancestors@[a].contains(b));
        assert(self.entry_ok(a, ka));
        assert(self.entry_ok(b, kb));
    }

    /// In a search that pruned nothing and has emptied its path, an edge
    /// whose far end has an edge back is never a cross edge: in an
    /// undirected graph there are no cross edges.
    pub proof fn lemma_no_cross_edges(&self, u: int, k: int)
        requires
            self.wf(),
            !self.pruned_any(),
            self.path().len() == 0,
            0 <= u < self.graph_view().len(),
            self.discovered_flags()[u],
            0 <= k < self.graph_view()[u].len(),
            adjacent(self.graph_view(), other_end(u, self.graph_view()[u][k]), u),
        ensures
            k < self.edges_reported()[u],
            !(self.edge_events()[u][k] is CrossEdge),
    {
        reveal(DfsTraversal::log_ok);
        reveal(DfsTraversal::report_ok);
        let g = self.graph@;
        let v = other_end(u, g[u][k]);
        assert(self.finished@[u]) by {
            if !self.finished@[u] {
                let i = choose|i: int| 0 <= i < self.stack@.len() && (#[trigger] self.stack@[i]).node == u;
            }
        }
        assert(self.discovered@[v]);
        assert(0 <= v < g.len());
        let kv = choose|kv: int| 0 <= kv < g[v].len() && other_end(v, #[trigger] g[v][kv]) == u;
        if v == u {
            assert(self.entry_ok(u, k));
        } else if self.discover_time@[u] < self.discover_time@[v] {
            self.lemma_two_way_edges(u, k, v, kv);
        } else {
            assert(self.discover_time@[u] != self.discover_time@[v]);
            self.lemma_two_way_edges(v, kv, u, k);
        }
    }

    /// A search of a graph that joins every two nodes both ways equally often
    /// (an undirected graph) that pruned nothing and has emptied its path
    /// reports each edge joining two distinct discovered nodes twice: as a
    /// tree or forward edge at the node discovered first, and as a back edge
    /// at the other, which has just as many edges leading back.
    pub proof fn lemma_undirected_pairs(&self, a: int, b: int)
        requires
            self.wf(),
            !self.pruned_any(),
            self.path().len() == 0,
            two_way(self.graph_view()),
            0 <= a < self.graph_view().len(),
            0 <= b < self.graph_view().len(),
            a != b,
            self.discovered_flags()[a],
            self.discovered_flags()[b],
            self.discover_times()[a] < self.discover_times()[b],
        ensures
            leading_to(self.graph_view()[a], a, b).len() == leading_to(
                self.graph_view()[b],
                b,
                a,
            ).len(),
            forall|k: int|
                0 <= k < self.graph_view()[a].len() && other_end(a, #[trigger] self.graph_view()[a][k])
                    == b ==> k < self.edges_reported()[a] && (self.edge_events()[a][k] is TreeEdge
                    || self.edge_events()[a][k] is ForwardEdge),
            forall|k: int|
                0 <= k < self.graph_view()[b].len() && other_end(b, #[trigger] self.graph_view()[b][k])
                    == a ==> k < self.edges_reported()[b] && self.edge_events()[b][k] is BackEdge,
    {
        let g = self.graph_view();
        assert(leading_to(g[a], a, b).len() == leading_to(g[b], b, a).len());
        assert forall|k: int|
            0 <= k < g[a].len() && other_end(a, #[trigger] g[a][k]) == b implies k
            < self.edges_reported()[a] && (self.edge_events()[a][k] is TreeEdge
            || self.edge_events()[a][k] is ForwardEdge) by {
            assert(adjacent(g, a, b));
            lemma_two_way_adjacent(g, a, b);
            let kb = choose|kb: int| 0 <= kb < g[b].len() && other_end(b, #[trigger] g[b][kb]) == a;
            self.lemma_two_way_edges(a, k, b, kb);
        }
        assert forall|k: int|
            0 <= k < g[b].len() && other_end(b, #[trigger] g[b][k]) == a implies k
            < self.edges_reported()[b] && self.edge_events()[b][k] is BackEdge by {
            assert(adjacent(g, b, a));
            lemma_two_way_adjacent(g, b, a);
            let ka = choose|ka: int| 0 <= ka < g[a].len() && other_end(a, #[trigger] g[a][ka]) == b;
            self.lemma_two_way_edges(a, ka, b, k);
        }
    }

    /// A search of a graph that joins every two nodes both ways equally often
    /// (an undirected graph) that pruned nothing and has emptied its path
    /// reports no cross edge.
    pub proof fn lemma_undirected_no_cross(&self, u: int, k: int)
        requires
            self.wf(),
            !self.pruned_any(),
            self.path().len() == 0,
            two_way(self.graph_view()),
            0 <= u < self.graph_view().len(),
            self.discovered_flags()[u],
            0 <= k < self.graph_view()[u].len(),
        ensures
            k < self.edges_reported()[u],
            !(self.edge_events()[u][k] is CrossEdge),
    {
        let g = self.graph_view();
        let v = other_end(u, g[u][k]);
        assert(self.sizes_ok());
        assert(0 <= v < g.len());
        assert(adjacent(g, u, v));
        lemma_two_way_adjacent(g, u, v);
        self.lemma_no_cross_edges(u, k);
    }

    /// Every discovered node is reachable from a start node.
    pub proof fn lemma_discovered_reachable(&self, v: int)
        requires
            self.wf(),
            0 <= v < self.graph_view().len(),
            self.discovered_flags()[v],
        ensures
            reachable_from(self.graph_view(), self.starts_view(), v),
    {
    }

    /// A search that has run to its end (the last `advance` returned `None`)
    /// without pruning has discovered exactly the nodes reachable from the
    /// start nodes, finished every one of them, and reported every edge of
    /// each of them.
    pub proof fn lemma_complete_search(&self, v: int)
        requires
            self.wf(),
            !self.pruned_any(),
            self.path().len() == 0,
            self.starts_taken() == self.starts_view().len(),
            0 <= v < self.graph_view().len(),
        ensures
            self.discovered_flags()[v] <==> reachable_from(self.graph_view(), self.starts_view(), v),
            self.discovered_flags()[v] ==> self.finished_flags()[v],
            self.edges_reported()[v] == if reachable_from(self.graph_view(), self.starts_view(), v) {
                self.graph_view()[v].len()
            } else {
                0
            },
    {
        self.lemma_all_finished();
        self.lemma_complete_pieces(v);
        self.lemma_edges_reported(v);
    }

    proof fn lemma_complete_pieces(&self, v: int)
        requires
            self.sizes_ok(),
            self.closure_ok(),
            self.starts_ok(),
            self.reach_ok(),
            !self.pruned_any@,
            self.next_start == self.starts@.len(),
            0 <= v < self.graph@.len(),
            forall|x: int|
                0 <= x < self.graph@.len() && #[trigger] self.discovered@[x] ==> self.finished@[x],
        ensures
            self.discovered@[v] <==> reachable_from(self.graph@, self.starts@, v),
    {
        if reachable_from(self.graph@, self.starts@, v) {
            self.lemma_reachable_discovered(v);
        }
    }

    proof fn lemma_reachable_discovered(&self, v: int)
        requires
            self.sizes_ok(),
            self.closure_ok(),
            self.starts_ok(),
            !self.pruned_any@,
            self.next_start == self.starts@.len(),
            0 <= v < self.graph@.len(),
            reachable_from(self.graph@, self.starts@, v),
            forall|x: int|
                0 <= x < self.graph@.len() && #[trigger] self.discovered@[x] ==> self.finished@[x],
        ensures
            self.discovered@[v],
    {
        let g = self.graph@;
        let (p, j) = choose|p: Seq<int>, j: int|
            #![trigger is_walk(g, p), self.starts@[j]]
            is_walk(g, p) && 0 <= j < self.starts@.len() && self.starts@[j] == p[0] && p.last() == v;
        assert(self.discovered@[self.starts@[j] as int]);
        self.lemma_walk_discovered(p, p.len() - 1);
    }

    proof fn lemma_all_finished(&self)
        requires
            self.wf(),
            self.path().len() == 0,
        ensures
            forall|x: int|
                0 <= x < self.graph@.len() && #[trigger] self.discovered@[x] ==> self.finished@[x],
    {
        assert(self.stack@.len() == 0);
        assert forall|x: int|
            0 <= x < self.graph@.len() && #[trigger] self.discovered@[x] implies self.finished@[x] by {
            if !self.finished@[x] {
                let i = choose|i: int| 0 <= i < self.stack@.len() && (#[trigger] self.stack@[i]).node == x;
            }
        }
    }

    proof fn lemma_walk_discovered(&self, p: Seq<int>, i: int)
        requires
            self.sizes_ok(),
            self.closure_ok(),
            !self.pruned_any@,
            is_walk(self.graph@, p),
            0 <= p[0] < self.graph@.len(),
            self.discovered@[p[0]],
            0 <= i < p.len(),
            forall|x: int|
                0 <= x < self.graph@.len() && #[trigger] self.discovered@[x] ==> self.finished@[x],
        ensures
            0 <= p[i] < self.graph@.len(),
            self.discovered@[p[i]],
        decreases i,
    {
        let g = self.graph@;
        if i > 0 {
            self.lemma_walk_discovered(p, i - 1);
            let j = i - 1;
            assert(adjacent(g, p[j], p[j + 1]));
            let k = choose|k: int|
                0 <= k < g[p[i - 1]].len() && other_end(p[i - 1], #[trigger] g[p[i - 1]][k]) == p[i];
            assert(self.finished@[p[i - 1]]);
            assert(self.discovered@[other_end(p[i - 1], g[p[i - 1]][k])]);
        }
    }
}

} // verus!
