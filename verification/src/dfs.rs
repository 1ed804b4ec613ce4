use vstd::prelude::*;

use crate::adjacency::{AdjacencyGraph, Control, EdgeRef, Time};
use crate::graph;
use crate::traversal::{discovers, edge_of, event_node, event_time, DfsTraversal};

verus! {

/// A DFS visitor event that includes edge weights.
///
/// For edge events, the first node is the one closer to the tree root and the
/// second is the node being reached, regardless of how the edge is stored in
/// the graph.  Forward and cross edges are reported as one kind.
#[derive(Copy, Clone, Debug)]
pub enum DfsEvent<N, W> {
    Discover(N, Time),
    TreeEdge(N, N, W),
    BackEdge(N, N, W),
    CrossForwardEdge(N, N, W),
    Finish(N, Time),
}

/// The event `e` with forward and cross edges merged into one kind.
pub open spec fn merged<N, W>(e: graph::DfsEvent<N, W>) -> DfsEvent<N, W> {
    match e {
        graph::DfsEvent::Discover(n, t) => DfsEvent::Discover(n, t),
        graph::DfsEvent::TreeEdge(u, v, w) => DfsEvent::TreeEdge(u, v, w),
        graph::DfsEvent::BackEdge(u, v, w) => DfsEvent::BackEdge(u, v, w),
        graph::DfsEvent::ForwardEdge(u, v, w) => DfsEvent::CrossForwardEdge(u, v, w),
        graph::DfsEvent::CrossEdge(u, v, w) => DfsEvent::CrossForwardEdge(u, v, w),
        graph::DfsEvent::Finish(n, t) => DfsEvent::Finish(n, t),
    }
}

/// Merging keeps every event but forward and cross edges as it is: the
/// visitor of the merged search gets a `Discover`, `TreeEdge`, `BackEdge` or
/// `Finish` exactly when the search produced one, with the same node and time
/// or the same edge, and a `CrossForwardEdge` exactly for a forward or cross
/// edge, with that edge.
pub proof fn lemma_merged<W>(e: graph::DfsEvent<usize, W>)
    ensures
        (merged(e) is Discover) <==> (e is Discover),
        (merged(e) is TreeEdge) <==> (e is TreeEdge),
        (merged(e) is BackEdge) <==> (e is BackEdge),
        (merged(e) is CrossForwardEdge) <==> (e is ForwardEdge || e is CrossEdge),
        (merged(e) is Finish) <==> (e is Finish),
        merged(e) matches DfsEvent::Discover(x, t) ==> x as int == event_node(e) && t.0 as nat
            == event_time(e),
        merged(e) matches DfsEvent::Finish(x, t) ==> x as int == event_node(e) && t.0 as nat
            == event_time(e),
        merged(e) matches DfsEvent::TreeEdge(u, v, w) ==> edge_of(e) == Some((u, v, w)),
        merged(e) matches DfsEvent::BackEdge(u, v, w) ==> edge_of(e) == Some((u, v, w)),
        merged(e) matches DfsEvent::CrossForwardEdge(u, v, w) ==> edge_of(e) == Some((u, v, w)),
{
}

/// In a run of the search, a `Finish(v, t)` that the merged visitor gets
/// carries the finish time the search records for `v`, later than the time
/// of the earlier `Discover` of `v`; and it gets a `BackEdge` exactly for an
/// edge to a node discovered and not finished before.
pub proof fn lemma_merged_run<'a, W: Copy, B>(
    g: Seq<Seq<EdgeRef<W>>>,
    starts: Seq<usize>,
    ts: Seq<DfsTraversal<'a, W>>,
    us: Seq<DfsTraversal<'a, W>>,
    es: Seq<graph::DfsEvent<usize, W>>,
    cs: Seq<Control<B>>,
    i: int,
)
    requires
        DfsTraversal::is_run(g, starts, ts, us, es, cs),
        0 <= i < es.len(),
    ensures
        merged(es[i]) matches DfsEvent::Finish(v, t) ==> {
            &&& us[i].finish_times()[v as int] == t.0
            &&& exists|j: int|
                0 <= j < i && #[trigger] discovers(es[j], v as int) && event_time(es[j]) < t.0
        },
        merged(es[i]) matches DfsEvent::BackEdge(u, v, w) ==> {
            &&& exists|j: int| 0 <= j < i && #[trigger] discovers(es[j], v as int)
            &&& !exists|j: int| 0 <= j < i && #[trigger] crate::traversal::finishes(es[j], v as int)
        },
        es[i] is BackEdge ==> merged(es[i]) is BackEdge,
{
    lemma_merged(es[i]);
    if i > 0 {
        assert(!(cs[i - 1] is Break));
    }
    DfsTraversal::lemma_run_events(g, starts, ts, us, es, cs, i);
    DfsTraversal::lemma_run_states(g, starts, ts, us, es, cs, i);
    DfsTraversal::lemma_run_history(g, starts, ts, us, es, cs, i);
    if let graph::DfsEvent::Finish(v, t) = es[i] {
        let o = ts[i];
        let u = us[i];
        assert(u.advanced_from(&o, Some(es[i])));
        let j = choose|j: int| 0 <= j < i && #[trigger] discovers(es[j], v as int);
        assert(es[j] is Discover);
        assert(o.discover_times()[v as int] == event_time(es[j]));
        o.lemma_path_views();
        assert(o.path()[o.path().len() - 1] == v);
        u.lemma_times(v as int, v as int);
    }
}

fn merge<N, W>(e: graph::DfsEvent<N, W>) -> (r: DfsEvent<N, W>)
    ensures
        r == merged(e),
{
    match e {
        graph::DfsEvent::Discover(n, t) => DfsEvent::Discover(n, t),
        graph::DfsEvent::TreeEdge(u, v, w) => DfsEvent::TreeEdge(u, v, w),
        graph::DfsEvent::BackEdge(u, v, w) => DfsEvent::BackEdge(u, v, w),
        graph::DfsEvent::ForwardEdge(u, v, w) => DfsEvent::CrossForwardEdge(u, v, w),
        graph::DfsEvent::CrossEdge(u, v, w) => DfsEvent::CrossForwardEdge(u, v, w),
        graph::DfsEvent::Finish(n, t) => DfsEvent::Finish(n, t),
    }
}

/// The outcome `r` of a search of `g` from `starts` whose events, merged,
/// went to `visitor`: the run `ts`, `us`, `es`, `cs` of the search in which
/// each event `es[i]` got an answer `cs[i]` that `visitor` may give to
/// [`merged`]`(es[i])`; `r` is `Break(b)` when the last answer was `Break(b)`,
/// and `Continue` when no answer was `Break` and the search ran to its end.
pub open spec fn visited_merged_run<'a, W: Copy, B, F: FnMut(DfsEvent<usize, W>) -> Control<B>>(
    g: Seq<Seq<EdgeRef<W>>>,
    starts: Seq<usize>,
    visitor: F,
    ts: Seq<DfsTraversal<'a, W>>,
    us: Seq<DfsTraversal<'a, W>>,
    es: Seq<graph::DfsEvent<usize, W>>,
    cs: Seq<Control<B>>,
    r: Control<B>,
) -> bool {
    &&& DfsTraversal::is_run(g, starts, ts, us, es, cs)
    &&& forall|i: int|
        0 <= i < es.len() ==> call_ensures(visitor, (merged(es[i]),), #[trigger] cs[i])
    &&& match r {
        Control::Continue => (es.len() == 0 || !(cs.last() is Break)) && ts.last().search_over(),
        Control::Break(b) => es.len() > 0 && cs.last() == Control::<B>::Break(b),
        Control::Prune => false,
    }
}

/// A depth first search that provides edge weights in visitor events.
///
/// The same search as [`graph::depth_first_search`], with each event `e` of
/// [`DfsTraversal`] handed to the visitor as [`merged`]`(e)`.
pub fn depth_first_search<'a, W: Copy, B, F: FnMut(DfsEvent<usize, W>) -> Control<B>>(
    graph: &'a AdjacencyGraph<W>,
    starts: &[usize],
    visitor: F,
) -> (r: Control<B>)
    requires
        forall|i: int| 0 <= i < starts@.len() ==> (#[trigger] starts@[i]) < graph@.len(),
        forall|e: DfsEvent<usize, W>| call_requires(visitor, (e,)),
    ensures
        !(r is Prune),
        r matches Control::Break(b) ==> exists|e: DfsEvent<usize, W>|
            call_ensures(visitor, (e,), Control::<B>::Break(b)),
        exists|
            ts: Seq<DfsTraversal<'a, W>>,
            us: Seq<DfsTraversal<'a, W>>,
            es: Seq<graph::DfsEvent<usize, W>>,
            cs: Seq<Control<B>>,
        | #[trigger] visited_merged_run(graph@, starts@, visitor, ts, us, es, cs, r),
{
    let ghost v0 = visitor;
    let mut visit = visitor;
    let mut search = DfsTraversal::new(graph, starts);
    let ghost mut ts: Seq<DfsTraversal<'a, W>> = seq![search];
    let ghost mut us: Seq<DfsTraversal<'a, W>> = Seq::empty();
    let ghost mut es: Seq<graph::DfsEvent<usize, W>> = Seq::empty();
    let ghost mut cs: Seq<Control<B>> = Seq::empty();
    loop
        invariant
            search.wf(),
            !search.awaiting_reply(),
            forall|e: DfsEvent<usize, W>| call_requires(v0, (e,)),
            visit == v0,
            v0 == visitor,
            DfsTraversal::is_run(graph@, starts@, ts, us, es, cs),
            ts.last() == search,
            forall|i: int| 0 <= i < es.len() ==> !(#[trigger] cs[i] is Break),
            forall|i: int|
                0 <= i < es.len() ==> call_ensures(v0, (merged(es[i]),), #[trigger] cs[i]),
        decreases search.starts_left(), search.undiscovered(), search.path_work(),
    {
        match search.advance() {
            None => {
                proof {
                    assert(visited_merged_run(
                        graph@,
                        starts@,
                        v0,
                        ts,
                        us,
                        es,
                        cs,
                        Control::<B>::Continue,
                    ));
                }
                return Control::Continue;
            },
            Some(event) => {
                let ghost mid = search;
                let answer = visit(merge(event));
                let ghost ts0 = ts;
                let ghost us0 = us;
                let ghost cs0 = cs;
                proof {
                    us = us.push(mid);
                    es = es.push(event);
                    cs = cs.push(answer);
                    assert forall|i: int| #![trigger us0[i]] 0 <= i < us0.len() implies us[i]
                        == us0[i] && cs[i] == cs0[i] by {}
                }
                match answer {
                    Control::Break(b) => {
                        proof {
                            ts = ts.push(mid);
                            assert forall|i: int| #![trigger ts0[i]] 0 <= i <= us0.len() implies ts[i]
                                == ts0[i] by {}
                            assert(visited_merged_run(
                                graph@,
                                starts@,
                                v0,
                                ts,
                                us,
                                es,
                                cs,
                                Control::<B>::Break(b),
                            ));
                        }
                        return Control::Break(b);
                    },
                    Control::Prune => {
                        search.reply(true);
                        proof {
                            ts = ts.push(search);
                            assert forall|i: int| #![trigger ts0[i]] 0 <= i <= us0.len() implies ts[i]
                                == ts0[i] by {}
                        }
                    },
                    Control::Continue => {
                        search.reply(false);
                        proof {
                            ts = ts.push(search);
                            assert forall|i: int| #![trigger ts0[i]] 0 <= i <= us0.len() implies ts[i]
                                == ts0[i] by {}
                        }
                    },
                }
            },
        }
    }
}

} // verus!
