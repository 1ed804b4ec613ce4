//! Decoding the Prüfer sequence of a labelled tree gives the tree back.

use vstd::prelude::*;

use crate::forest::{
    all_true, contribution, degree_of, degrees, far_end, first_touching, kept_link,
    lemma_count_all_true, lemma_degree_at_least, lemma_degree_drop, lemma_degree_zero,
    lemma_first_touching, lemma_initial_tree, lemma_leaf_edge, lemma_remove_leaf,
    lemma_tree_has_leaf, live_tree, touches,
};
use crate::prufer_spec::{
    decode_steps, first_one, initial_degrees, is_labelled_tree, lemma_decode_then_encode,
    lemma_first_one,
    lemma_occurrences_bound, lemma_occurrences_drop_first, occurrences, prufer_sequence,
    prufer_steps, prufer_tree_edges,
};
use crate::traversal::{count_true, lemma_count_set};
use crate::ungraph::{endpoints_below, linked};

verus! {

/// One round of the encoding from a live tree with at least three live
/// nodes: the smallest leaf `l`, its kept edge `i` and its neighbour `p`, and
/// what is left once the leaf is removed.
proof fn lemma_round(edges: Seq<(usize, usize)>, kept: Seq<bool>, alive: Seq<bool>, n: nat) -> (r: (
    int,
    int,
    int,
))
    requires
        live_tree(edges, kept, alive, n),
        count_true(alive) >= 2,
    ensures
        ({
            let (l, i, p) = r;
            let d = degrees(edges, kept, n);
            &&& l == first_one(d, 0)
            &&& i == first_touching(edges, kept, l, 0)
            &&& p == far_end(edges[i], l)
            &&& 0 <= l < n
            &&& 0 <= p < n
            &&& 0 <= i < edges.len()
            &&& l != p
            &&& alive[l]
            &&& alive[p]
            &&& kept[i]
            &&& (edges[i] == (l as usize, p as usize) || edges[i] == (p as usize, l as usize))
            &&& live_tree(edges, kept.update(i, false), alive.update(l, false), n)
            &&& count_true(alive.update(l, false)) + 1 == count_true(alive)
            &&& forall|w: int|
                #![trigger degree_of(edges, kept, w)]
                degree_of(edges, kept.update(i, false), w) + contribution(edges[i], w)
                    == degree_of(edges, kept, w)
            &&& forall|w: int|
                contribution(edges[i], w) == if w == l || w == p {
                    1nat
                } else {
                    0nat
                }
        }),
{
    lemma_tree_has_leaf(edges, kept, alive, n);
    let d = degrees(edges, kept, n);
    let l = first_one(d, 0);
    lemma_first_one(d, 0);
    assert(degree_of(edges, kept, l) == 1);
    lemma_remove_leaf(edges, kept, alive, n, l);
    let i = first_touching(edges, kept, l, 0);
    let p = far_end(edges[i], l);
    let alive2 = alive.update(l, false);
    assert(alive =~= alive2.update(l, true));
    lemma_count_set(alive2, l);
    assert forall|w: int| #![trigger degree_of(edges, kept, w)]
        degree_of(edges, kept.update(i, false), w) + contribution(edges[i], w) == degree_of(
            edges,
            kept,
            w,
        ) by {
        lemma_degree_drop(edges, kept, w, i, edges.len() as int);
    }
    (l, i, p)
}

/// With two live nodes left, the one kept edge joins them, and they are
/// the only nodes of degree one.
proof fn lemma_last_round(edges: Seq<(usize, usize)>, kept: Seq<bool>, alive: Seq<bool>, n: nat) -> (r: (
    int,
    int,
    int,
))
    requires
        live_tree(edges, kept, alive, n),
        count_true(alive) == 2,
    ensures
        ({
            let (l, i, p) = r;
            &&& 0 <= l < n
            &&& 0 <= p < n
            &&& l != p
            &&& 0 <= i < edges.len()
            &&& kept[i]
            &&& (edges[i] == (l as usize, p as usize) || edges[i] == (p as usize, l as usize))
            &&& forall|j: int| 0 <= j < edges.len() && kept[j] ==> j == i
            &&& forall|w: int|
                0 <= w < n ==> (#[trigger] alive[w] <==> (w == l || w == p))
            &&& forall|w: int|
                #![trigger degree_of(edges, kept, w)]
                degree_of(edges, kept, w) == if w == l || w == p {
                    1nat
                } else {
                    0nat
                }
        }),
{
    let (l, i, p) = lemma_round(edges, kept, alive, n);
    let kept2 = kept.update(i, false);
    let alive2 = alive.update(l, false);
    assert(count_true(kept2) == 0);
    assert forall|j: int| 0 <= j < edges.len() && kept[j] implies j == i by {
        if j != i {
            assert(kept2[j]);
            let k2 = kept2.update(j, false);
            assert(kept2 =~= k2.update(j, true));
            lemma_count_set(k2, j);
        }
    }
    assert forall|w: int| #![trigger degree_of(edges, kept, w)]
        degree_of(edges, kept, w) == if w == l || w == p {
            1nat
        } else {
            0nat
        } by {
        assert forall|j: int| 0 <= j < edges.len() && #[trigger] kept2[j] implies !touches(
            edges[j],
            w,
        ) by {
            assert(j == i);
        }
        lemma_degree_zero(edges, kept2, w, edges.len() as int);
    }
    let alive3 = alive2.update(p, false);
    assert(alive2 =~= alive3.update(p, true));
    lemma_count_set(alive3, p);
    assert forall|w: int| 0 <= w < n implies (#[trigger] alive[w] <==> (w == l || w == p)) by {
        if alive[w] && w != l && w != p {
            assert(alive3[w]);
            let k3 = alive3.update(w, false);
            assert(alive3 =~= k3.update(w, true));
            lemma_count_set(k3, w);
        }
    }
    (l, i, p)
}

/// The encoding of a live tree with `m + 2` live nodes has `m` entries, all
/// live nodes, and each live node has one more kept edge than it has
/// entries (a node that is not live has none).
proof fn lemma_steps_degrees(
    edges: Seq<(usize, usize)>,
    kept: Seq<bool>,
    alive: Seq<bool>,
    n: nat,
    m: nat,
)
    requires
        live_tree(edges, kept, alive, n),
        count_true(alive) == m + 2,
    ensures
        prufer_steps(edges, kept, n, m).len() == m,
        forall|j: int|
            0 <= j < m ==> (#[trigger] prufer_steps(edges, kept, n, m)[j]) < n && alive[prufer_steps(
                edges,
                kept,
                n,
                m,
            )[j] as int],
        forall|w: int|
            0 <= w < n ==> #[trigger] degree_of(edges, kept, w) == if alive[w] {
                1 + occurrences(prufer_steps(edges, kept, n, m), w)
            } else {
                0
            },
    decreases m,
{
    let r = prufer_steps(edges, kept, n, m);
    if m == 0 {
        let (l, i, p) = lemma_last_round(edges, kept, alive, n);
        assert forall|w: int| 0 <= w < n implies #[trigger] degree_of(edges, kept, w) == if alive[w] {
            1 + occurrences(r, w)
        } else {
            0
        } by {
            assert(alive[w] <==> (w == l || w == p));
        }
    } else {
        let (l, i, p) = lemma_round(edges, kept, alive, n);
        let kept2 = kept.update(i, false);
        let alive2 = alive.update(l, false);
        let r2 = prufer_steps(edges, kept2, n, (m - 1) as nat);
        lemma_steps_degrees(edges, kept2, alive2, n, (m - 1) as nat);
        assert(r == seq![p as usize] + r2);
        assert(r.drop_first() =~= r2);
        assert forall|j: int| 0 <= j < m implies (#[trigger] r[j]) < n && alive[r[j] as int] by {
            if j > 0 {
                assert(r[j] == r2[j - 1]);
            }
        }
        assert forall|w: int| 0 <= w < n implies #[trigger] degree_of(edges, kept, w) == if alive[w] {
            1 + occurrences(r, w)
        } else {
            0
        } by {
            lemma_occurrences_drop_first(r, w);
            if w == l {
                lemma_occurrences_bound(r2, w);
            }
        }
    }
}

/// `a` and `b` are the endpoints of `e`.
spec fn joins(e: (usize, usize), a: int, b: int) -> bool {
    e.0 == a && e.1 == b || e.0 == b && e.1 == a
}

proof fn lemma_linked_prepend(e: (usize, usize), f: Seq<(usize, usize)>, a: int, b: int)
    ensures
        linked(seq![e] + f, a, b) <==> (joins(e, a, b) || linked(f, a, b)),
{
    let g = seq![e] + f;
    if linked(f, a, b) {
        let j = choose|j: int|
            0 <= j < f.len() && ((#[trigger] f[j]).0 == a && f[j].1 == b || f[j].0 == b && f[j].1
                == a);
        assert(g[j + 1] == f[j]);
    }
    if joins(e, a, b) {
        assert(g[0] == e);
    }
    if linked(g, a, b) {
        let j = choose|j: int|
            0 <= j < g.len() && ((#[trigger] g[j]).0 == a && g[j].1 == b || g[j].0 == b && g[j].1
                == a);
        if j > 0 {
            assert(f[j - 1] == g[j]);
        }
    }
}

/// Decoding the encoding of a live tree with `m + 2` live nodes, from its
/// degrees, gives one edge per kept edge, joining the same pairs of nodes.
proof fn lemma_decode_steps_of_tree(
    edges: Seq<(usize, usize)>,
    kept: Seq<bool>,
    alive: Seq<bool>,
    n: nat,
    m: nat,
)
    requires
        live_tree(edges, kept, alive, n),
        count_true(alive) == m + 2,
        n <= usize::MAX,
    ensures
        ({
            let f = decode_steps(degrees(edges, kept, n), prufer_steps(edges, kept, n, m));
            &&& f.len() == m + 1
            &&& forall|a: int, b: int| linked(f, a, b) <==> kept_link(edges, kept, a, b)
        }),
    decreases m,
{
    let d = degrees(edges, kept, n);
    let r = prufer_steps(edges, kept, n, m);
    let f = decode_steps(d, r);
    if m == 0 {
        let (l, i, p) = lemma_last_round(edges, kept, alive, n);
        let lo = if l < p { l } else { p };
        let hi = if l < p { p } else { l };
        lemma_first_one(d, 0);
        assert(d[lo] == 1);
        assert(first_one(d, 0) == lo);
        lemma_first_one(d, lo + 1);
        assert(d[hi] == 1);
        assert(first_one(d, lo + 1) == hi);
        assert(f == seq![(lo as usize, hi as usize)]);
        assert forall|a: int, b: int| linked(f, a, b) <==> kept_link(edges, kept, a, b) by {
            if linked(f, a, b) {
                assert(f[0] == (lo as usize, hi as usize));
                assert(edges[i].0 == a && edges[i].1 == b || edges[i].0 == b && edges[i].1 == a);
            }
            if kept_link(edges, kept, a, b) {
                let j = choose|j: int|
                    0 <= j < edges.len() && kept[j] && ((#[trigger] edges[j]).0 == a && edges[j].1
                        == b || edges[j].0 == b && edges[j].1 == a);
                assert(j == i);
                assert(f[0] == (lo as usize, hi as usize));
            }
        }
    } else {
        let (l, i, p) = lemma_round(edges, kept, alive, n);
        let kept2 = kept.update(i, false);
        let alive2 = alive.update(l, false);
        let r2 = prufer_steps(edges, kept2, n, (m - 1) as nat);
        let d2 = degrees(edges, kept2, n);
        lemma_decode_steps_of_tree(edges, kept2, alive2, n, (m - 1) as nat);
        assert(r == seq![p as usize] + r2);
        assert(r.drop_first() =~= r2);
        lemma_first_one(d, 0);
        assert(d.update(l, 0).update(p, d[p] - 1) =~= d2) by {
            assert forall|w: int| 0 <= w < n implies #[trigger] d2[w] == d.update(l, 0).update(
                p,
                d[p] - 1,
            )[w] by {
                assert(degree_of(edges, kept2, w) + contribution(edges[i], w) == degree_of(
                    edges,
                    kept,
                    w,
                ));
            }
        }
        let f2 = decode_steps(d2, r2);
        assert(f == seq![(l as usize, p as usize)] + f2);
        assert forall|a: int, b: int| linked(f, a, b) <==> kept_link(edges, kept, a, b) by {
            lemma_linked_prepend((l as usize, p as usize), f2, a, b);
            if kept_link(edges, kept, a, b) {
                let j = choose|j: int|
                    0 <= j < edges.len() && kept[j] && ((#[trigger] edges[j]).0 == a && edges[j].1
                        == b || edges[j].0 == b && edges[j].1 == a);
                if j != i {
                    assert(kept2[j]);
                    assert(kept_link(edges, kept2, a, b));
                }
            }
            if kept_link(edges, kept2, a, b) {
                let j = choose|j: int|
                    0 <= j < edges.len() && kept2[j] && ((#[trigger] edges[j]).0 == a && edges[j].1
                        == b || edges[j].0 == b && edges[j].1 == a);
                assert(kept[j]);
            }
        }
    }
}

/// Encoding a labelled tree and decoding its Prüfer sequence gives the tree
/// back: for edges forming a tree on `0..n`, the sequence has `n - 2`
/// entries below `n`, and the decoded tree has as many edges as the given
/// one, joining the same pairs of nodes.
pub proof fn lemma_encode_then_decode(edges: Seq<(usize, usize)>, n: nat)
    requires
        is_labelled_tree(edges, n),
        endpoints_below(edges, n),
        n <= usize::MAX,
    ensures
        prufer_sequence(edges, n).len() + 2 == n,
        forall|j: int|
            0 <= j < prufer_sequence(edges, n).len() ==> (#[trigger] prufer_sequence(edges, n)[j])
                < n,
        prufer_tree_edges(prufer_sequence(edges, n)).len() == edges.len(),
        forall|a: int, b: int|
            linked(prufer_tree_edges(prufer_sequence(edges, n)), a, b) <==> linked(edges, a, b),
{
    let kept = all_true(edges.len());
    let alive = all_true(n);
    let m = (n - 2) as nat;
    lemma_initial_tree(edges, n);
    lemma_count_all_true(n);
    let s = prufer_sequence(edges, n);
    lemma_steps_degrees(edges, kept, alive, n, m);
    lemma_decode_steps_of_tree(edges, kept, alive, n, m);
    assert(initial_degrees(s, (s.len() + 2) as nat) =~= degrees(edges, kept, n));
    assert forall|a: int, b: int| kept_link(edges, kept, a, b) <==> linked(edges, a, b) by {
        if linked(edges, a, b) {
            let j = choose|j: int|
                0 <= j < edges.len() && ((#[trigger] edges[j]).0 == a && edges[j].1 == b
                    || edges[j].0 == b && edges[j].1 == a);
            assert(kept[j]);
        }
    }
}

/// No kept edge is a loop, and no two kept edges join the same two nodes.
spec fn simple_kept(edges: Seq<(usize, usize)>, kept: Seq<bool>) -> bool {
    &&& forall|i: int| 0 <= i < edges.len() && #[trigger] kept[i] ==> edges[i].0 != edges[i].1
    &&& forall|i: int, j: int|
        0 <= i < edges.len() && 0 <= j < edges.len() && #[trigger] kept[i] && #[trigger] kept[j]
            && i != j ==> !joins(edges[j], edges[i].0 as int, edges[i].1 as int)
}

/// A count of zero means no entry is true.
proof fn lemma_none_true(s: Seq<bool>, i: int)
    requires
        count_true(s) == 0,
        0 <= i < s.len(),
    ensures
        !s[i],
{
    if s[i] {
        let t = s.update(i, false);
        assert(s =~= t.update(i, true));
        lemma_count_set(t, i);
    }
}

/// The kept edges of a live tree are simple.
proof fn lemma_tree_simple(edges: Seq<(usize, usize)>, kept: Seq<bool>, alive: Seq<bool>, n: nat)
    requires
        live_tree(edges, kept, alive, n),
    ensures
        simple_kept(edges, kept),
    decreases count_true(alive),
{
    if count_true(alive) < 2 {
        assert forall|i: int| 0 <= i < edges.len() implies !kept[i] by {
            lemma_none_true(kept, i);
        }
    } else {
        let (l, i, p) = lemma_round(edges, kept, alive, n);
        let kept2 = kept.update(i, false);
        let alive2 = alive.update(l, false);
        lemma_tree_simple(edges, kept2, alive2, n);
        lemma_first_one(degrees(edges, kept, n), 0);
        lemma_leaf_edge(edges, kept, l);
        assert forall|a: int, b: int|
            0 <= a < edges.len() && 0 <= b < edges.len() && #[trigger] kept[a] && #[trigger] kept[b]
                && a != b implies !joins(edges[b], edges[a].0 as int, edges[a].1 as int) by {
            if a != i && b != i {
                assert(kept2[a] && kept2[b]);
            } else if joins(edges[b], edges[a].0 as int, edges[a].1 as int) {
                if a == i {
                    assert(touches(edges[b], l));
                } else {
                    assert(touches(edges[a], l));
                }
            }
        }
        assert forall|j: int| 0 <= j < edges.len() && #[trigger] kept[j] implies edges[j].0
            != edges[j].1 by {
            if j != i {
                assert(kept2[j]);
            }
        }
    }
}

/// `w` is the one node the kept edges join to `v`.
spec fn only_neighbour(edges: Seq<(usize, usize)>, kept: Seq<bool>, v: int, w: int) -> bool {
    &&& w != v
    &&& kept_link(edges, kept, v, w)
    &&& forall|x: int| #[trigger] kept_link(edges, kept, v, x) ==> x == w
}

/// In a live tree a node has degree one exactly when the kept edges join it
/// to one other node only.
proof fn lemma_leaf_by_links(
    edges: Seq<(usize, usize)>,
    kept: Seq<bool>,
    alive: Seq<bool>,
    n: nat,
    v: int,
)
    requires
        live_tree(edges, kept, alive, n),
    ensures
        degree_of(edges, kept, v) == 1 <==> exists|w: int| only_neighbour(edges, kept, v, w),
{
    lemma_tree_simple(edges, kept, alive, n);
    if degree_of(edges, kept, v) == 1 {
        lemma_leaf_edge(edges, kept, v);
        let i = first_touching(edges, kept, v, 0);
        let w = far_end(edges[i], v);
        assert(kept_link(edges, kept, v, w));
        assert forall|x: int| #[trigger] kept_link(edges, kept, v, x) implies x == w by {
            let j = choose|j: int|
                0 <= j < edges.len() && kept[j] && ((#[trigger] edges[j]).0 == v && edges[j].1 == x
                    || edges[j].0 == x && edges[j].1 == v);
            assert(touches(edges[j], v));
            assert(j == i);
        }
        assert(only_neighbour(edges, kept, v, w));
    } else if exists|w: int| only_neighbour(edges, kept, v, w) {
        let w = choose|w: int| only_neighbour(edges, kept, v, w);
        let j = choose|j: int|
            0 <= j < edges.len() && kept[j] && ((#[trigger] edges[j]).0 == v && edges[j].1 == w
                || edges[j].0 == w && edges[j].1 == v);
        lemma_degree_at_least(edges, kept, v, j, edges.len() as int);
        assert(degree_of(edges, kept, v) >= 2);
        let kept2 = kept.update(j, false);
        lemma_degree_drop(edges, kept, v, j, edges.len() as int);
        assert(degree_of(edges, kept2, v) >= 1);
        lemma_first_touching(edges, kept2, v, 0);
        let k = first_touching(edges, kept2, v, 0);
        if k >= edges.len() {
            lemma_degree_zero(edges, kept2, v, edges.len() as int);
        }
        assert(kept2[k] && k != j && kept[k]);
        let y = far_end(edges[k], v);
        assert(kept_link(edges, kept, v, y));
        assert(y == w);
        assert(joins(edges[k], edges[j].0 as int, edges[j].1 as int));
    }
}

/// `first_one` finds the same place in two sequences whose entries are one
/// at the same places.
proof fn lemma_first_one_same(d1: Seq<int>, d2: Seq<int>, i: int)
    requires
        d1.len() == d2.len(),
        forall|v: int| 0 <= v < d1.len() ==> (d1[v] == 1 <==> d2[v] == 1),
        0 <= i,
    ensures
        first_one(d1, i) == first_one(d2, i),
    decreases d1.len() - i,
{
    if i < d1.len() {
        lemma_first_one_same(d1, d2, i + 1);
    }
}

/// The kept edges join the same pairs of nodes.
spec fn same_links(
    e1: Seq<(usize, usize)>,
    k1: Seq<bool>,
    e2: Seq<(usize, usize)>,
    k2: Seq<bool>,
) -> bool {
    forall|a: int, b: int| kept_link(e1, k1, a, b) <==> kept_link(e2, k2, a, b)
}

/// Dropping a kept edge of simple kept edges drops exactly the pair it joins.
proof fn lemma_links_after_drop(edges: Seq<(usize, usize)>, kept: Seq<bool>, i: int, a: int, b: int)
    requires
        simple_kept(edges, kept),
        kept.len() == edges.len(),
        0 <= i < edges.len(),
        kept[i],
    ensures
        kept_link(edges, kept.update(i, false), a, b) <==> (kept_link(edges, kept, a, b) && !joins(
            edges[i],
            a,
            b,
        )),
{
    let k2 = kept.update(i, false);
    if kept_link(edges, k2, a, b) {
        let j = choose|j: int|
            0 <= j < edges.len() && k2[j] && ((#[trigger] edges[j]).0 == a && edges[j].1 == b
                || edges[j].0 == b && edges[j].1 == a);
        assert(kept[j] && j != i);
        if joins(edges[i], a, b) {
            assert(joins(edges[j], edges[i].0 as int, edges[i].1 as int));
        }
    }
    if kept_link(edges, kept, a, b) && !joins(edges[i], a, b) {
        let j = choose|j: int|
            0 <= j < edges.len() && kept[j] && ((#[trigger] edges[j]).0 == a && edges[j].1 == b
                || edges[j].0 == b && edges[j].1 == a);
        assert(j != i);
        assert(k2[j]);
    }
}

/// Two live trees on the same live nodes whose kept edges join the same
/// pairs have the same encoding.
proof fn lemma_steps_same_links(
    e1: Seq<(usize, usize)>,
    k1: Seq<bool>,
    e2: Seq<(usize, usize)>,
    k2: Seq<bool>,
    alive: Seq<bool>,
    n: nat,
    m: nat,
)
    requires
        live_tree(e1, k1, alive, n),
        live_tree(e2, k2, alive, n),
        same_links(e1, k1, e2, k2),
        count_true(alive) == m + 2,
    ensures
        prufer_steps(e1, k1, n, m) == prufer_steps(e2, k2, n, m),
    decreases m,
{
    if m > 0 {
        let (l1, i1, p1) = lemma_round(e1, k1, alive, n);
        let (l2, i2, p2) = lemma_round(e2, k2, alive, n);
        let d1 = degrees(e1, k1, n);
        let d2 = degrees(e2, k2, n);
        assert forall|v: int| 0 <= v < d1.len() implies (d1[v] == 1 <==> d2[v] == 1) by {
            lemma_leaf_by_links(e1, k1, alive, n, v);
            lemma_leaf_by_links(e2, k2, alive, n, v);
            if exists|w: int| only_neighbour(e1, k1, v, w) {
                let w = choose|w: int| only_neighbour(e1, k1, v, w);
                assert forall|x: int| #[trigger] kept_link(e2, k2, v, x) implies x == w by {
                    assert(kept_link(e1, k1, v, x));
                }
                assert(kept_link(e2, k2, v, w));
                assert(only_neighbour(e2, k2, v, w));
            }
            if exists|w: int| only_neighbour(e2, k2, v, w) {
                let w = choose|w: int| only_neighbour(e2, k2, v, w);
                assert forall|x: int| #[trigger] kept_link(e1, k1, v, x) implies x == w by {
                    assert(kept_link(e2, k2, v, x));
                }
                assert(kept_link(e1, k1, v, w));
                assert(only_neighbour(e1, k1, v, w));
            }
        }
        lemma_first_one_same(d1, d2, 0);
        assert(l1 == l2);
        let l = l1;
        lemma_first_one(d2, 0);
        lemma_leaf_by_links(e2, k2, alive, n, l);
        let w = choose|w: int| only_neighbour(e2, k2, l, w);
        assert(kept_link(e1, k1, l, p1)) by {
            assert(joins(e1[i1], l, p1));
        }
        assert(kept_link(e2, k2, l, p2)) by {
            assert(joins(e2[i2], l, p2));
        }
        assert(kept_link(e2, k2, l, p1));
        assert(p1 == w && p2 == w);
        let k1b = k1.update(i1, false);
        let k2b = k2.update(i2, false);
        lemma_tree_simple(e1, k1, alive, n);
        lemma_tree_simple(e2, k2, alive, n);
        assert forall|a: int, b: int| kept_link(e1, k1b, a, b) <==> kept_link(e2, k2b, a, b) by {
            lemma_links_after_drop(e1, k1, i1, a, b);
            lemma_links_after_drop(e2, k2, i2, a, b);
        }
        lemma_steps_same_links(e1, k1b, e2, k2b, alive.update(l, false), n, (m - 1) as nat);
    }
}

/// The Prüfer code of a labelled tree depends only on which pairs of nodes
/// its edges join: two trees on `0..n` have the same code exactly when their
/// edges join the same pairs, in whatever order and direction they are
/// listed.
pub proof fn lemma_code_of_same_tree(e1: Seq<(usize, usize)>, e2: Seq<(usize, usize)>, n: nat)
    requires
        is_labelled_tree(e1, n),
        endpoints_below(e1, n),
        is_labelled_tree(e2, n),
        endpoints_below(e2, n),
        n <= usize::MAX,
    ensures
        prufer_sequence(e1, n) == prufer_sequence(e2, n) <==> (forall|a: int, b: int|
            linked(e1, a, b) <==> linked(e2, a, b)),
{
    lemma_encode_then_decode(e1, n);
    lemma_encode_then_decode(e2, n);
    if forall|a: int, b: int| linked(e1, a, b) <==> linked(e2, a, b) {
        let k1 = all_true(e1.len());
        let k2 = all_true(e2.len());
        lemma_initial_tree(e1, n);
        lemma_initial_tree(e2, n);
        lemma_count_all_true(n);
        assert forall|a: int, b: int| kept_link(e1, k1, a, b) <==> kept_link(e2, k2, a, b) by {
            if linked(e1, a, b) {
                let j = choose|j: int|
                    0 <= j < e1.len() && ((#[trigger] e1[j]).0 == a && e1[j].1 == b || e1[j].0 == b
                        && e1[j].1 == a);
                assert(k1[j]);
            }
            if linked(e2, a, b) {
                let j = choose|j: int|
                    0 <= j < e2.len() && ((#[trigger] e2[j]).0 == a && e2[j].1 == b || e2[j].0 == b
                        && e2[j].1 == a);
                assert(k2[j]);
            }
            if kept_link(e1, k1, a, b) {
                let j = choose|j: int|
                    0 <= j < e1.len() && k1[j] && ((#[trigger] e1[j]).0 == a && e1[j].1 == b
                        || e1[j].0 == b && e1[j].1 == a);
                assert(linked(e1, a, b));
            }
            if kept_link(e2, k2, a, b) {
                let j = choose|j: int|
                    0 <= j < e2.len() && k2[j] && ((#[trigger] e2[j]).0 == a && e2[j].1 == b
                        || e2[j].0 == b && e2[j].1 == a);
                assert(linked(e2, a, b));
            }
        }
        lemma_steps_same_links(e1, k1, e2, k2, all_true(n), n, (n - 2) as nat);
    }
    if prufer_sequence(e1, n) == prufer_sequence(e2, n) {
        let f = prufer_tree_edges(prufer_sequence(e1, n));
        assert forall|a: int, b: int| linked(e1, a, b) <==> linked(e2, a, b) by {
            assert(linked(f, a, b) <==> linked(e1, a, b));
            assert(linked(f, a, b) <==> linked(e2, a, b));
        }
    }
}

/// Decoding is injective: two sequences of the same length, with entries
/// below that length plus two, whose trees join the same pairs of nodes are
/// equal.  So decoding is a bijection onto the labelled trees on `0..n`.
pub proof fn lemma_decode_injective(s1: Seq<usize>, s2: Seq<usize>)
    requires
        s1.len() == s2.len(),
        s1.len() + 2 <= usize::MAX,
        forall|j: int| 0 <= j < s1.len() ==> (#[trigger] s1[j]) < s1.len() + 2,
        forall|j: int| 0 <= j < s2.len() ==> (#[trigger] s2[j]) < s2.len() + 2,
    ensures
        (forall|a: int, b: int|
            linked(prufer_tree_edges(s1), a, b) <==> linked(prufer_tree_edges(s2), a, b)) <==> s1
            == s2,
{
    let n = (s1.len() + 2) as nat;
    lemma_decode_then_encode(s1);
    lemma_decode_then_encode(s2);
    lemma_code_of_same_tree(prufer_tree_edges(s1), prufer_tree_edges(s2), n);
}

/// `w` is the one node the edges join to `v`.
pub open spec fn sole_neighbour(edges: Seq<(usize, usize)>, v: int, w: int) -> bool {
    &&& w != v
    &&& linked(edges, v, w)
    &&& forall|x: int| #[trigger] linked(edges, v, x) ==> x == w
}

/// `v` is a leaf: the edges join it to exactly one other node.
pub open spec fn is_leaf(edges: Seq<(usize, usize)>, v: int) -> bool {
    exists|w: int| sole_neighbour(edges, v, w)
}

/// With every edge kept, the kept edges join what the edges join.
proof fn lemma_all_kept_links(edges: Seq<(usize, usize)>, a: int, b: int)
    ensures
        kept_link(edges, all_true(edges.len()), a, b) <==> linked(edges, a, b),
{
    let k = all_true(edges.len());
    if linked(edges, a, b) {
        let j = choose|j: int|
            0 <= j < edges.len() && ((#[trigger] edges[j]).0 == a && edges[j].1 == b || edges[j].0
                == b && edges[j].1 == a);
        assert(k[j]);
    }
    if kept_link(edges, k, a, b) {
        let j = choose|j: int|
            0 <= j < edges.len() && k[j] && ((#[trigger] edges[j]).0 == a && edges[j].1 == b
                || edges[j].0 == b && edges[j].1 == a);
        assert(linked(edges, a, b));
    }
}

/// Encoding, first entry: the code of a labelled tree on `n >= 3` nodes has
/// `n - 2` entries and starts with the one neighbour of its smallest leaf.
pub proof fn lemma_code_first_entry(edges: Seq<(usize, usize)>, n: nat, l: int)
    requires
        is_labelled_tree(edges, n),
        endpoints_below(edges, n),
        n >= 3,
        n <= usize::MAX,
        0 <= l < n,
        is_leaf(edges, l),
        forall|m: int| 0 <= m < l ==> !is_leaf(edges, m),
    ensures
        prufer_sequence(edges, n).len() + 2 == n,
        sole_neighbour(edges, l, prufer_sequence(edges, n)[0] as int),
{
    let kept = all_true(edges.len());
    let alive = all_true(n);
    lemma_initial_tree(edges, n);
    lemma_count_all_true(n);
    lemma_steps_degrees(edges, kept, alive, n, (n - 2) as nat);
    let d = degrees(edges, kept, n);
    assert forall|v: int| 0 <= v < n implies (d[v] == 1 <==> is_leaf(edges, v)) by {
        lemma_leaf_by_links(edges, kept, alive, n, v);
        if exists|w: int| only_neighbour(edges, kept, v, w) {
            let w = choose|w: int| only_neighbour(edges, kept, v, w);
            lemma_all_kept_links(edges, v, w);
            assert forall|x: int| #[trigger] linked(edges, v, x) implies x == w by {
                lemma_all_kept_links(edges, v, x);
            }
            assert(sole_neighbour(edges, v, w));
        }
        if is_leaf(edges, v) {
            let w = choose|w: int| sole_neighbour(edges, v, w);
            lemma_all_kept_links(edges, v, w);
            assert forall|x: int| #[trigger] kept_link(edges, kept, v, x) implies x == w by {
                lemma_all_kept_links(edges, v, x);
            }
            assert(only_neighbour(edges, kept, v, w));
        }
    }
    crate::prufer_spec::lemma_first_one_skip(d, 0, l);
    assert(first_one(d, l) == l);
    let (l0, i, p) = lemma_round(edges, kept, alive, n);
    assert(l0 == l);
    assert(prufer_sequence(edges, n)[0] == p as usize);
    lemma_all_kept_links(edges, l, p);
    assert(kept_link(edges, kept, l, p)) by {
        assert(joins(edges[i], l, p));
    }
    let w = choose|w: int| sole_neighbour(edges, l, w);
    assert(p == w);
}

} // verus!
