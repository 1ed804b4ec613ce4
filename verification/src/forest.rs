//! Degrees and connectivity in a graph given as an edge list of which only
//! some edges are kept, and the fact that peeling leaves off a tree works.

use vstd::prelude::*;

use crate::prufer_spec::{count_below, first_one, lemma_count_below_full};
use crate::traversal::{count_true, lemma_count_set};
use crate::ungraph::{connected_in, is_walk_in, linked};

verus! {

/// `e` has `v` as an endpoint.
pub open spec fn touches(e: (usize, usize), v: int) -> bool {
    e.0 == v || e.1 == v
}

/// How much `e` adds to the degree of `v` (a loop at `v` adds two).
pub open spec fn contribution(e: (usize, usize), v: int) -> nat {
    (if e.0 == v {
        1nat
    } else {
        0nat
    }) + (if e.1 == v {
        1nat
    } else {
        0nat
    })
}

/// The degree of `v` counting the kept edges among the first `k`.
pub open spec fn degree_upto(edges: Seq<(usize, usize)>, kept: Seq<bool>, v: int, k: int) -> nat
    decreases k,
{
    if k <= 0 {
        0
    } else {
        degree_upto(edges, kept, v, k - 1) + if kept[k - 1] {
            contribution(edges[k - 1], v)
        } else {
            0nat
        }
    }
}

/// The degree of `v` counting the kept edges.
pub open spec fn degree_of(edges: Seq<(usize, usize)>, kept: Seq<bool>, v: int) -> nat {
    degree_upto(edges, kept, v, edges.len() as int)
}

/// The degrees of the nodes `0..n`, counting the kept edges.
pub open spec fn degrees(edges: Seq<(usize, usize)>, kept: Seq<bool>, n: nat) -> Seq<int> {
    Seq::new(n, |v: int| degree_of(edges, kept, v) as int)
}

/// The first kept edge at or after `j` that has `v` as an endpoint
/// (`edges.len()` when there is none).
pub open spec fn first_touching(edges: Seq<(usize, usize)>, kept: Seq<bool>, v: int, j: int) -> int
    decreases edges.len() - j,
{
    if j >= edges.len() {
        edges.len() as int
    } else if kept[j] && touches(edges[j], v) {
        j
    } else {
        first_touching(edges, kept, v, j + 1)
    }
}

/// The endpoint of `e` that is not `v` (the second when the first is `v`).
pub open spec fn far_end(e: (usize, usize), v: int) -> int {
    if e.0 == v {
        e.1 as int
    } else {
        e.0 as int
    }
}

/// Some kept edge joins `a` and `b`.
pub open spec fn kept_link(edges: Seq<(usize, usize)>, kept: Seq<bool>, a: int, b: int) -> bool {
    exists|i: int|
        0 <= i < edges.len() && kept[i] && ((#[trigger] edges[i]).0 == a && edges[i].1 == b
            || edges[i].0 == b && edges[i].1 == a)
}

/// `p` is a non-empty walk along kept edges.
pub open spec fn kept_walk(edges: Seq<(usize, usize)>, kept: Seq<bool>, p: Seq<int>) -> bool {
    &&& p.len() > 0
    &&& forall|i: int| 0 <= i < p.len() - 1 ==> #[trigger] kept_link(edges, kept, p[i], p[i + 1])
}

/// A walk along kept edges leads from `a` to `b`.
pub open spec fn kept_connected(edges: Seq<(usize, usize)>, kept: Seq<bool>, a: int, b: int) -> bool {
    exists|p: Seq<int>| #[trigger] kept_walk(edges, kept, p) && p[0] == a && p.last() == b
}

/// The kept edges form a tree on the live nodes: they join live nodes only,
/// there is one fewer of them than of live nodes, and they connect every two
/// live nodes.  A dropped edge has a node that is no longer live.
pub open spec fn live_tree(
    edges: Seq<(usize, usize)>,
    kept: Seq<bool>,
    alive: Seq<bool>,
    n: nat,
) -> bool {
    &&& alive.len() == n
    &&& kept.len() == edges.len()
    &&& forall|i: int| 0 <= i < edges.len() ==> (#[trigger] edges[i]).0 < n && edges[i].1 < n
    &&& forall|i: int|
        0 <= i < edges.len() && #[trigger] kept[i] ==> alive[edges[i].0 as int] && alive[edges[i].1 as int]
    &&& forall|i: int|
        0 <= i < edges.len() && !(#[trigger] kept[i]) ==> !(alive[edges[i].0 as int]
            && alive[edges[i].1 as int])
    &&& count_true(kept) + 1 == count_true(alive)
    &&& forall|a: int, b: int|
        0 <= a < n && 0 <= b < n && #[trigger] alive[a] && #[trigger] alive[b] ==> kept_connected(
            edges,
            kept,
            a,
            b,
        )
}

// ---------------------------------------------------------------- degrees

pub proof fn lemma_degree_at_least(edges: Seq<(usize, usize)>, kept: Seq<bool>, v: int, i: int, k: int)
    requires
        0 <= i < k <= edges.len(),
        kept[i],
    ensures
        degree_upto(edges, kept, v, k) >= contribution(edges[i], v),
    decreases k,
{
    if k - 1 > i {
        lemma_degree_at_least(edges, kept, v, i, k - 1);
    }
}

pub proof fn lemma_degree_at_least_two(
    edges: Seq<(usize, usize)>,
    kept: Seq<bool>,
    v: int,
    i: int,
    j: int,
    k: int,
)
    requires
        0 <= i < j < k <= edges.len(),
        kept[i],
        kept[j],
    ensures
        degree_upto(edges, kept, v, k) >= contribution(edges[i], v) + contribution(edges[j], v),
    decreases k,
{
    if k - 1 > j {
        lemma_degree_at_least_two(edges, kept, v, i, j, k - 1);
    } else {
        lemma_degree_at_least(edges, kept, v, i, k - 1);
    }
}

pub proof fn lemma_degree_zero(edges: Seq<(usize, usize)>, kept: Seq<bool>, v: int, k: int)
    requires
        0 <= k <= edges.len(),
        forall|i: int| 0 <= i < k && #[trigger] kept[i] ==> !touches(edges[i], v),
    ensures
        degree_upto(edges, kept, v, k) == 0,
    decreases k,
{
    if k > 0 {
        lemma_degree_zero(edges, kept, v, k - 1);
    }
}

/// Dropping the kept edge `i` lowers each degree by that edge's contribution.
pub proof fn lemma_degree_drop(edges: Seq<(usize, usize)>, kept: Seq<bool>, v: int, i: int, k: int)
    requires
        0 <= i < edges.len(),
        kept.len() == edges.len(),
        kept[i],
        0 <= k <= edges.len(),
    ensures
        degree_upto(edges, kept.update(i, false), v, k) == degree_upto(edges, kept, v, k) - if i
            < k {
            contribution(edges[i], v)
        } else {
            0nat
        },
    decreases k,
{
    if k > 0 {
        lemma_degree_drop(edges, kept, v, i, k - 1);
        if i < k - 1 {
            lemma_degree_at_least(edges, kept, v, i, k - 1);
        }
    }
}

/// The sum of the degrees of the nodes below `m`.
pub open spec fn degree_sum(edges: Seq<(usize, usize)>, kept: Seq<bool>, k: int, m: int) -> nat
    decreases m,
{
    if m <= 0 {
        0
    } else {
        degree_sum(edges, kept, k, m - 1) + degree_upto(edges, kept, m - 1, k)
    }
}

proof fn lemma_degree_sum_step(edges: Seq<(usize, usize)>, kept: Seq<bool>, k: int, m: int)
    requires
        0 <= k < edges.len(),
        0 <= m,
    ensures
        degree_sum(edges, kept, k + 1, m) == degree_sum(edges, kept, k, m) + if kept[k] {
            (if edges[k].0 < m {
                1nat
            } else {
                0nat
            }) + (if edges[k].1 < m {
                1nat
            } else {
                0nat
            })
        } else {
            0nat
        },
    decreases m,
{
    if m > 0 {
        lemma_degree_sum_step(edges, kept, k, m - 1);
    }
}

proof fn lemma_degree_sum_upto(edges: Seq<(usize, usize)>, kept: Seq<bool>, k: int, n: int)
    requires
        0 <= k <= edges.len(),
        0 <= n,
        forall|i: int| 0 <= i < edges.len() ==> (#[trigger] edges[i]).0 < n && edges[i].1 < n,
    ensures
        degree_sum(edges, kept, k, n) == 2 * count_below(kept, k),
    decreases k,
{
    if k == 0 {
        lemma_degree_sum_zero(edges, kept, n);
    } else {
        lemma_degree_sum_upto(edges, kept, k - 1, n);
        lemma_degree_sum_step(edges, kept, k - 1, n);
        assert(edges[k - 1].0 < n && edges[k - 1].1 < n);
    }
}

proof fn lemma_degree_sum_zero(edges: Seq<(usize, usize)>, kept: Seq<bool>, m: int)
    ensures
        degree_sum(edges, kept, 0, m) == 0,
    decreases m,
{
    if m > 0 {
        lemma_degree_sum_zero(edges, kept, m - 1);
    }
}

/// The degrees add up to twice the number of kept edges.
pub proof fn lemma_handshake(edges: Seq<(usize, usize)>, kept: Seq<bool>, n: int)
    requires
        kept.len() == edges.len(),
        0 <= n,
        forall|i: int| 0 <= i < edges.len() ==> (#[trigger] edges[i]).0 < n && edges[i].1 < n,
    ensures
        degree_sum(edges, kept, edges.len() as int, n) == 2 * count_true(kept),
{
    lemma_degree_sum_upto(edges, kept, edges.len() as int, n);
    lemma_count_below_full(kept);
}

/// If every live node below `m` has degree at least two, the degrees below
/// `m` add up to at least twice the live nodes below `m`.
proof fn lemma_degree_sum_lower(edges: Seq<(usize, usize)>, kept: Seq<bool>, alive: Seq<bool>, m: int)
    requires
        0 <= m <= alive.len(),
        forall|v: int| 0 <= v < m && #[trigger] alive[v] ==> degree_of(edges, kept, v) >= 2,
    ensures
        degree_sum(edges, kept, edges.len() as int, m) >= 2 * count_below(alive, m),
    decreases m,
{
    if m > 0 {
        lemma_degree_sum_lower(edges, kept, alive, m - 1);
    }
}

// ---------------------------------------------------------------- first_touching

pub proof fn lemma_first_touching(edges: Seq<(usize, usize)>, kept: Seq<bool>, v: int, j: int)
    requires
        0 <= j,
    ensures
        j <= first_touching(edges, kept, v, j) <= edges.len() || (j > edges.len()
            && first_touching(edges, kept, v, j) == edges.len()),
        first_touching(edges, kept, v, j) < edges.len() ==> kept[first_touching(edges, kept, v, j)]
            && touches(edges[first_touching(edges, kept, v, j)], v),
        forall|k: int|
            j <= k < first_touching(edges, kept, v, j) ==> !(kept[k] && touches(edges[k], v)),
    decreases edges.len() - j,
{
    if j < edges.len() && !(kept[j] && touches(edges[j], v)) {
        lemma_first_touching(edges, kept, v, j + 1);
    }
}

/// A node of degree one has exactly one kept edge, the first one touching
/// it, and that edge is not a loop.
pub proof fn lemma_leaf_edge(edges: Seq<(usize, usize)>, kept: Seq<bool>, l: int)
    requires
        kept.len() == edges.len(),
        degree_of(edges, kept, l) == 1,
    ensures
        ({
            let i = first_touching(edges, kept, l, 0);
            &&& 0 <= i < edges.len()
            &&& kept[i]
            &&& touches(edges[i], l)
            &&& far_end(edges[i], l) != l
            &&& contribution(edges[i], l) == 1
            &&& forall|j: int| 0 <= j < edges.len() && kept[j] && touches(edges[j], l) ==> j == i
        }),
{
    lemma_first_touching(edges, kept, l, 0);
    let i = first_touching(edges, kept, l, 0);
    if i >= edges.len() {
        lemma_degree_zero(edges, kept, l, edges.len() as int);
    }
    lemma_degree_at_least(edges, kept, l, i, edges.len() as int);
    assert forall|j: int| 0 <= j < edges.len() && kept[j] && touches(edges[j], l) implies j == i by {
        if j != i {
            assert(j > i);
            lemma_degree_at_least_two(edges, kept, l, i, j, edges.len() as int);
        }
    }
}

// ---------------------------------------------------------------- walks

proof fn lemma_walk_reverse(edges: Seq<(usize, usize)>, kept: Seq<bool>, p: Seq<int>)
    requires
        kept_walk(edges, kept, p),
    ensures
        kept_walk(edges, kept, p.reverse()),
        p.reverse()[0] == p.last(),
        p.reverse().last() == p[0],
{
    let q = p.reverse();
    assert forall|i: int| 0 <= i < q.len() - 1 implies #[trigger] kept_link(
        edges,
        kept,
        q[i],
        q[i + 1],
    ) by {
        let j = p.len() - 2 - i;
        assert(kept_link(edges, kept, p[j], p[j + 1]));
        assert(q[i] == p[j + 1] && q[i + 1] == p[j]);
        let w = choose|w: int|
            0 <= w < edges.len() && kept[w] && ((#[trigger] edges[w]).0 == p[j] && edges[w].1
                == p[j + 1] || edges[w].0 == p[j + 1] && edges[w].1 == p[j]);
        assert(edges[w] == edges[w]);
    }
}

proof fn lemma_walk_join(edges: Seq<(usize, usize)>, kept: Seq<bool>, p: Seq<int>, q: Seq<int>)
    requires
        kept_walk(edges, kept, p),
        kept_walk(edges, kept, q),
        p.last() == q[0],
    ensures
        kept_walk(edges, kept, p + q.drop_first()),
        (p + q.drop_first())[0] == p[0],
        (p + q.drop_first()).last() == q.last(),
{
    let r = p + q.drop_first();
    assert forall|i: int| 0 <= i < r.len() - 1 implies #[trigger] kept_link(
        edges,
        kept,
        r[i],
        r[i + 1],
    ) by {
        if i < p.len() - 1 {
            assert(r[i] == p[i] && r[i + 1] == p[i + 1]);
        } else {
            let j = i - (p.len() - 1);
            assert(r[i] == q[j] && r[i + 1] == q[j + 1]);
            assert(kept_link(edges, kept, q[j], q[j + 1]));
        }
    }
    if q.len() == 1 {
        assert(r =~= p);
    }
}

/// Connected through a common node.
pub proof fn lemma_connected_via(edges: Seq<(usize, usize)>, kept: Seq<bool>, c: int, a: int, b: int)
    requires
        kept_connected(edges, kept, c, a),
        kept_connected(edges, kept, c, b),
    ensures
        kept_connected(edges, kept, a, b),
{
    let p = choose|p: Seq<int>| #[trigger] kept_walk(edges, kept, p) && p[0] == c && p.last() == a;
    let q = choose|q: Seq<int>| #[trigger] kept_walk(edges, kept, q) && q[0] == c && q.last() == b;
    lemma_walk_reverse(edges, kept, p);
    lemma_walk_join(edges, kept, p.reverse(), q);
}

// ---------------------------------------------------------------- leaves

proof fn lemma_two_true(s: Seq<bool>, v: int)
    requires
        count_true(s) >= 2,
        0 <= v < s.len(),
        s[v],
    ensures
        exists|u: int| 0 <= u < s.len() && u != v && s[u],
{
    let r = s.update(v, false);
    assert(s =~= r.update(v, true));
    lemma_count_set(r, v);
    lemma_find_true(r);
    let u = choose|u: int| 0 <= u < r.len() && r[u];
}

pub proof fn lemma_find_true(s: Seq<bool>)
    requires
        count_true(s) > 0,
    ensures
        exists|b: int| 0 <= b < s.len() && s[b],
    decreases s.len(),
{
    if s.len() > 0 {
        if s.last() {
            assert(s[s.len() - 1]);
        } else {
            lemma_find_true(s.drop_last());
            let b = choose|b: int| 0 <= b < s.drop_last().len() && s.drop_last()[b];
            assert(s[b]);
        }
    }
}

/// In a live tree every live node has a kept edge, a node that is not live
/// has none, and with two or more live nodes some live node is a leaf: the
/// smallest node of degree one is live.
pub proof fn lemma_tree_has_leaf(
    edges: Seq<(usize, usize)>,
    kept: Seq<bool>,
    alive: Seq<bool>,
    n: nat,
)
    requires
        live_tree(edges, kept, alive, n),
        count_true(alive) >= 2,
    ensures
        forall|v: int| 0 <= v < n && !alive[v] ==> degree_of(edges, kept, v) == 0,
        forall|v: int| 0 <= v < n && #[trigger] alive[v] ==> degree_of(edges, kept, v) >= 1,
        first_one(degrees(edges, kept, n), 0) < n,
        alive[first_one(degrees(edges, kept, n), 0)],
{
    assert forall|v: int| 0 <= v < n && !alive[v] implies degree_of(edges, kept, v) == 0 by {
        assert forall|i: int| 0 <= i < edges.len() && #[trigger] kept[i] implies !touches(
            edges[i],
            v,
        ) by {}
        lemma_degree_zero(edges, kept, v, edges.len() as int);
    }
    assert forall|v: int| 0 <= v < n && #[trigger] alive[v] implies degree_of(edges, kept, v) >= 1 by {
        lemma_two_true(alive, v);
        let u = choose|u: int| 0 <= u < alive.len() && u != v && alive[u];
        assert(kept_connected(edges, kept, v, u));
        let p = choose|p: Seq<int>| #[trigger] kept_walk(edges, kept, p) && p[0] == v && p.last() == u;
        assert(p.len() >= 2);
        let z: int = 0;
        assert(kept_link(edges, kept, p[z], p[z + 1]));
        let i = choose|i: int|
            0 <= i < edges.len() && kept[i] && ((#[trigger] edges[i]).0 == p[0] && edges[i].1
                == p[1] || edges[i].0 == p[1] && edges[i].1 == p[0]);
        lemma_degree_at_least(edges, kept, v, i, edges.len() as int);
    }
    let d = degrees(edges, kept, n);
    if forall|v: int| 0 <= v < n && #[trigger] alive[v] ==> degree_of(edges, kept, v) >= 2 {
        lemma_degree_sum_lower(edges, kept, alive, n as int);
        lemma_handshake(edges, kept, n as int);
        lemma_count_below_full(alive);
        assert(false);
    }
    let w = choose|w: int| 0 <= w < n && #[trigger] alive[w] && !(degree_of(edges, kept, w) >= 2);
    assert(d[w] == 1);
    lemma_first_one(d, 0);
    let l = first_one(d, 0);
    assert(d[l] == 1);
    if !alive[l] {
        assert(degree_of(edges, kept, l) == 0);
    }
}

proof fn lemma_first_one(d: Seq<int>, i: int)
    requires
        0 <= i,
    ensures
        i <= first_one(d, i) <= d.len() || (i > d.len() && first_one(d, i) == d.len()),
        first_one(d, i) < d.len() ==> d[first_one(d, i)] == 1,
        forall|k: int| i <= k < first_one(d, i) ==> d[k] != 1,
{
    crate::prufer_spec::lemma_first_one(d, i);
}

// ---------------------------------------------------------------- peeling

/// Every kept edge but `i` keeps linking the nodes of a walk that avoids `l`.
proof fn lemma_walk_avoid(edges: Seq<(usize, usize)>, kept: Seq<bool>, l: int, i: int, p: Seq<int>)
    requires
        kept.len() == edges.len(),
        0 <= i < edges.len(),
        kept[i],
        touches(edges[i], l),
        far_end(edges[i], l) != l,
        forall|j: int| 0 <= j < edges.len() && kept[j] && touches(edges[j], l) ==> j == i,
        kept_walk(edges, kept, p),
        p[0] != l,
        p.last() != l,
    ensures
        exists|q: Seq<int>|
            #[trigger] kept_walk(edges, kept.update(i, false), q) && q[0] == p[0] && q.last() == p.last(),
    decreases p.len(),
{
    let kept2 = kept.update(i, false);
    if forall|k: int| 0 <= k < p.len() ==> p[k] != l {
        assert forall|k: int| 0 <= k < p.len() - 1 implies #[trigger] kept_link(
            edges,
            kept2,
            p[k],
            p[k + 1],
        ) by {
            assert(kept_link(edges, kept, p[k], p[k + 1]));
            let w = choose|w: int|
                0 <= w < edges.len() && kept[w] && ((#[trigger] edges[w]).0 == p[k] && edges[w].1
                    == p[k + 1] || edges[w].0 == p[k + 1] && edges[w].1 == p[k]);
            assert(p[k] != l && p[k + 1] != l);
            assert(w != i);
            assert(kept2[w]);
        }
        assert(kept_walk(edges, kept2, p));
    } else {
        let m = choose|m: int| 0 <= m < p.len() && p[m] == l;
        assert(0 < m < p.len() - 1);
        let e = edges[i];
        assert(kept_link(edges, kept, p[m - 1], p[(m - 1) + 1]));
        assert(kept_link(edges, kept, p[m], p[m + 1]));
        let w1 = choose|w: int|
            0 <= w < edges.len() && kept[w] && ((#[trigger] edges[w]).0 == p[m - 1] && edges[w].1
                == p[m] || edges[w].0 == p[m] && edges[w].1 == p[m - 1]);
        let w2 = choose|w: int|
            0 <= w < edges.len() && kept[w] && ((#[trigger] edges[w]).0 == p[m] && edges[w].1
                == p[m + 1] || edges[w].0 == p[m + 1] && edges[w].1 == p[m]);
        assert(w1 == i && w2 == i);
        assert(p[m - 1] == far_end(e, l));
        assert(p[m + 1] == far_end(e, l));
        let q = p.subrange(0, m) + p.subrange(m + 2, p.len() as int);
        assert forall|k: int| 0 <= k < q.len() - 1 implies #[trigger] kept_link(
            edges,
            kept,
            q[k],
            q[k + 1],
        ) by {
            if k < m - 1 {
                assert(q[k] == p[k] && q[k + 1] == p[k + 1]);
            } else if k == m - 1 {
                assert(q[k] == p[m + 1] && q[k + 1] == p[m + 2]);
                assert(kept_link(edges, kept, p[m + 1], p[(m + 1) + 1]));
            } else {
                assert(q[k] == p[k + 2] && q[k + 1] == p[k + 3]);
                assert(kept_link(edges, kept, p[k + 2], p[(k + 2) + 1]));
            }
        }
        assert(q[0] == p[0]);
        if m + 2 == p.len() {
            assert(q.last() == p[m - 1]);
        } else {
            assert(q.last() == p.last());
        }
        assert(kept_walk(edges, kept, q));
        lemma_walk_avoid(edges, kept, l, i, q);
    }
}

/// Peeling a leaf off a live tree leaves a live tree: the leaf's only edge
/// is the first kept edge touching it, and its far end is live.
pub proof fn lemma_remove_leaf(
    edges: Seq<(usize, usize)>,
    kept: Seq<bool>,
    alive: Seq<bool>,
    n: nat,
    l: int,
)
    requires
        live_tree(edges, kept, alive, n),
        0 <= l < n,
        alive[l],
        degree_of(edges, kept, l) == 1,
    ensures
        ({
            let i = first_touching(edges, kept, l, 0);
            let p = far_end(edges[i], l);
            &&& 0 <= i < edges.len()
            &&& kept[i]
            &&& 0 <= p < n
            &&& p != l
            &&& alive[p]
            &&& contribution(edges[i], l) == 1
            &&& contribution(edges[i], p) == 1
            &&& forall|v: int| v != l && v != p ==> contribution(edges[i], v) == 0
            &&& live_tree(edges, kept.update(i, false), alive.update(l, false), n)
        }),
{
    lemma_leaf_edge(edges, kept, l);
    let i = first_touching(edges, kept, l, 0);
    let p = far_end(edges[i], l);
    let kept2 = kept.update(i, false);
    let alive2 = alive.update(l, false);
    assert(kept =~= kept2.update(i, true));
    lemma_count_set(kept2, i);
    assert(alive =~= alive2.update(l, true));
    lemma_count_set(alive2, l);
    assert forall|j: int|
        0 <= j < edges.len() && #[trigger] kept2[j] implies alive2[edges[j].0 as int]
        && alive2[edges[j].1 as int] by {
        assert(kept[j] && j != i);
        if touches(edges[j], l) {
            assert(j == i);
        }
    }
    assert forall|a: int, b: int|
        0 <= a < n && 0 <= b < n && #[trigger] alive2[a] && #[trigger] alive2[b] implies kept_connected(
        edges,
        kept2,
        a,
        b,
    ) by {
        assert(alive[a] && alive[b]);
        assert(kept_connected(edges, kept, a, b));
        let w = choose|w: Seq<int>| #[trigger] kept_walk(edges, kept, w) && w[0] == a && w.last() == b;
        lemma_walk_avoid(edges, kept, l, i, w);
    }
}

/// A node linked to the leaf `l` by any edge, kept or not, whose degree is
/// not zero, is the far end of the leaf's kept edge.
pub proof fn lemma_leaf_neighbor(
    edges: Seq<(usize, usize)>,
    kept: Seq<bool>,
    alive: Seq<bool>,
    n: nat,
    l: int,
    w: int,
)
    requires
        live_tree(edges, kept, alive, n),
        0 <= l < n,
        alive[l],
        degree_of(edges, kept, l) == 1,
        linked(edges, l, w),
        degree_of(edges, kept, w) > 0,
    ensures
        w == far_end(edges[first_touching(edges, kept, l, 0)], l),
{
    lemma_leaf_edge(edges, kept, l);
    let i = first_touching(edges, kept, l, 0);
    let j = choose|j: int|
        0 <= j < edges.len() && ((#[trigger] edges[j]).0 == l && edges[j].1 == w || edges[j].0 == w
            && edges[j].1 == l);
    if kept[j] {
        assert(j == i);
    } else {
        assert(!alive[w]);
        assert forall|k: int| 0 <= k < edges.len() && #[trigger] kept[k] implies !touches(
            edges[k],
            w,
        ) by {}
        lemma_degree_zero(edges, kept, w, edges.len() as int);
    }
}

/// All entries `true`.
pub open spec fn all_true(len: nat) -> Seq<bool> {
    Seq::new(len, |i: int| true)
}

pub proof fn lemma_count_all_true(len: nat)
    ensures
        count_true(all_true(len)) == len,
    decreases len,
{
    if len > 0 {
        assert(all_true(len).drop_last() =~= all_true((len - 1) as nat));
        lemma_count_all_true((len - 1) as nat);
    }
}

/// A graph on `n` nodes with `n - 1` edges in which every node is connected
/// to node 0 is a live tree with every edge kept and every node live.
pub proof fn lemma_initial_tree(edges: Seq<(usize, usize)>, n: nat)
    requires
        n >= 1,
        edges.len() + 1 == n,
        forall|i: int| 0 <= i < edges.len() ==> (#[trigger] edges[i]).0 < n && edges[i].1 < n,
        forall|v: int| 0 <= v < n ==> connected_in(edges, 0, v),
    ensures
        live_tree(edges, all_true(edges.len()), all_true(n), n),
{
    let kept = all_true(edges.len());
    lemma_count_all_true(edges.len());
    lemma_count_all_true(n);
    assert forall|v: int| 0 <= v < n implies kept_connected(edges, kept, 0, v) by {
        assert(connected_in(edges, 0, v));
        let p = choose|p: Seq<int>| #[trigger] is_walk_in(edges, p) && p[0] == 0 && p.last() == v;
        assert forall|k: int| 0 <= k < p.len() - 1 implies #[trigger] kept_link(
            edges,
            kept,
            p[k],
            p[k + 1],
        ) by {
            assert(linked(edges, p[k], p[k + 1]));
        }
        assert(kept_walk(edges, kept, p));
    }
    assert forall|a: int, b: int|
        0 <= a < n && 0 <= b < n && #[trigger] all_true(n)[a] && #[trigger] all_true(n)[b]
        implies kept_connected(edges, kept, a, b) by {
        lemma_connected_via(edges, kept, 0, a, b);
    }
}

} // verus!
