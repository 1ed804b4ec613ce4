//! What the Prüfer code of a labelled tree is, stated over plain sequences,
//! and the facts about it that the encoder and decoder rest on.

use vstd::prelude::*;

use crate::forest::{
    all_true, contribution, degree_of, degree_upto, degrees, far_end, first_touching,
    kept_connected, kept_link, kept_walk, lemma_connected_via, lemma_count_all_true,
    lemma_degree_zero, lemma_find_true, touches,
};
use crate::traversal::{count_true, lemma_count_bound, lemma_count_set};
use crate::ungraph::{connected_in, endpoints_below, is_walk_in, linked};

verus! {

/// How many times `v` occurs in `s`.
pub open spec fn occurrences(s: Seq<usize>, v: int) -> nat
    decreases s.len(),
{
    if s.len() == 0 {
        0
    } else {
        occurrences(s.drop_last(), v) + if s.last() == v {
            1nat
        } else {
            0nat
        }
    }
}

/// The smallest index `j >= i` with `d[j] == 1`, or `d.len()` when there is none.
pub open spec fn first_one(d: Seq<int>, i: int) -> int
    decreases d.len() - i,
{
    if i >= d.len() {
        d.len() as int
    } else if d[i] == 1 {
        i
    } else {
        first_one(d, i + 1)
    }
}

/// The degrees a Prüfer sequence `s` gives the nodes `0..n` of its tree:
/// one more than the number of times each occurs in `s`.
pub open spec fn initial_degrees(s: Seq<usize>, n: nat) -> Seq<int> {
    Seq::new(n, |v: int| 1 + occurrences(s, v) as int)
}

/// The edges the decoding of `s` adds when the current degrees are `d`:
/// each entry `v` of `s` joins `v` to the smallest node of degree one, whose
/// degree then drops to zero while that of `v` drops by one; the last edge
/// joins the two nodes of degree one that remain, smaller first.
pub open spec fn decode_steps(d: Seq<int>, s: Seq<usize>) -> Seq<(usize, usize)>
    decreases s.len(),
{
    if s.len() == 0 {
        let a = first_one(d, 0);
        let b = first_one(d, a + 1);
        seq![(a as usize, b as usize)]
    } else {
        let l = first_one(d, 0);
        let v = s[0] as int;
        seq![(l as usize, s[0])] + decode_steps(d.update(l, 0).update(v, d[v] - 1), s.drop_first())
    }
}

/// The edges of the labelled tree on `0..s.len() + 2` whose Prüfer sequence
/// is `s`, in the order the decoding adds them.
pub open spec fn prufer_tree_edges(s: Seq<usize>) -> Seq<(usize, usize)> {
    decode_steps(initial_degrees(s, s.len() + 2), s)
}

/// `first_one` skips indices that are not one.
pub proof fn lemma_first_one_skip(d: Seq<int>, i: int, j: int)
    requires
        0 <= i <= j,
        forall|k: int| i <= k < j && k < d.len() ==> d[k] != 1,
    ensures
        first_one(d, i) == first_one(d, j),
    decreases j - i,
{
    if i < j {
        lemma_first_one_skip(d, i + 1, j);
    }
}

/// What `first_one` finds.
pub proof fn lemma_first_one(d: Seq<int>, i: int)
    requires
        0 <= i,
    ensures
        i <= first_one(d, i) <= d.len() || (i > d.len() && first_one(d, i) == d.len()),
        first_one(d, i) < d.len() ==> d[first_one(d, i)] == 1,
        forall|k: int| i <= k < first_one(d, i) ==> d[k] != 1,
    decreases d.len() - i,
{
    if i < d.len() && d[i] != 1 {
        lemma_first_one(d, i + 1);
    }
}

pub proof fn lemma_occurrences_bound(s: Seq<usize>, v: int)
    ensures
        occurrences(s, v) <= s.len(),
        (forall|j: int| 0 <= j < s.len() ==> s[j] != v) ==> occurrences(s, v) == 0,
        occurrences(s, v) > 0 ==> exists|j: int| 0 <= j < s.len() && s[j] == v,
        forall|j: int| 0 <= j < s.len() && s[j] == v ==> occurrences(s, v) > 0,
    decreases s.len(),
{
    if s.len() > 0 {
        lemma_occurrences_bound(s.drop_last(), v);
        assert forall|j: int| 0 <= j < s.len() && s[j] == v implies occurrences(s, v) > 0 by {
            if j < s.len() - 1 {
                assert(s.drop_last()[j] == v);
            }
        }
        if occurrences(s.drop_last(), v) > 0 {
            let j = choose|j: int| 0 <= j < s.drop_last().len() && s.drop_last()[j] == v;
            assert(s[j] == v);
        }
        if s.last() == v {
            assert(s[s.len() - 1] == v);
        }
    }
}

/// Dropping the first entry lowers its count by one.
pub proof fn lemma_occurrences_drop_first(s: Seq<usize>, v: int)
    requires
        s.len() > 0,
    ensures
        occurrences(s, v) == occurrences(s.drop_first(), v) + if s[0] == v {
            1nat
        } else {
            0nat
        },
    decreases s.len(),
{
    if s.len() > 1 {
        lemma_occurrences_drop_first(s.drop_last(), v);
        assert(s.drop_last().drop_first() =~= s.drop_first().drop_last());
        assert(occurrences(s.drop_first(), v) == occurrences(s.drop_first().drop_last(), v) + (if s.drop_first().last() == v { 1nat } else { 0nat }));
        assert(s.drop_first().last() == s.last());
        assert(s.drop_last()[0] == s[0]);
        assert(occurrences(s, v) == occurrences(s.drop_last(), v) + (if s.last() == v { 1nat } else { 0nat }));
    } else {
        assert(s.drop_first().len() == 0);
        assert(s.drop_last().len() == 0);
        assert(occurrences(s.drop_last(), v) == 0);
        assert(occurrences(s.drop_first(), v) == 0);
        assert(s.last() == s[0]);
    }
}

/// The number of `true` entries of `alive` below `k`.
pub open spec fn count_below(alive: Seq<bool>, k: int) -> nat
    decreases k,
{
    if k <= 0 {
        0
    } else {
        count_below(alive, k - 1) + if alive[k - 1] {
            1nat
        } else {
            0nat
        }
    }
}

/// The occurrences in `s` of the nodes below `k` flagged in `alive`.
pub open spec fn alive_occurrences(s: Seq<usize>, alive: Seq<bool>, k: int) -> nat
    decreases k,
{
    if k <= 0 {
        0
    } else {
        alive_occurrences(s, alive, k - 1) + if alive[k - 1] {
            occurrences(s, k - 1)
        } else {
            0nat
        }
    }
}

pub proof fn lemma_count_below_full(alive: Seq<bool>)
    ensures
        count_below(alive, alive.len() as int) == count_true(alive),
    decreases alive.len(),
{
    if alive.len() > 0 {
        let a = alive.drop_last();
        lemma_count_below_full(a);
        lemma_count_below_prefix(alive, a, a.len() as int);
    }
}

proof fn lemma_count_below_prefix(alive: Seq<bool>, a: Seq<bool>, k: int)
    requires
        0 <= k <= a.len(),
        a.len() <= alive.len(),
        forall|i: int| 0 <= i < a.len() ==> a[i] == alive[i],
    ensures
        count_below(alive, k) == count_below(a, k),
    decreases k,
{
    if k > 0 {
        lemma_count_below_prefix(alive, a, k - 1);
    }
}

/// The occurrences of all nodes below `k` add up to the entries below `k`.
proof fn lemma_alive_occurrences_all(s: Seq<usize>, alive: Seq<bool>, k: int)
    requires
        0 <= k <= alive.len(),
        forall|j: int| 0 <= j < s.len() ==> s[j] < alive.len() && alive[s[j] as int],
    ensures
        alive_occurrences(s, alive, k) == occurrences_below(s, k),
    decreases k,
{
    if k > 0 {
        lemma_alive_occurrences_all(s, alive, k - 1);
        if !alive[k - 1] {
            lemma_occurrences_bound(s, k - 1);
            if occurrences(s, k - 1) > 0 {
                let j = choose|j: int| 0 <= j < s.len() && s[j] == k - 1;
                assert(alive[s[j] as int]);
            }
        }
    }
}

/// The number of entries of `s` below `k`.
pub open spec fn occurrences_below(s: Seq<usize>, k: int) -> nat
    decreases k,
{
    if k <= 0 {
        0
    } else {
        occurrences_below(s, k - 1) + occurrences(s, k - 1)
    }
}

proof fn lemma_occurrences_below_total(s: Seq<usize>, n: int)
    requires
        0 <= n,
        forall|j: int| 0 <= j < s.len() ==> s[j] < n,
    ensures
        occurrences_below(s, n) == s.len(),
    decreases s.len(),
{
    if s.len() == 0 {
        lemma_occurrences_below_empty(s, n);
    } else {
        let t = s.drop_last();
        assert(s.last() == s[s.len() - 1]);
        assert(s.last() < n);
        lemma_occurrences_below_total(t, n);
        assert(t.push(s.last()) =~= s);
        lemma_occurrences_below_push(t, s.last(), n);
        assert(occurrences_below(t.push(s.last()), n) == occurrences_below(t, n) + 1);
    }
}

proof fn lemma_occurrences_below_empty(s: Seq<usize>, k: int)
    requires
        s.len() == 0,
    ensures
        occurrences_below(s, k) == 0,
    decreases k,
{
    if k > 0 {
        lemma_occurrences_below_empty(s, k - 1);
    }
}

proof fn lemma_occurrences_below_push(t: Seq<usize>, x: usize, k: int)
    requires
        0 <= k,
    ensures
        occurrences_below(t.push(x), k) == occurrences_below(t, k) + if x < k {
            1nat
        } else {
            0nat
        },
    decreases k,
{
    assert(t.push(x).drop_last() =~= t);
    if k > 0 {
        lemma_occurrences_below_push(t, x, k - 1);
    }
}

/// With more live nodes than entries, all of them live, some live node does
/// not occur at all.
pub proof fn lemma_unused_live_node(s: Seq<usize>, alive: Seq<bool>)
    requires
        forall|j: int| 0 <= j < s.len() ==> s[j] < alive.len() && alive[s[j] as int],
        count_true(alive) > s.len(),
    ensures
        exists|v: int| 0 <= v < alive.len() && alive[v] && occurrences(s, v) == 0,
{
    let n = alive.len() as int;
    lemma_alive_occurrences_all(s, alive, n);
    lemma_occurrences_below_total(s, n);
    lemma_count_below_full(alive);
    if forall|v: int| 0 <= v < n && alive[v] ==> occurrences(s, v) > 0 {
        lemma_occurrences_cover(s, alive, n);
    }
}

proof fn lemma_occurrences_cover(s: Seq<usize>, alive: Seq<bool>, k: int)
    requires
        0 <= k <= alive.len(),
        forall|v: int| 0 <= v < alive.len() && alive[v] ==> occurrences(s, v) > 0,
    ensures
        alive_occurrences(s, alive, k) >= count_below(alive, k),
    decreases k,
{
    if k > 0 {
        lemma_occurrences_cover(s, alive, k - 1);
    }
}

/// The codes recorded by `k` rounds of removing the smallest leaf (among the
/// kept edges) and recording its neighbour; the leaf's edge is dropped.
pub open spec fn prufer_steps(edges: Seq<(usize, usize)>, kept: Seq<bool>, n: nat, k: nat) -> Seq<
    usize,
>
    decreases k,
{
    if k == 0 {
        seq![]
    } else {
        let l = first_one(degrees(edges, kept, n), 0);
        let i = first_touching(edges, kept, l, 0);
        seq![far_end(edges[i], l) as usize] + prufer_steps(
            edges,
            kept.update(i, false),
            n,
            (k - 1) as nat,
        )
    }
}

/// The Prüfer sequence of the tree on `0..n` with the given edges: the
/// neighbours of the `n - 2` smallest leaves removed one after the other.
pub open spec fn prufer_sequence(edges: Seq<(usize, usize)>, n: nat) -> Seq<usize> {
    prufer_steps(edges, all_true(edges.len()), n, (n - 2) as nat)
}

/// The edges form a tree on `0..n`: at least two nodes, `n - 1` edges, and
/// every node connected to node 0.
pub open spec fn is_labelled_tree(edges: Seq<(usize, usize)>, n: nat) -> bool {
    &&& n >= 2
    &&& edges.len() + 1 == n
    &&& forall|v: int| 0 <= v < n ==> connected_in(edges, 0, v)
}

/// Whether each node below `n` occurs in `s`.
pub open spec fn presence(s: Seq<usize>, n: nat) -> Seq<bool> {
    Seq::new(n, |v: int| s.contains(v as usize))
}

proof fn lemma_presence_count(s: Seq<usize>, n: nat)
    requires
        n <= usize::MAX,
        s.no_duplicates(),
        forall|j: int| 0 <= j < s.len() ==> s[j] < n,
    ensures
        count_true(presence(s, n)) == s.len(),
    decreases s.len(),
{
    if s.len() == 0 {
        assert(presence(s, n) =~= Seq::new(n, |v: int| false));
        lemma_count_none(n);
    } else {
        let t = s.drop_last();
        let x = s.last();
        assert(s[s.len() - 1] == x);
        lemma_presence_count(t, n);
        assert(!t.contains(x));
        assert(presence(s, n) =~= presence(t, n).update(x as int, true)) by {
            assert forall|v: int| 0 <= v < n implies presence(s, n)[v] == presence(t, n).update(
                x as int,
                true,
            )[v] by {
                if s.contains(v as usize) && v != x {
                    let j = choose|j: int| 0 <= j < s.len() && s[j] == v as usize;
                    assert(t[j] == v as usize);
                }
                if t.contains(v as usize) {
                    let j = choose|j: int| 0 <= j < t.len() && t[j] == v as usize;
                    assert(s[j] == v as usize);
                }
            }
        }
        lemma_count_set(presence(t, n), x as int);
    }
}

proof fn lemma_count_none(n: nat)
    ensures
        count_true(Seq::new(n, |v: int| false)) == 0,
    decreases n,
{
    if n > 0 {
        assert(Seq::new(n, |v: int| false).drop_last() =~= Seq::new((n - 1) as nat, |v: int| false));
        lemma_count_none((n - 1) as nat);
    }
}

proof fn lemma_count_full(f: Seq<bool>)
    ensures
        count_true(f) == f.len() <==> forall|i: int| 0 <= i < f.len() ==> f[i],
    decreases f.len(),
{
    if f.len() > 0 {
        lemma_count_full(f.drop_last());
        lemma_count_bound(f.drop_last());
        if forall|i: int| 0 <= i < f.len() ==> f[i] {
            assert(f[f.len() - 1]);
            assert forall|i: int| 0 <= i < f.drop_last().len() implies f.drop_last()[i] by {
                assert(f[i]);
            }
        }
        if count_true(f) == f.len() {
            assert forall|i: int| 0 <= i < f.len() implies f[i] by {
                if i < f.len() - 1 {
                    assert(f.drop_last()[i]);
                }
            }
        }
    }
}

/// A duplicate-free sequence of nodes below `n` has length `n` exactly when
/// every node below `n` occurs in it.
pub proof fn lemma_all_present(s: Seq<usize>, n: nat)
    requires
        n <= usize::MAX,
        s.no_duplicates(),
        forall|j: int| 0 <= j < s.len() ==> s[j] < n,
    ensures
        s.len() == n <==> forall|v: usize| v < n ==> #[trigger] s.contains(v),
{
    lemma_presence_count(s, n);
    lemma_count_full(presence(s, n));
    if forall|v: usize| v < n ==> #[trigger] s.contains(v) {
        assert forall|i: int| 0 <= i < n implies presence(s, n)[i] by {
            assert(s.contains(i as usize));
        }
    }
    if s.len() == n {
        assert forall|v: usize| v < n implies #[trigger] s.contains(v) by {
            assert(presence(s, n)[v as int]);
        }
    }
}

// ---------------------------------------------------------------- decoding, then encoding

/// A state of the decoding: the current degrees `d`, the entries `r` still
/// to decode, and which nodes are live (not yet removed as a leaf).
pub open spec fn decode_state(d: Seq<int>, r: Seq<usize>, alive: Seq<bool>) -> bool {
    &&& d.len() == alive.len()
    &&& d.len() <= usize::MAX
    &&& forall|v: int|
        0 <= v < d.len() ==> #[trigger] d[v] == if alive[v] {
            1 + occurrences(r, v) as int
        } else {
            0int
        }
    &&& forall|j: int| 0 <= j < r.len() ==> r[j] < d.len() && alive[#[trigger] r[j] as int]
    &&& count_true(alive) == r.len() + 2
}

proof fn lemma_three_true(s: Seq<bool>, a: int, b: int, c: int)
    requires
        0 <= a < s.len(),
        0 <= b < s.len(),
        0 <= c < s.len(),
        a != b,
        b != c,
        a != c,
        s[a],
        s[b],
        s[c],
    ensures
        count_true(s) >= 3,
{
    let s1 = s.update(a, false);
    let s2 = s1.update(b, false);
    let s3 = s2.update(c, false);
    assert(s =~= s1.update(a, true));
    assert(s1 =~= s2.update(b, true));
    assert(s2 =~= s3.update(c, true));
    lemma_count_set(s1, a);
    lemma_count_set(s2, b);
    lemma_count_set(s3, c);
}

/// One step of a decoding state: the smallest node of degree one is live, is
/// not the next entry, and removing it gives the next state.
proof fn lemma_decode_step(d: Seq<int>, r: Seq<usize>, alive: Seq<bool>)
    requires
        decode_state(d, r, alive),
        r.len() > 0,
    ensures
        ({
            let l = first_one(d, 0);
            let v = r[0] as int;
            &&& 0 <= l < d.len()
            &&& alive[l]
            &&& d[l] == 1
            &&& l != v
            &&& 0 <= v < d.len()
            &&& d[v] >= 2
            &&& decode_state(
                d.update(l, 0).update(v, d[v] - 1),
                r.drop_first(),
                alive.update(l, false),
            )
        }),
{
    lemma_unused_live_node(r, alive);
    let w = choose|w: int| 0 <= w < alive.len() && alive[w] && occurrences(r, w) == 0;
    assert(d[w] == 1);
    lemma_first_one(d, 0);
    let l = first_one(d, 0);
    let v = r[0] as int;
    assert(alive[v]);
    if !alive[l] {
        assert(d[l] == 0);
    }
    lemma_occurrences_bound(r, v);
    assert(occurrences(r, v) > 0);
    lemma_occurrences_drop_first(r, l);
    let d2 = d.update(l, 0).update(v, d[v] - 1);
    let r2 = r.drop_first();
    let alive2 = alive.update(l, false);
    assert(alive =~= alive2.update(l, true));
    lemma_count_set(alive2, l);
    assert forall|u: int| 0 <= u < d2.len() implies #[trigger] d2[u] == if alive2[u] {
        1 + occurrences(r2, u) as int
    } else {
        0int
    } by {
        lemma_occurrences_drop_first(r, u);
    }
    assert forall|j: int| 0 <= j < r2.len() implies r2[j] < d2.len() && alive2[#[trigger] r2[j] as int] by {
        assert(r2[j] == r[j + 1]);
        assert(alive[r[j + 1] as int]);
        if r[j + 1] as int == l {
            lemma_occurrences_bound(r, l);
        }
    }
}

/// The final state of a decoding: exactly the two live nodes have degree one.
proof fn lemma_decode_last(d: Seq<int>, r: Seq<usize>, alive: Seq<bool>)
    requires
        decode_state(d, r, alive),
        r.len() == 0,
    ensures
        ({
            let a = first_one(d, 0);
            let b = first_one(d, a + 1);
            &&& 0 <= a < b < d.len()
            &&& forall|v: int| 0 <= v < d.len() ==> d[v] == if v == a || v == b {
                1int
            } else {
                0int
            }
        }),
{
    lemma_find_true(alive);
    let x = choose|x: int| 0 <= x < alive.len() && alive[x];
    assert(d[x] == 1);
    lemma_first_one(d, 0);
    let a = first_one(d, 0);
    assert(alive[a]) by {
        if !alive[a] {
            assert(d[a] == 0);
        }
    }
    let rest = alive.update(a, false);
    assert(alive =~= rest.update(a, true));
    lemma_count_set(rest, a);
    lemma_find_true(rest);
    let y = choose|y: int| 0 <= y < rest.len() && rest[y];
    assert(y > a) by {
        assert(d[y] == 1);
    }
    lemma_first_one(d, a + 1);
    let b = first_one(d, a + 1);
    assert(alive[b]) by {
        if !alive[b] {
            assert(d[b] == 0);
        }
    }
    assert forall|v: int| 0 <= v < d.len() implies d[v] == if v == a || v == b {
        1int
    } else {
        0int
    } by {
        if v != a && v != b && alive[v] {
            lemma_three_true(alive, a, b, v);
        }
    }
}

proof fn lemma_degree_concat(
    x: Seq<(usize, usize)>,
    kx: Seq<bool>,
    y: Seq<(usize, usize)>,
    ky: Seq<bool>,
    v: int,
    j: int,
)
    requires
        kx.len() == x.len(),
        ky.len() == y.len(),
        0 <= j <= y.len(),
    ensures
        degree_upto(x + y, kx + ky, v, x.len() + j) == degree_upto(x, kx, v, x.len() as int)
            + degree_upto(y, ky, v, j),
    decreases j,
{
    if j > 0 {
        lemma_degree_concat(x, kx, y, ky, v, j - 1);
        assert((x + y)[x.len() + j - 1] == y[j - 1]);
        assert((kx + ky)[x.len() + j - 1] == ky[j - 1]);
    } else {
        lemma_degree_prefix(x, kx, y, ky, v, x.len() as int);
    }
}

proof fn lemma_degree_prefix(
    x: Seq<(usize, usize)>,
    kx: Seq<bool>,
    y: Seq<(usize, usize)>,
    ky: Seq<bool>,
    v: int,
    k: int,
)
    requires
        kx.len() == x.len(),
        0 <= k <= x.len(),
    ensures
        degree_upto(x + y, kx + ky, v, k) == degree_upto(x, kx, v, k),
    decreases k,
{
    if k > 0 {
        lemma_degree_prefix(x, kx, y, ky, v, k - 1);
        assert((x + y)[k - 1] == x[k - 1]);
        assert((kx + ky)[k - 1] == kx[k - 1]);
    }
}

/// All entries `false`.
pub open spec fn all_false(len: nat) -> Seq<bool> {
    Seq::new(len, |i: int| false)
}

/// The edges decoded from a state: as many as entries left plus one, with
/// the degrees of the state, connecting every two live nodes; and encoding
/// them, after any prefix of dropped edges, gives back the entries.
/// What `lemma_decode_encode` states of the edges `f` decoded from the state
/// `(d, r, alive)`, after the dropped edges `x`.
spec fn decoded_facts(
    d: Seq<int>,
    r: Seq<usize>,
    alive: Seq<bool>,
    x: Seq<(usize, usize)>,
    f: Seq<(usize, usize)>,
) -> bool {
    let n = d.len();
    &&& f.len() == r.len() + 1
    &&& forall|i: int| 0 <= i < f.len() ==> (#[trigger] f[i]).0 < n && f[i].1 < n
    &&& degrees(f, all_true(f.len()), n) == d
    &&& forall|a: int, b: int|
        0 <= a < n && 0 <= b < n && #[trigger] alive[a] && #[trigger] alive[b] ==> kept_connected(
            f,
            all_true(f.len()),
            a,
            b,
        )
    &&& prufer_steps(x + f, all_false(x.len()) + all_true(f.len()), n, r.len()) == r
}

proof fn lemma_decode_encode(
    d: Seq<int>,
    r: Seq<usize>,
    alive: Seq<bool>,
    x: Seq<(usize, usize)>,
)
    requires
        decode_state(d, r, alive),
    ensures
        decoded_facts(d, r, alive, x, decode_steps(d, r)),
    decreases r.len(),
{
    if r.len() == 0 {
        lemma_decode_base(d, r, alive, x);
    } else {
        lemma_decode_step(d, r, alive);
        let l = first_one(d, 0);
        let v = r[0] as int;
        let d2 = d.update(l, 0).update(v, d[v] - 1);
        let r2 = r.drop_first();
        let alive2 = alive.update(l, false);
        let e = (l as usize, r[0]);
        lemma_decode_encode(d2, r2, alive2, x + seq![e]);
        lemma_decode_extend(d, r, alive, x);
    }
}

proof fn lemma_decode_base(d: Seq<int>, r: Seq<usize>, alive: Seq<bool>, x: Seq<(usize, usize)>)
    requires
        decode_state(d, r, alive),
        r.len() == 0,
    ensures
        decoded_facts(d, r, alive, x, decode_steps(d, r)),
{
    let f = decode_steps(d, r);
    let n = d.len();
    let kf = all_true(f.len());
    lemma_decode_last(d, r, alive);
    let a = first_one(d, 0);
    let b = first_one(d, a + 1);
    assert(f == seq![(a as usize, b as usize)]);
    assert forall|v: int| 0 <= v < n implies #[trigger] degrees(f, kf, n)[v] == d[v] by {
        assert(degree_upto(f, kf, v, 0) == 0);
        assert(kf[0]);
        assert(f[0] == (a as usize, b as usize));
        assert(degree_upto(f, kf, v, 1) == contribution(f[0], v));
    }
    assert(degrees(f, kf, n) =~= d);
    assert forall|u: int, w: int|
        0 <= u < n && 0 <= w < n && #[trigger] alive[u] && #[trigger] alive[w] implies kept_connected(
        f,
        kf,
        u,
        w,
    ) by {
        assert(d[u] == 1 && d[w] == 1);
        lemma_single_edge_connected(f, a, b, u, w);
    }
    assert(prufer_steps(x + f, all_false(x.len()) + kf, n, 0) == r);
}

/// The facts for a state follow from those for the next state.
proof fn lemma_decode_extend(d: Seq<int>, r: Seq<usize>, alive: Seq<bool>, x: Seq<(usize, usize)>)
    requires
        decode_state(d, r, alive),
        r.len() > 0,
        ({
            let l = first_one(d, 0);
            let v = r[0] as int;
            let d2 = d.update(l, 0).update(v, d[v] - 1);
            let r2 = r.drop_first();
            decode_state(d2, r2, alive.update(l, false)) && decoded_facts(
                d2,
                r2,
                alive.update(l, false),
                x + seq![(l as usize, r[0])],
                decode_steps(d2, r2),
            )
        }),
    ensures
        decoded_facts(d, r, alive, x, decode_steps(d, r)),
{
    lemma_decode_step(d, r, alive);
    let l = first_one(d, 0);
    let v = r[0] as int;
    let d2 = d.update(l, 0).update(v, d[v] - 1);
    let r2 = r.drop_first();
    let alive2 = alive.update(l, false);
    let e = (l as usize, r[0]);
    let f = decode_steps(d, r);
    let f2 = decode_steps(d2, r2);
    let n = d.len();
    let kf = all_true(f.len());
    assert(f == seq![e] + f2);
    let kf2 = all_true(f2.len());
    assert(kf =~= seq![true] + kf2);
    lemma_extend_degrees(d, d2, e, f, f2, l, v);
    assert forall|i: int| 0 <= i < f.len() implies (#[trigger] f[i]).0 < n && f[i].1 < n by {
        if i > 0 {
            assert(f[i] == f2[i - 1]);
        }
    }
    assert forall|a: int, b: int|
        0 <= a < n && 0 <= b < n && #[trigger] alive[a] && #[trigger] alive[b] implies kept_connected(
        f,
        kf,
        a,
        b,
    ) by {
        lemma_connected_step(f, f2, e, l, v, alive2, a, b);
    }
    lemma_extend_encoding(d, r, x, e, f, f2, l, v);
}

proof fn lemma_extend_degrees(
    d: Seq<int>,
    d2: Seq<int>,
    e: (usize, usize),
    f: Seq<(usize, usize)>,
    f2: Seq<(usize, usize)>,
    l: int,
    v: int,
)
    requires
        f == seq![e] + f2,
        e.0 == l,
        e.1 == v,
        l != v,
        0 <= l < d.len(),
        0 <= v < d.len(),
        d[l] == 1,
        d2 == d.update(l, 0).update(v, d[v] - 1),
        degrees(f2, all_true(f2.len()), d2.len()) == d2,
    ensures
        degrees(f, all_true(f.len()), d.len()) == d,
{
    let n = d.len();
    let kf = all_true(f.len());
    let kf2 = all_true(f2.len());
    assert(kf =~= seq![true] + kf2);
    assert forall|u: int| 0 <= u < n implies #[trigger] degrees(f, kf, n)[u] == d[u] by {
        lemma_degree_concat(seq![e], seq![true], f2, kf2, u, f2.len() as int);
        assert(degree_upto(seq![e], seq![true], u, 0) == 0);
        assert(seq![true][0]);
        assert(seq![e][0] == e);
        assert(degree_upto(seq![e], seq![true], u, 1) == contribution(e, u));
        assert(degrees(f2, kf2, n)[u] == d2[u]);
    }
    assert(degrees(f, kf, n) =~= d);
}

proof fn lemma_extend_encoding(
    d: Seq<int>,
    r: Seq<usize>,
    x: Seq<(usize, usize)>,
    e: (usize, usize),
    f: Seq<(usize, usize)>,
    f2: Seq<(usize, usize)>,
    l: int,
    v: int,
)
    requires
        r.len() > 0,
        f == seq![e] + f2,
        e.0 == l,
        e.1 == r[0],
        v == r[0],
        l != v,
        l == first_one(d, 0),
        degrees(f, all_true(f.len()), d.len()) == d,
        prufer_steps(
            (x + seq![e]) + f2,
            all_false(x.len() + 1) + all_true(f2.len()),
            d.len(),
            r.drop_first().len(),
        ) == r.drop_first(),
    ensures
        prufer_steps(x + f, all_false(x.len()) + all_true(f.len()), d.len(), r.len()) == r,
{
    let n = d.len();
    let kf = all_true(f.len());
    let kf2 = all_true(f2.len());
    let m = x.len();
    let mask = all_false(m) + kf;
    let y = x + f;
    assert(y =~= (x + seq![e]) + f2);
    let mask2 = all_false(m + 1) + kf2;
    assert forall|u: int| 0 <= u < n implies #[trigger] degrees(y, mask, n)[u] == d[u] by {
        lemma_degree_concat(x, all_false(m), f, kf, u, f.len() as int);
        lemma_degree_zero(x, all_false(m), u, m as int);
        assert(y.len() == m + f.len());
    }
    assert(degrees(y, mask, n) =~= d);
    assert(y[m as int] == e);
    lemma_first_touching_after_false(y, mask, l, m as int);
    assert(first_touching(y, mask, l, 0) == m);
    assert(far_end(y[m as int], l) == v);
    assert(mask.update(m as int, false) =~= mask2);
    assert(prufer_steps(y, mask, n, r.len()) == seq![r[0]] + prufer_steps(
        y,
        mask2,
        n,
        (r.len() - 1) as nat,
    ));
    assert(r =~= seq![r[0]] + r.drop_first());
}

proof fn lemma_first_touching_after_false(y: Seq<(usize, usize)>, mask: Seq<bool>, l: int, m: int)
    requires
        0 <= m < y.len(),
        mask.len() == y.len(),
        forall|j: int| 0 <= j < m ==> !mask[j],
        mask[m],
        touches(y[m], l),
    ensures
        first_touching(y, mask, l, 0) == m,
{
    lemma_first_touching_skip(y, mask, l, 0, m);
}

proof fn lemma_first_touching_skip(y: Seq<(usize, usize)>, mask: Seq<bool>, l: int, j: int, m: int)
    requires
        0 <= j <= m < y.len(),
        forall|k: int| j <= k < m ==> !mask[k],
        mask[m],
        touches(y[m], l),
    ensures
        first_touching(y, mask, l, j) == m,
    decreases m - j,
{
    if j < m {
        lemma_first_touching_skip(y, mask, l, j + 1, m);
    }
}

proof fn lemma_single_edge_connected(f: Seq<(usize, usize)>, a: int, b: int, u: int, w: int)
    requires
        f == seq![(a as usize, b as usize)],
        0 <= a < b,
        b <= usize::MAX,
        u == a || u == b,
        w == a || w == b,
    ensures
        kept_connected(f, all_true(1), u, w),
{
    let k = all_true(1);
    assert(f[0] == (a as usize, b as usize));
    if u == w {
        let p = seq![u];
        assert(kept_walk(f, k, p));
    } else {
        let p = seq![u, w];
        assert(kept_link(f, k, p[0], p[1])) by {
            assert(k[0]);
        }
        assert forall|i: int| 0 <= i < p.len() - 1 implies #[trigger] kept_link(f, k, p[i], p[i + 1]) by {
            assert(i == 0);
        }
        assert(kept_walk(f, k, p));
    }
}

proof fn lemma_link_shift(f2: Seq<(usize, usize)>, e: (usize, usize), a: int, b: int)
    requires
        kept_link(f2, all_true(f2.len()), a, b),
    ensures
        kept_link(seq![e] + f2, all_true(f2.len() + 1), a, b),
{
    let i = choose|i: int|
        0 <= i < f2.len() && all_true(f2.len())[i] && ((#[trigger] f2[i]).0 == a && f2[i].1 == b
            || f2[i].0 == b && f2[i].1 == a);
    assert((seq![e] + f2)[i + 1] == f2[i]);
}

proof fn lemma_connected_step(
    f: Seq<(usize, usize)>,
    f2: Seq<(usize, usize)>,
    e: (usize, usize),
    l: int,
    v: int,
    alive2: Seq<bool>,
    a: int,
    b: int,
)
    requires
        f == seq![e] + f2,
        e.0 == l,
        e.1 == v,
        0 <= v < alive2.len(),
        alive2[v],
        0 <= a < alive2.len(),
        0 <= b < alive2.len(),
        a == l || alive2[a],
        b == l || alive2[b],
        forall|x: int, y: int|
            0 <= x < alive2.len() && 0 <= y < alive2.len() && #[trigger] alive2[x] && #[trigger] alive2[y]
                ==> kept_connected(f2, all_true(f2.len()), x, y),
    ensures
        kept_connected(f, all_true(f.len()), a, b),
{
    let kf = all_true(f.len());
    // Every walk along the later edges is a walk along all of them.
    assert forall|x: int, y: int|
        0 <= x < alive2.len() && 0 <= y < alive2.len() && alive2[x] && alive2[y] implies kept_connected(
        f,
        kf,
        x,
        y,
    ) by {
        assert(kept_connected(f2, all_true(f2.len()), x, y));
        let p = choose|p: Seq<int>|
            #[trigger] kept_walk(f2, all_true(f2.len()), p) && p[0] == x && p.last() == y;
        assert forall|i: int| 0 <= i < p.len() - 1 implies #[trigger] kept_link(f, kf, p[i], p[i + 1]) by {
            assert(kept_link(f2, all_true(f2.len()), p[i], p[i + 1]));
            lemma_link_shift(f2, e, p[i], p[i + 1]);
        }
        assert(kept_walk(f, kf, p));
    }
    // The leaf `l` is linked to `v`.
    assert(kept_connected(f, kf, l, v)) by {
        let p = seq![l, v];
        assert(f[0] == e);
        assert(kept_link(f, kf, p[0], p[1]));
        assert forall|i: int| 0 <= i < p.len() - 1 implies #[trigger] kept_link(f, kf, p[i], p[i + 1]) by {
            assert(i == 0);
        }
        assert(kept_walk(f, kf, p));
    }
    if a == l {
        lemma_reverse_connected(f, kf, l, v);
    } else {
        assert(kept_connected(f, kf, v, a));
    }
    if b == l {
        lemma_reverse_connected(f, kf, l, v);
    } else {
        assert(kept_connected(f, kf, v, b));
    }
    lemma_connected_via(f, kf, v, a, b);
}

proof fn lemma_reverse_connected(f: Seq<(usize, usize)>, k: Seq<bool>, a: int, b: int)
    requires
        kept_connected(f, k, a, b),
    ensures
        kept_connected(f, k, b, a),
{
    let p = seq![a];
    assert(kept_walk(f, k, p));
    assert(kept_connected(f, k, a, a));
    lemma_connected_via(f, k, a, b, a);
}

/// Decoding a Prüfer sequence and encoding the result gives the sequence
/// back: for every sequence `s` of nodes below `n = s.len() + 2`, the edges
/// [`prufer_tree_edges`]`(s)` form a labelled tree on `0..n` whose
/// [`prufer_sequence`] is `s`.
pub proof fn lemma_decode_then_encode(s: Seq<usize>)
    requires
        s.len() + 2 <= usize::MAX,
        forall|j: int| 0 <= j < s.len() ==> (#[trigger] s[j]) < s.len() + 2,
    ensures
        is_labelled_tree(prufer_tree_edges(s), (s.len() + 2) as nat),
        endpoints_below(prufer_tree_edges(s), (s.len() + 2) as nat),
        prufer_sequence(prufer_tree_edges(s), (s.len() + 2) as nat) == s,
{
    let n = (s.len() + 2) as nat;
    let d = initial_degrees(s, n);
    let alive = all_true(n);
    lemma_count_all_true(n);
    assert(decode_state(d, s, alive));
    let x = Seq::<(usize, usize)>::empty();
    lemma_decode_encode(d, s, alive, x);
    let f = prufer_tree_edges(s);
    assert(decoded_facts(d, s, alive, x, f));
    let kf = all_true(f.len());
    assert(x + f =~= f);
    assert(all_false(0) + kf =~= kf);
    assert forall|v: int| 0 <= v < n implies connected_in(f, 0, v) by {
        assert(alive[0] && alive[v]);
        assert(kept_connected(f, kf, 0, v));
        let p = choose|p: Seq<int>| #[trigger] kept_walk(f, kf, p) && p[0] == 0 && p.last() == v;
        assert forall|i: int| 0 <= i < p.len() - 1 implies #[trigger] linked(f, p[i], p[i + 1]) by {
            assert(kept_link(f, kf, p[i], p[i + 1]));
        }
        assert(is_walk_in(f, p));
    }
}

} // verus!
