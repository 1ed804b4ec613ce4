//! The Prüfer codes entry by entry: which edge each entry of a sequence
//! decodes to, and which entry a tree's smallest leaf encodes to, stated by
//! which nodes occur where rather than by degrees.

use vstd::prelude::*;

use crate::forest::{all_true, lemma_count_all_true};
use crate::prufer_spec::{
    decode_steps, first_one, initial_degrees, lemma_first_one, lemma_occurrences_bound,
    lemma_occurrences_drop_first, lemma_unused_live_node, occurrences, prufer_tree_edges,
};
use crate::traversal::{count_true, lemma_count_set};

verus! {

/// `v` is free at entry `i` of `s` after the leaves `used` were taken: no
/// entry from `i` on names it, and it was not taken.
pub open spec fn is_free(s: Seq<usize>, i: int, used: Seq<int>, v: int) -> bool {
    &&& !s.subrange(i, s.len() as int).contains(v as usize)
    &&& !used.contains(v)
}

/// The smallest node from `k` up to `n` that is free at entry `i` after the
/// leaves `used` were taken (`n` when there is none).
pub open spec fn first_free(s: Seq<usize>, n: nat, i: int, used: Seq<int>, k: int) -> int
    decreases n - k,
{
    if k >= n {
        n as int
    } else if is_free(s, i, used, k) {
        k
    } else {
        first_free(s, n, i, used, k + 1)
    }
}

/// The leaves that the first `i` entries of `s` join to, on the nodes
/// `0..n`: each is the smallest node free at its entry after the earlier
/// ones were taken.
pub open spec fn taken_leaves(s: Seq<usize>, n: nat, i: nat) -> Seq<int>
    decreases i,
{
    if i == 0 {
        Seq::empty()
    } else {
        let prev = taken_leaves(s, n, (i - 1) as nat);
        prev.push(first_free(s, n, i - 1, prev, 0))
    }
}

proof fn lemma_taken_prefix(s: Seq<usize>, n: nat, i: nat, m: nat)
    requires
        i <= m,
    ensures
        taken_leaves(s, n, m).len() == m,
        forall|k: int| 0 <= k < i ==> taken_leaves(s, n, m)[k] == taken_leaves(s, n, i)[k],
    decreases m,
{
    if m > 0 {
        if i < m {
            lemma_taken_prefix(s, n, i, (m - 1) as nat);
        }
        lemma_taken_prefix(s, n, (m - 1) as nat, (m - 1) as nat);
    }
}

/// What a later part of a sequence names, an earlier part names too.
proof fn lemma_subrange_contains(s: Seq<usize>, k: int, i: int, y: usize)
    requires
        0 <= k <= i <= s.len(),
        s.subrange(i, s.len() as int).contains(y),
    ensures
        s.subrange(k, s.len() as int).contains(y),
{
    let t = s.subrange(i, s.len() as int);
    let j = choose|j: int| 0 <= j < t.len() && t[j] == y;
    assert(s.subrange(k, s.len() as int)[j + i - k] == y);
}

/// A leaf taken before entry `i` is not named from entry `i` on.
proof fn lemma_taken_not_later(s: Seq<usize>, n: nat, i: nat)
    requires
        i <= s.len(),
        n <= usize::MAX,
        forall|j: int| 0 <= j < s.len() ==> (#[trigger] s[j]) < n,
    ensures
        forall|x: int|
            #[trigger] taken_leaves(s, n, i).contains(x) && 0 <= x ==> !s.subrange(
                i as int,
                s.len() as int,
            ).contains(x as usize),
    decreases i,
{
    if i > 0 {
        let k = (i - 1) as nat;
        lemma_taken_not_later(s, n, k);
        let prev = taken_leaves(s, n, k);
        let l = first_free(s, n, k as int, prev, 0);
        lemma_first_free(s, n, k as int, prev, 0);
        assert(taken_leaves(s, n, i) == prev.push(l));
        assert forall|x: int|
            #[trigger] taken_leaves(s, n, i).contains(x) && 0 <= x implies !s.subrange(
            i as int,
            s.len() as int,
        ).contains(x as usize) by {
            if s.subrange(i as int, s.len() as int).contains(x as usize) {
                lemma_subrange_contains(s, k as int, i as int, x as usize);
                let t = s.subrange(i as int, s.len() as int);
                let j = choose|j: int| 0 <= j < t.len() && t[j] == x as usize;
                assert(t[j] == s[i + j]);
                if prev.contains(x) {
                    assert(taken_leaves(s, n, k).contains(x));
                } else {
                    let m = choose|m: int| 0 <= m < prev.push(l).len() && prev.push(l)[m] == x;
                    if m < prev.len() {
                        assert(prev.contains(x));
                    }
                    assert(x == l);
                    if l < n {
                        assert(!s.subrange(k as int, s.len() as int).contains(l as usize));
                    } else {
                        assert(s[i + j] < n);
                    }
                }
            }
        }
    }
}

proof fn lemma_first_free(s: Seq<usize>, n: nat, i: int, used: Seq<int>, k: int)
    requires
        0 <= k,
    ensures
        k <= n ==> first_free(s, n, i, used, k) <= n,
        first_free(s, n, i, used, k) < n ==> k <= first_free(s, n, i, used, k) && is_free(
            s,
            i,
            used,
            first_free(s, n, i, used, k),
        ),
    decreases n - k,
{
    if k < n && !is_free(s, i, used, k) {
        lemma_first_free(s, n, i, used, k + 1);
    }
}

/// `first_free` finds a node no later than any free one.
proof fn lemma_first_free_at_most(s: Seq<usize>, n: nat, i: int, used: Seq<int>, k: int, v: int)
    requires
        0 <= k <= v < n,
        is_free(s, i, used, v),
    ensures
        first_free(s, n, i, used, k) <= v,
    decreases v - k,
{
    if k < v && !is_free(s, i, used, k) {
        lemma_first_free_at_most(s, n, i, used, k + 1, v);
    }
}

/// The nodes no leaf was taken from before entry `i`.
spec fn untaken(s: Seq<usize>, n: nat, i: nat) -> Seq<bool> {
    Seq::new(n, |v: int| !taken_leaves(s, n, i).contains(v))
}

/// Before entry `i`, `i` leaves were taken, all of them nodes: `n - i`
/// nodes are left.
proof fn lemma_taken_count(s: Seq<usize>, n: nat, i: nat)
    requires
        n == s.len() + 2,
        n <= usize::MAX,
        forall|j: int| 0 <= j < s.len() ==> (#[trigger] s[j]) < n,
        i <= s.len(),
    ensures
        count_true(untaken(s, n, i)) == n - i,
        forall|m: int| 0 <= m < i ==> 0 <= #[trigger] taken_leaves(s, n, i)[m] < n,
    decreases i,
{
    if i == 0 {
        assert(untaken(s, n, 0) =~= all_true(n));
        lemma_count_all_true(n);
    } else {
        let k = (i - 1) as nat;
        lemma_taken_count(s, n, k);
        lemma_taken_not_later(s, n, k);
        lemma_taken_prefix(s, n, k, k);
        let prev = taken_leaves(s, n, k);
        let alive = untaken(s, n, k);
        let rest = s.subrange(k as int, s.len() as int);
        assert forall|j: int| 0 <= j < rest.len() implies rest[j] < alive.len() && alive[rest[j] as int] by {
            assert(rest[j] == s[k + j]);
            if prev.contains(rest[j] as int) {
                assert(taken_leaves(s, n, k).contains(rest[j] as int));
                assert(rest.contains(rest[j]));
            }
        }
        lemma_unused_live_node(rest, alive);
        let v = choose|v: int| 0 <= v < alive.len() && alive[v] && occurrences(rest, v) == 0;
        lemma_occurrences_bound(rest, v);
        if rest.contains(v as usize) {
            let j = choose|j: int| 0 <= j < rest.len() && rest[j] == v as usize;
            assert(rest[j] == v);
        }
        assert(is_free(s, k as int, prev, v));
        lemma_first_free_at_most(s, n, k as int, prev, 0, v);
        lemma_first_free(s, n, k as int, prev, 0);
        let l = first_free(s, n, k as int, prev, 0);
        let next = untaken(s, n, i);
        assert(taken_leaves(s, n, i) == prev.push(l));
        assert(next =~= alive.update(l, false)) by {
            assert forall|w: int| 0 <= w < n implies next[w] == alive.update(l, false)[w] by {
                if prev.contains(w) {
                    let m = choose|m: int| 0 <= m < prev.len() && prev[m] == w;
                    assert(prev.push(l)[m] == w);
                }
                if prev.push(l).contains(w) && w != l {
                    let m = choose|m: int| 0 <= m < prev.push(l).len() && prev.push(l)[m] == w;
                    assert(prev[m] == w);
                }
                if w == l {
                    assert(prev.push(l)[prev.len() as int] == l);
                }
            }
        }
        assert(alive =~= next.update(l, true));
        lemma_count_set(next, l);
        assert(l <= v);
        assert(0 <= l < n);
        assert forall|m: int| 0 <= m < i implies 0 <= #[trigger] taken_leaves(s, n, i)[m] < n by {
            if m < k {
                assert(taken_leaves(s, n, i)[m] == prev[m]);
                assert(0 <= taken_leaves(s, n, k)[m] < n);
            } else {
                assert(taken_leaves(s, n, i)[m] == l);
            }
        }
    }
}

/// Degrees that are one exactly at the free nodes find the same node as
/// the search for a free node.
proof fn lemma_first_one_free(d: Seq<int>, s: Seq<usize>, n: nat, i: int, used: Seq<int>, k: int)
    requires
        d.len() == n,
        forall|v: int| 0 <= v < n ==> (d[v] == 1 <==> is_free(s, i, used, v)),
        0 <= k,
    ensures
        first_one(d, k) == first_free(s, n, i, used, k),
    decreases n - k,
{
    if k < n {
        lemma_first_one_free(d, s, n, i, used, k + 1);
    }
}

/// The degrees of the decoding state at entry `i`: zero for a taken leaf,
/// otherwise one more than the entries from `i` on that name the node.
spec fn degrees_at(s: Seq<usize>, n: nat, i: int, d: Seq<int>) -> bool {
    &&& d.len() == n
    &&& forall|v: int|
        0 <= v < n ==> #[trigger] d[v] == if taken_leaves(s, n, i as nat).contains(v) {
            0
        } else {
            1 + occurrences(s.subrange(i, s.len() as int), v) as int
        }
}

proof fn lemma_free_by_degree(s: Seq<usize>, n: nat, i: int, d: Seq<int>)
    requires
        degrees_at(s, n, i, d),
        0 <= i <= s.len(),
        n <= usize::MAX,
    ensures
        forall|v: int| 0 <= v < n ==> (d[v] == 1 <==> is_free(s, i, taken_leaves(s, n, i as nat), v)),
{
    let t = s.subrange(i, s.len() as int);
    assert forall|v: int| 0 <= v < n implies (d[v] == 1 <==> is_free(
        s,
        i,
        taken_leaves(s, n, i as nat),
        v,
    )) by {
        lemma_occurrences_bound(t, v);
        if t.contains(v as usize) {
            let j = choose|j: int| 0 <= j < t.len() && t[j] == v as usize;
            assert(t[j] == v);
        }
        if occurrences(t, v) > 0 {
            let j = choose|j: int| 0 <= j < t.len() && t[j] == v;
            assert(t.contains(v as usize));
        }
    }
}

proof fn lemma_decode_from(s: Seq<usize>, n: nat, i: int, d: Seq<int>)
    requires
        n == s.len() + 2,
        n <= usize::MAX,
        0 <= i <= s.len(),
        forall|j: int| 0 <= j < s.len() ==> (#[trigger] s[j]) < n,
        degrees_at(s, n, i, d),
    ensures
        ({
            let f = decode_steps(d, s.subrange(i, s.len() as int));
            let l = taken_leaves(s, n, s.len());
            let a = first_free(s, n, s.len() as int, l, 0);
            &&& f.len() == s.len() - i + 1
            &&& forall|k: int| 0 <= k < s.len() - i ==> f[k] == (l[i + k] as usize, s[i + k])
            &&& f[s.len() - i] == (a as usize, first_free(s, n, s.len() as int, l, a + 1) as usize)
        }),
    decreases s.len() - i,
{
    let r = s.subrange(i, s.len() as int);
    let used = taken_leaves(s, n, i as nat);
    let len = s.len();
    lemma_taken_prefix(s, n, i as nat, len);
    lemma_free_by_degree(s, n, i, d);
    lemma_first_one(d, 0);
    if i == len {
        lemma_first_one_free(d, s, n, i, used, 0);
        let a = first_one(d, 0);
        lemma_first_one_free(d, s, n, i, used, a + 1);
        assert(used =~= taken_leaves(s, n, len));
    } else {
        lemma_first_one_free(d, s, n, i, used, 0);
        let l = first_one(d, 0);
        let v = r[0] as int;
        assert(v == s[i]);
        assert(r[0] == s[i]);
        assert(r.contains(r[0]));
        let d2 = d.update(l, 0).update(v, d[v] - 1);
        let used2 = taken_leaves(s, n, (i + 1) as nat);
        assert(used2 == used.push(l));
        lemma_taken_count(s, n, (i + 1) as nat);
        lemma_taken_prefix(s, n, i as nat, i as nat);
        assert(used2[i] == l);
        assert(0 <= l < n);
        lemma_first_free(s, n, i, used, 0);
        lemma_taken_not_later(s, n, i as nat);
        assert(r.drop_first() =~= s.subrange(i + 1, len as int));
        assert(r[0] == s[i]);
        assert(r.contains(v as usize));
        assert(!used.contains(v)) by {
            if used.contains(v) {
                assert(taken_leaves(s, n, i as nat).contains(v));
            }
        }
        assert(l != v);
        assert(degrees_at(s, n, i + 1, d2)) by {
            assert forall|w: int| 0 <= w < n implies #[trigger] d2[w] == if taken_leaves(
                s,
                n,
                (i + 1) as nat,
            ).contains(w) {
                0
            } else {
                1 + occurrences(s.subrange(i + 1, len as int), w) as int
            } by {
                lemma_occurrences_drop_first(r, w);
                if w != l {
                    if used.contains(w) {
                        let m = choose|m: int| 0 <= m < used.len() && used[m] == w;
                        assert(used2[m] == w);
                    }
                    if used2.contains(w) {
                        let m = choose|m: int| 0 <= m < used2.len() && used2[m] == w;
                        if m < used.len() {
                            assert(used[m] == w);
                        }
                    }
                } else {
                    assert(used2[used.len() as int] == l);
                }
            }
        }
        lemma_decode_from(s, n, i + 1, d2);
        lemma_taken_prefix(s, n, (i + 1) as nat, len);
        let f2 = decode_steps(d2, s.subrange(i + 1, len as int));
        let f = decode_steps(d, r);
        assert(f == seq![(l as usize, r[0])] + f2);
        assert(taken_leaves(s, n, len)[i] == used2[i]);
        assert forall|k: int| 0 <= k < len - i implies f[k] == (taken_leaves(s, n, len)[i + k] as usize, s[i
            + k]) by {
            if k > 0 {
                assert(f[k] == f2[k - 1]);
            }
        }
    }
}

/// Decoding entry by entry: the tree a sequence `s` of nodes below
/// `n = s.len() + 2` codes has `s.len() + 1` edges; edge `i` joins the
/// smallest node that no entry from `i` on names and no earlier edge took
/// as its leaf to the entry `s[i]`, and the last edge joins the two smallest
/// nodes no edge took.
pub proof fn lemma_decode_entries(s: Seq<usize>)
    requires
        s.len() + 2 <= usize::MAX,
        forall|j: int| 0 <= j < s.len() ==> (#[trigger] s[j]) < s.len() + 2,
    ensures
        ({
            let n = (s.len() + 2) as nat;
            let f = prufer_tree_edges(s);
            let l = taken_leaves(s, n, s.len());
            let a = first_free(s, n, s.len() as int, l, 0);
            &&& f.len() == s.len() + 1
            &&& forall|i: int| 0 <= i < s.len() ==> #[trigger] f[i] == (l[i] as usize, s[i])
            &&& f[s.len() as int] == (a as usize, first_free(s, n, s.len() as int, l, a + 1) as usize)
        }),
{
    let n = (s.len() + 2) as nat;
    let d = initial_degrees(s, n);
    assert(s.subrange(0, s.len() as int) =~= s);
    assert(degrees_at(s, n, 0, d));
    lemma_decode_from(s, n, 0, d);
}

} // verus!
