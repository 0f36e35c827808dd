//! Kahn's algorithm on a graph whose nodes are `0..n`: a topological order
//! exists exactly when the algorithm lists every node.

use vstd::prelude::*;
use crate::text::{str_less, text_lt};

verus! {

/// `order` lists each node of `0..n` once, and no edge leads from a node to
/// itself or to a node listed before it.
pub open spec fn is_topological_order(n: nat, edges: Seq<(usize, usize)>, order: Seq<usize>) -> bool {
    &&& order.len() == n
    &&& order.no_duplicates()
    &&& forall|i: int| 0 <= i < order.len() ==> #[trigger] order[i] < n
    &&& forall|e: int, a: int, b: int|
        #![trigger edges[e], order[a], order[b]]
        0 <= e < edges.len() && 0 <= a <= b < order.len() ==> edges[e] != (order[b], order[a])
}

/// The graph admits a topological order, that is, it has no cycle.
pub open spec fn is_acyclic(n: nat, edges: Seq<(usize, usize)>) -> bool {
    exists|order: Seq<usize>| is_topological_order(n, edges, order)
}

/// Every edge joins two nodes of `0..n`.
pub open spec fn edges_within(n: nat, edges: Seq<(usize, usize)>) -> bool {
    forall|e: int| 0 <= e < edges.len() ==> (#[trigger] edges[e]).0 < n && edges[e].1 < n
}

/// Number of edges into `v` whose source is not yet in `done`.
pub open spec fn pending_in(edges: Seq<(usize, usize)>, done: Seq<usize>, v: usize) -> nat
    decreases edges.len(),
{
    if edges.len() == 0 {
        0
    } else {
        pending_in(edges.drop_last(), done, v) + if edges.last().1 == v && !done.contains(
            edges.last().0,
        ) {
            1nat
        } else {
            0nat
        }
    }
}

/// Number of edges from `u` to `v`.
pub open spec fn edge_count(edges: Seq<(usize, usize)>, u: usize, v: usize) -> nat
    decreases edges.len(),
{
    if edges.len() == 0 {
        0
    } else {
        edge_count(edges.drop_last(), u, v) + if edges.last() == (u, v) {
            1nat
        } else {
            0nat
        }
    }
}

/// Targets of the edges that leave `u`, in edge order.
pub open spec fn targets_of(edges: Seq<(usize, usize)>, u: usize) -> Seq<usize>
    decreases edges.len(),
{
    if edges.len() == 0 {
        Seq::empty()
    } else if edges.last().0 == u {
        targets_of(edges.drop_last(), u).push(edges.last().1)
    } else {
        targets_of(edges.drop_last(), u)
    }
}

/// Number of occurrences of `v` in `s`.
pub open spec fn occurrences(s: Seq<usize>, v: usize) -> nat
    decreases s.len(),
{
    if s.len() == 0 {
        0
    } else {
        occurrences(s.drop_last(), v) + if s.last() == v {
            1nat
        } else {
            0nat
        }
    }
}

proof fn lemma_pending_after_done(edges: Seq<(usize, usize)>, done: Seq<usize>, u: usize, v: usize)
    requires
        !done.contains(u),
    ensures
        pending_in(edges, done.push(u), v) + edge_count(edges, u, v) == pending_in(edges, done, v),
    decreases edges.len(),
{
    if edges.len() > 0 {
        lemma_pending_after_done(edges.drop_last(), done, u, v);
        let x = edges.last().0;
        assert(done.push(u).contains(x) <==> (done.contains(x) || x == u)) by {
            if done.push(u).contains(x) {
                let k = choose|k: int| 0 <= k < done.push(u).len() && done.push(u)[k] == x;
                if k < done.len() {
                    assert(done[k] == x);
                }
            }
            if done.contains(x) {
                let k = choose|k: int| 0 <= k < done.len() && done[k] == x;
                assert(done.push(u)[k] == x);
            }
            if x == u {
                assert(done.push(u)[done.len() as int] == x);
            }
        }
    }
}

proof fn lemma_pending_zero(edges: Seq<(usize, usize)>, done: Seq<usize>, v: usize, e: int)
    requires
        pending_in(edges, done, v) == 0,
        0 <= e < edges.len(),
        edges[e].1 == v,
    ensures
        done.contains(edges[e].0),
    decreases edges.len(),
{
    if e < edges.len() - 1 {
        assert(edges.drop_last()[e] == edges[e]);
        lemma_pending_zero(edges.drop_last(), done, v, e);
    }
}

proof fn lemma_pending_positive(edges: Seq<(usize, usize)>, done: Seq<usize>, v: usize) -> (e: int)
    requires
        pending_in(edges, done, v) > 0,
    ensures
        0 <= e < edges.len(),
        edges[e].1 == v,
        !done.contains(edges[e].0),
    decreases edges.len(),
{
    if edges.last().1 == v && !done.contains(edges.last().0) {
        edges.len() - 1
    } else {
        let e = lemma_pending_positive(edges.drop_last(), done, v);
        assert(edges.drop_last()[e] == edges[e]);
        e
    }
}

proof fn lemma_targets_count(edges: Seq<(usize, usize)>, u: usize, v: usize)
    ensures
        occurrences(targets_of(edges, u), v) == edge_count(edges, u, v),
    decreases edges.len(),
{
    if edges.len() > 0 {
        lemma_targets_count(edges.drop_last(), u, v);
        let t = targets_of(edges.drop_last(), u);
        if edges.last().0 == u {
            assert(t.push(edges.last().1).drop_last() =~= t);
        }
    }
}

proof fn lemma_occurrences_take(s: Seq<usize>, j: int, v: usize)
    requires
        0 <= j < s.len(),
    ensures
        occurrences(s.take(j + 1), v) == occurrences(s.take(j), v) + if s[j] == v {
            1nat
        } else {
            0nat
        },
{
    assert(s.take(j + 1).drop_last() =~= s.take(j));
}

proof fn lemma_occurrences_prefix(s: Seq<usize>, j: int, v: usize)
    requires
        0 <= j <= s.len(),
    ensures
        occurrences(s.take(j), v) <= occurrences(s, v),
    decreases s.len() - j,
{
    if j < s.len() {
        lemma_occurrences_take(s, j, v);
        lemma_occurrences_prefix(s, j + 1, v);
    } else {
        assert(s.take(j) =~= s);
    }
}

/// A repetition-free sequence of nodes below `n` has at most `n` entries.
pub proof fn lemma_distinct_below(q: Seq<usize>, n: nat)
    requires
        n <= usize::MAX,
        q.no_duplicates(),
        forall|i: int| 0 <= i < q.len() ==> #[trigger] q[i] < n,
    ensures
        q.len() <= n,
    decreases n,
{
    if n == 0 {
        if q.len() > 0 {
            assert(q[0] < 0);
        }
    } else {
        let m = (n - 1) as usize;
        if q.contains(m) {
            let k = choose|k: int| 0 <= k < q.len() && q[k] == m;
            let r = q.remove(k);
            assert forall|i: int| 0 <= i < r.len() implies #[trigger] r[i] < m by {
                if i < k {
                    assert(r[i] == q[i]);
                } else {
                    assert(r[i] == q[i + 1]);
                }
            }
            assert forall|i: int, j: int| 0 <= i < r.len() && 0 <= j < r.len() && i != j implies r[i]
                != r[j] by {
                let qi = if i < k { i } else { i + 1 };
                let qj = if j < k { j } else { j + 1 };
                assert(r[i] == q[qi]);
                assert(r[j] == q[qj]);
            }
            lemma_distinct_below(r, m as nat);
        } else {
            assert forall|i: int| 0 <= i < q.len() implies #[trigger] q[i] < m by {
                assert(q[i] != m);
            }
            lemma_distinct_below(q, m as nat);
        }
    }
}

/// A repetition-free sequence of nodes below `n` that misses one of them has fewer than `n` entries.
pub proof fn lemma_distinct_below_missing(q: Seq<usize>, n: nat, w: usize)
    requires
        n <= usize::MAX,
        q.no_duplicates(),
        forall|i: int| 0 <= i < q.len() ==> #[trigger] q[i] < n,
        w < n,
        !q.contains(w),
    ensures
        q.len() < n,
{
    let m = (n - 1) as usize;
    let r = q.map_values(|x: usize| if x == m { w } else { x });
    assert forall|i: int| 0 <= i < r.len() implies #[trigger] r[i] < m by {
        if q[i] == m {
            if w == m {
                assert(q.contains(w));
            }
        }
    }
    assert forall|i: int, j: int| 0 <= i < r.len() && 0 <= j < r.len() && i != j implies r[i] != r[j] by {
        if q[i] == m && q[j] != m {
            assert(q[j] != w) by {
                if q[j] == w {
                    assert(q.contains(w));
                }
            }
        }
        if q[j] == m && q[i] != m {
            assert(q[i] != w) by {
                if q[i] == w {
                    assert(q.contains(w));
                }
            }
        }
    }
    lemma_distinct_below(r, m as nat);
}

proof fn lemma_first_outside(o: Seq<usize>, done: Seq<usize>, k: int) -> (i: int)
    requires
        0 <= k < o.len(),
        !done.contains(o[k]),
    ensures
        0 <= i <= k,
        !done.contains(o[i]),
        forall|j: int| 0 <= j < i ==> done.contains(#[trigger] o[j]),
    decreases k,
{
    if exists|j: int| 0 <= j < k && !done.contains(#[trigger] o[j]) {
        let j = choose|j: int| 0 <= j < k && !done.contains(#[trigger] o[j]);
        lemma_first_outside(o, done, j)
    } else {
        k
    }
}

/// When every node outside `done` still waits for a source outside `done`, and some
/// node is outside `done`, the graph has a cycle.
proof fn lemma_blocked_is_cyclic(n: nat, edges: Seq<(usize, usize)>, done: Seq<usize>, v: usize)
    requires
        n <= usize::MAX,
        edges_within(n, edges),
        v < n,
        !done.contains(v),
        forall|w: usize| w < n && !done.contains(w) ==> #[trigger] pending_in(edges, done, w) > 0,
    ensures
        !is_acyclic(n, edges),
{
    if is_acyclic(n, edges) {
        let o = choose|o: Seq<usize>| is_topological_order(n, edges, o);
        if !o.contains(v) {
            lemma_distinct_below_missing(o, n, v);
        }
        let k = choose|k: int| 0 <= k < o.len() && o[k] == v;
        let i = lemma_first_outside(o, done, k);
        let w = o[i];
        assert(pending_in(edges, done, w) > 0);
        let e = lemma_pending_positive(edges, done, w);
        let x = edges[e].0;
        assert(x < n);
        if !o.contains(x) {
            lemma_distinct_below_missing(o, n, x);
        }
        let m = choose|m: int| 0 <= m < o.len() && o[m] == x;
        if m < i {
            assert(done.contains(o[m]));
        }
        assert(edges[e] == (o[m], o[i]));
        assert(false);
    }
}



/// Position of `v` in `order`, or -1 when `v` is not listed.
pub open spec fn position_of(order: Seq<usize>, v: usize) -> int {
    if order.contains(v) {
        choose|i: int| 0 <= i < order.len() && order[i] == v
    } else {
        -1
    }
}

/// Position in `order` of the last-listed source among the first `k` edges into `v`, or -1
/// when none of them has a listed source.
pub open spec fn last_source(edges: Seq<(usize, usize)>, order: Seq<usize>, v: usize, k: nat) -> int
    decreases k,
{
    if k == 0 {
        -1
    } else {
        let p = last_source(edges, order, v, (k - 1) as nat);
        let e = edges[k - 1];
        if e.1 == v && position_of(order, e.0) > p {
            position_of(order, e.0)
        } else {
            p
        }
    }
}

/// Node `a` is released before node `b`: its last-listed source comes earlier, or both wait for
/// the same source and `a` has the smaller name.
pub open spec fn released_before(
    edges: Seq<(usize, usize)>,
    order: Seq<usize>,
    names: Seq<Seq<char>>,
    a: usize,
    b: usize,
) -> bool {
    let pa = last_source(edges, order, a, edges.len());
    let pb = last_source(edges, order, b, edges.len());
    pa < pb || (pa == pb && text_lt(names[a as int], names[b as int]))
}

/// The listing of Kahn's algorithm when available nodes are served first-come first-served and
/// nodes that become available together are taken by name: a topological order along which the
/// position of each node's last-listed source never decreases, ties going by name.
pub open spec fn is_release_order(
    n: nat,
    edges: Seq<(usize, usize)>,
    names: Seq<Seq<char>>,
    order: Seq<usize>,
) -> bool {
    &&& is_topological_order(n, edges, order)
    &&& forall|a: int, b: int|
        0 <= a < b < order.len() ==> released_before(
            edges,
            order,
            names,
            #[trigger] order[a],
            #[trigger] order[b],
        )
}

/// A node listed once is found at its place.
pub proof fn lemma_position_at(order: Seq<usize>, i: int)
    requires
        order.no_duplicates(),
        0 <= i < order.len(),
    ensures
        position_of(order, order[i]) == i,
{
    let v = order[i];
    assert(order.contains(v));
    let c = choose|c: int| 0 <= c < order.len() && order[c] == v;
}

/// Listing more nodes after `order1` does not move the last source of a node whose sources are
/// all listed in `order1`.
proof fn lemma_last_source_append(
    edges: Seq<(usize, usize)>,
    order1: Seq<usize>,
    order2: Seq<usize>,
    v: usize,
    k: nat,
)
    requires
        k <= edges.len(),
        order2.no_duplicates(),
        order1 == order2.take(order1.len() as int),
        order1.len() <= order2.len(),
        forall|e: int| 0 <= e < k && (#[trigger] edges[e]).1 == v ==> order1.contains(edges[e].0),
    ensures
        last_source(edges, order2, v, k) == last_source(edges, order1, v, k),
    decreases k,
{
    if k > 0 {
        lemma_last_source_append(edges, order1, order2, v, (k - 1) as nat);
        let e = edges[k - 1];
        if e.1 == v {
            assert(order1.contains(e.0));
            let i = choose|i: int| 0 <= i < order1.len() && order1[i] == e.0;
            assert(order2[i] == e.0);
            assert(order1.no_duplicates()) by {
                assert forall|a: int, b: int| 0 <= a < order1.len() && 0 <= b < order1.len() && a != b implies order1[a]
                    != order1[b] by {
                    assert(order1[a] == order2[a] && order1[b] == order2[b]);
                }
            }
            lemma_position_at(order1, i);
            lemma_position_at(order2, i);
        }
    }
}

/// The last source of `v` is at or before `h` when every listed source of an edge into `v` is.
proof fn lemma_last_source_at_most(
    edges: Seq<(usize, usize)>,
    order: Seq<usize>,
    v: usize,
    k: nat,
    h: int,
)
    requires
        k <= edges.len(),
        h >= -1,
        forall|e: int|
            0 <= e < k && (#[trigger] edges[e]).1 == v ==> position_of(order, edges[e].0) <= h,
    ensures
        -1 <= last_source(edges, order, v, k) <= h,
    decreases k,
{
    if k > 0 {
        lemma_last_source_at_most(edges, order, v, (k - 1) as nat, h);
        let e = edges[k - 1];
        assert(edges[k - 1] == e);
    }
}

/// The last source of `v` is at or after the position of any source of an edge into `v`.
proof fn lemma_last_source_at_least(
    edges: Seq<(usize, usize)>,
    order: Seq<usize>,
    v: usize,
    k: nat,
    e: int,
)
    requires
        k <= edges.len(),
        0 <= e < k,
        edges[e].1 == v,
    ensures
        last_source(edges, order, v, k) >= position_of(order, edges[e].0),
    decreases k,
{
    if e < k - 1 {
        lemma_last_source_at_least(edges, order, v, (k - 1) as nat, e);
    }
}

/// A node without incoming edges has no last source.
proof fn lemma_last_source_none(edges: Seq<(usize, usize)>, order: Seq<usize>, v: usize, k: nat)
    requires
        k <= edges.len(),
        forall|e: int| 0 <= e < k ==> (#[trigger] edges[e]).1 != v,
    ensures
        last_source(edges, order, v, k) == -1,
    decreases k,
{
    if k > 0 {
        lemma_last_source_none(edges, order, v, (k - 1) as nat);
    }
}

proof fn lemma_edge_exists(edges: Seq<(usize, usize)>, u: usize, v: usize) -> (e: int)
    requires
        edge_count(edges, u, v) > 0,
    ensures
        0 <= e < edges.len(),
        edges[e] == (u, v),
    decreases edges.len(),
{
    if edges.last() == (u, v) {
        edges.len() - 1
    } else {
        let e = lemma_edge_exists(edges.drop_last(), u, v);
        assert(edges.drop_last()[e] == edges[e]);
        e
    }
}

/// Names of distinct nodes differ.
pub open spec fn distinct_names(names: Seq<Seq<char>>) -> bool {
    forall|a: int, b: int|
        0 <= a < names.len() && 0 <= b < names.len() && a != b ==> #[trigger] names[a]
            != #[trigger] names[b]
}

/// The entries of `v`, arranged by increasing name.
fn sorted_by_name(v: &Vec<usize>, names: &Vec<String>) -> (r: Vec<usize>)
    requires
        forall|i: int| 0 <= i < v.len() ==> #[trigger] v[i] < names.len(),
        v@.no_duplicates(),
        distinct_names(names@.map_values(|s: String| s@)),
    ensures
        r.len() == v.len(),
        forall|x: usize| r@.contains(x) <==> v@.contains(x),
        r@.no_duplicates(),
        forall|i: int| 0 <= i < r.len() ==> #[trigger] r[i] < names.len(),
        forall|a: int, b: int|
            0 <= a < b < r.len() ==> text_lt(
                (#[trigger] names@[r[a] as int])@,
                (#[trigger] names@[r[b] as int])@,
            ),
{
    let ghost nm = names@.map_values(|s: String| s@);
    let mut out: Vec<usize> = Vec::new();
    let mut i: usize = 0;
    while i < v.len()
        invariant
            nm == names@.map_values(|s: String| s@),
            distinct_names(nm),
            forall|q: int| 0 <= q < v.len() ==> #[trigger] v[q] < names.len(),
            v@.no_duplicates(),
            i <= v.len(),
            out.len() == i,
            forall|q: int| 0 <= q < out.len() ==> #[trigger] out[q] < names.len(),
            forall|x: usize| out@.contains(x) <==> v@.take(i as int).contains(x),
            forall|a: int, b: int|
                0 <= a < b < out.len() ==> text_lt(
                    (#[trigger] names@[out[a] as int])@,
                    (#[trigger] names@[out[b] as int])@,
                ),
        decreases v.len() - i,
    {
        let x = v[i];
        let mut p: usize = 0;
        while p < out.len() && !str_less(names[x].as_str(), names[out[p]].as_str())
            invariant
                p <= out.len(),
                x < names.len(),
                forall|q: int| 0 <= q < out.len() ==> #[trigger] out[q] < names.len(),
                forall|q: int| 0 <= q < p ==> !text_lt(names@[x as int]@, (#[trigger] names@[out[q] as int])@),
            decreases out.len() - p,
        {
            p += 1;
        }
        proof {
            assert forall|q: int| 0 <= q < out.len() implies out[q] != x by {
                if out[q] == x {
                    assert(out@.contains(x));
                    let t0 = v@.take(i as int);
                    let k = choose|k: int| 0 <= k < t0.len() && t0[k] == x;
                    assert(v[k] == v[i as int]);
                }
            }
            assert forall|q: int| 0 <= q < out.len() implies (#[trigger] names@[out[q] as int])@ != names@[x as int]@ by {
                assert(nm[out[q] as int] == names@[out[q] as int]@);
                assert(nm[x as int] == names@[x as int]@);
            }
        }
        let ghost before = out@;
        out.insert(p, x);
        proof {
            assert(v@.take(i + 1) =~= v@.take(i as int).push(x));
            let t0 = v@.take(i as int);
            let t1 = v@.take(i + 1);
            assert forall|y: usize| out@.contains(y) <==> t1.contains(y) by {
                if out@.contains(y) {
                    let k = choose|k: int| 0 <= k < out.len() && out@[k] == y;
                    if k == p {
                        assert(t1[i as int] == y);
                    } else {
                        if k < p {
                            assert(before[k] == y);
                        } else {
                            assert(before[k - 1] == y);
                        }
                        assert(before.contains(y));
                        assert(t0.contains(y));
                        let k2 = choose|k2: int| 0 <= k2 < t0.len() && t0[k2] == y;
                        assert(t1[k2] == y);
                    }
                }
                if t1.contains(y) {
                    let k = choose|k: int| 0 <= k < t1.len() && t1[k] == y;
                    if k == i {
                        assert(out@[p as int] == y);
                    } else {
                        assert(t0[k] == y);
                        assert(t0.contains(y));
                        assert(before.contains(y));
                        let m = choose|m: int| 0 <= m < before.len() && before[m] == y;
                        if m < p {
                            assert(out@[m] == y);
                        } else {
                            assert(out@[m + 1] == y);
                        }
                    }
                }
            }
            assert forall|a: int, b: int|
                0 <= a < b < out.len() implies text_lt(
                    (#[trigger] names@[out[a] as int])@,
                    (#[trigger] names@[out[b] as int])@,
                ) by {
                let xn = names@[x as int]@;
                if a < p && b < p {
                    assert(out[a] == before[a] && out[b] == before[b]);
                } else if a < p && b == p {
                    assert(out[a] == before[a]);
                    let an = names@[before[a] as int]@;
                    assert(!text_lt(xn, an));
                    assert(an != xn);
                    crate::text::lemma_text_lt_order(an, xn, an);
                } else if a < p && b > p {
                    assert(out[a] == before[a] && out[b] == before[b - 1]);
                } else if a == p {
                    assert(out[b] == before[b - 1]);
                    assert(text_lt(xn, names@[before[p as int] as int]@));
                    if b - 1 > p {
                        assert(text_lt(
                            names@[before[p as int] as int]@,
                            names@[before[b - 1] as int]@,
                        ));
                        crate::text::lemma_text_lt_order(
                            xn,
                            names@[before[p as int] as int]@,
                            names@[before[b - 1] as int]@,
                        );
                    }
                } else {
                    assert(out[a] == before[a - 1] && out[b] == before[b - 1]);
                }
            }
        }
        i += 1;
    }
    proof {
        assert(v@.take(v.len() as int) =~= v@);
        assert forall|a: int, b: int| 0 <= a < out.len() && 0 <= b < out.len() && a != b implies out[a]
            != out[b] by {
            if out[a] == out[b] {
                if a < b {
                    crate::text::lemma_text_lt_order(
                        names@[out[a] as int]@,
                        names@[out[b] as int]@,
                        names@[out[a] as int]@,
                    );
                } else {
                    crate::text::lemma_text_lt_order(
                        names@[out[b] as int]@,
                        names@[out[a] as int]@,
                        names@[out[b] as int]@,
                    );
                }
            }
        }
    }
    out
}


/// Kahn's algorithm. Nodes become available when every edge into them comes from an
/// already listed node; available nodes are listed first-come first-served, and nodes
/// that become available together are taken in the order of their names.
/// Returns a topological order of `0..n` when one exists.
pub fn topological_order(n: usize, edges: &Vec<(usize, usize)>, names: &Vec<String>) -> (r: Option<
    Vec<usize>,
>)
    requires
        names.len() == n,
        edges_within(n as nat, edges@),
        distinct_names(names@.map_values(|s: String| s@)),
    ensures
        r is Some <==> is_acyclic(n as nat, edges@),
        r matches Some(order) ==> is_release_order(
            n as nat,
            edges@,
            names@.map_values(|s: String| s@),
            order@,
        ),
{
    let ghost nm = names@.map_values(|s: String| s@);
    let ghost ne = edges@.len();
    // In-degrees and adjacency lists.
    let mut indeg: Vec<usize> = Vec::new();
    let mut outgoing: Vec<Vec<usize>> = Vec::new();
    let mut k: usize = 0;
    while k < n
        invariant
            k <= n,
            indeg.len() == k,
            outgoing.len() == k,
            forall|i: int| 0 <= i < k ==> #[trigger] indeg[i] == 0,
            forall|i: int| 0 <= i < k ==> (#[trigger] outgoing[i])@ == Seq::<usize>::empty(),
        decreases n - k,
    {
        indeg.push(0);
        outgoing.push(Vec::new());
        k += 1;
    }
    let ghost nothing: Seq<usize> = Seq::empty();
    let mut e: usize = 0;
    while e < edges.len()
        invariant
            nothing == Seq::<usize>::empty(),
            e <= edges.len(),
            edges_within(n as nat, edges@),
            indeg.len() == n,
            outgoing.len() == n,
            forall|v: int|
                0 <= v < n ==> #[trigger] indeg[v] as nat == pending_in(
                    edges@.take(e as int),
                    nothing,
                    v as usize,
                ),
            forall|u: int| 0 <= u < n ==> (#[trigger] outgoing[u])@ == targets_of(edges@.take(e as int), u as usize),
            forall|u: int, i: int| 0 <= u < n && 0 <= i < outgoing[u].len() ==> #[trigger] outgoing[u][i] < n,
        decreases edges.len() - e,
    {
        let (from, to) = edges[e];
        let ghost prefix = edges@.take(e as int);
        let ghost next = edges@.take(e + 1);
        assert(next.drop_last() =~= prefix);
        assert(next.last() == edges@[e as int]);
        assert(pending_in(prefix, nothing, to) <= e) by {
            lemma_pending_bounded(prefix, nothing, to);
        }
        indeg.set(to, indeg[to] + 1);
        assert forall|w: int| 0 <= w < n implies #[trigger] indeg[w] as nat == pending_in(
            next,
            nothing,
            w as usize,
        ) by {
            assert(!nothing.contains(from));
        }
        let mut list = Vec::new();
        std::mem::swap(&mut list, &mut outgoing[from]);
        list.push(to);
        outgoing.set(from, list);
        e += 1;
    }
    assert(edges@.take(edges.len() as int) =~= edges@);
    // Nodes without incoming edges, in name order.
    let mut queue: Vec<usize> = Vec::new();
    let mut v: usize = 0;
    while v < n
        invariant
            v <= n,
            indeg.len() == n,
            queue@.no_duplicates(),
            forall|i: int| 0 <= i < queue.len() ==> #[trigger] queue[i] < v,
            forall|w: usize|
                #![trigger queue@.contains(w)]
                #![trigger indeg[w as int]]
                w < v ==> (queue@.contains(w) <==> indeg[w as int] == 0),
        decreases n - v,
    {
        if indeg[v] == 0 {
            proof {
                if queue@.contains(v) {
                    let i = choose|i: int| 0 <= i < queue.len() && queue[i] == v;
                }
            }
            let ghost old_q = queue@;
            queue.push(v);
            proof {
                assert(queue@ =~= old_q.push(v));
                assert forall|w: usize| w < v + 1 implies (queue@.contains(w) <==> #[trigger] indeg[w as int]
                    == 0) by {
                    if w == v {
                        assert(queue@[old_q.len() as int] == v);
                    } else {
                        if queue@.contains(w) {
                            let i = choose|i: int| 0 <= i < queue.len() && queue[i] == w;
                            assert(i < old_q.len());
                            assert(old_q[i] == w);
                        }
                        if old_q.contains(w) {
                            let i = choose|i: int| 0 <= i < old_q.len() && old_q[i] == w;
                            assert(queue@[i] == w);
                        }
                    }
                }
            }
        } else {
            proof {
                assert forall|w: usize| w < v + 1 implies (queue@.contains(w) <==> #[trigger] indeg[w as int]
                    == 0) by {
                    if w == v && queue@.contains(w) {
                        let i = choose|i: int| 0 <= i < queue.len() && queue[i] == w;
                    }
                }
            }
        }
        v += 1;
    }
    let sorted = sorted_by_name(&queue, names);
    queue = sorted;
    let mut head: usize = 0;
    proof {
        assert forall|a: int| 0 <= a < queue.len() implies last_source(
            edges@,
            queue@,
            #[trigger] queue@[a],
            ne,
        ) == -1 by {
            let w = queue@[a];
            assert(queue@.contains(w));
            assert(indeg[w as int] == 0);
            assert(indeg[w as int] as nat == pending_in(edges@, nothing, w));
            assert forall|e: int| 0 <= e < ne implies (#[trigger] edges@[e]).1 != w by {
                if edges@[e].1 == w {
                    lemma_pending_zero(edges@, nothing, w, e);
                }
            }
            lemma_last_source_none(edges@, queue@, w, ne);
        }
        assert forall|a: int, b: int| 0 <= a < b < queue.len() implies released_before(
            edges@,
            queue@,
            nm,
            #[trigger] queue@[a],
            #[trigger] queue@[b],
        ) by {
            assert(nm[queue@[a] as int] == names@[queue@[a] as int]@);
            assert(nm[queue@[b] as int] == names@[queue@[b] as int]@);
        }
        assert(queue@.take(0) =~= nothing);
        lemma_distinct_below(queue@, n as nat);
        assert forall|w: usize| w < n implies (queue@.contains(w) <==> #[trigger] pending_in(
            edges@,
            queue@.take(0),
            w,
        ) == 0) by {
            assert(indeg[w as int] as nat == pending_in(edges@, nothing, w));
        }
        assert forall|ed: int, a: int, b: int|
            #![trigger edges@[ed], queue[a], queue[b]]
            0 <= ed < edges.len() && 0 <= a < queue.len() && 0 <= b < queue.len() && edges@[ed]
                == (queue[b], queue[a]) implies b < a && b < head by {
            let y = queue[a];
            assert(queue@.contains(y));
            lemma_pending_zero(edges@, nothing, y, ed);
        }
    }
    while head < queue.len()
        invariant
            names.len() == n,
            edges_within(n as nat, edges@),
            indeg.len() == n,
            outgoing.len() == n,
            head <= queue.len() <= n,
            queue@.no_duplicates(),
            forall|i: int| 0 <= i < queue.len() ==> #[trigger] queue[i] < n,
            forall|u: int| 0 <= u < n ==> (#[trigger] outgoing[u])@ == targets_of(edges@, u as usize),
            forall|u: int, i: int| 0 <= u < n && 0 <= i < outgoing[u].len() ==> #[trigger] outgoing[u][i] < n,
            forall|w: int|
                0 <= w < n ==> #[trigger] indeg[w] as nat == pending_in(
                    edges@,
                    queue@.take(head as int),
                    w as usize,
                ),
            forall|w: usize|
                #![trigger queue@.contains(w)]
                #![trigger pending_in(edges@, queue@.take(head as int), w)]
                w < n ==> (queue@.contains(w) <==> pending_in(edges@, queue@.take(head as int), w) == 0),
            forall|ed: int, a: int, b: int|
                #![trigger edges@[ed], queue[a], queue[b]]
                0 <= ed < edges.len() && 0 <= a < queue.len() && 0 <= b < queue.len() && edges@[ed]
                    == (queue[b], queue[a]) ==> b < a && b < head,
            nm == names@.map_values(|s: String| s@),
            distinct_names(nm),
            ne == edges@.len(),
            forall|a: int, b: int|
                0 <= a < b < queue.len() ==> released_before(
                    edges@,
                    queue@,
                    nm,
                    #[trigger] queue@[a],
                    #[trigger] queue@[b],
                ),
            forall|a: int|
                0 <= a < queue.len() ==> last_source(edges@, queue@, #[trigger] queue@[a], ne) < a,
            forall|a: int|
                head <= a < queue.len() ==> last_source(edges@, queue@, #[trigger] queue@[a], ne)
                    < head,
        decreases n - head,
    {
        let u = queue[head];
        let ghost h: int = head as int;
        let ghost done = queue@.take(head as int);
        let ghost done2 = queue@.take(head + 1);
        let ghost base = queue@;
        assert(forall|w: usize|
            #![trigger base.contains(w)]
            #![trigger pending_in(edges@, done, w)]
            w < n ==> (base.contains(w) <==> pending_in(edges@, done, w) == 0));
        assert(forall|ed: int, a: int, b: int|
            #![trigger edges@[ed], base[a], base[b]]
            0 <= ed < edges.len() && 0 <= a < base.len() && 0 <= b < base.len() && edges@[ed]
                == (base[b], base[a]) ==> b < a && b < done.len());
        proof {
            assert(done2 =~= done.push(u));
            assert(!done.contains(u)) by {
                if done.contains(u) {
                    let i = choose|i: int| 0 <= i < done.len() && done[i] == u;
                    assert(queue[i] == u);
                }
            }
            assert forall|w: usize| w < n implies #[trigger] pending_in(edges@, done2, w) + edge_count(
                edges@,
                u,
                w,
            ) == pending_in(edges@, done, w) by {
                lemma_pending_after_done(edges@, done, u, w);
            }
        }
        head += 1;
        let children = &outgoing[u];
        let ghost kids = children@;
        assert(kids == targets_of(edges@, u));
        assert(forall|i: int| 0 <= i < kids.len() ==> #[trigger] kids[i] < n);
        assert(kids.take(0) =~= Seq::<usize>::empty());
        let mut newly: Vec<usize> = Vec::new();
        let mut j: usize = 0;
        while j < children.len()
            invariant
                kids == children@,
                kids == targets_of(edges@, u),
                forall|i: int| 0 <= i < kids.len() ==> #[trigger] kids[i] < n,
                j <= kids.len(),
                indeg.len() == n,
                head <= queue.len() <= n,
                done2 == queue@.take(head as int),
                forall|w: usize| w < n ==> #[trigger] pending_in(edges@, done2, w) + edge_count(
                    edges@,
                    u,
                    w,
                ) == pending_in(edges@, done, w),
                forall|w: int|
                    0 <= w < n ==> #[trigger] indeg[w] as nat + occurrences(kids.take(j as int), w as usize)
                        == pending_in(edges@, done, w as usize),
                newly@.no_duplicates(),
                forall|i: int| 0 <= i < newly.len() ==> #[trigger] newly[i] < n,
                forall|w: usize|
                    #![trigger newly@.contains(w)]
                    #![trigger indeg[w as int]]
                    w < n ==> (newly@.contains(w) <==> (occurrences(kids.take(j as int), w) > 0
                        && indeg[w as int] == 0)),
            decreases kids.len() - j,
        {
            let c = children[j];
            let ghost ind0 = indeg@;
            let ghost nb = newly@;
            assert forall|w: usize|
                #![trigger nb.contains(w)]
                #![trigger ind0[w as int]]
                w < n implies (nb.contains(w) <==> (occurrences(kids.take(j as int), w) > 0 && ind0[w as int]
                    == 0)) by {
                assert(indeg[w as int] == ind0[w as int]);
            }
            proof {
                lemma_occurrences_take(kids, j as int, c);
                lemma_occurrences_prefix(kids, j + 1, c);
                lemma_targets_count(edges@, u, c);
                assert(pending_in(edges@, done2, c) + edge_count(edges@, u, c) == pending_in(edges@, done, c));
                assert(indeg[c as int] >= 1);
            }
            indeg.set(c, indeg[c] - 1);
            proof {
                assert forall|w: int| 0 <= w < n implies #[trigger] indeg[w] as nat + occurrences(
                    kids.take(j + 1),
                    w as usize,
                ) == pending_in(edges@, done, w as usize) by {
                    lemma_occurrences_take(kids, j as int, w as usize);
                }
            }
            proof {
                if nb.contains(c) {
                    let i = choose|i: int| 0 <= i < nb.len() && nb[i] == c;
                    assert(newly[i] == c);
                }
            }
            if indeg[c] == 0 {
                newly.push(c);
                proof {
                    lemma_newly_pushed(nb, ind0, indeg@, kids, j as int, c, n as nat);
                }
            } else {
                proof {
                    lemma_newly_kept(nb, ind0, indeg@, kids, j as int, c, n as nat);
                }
            }
            j += 1;
        }
        assert(kids.take(kids.len() as int) =~= kids);
        proof {
            assert forall|w: usize| w < n implies #[trigger] indeg[w as int] as nat == pending_in(
                edges@,
                done2,
                w,
            ) by {
                lemma_targets_count(edges@, u, w);
            }
        }
        let ghost unsorted = newly@;
        let sorted = sorted_by_name(&newly, names);
        newly = sorted;
        let mut t: usize = 0;
        while t < newly.len()
            invariant
                0 <= t <= newly.len(),
                newly@.no_duplicates(),
                forall|i: int| 0 <= i < newly.len() ==> #[trigger] newly[i] < n,
                queue@ =~= base + newly@.take(t as int),
            decreases newly.len() - t,
        {
            queue.push(newly[t]);
            assert(newly@.take(t + 1) =~= newly@.take(t as int).push(newly@[t as int]));
            t += 1;
        }
        assert(newly@.take(newly.len() as int) =~= newly@);
        proof {
            let nq = queue@;
            // New entries were not yet queued: they waited for `u` until now.
            assert forall|w: usize| newly@.contains(w) implies !base.contains(w) by {
                assert(unsorted.contains(w));
                let i = choose|i: int| 0 <= i < newly.len() && newly[i] == w;
                assert(w < n);
                assert(indeg[w as int] == 0);
                assert(occurrences(kids.take(kids.len() as int), w) > 0);
                assert(occurrences(kids, w) > 0);
                lemma_targets_count(edges@, u, w);
                assert(pending_in(edges@, done2, w) + edge_count(edges@, u, w) == pending_in(edges@, done, w));
            }
            assert forall|i: int, k: int| 0 <= i < nq.len() && 0 <= k < nq.len() && i != k implies nq[i]
                != nq[k] by {
                if i >= base.len() && k < base.len() {
                    assert(newly@.contains(nq[i]));
                    assert(base.contains(nq[k]));
                }
                if k >= base.len() && i < base.len() {
                    assert(newly@.contains(nq[k]));
                    assert(base.contains(nq[i]));
                }
            }
            assert(forall|i: int| 0 <= i < nq.len() ==> #[trigger] nq[i] < n);
            lemma_distinct_below(nq, n as nat);
            assert(nq.take(head as int) =~= done2);
            assert forall|w: usize| w < n implies (nq.contains(w) <==> #[trigger] pending_in(
                edges@,
                done2,
                w,
            ) == 0) by {
                lemma_targets_count(edges@, u, w);
                if nq.contains(w) {
                    let i = choose|i: int| 0 <= i < nq.len() && nq[i] == w;
                    if i >= base.len() {
                        assert(newly@[i - base.len()] == w);
                        assert(newly@.contains(w));
                        assert(unsorted.contains(w));
                    } else {
                        assert(base[i] == w);
                        assert(pending_in(edges@, done2, w) + edge_count(edges@, u, w) == pending_in(edges@, done, w));
                    }
                }
                if pending_in(edges@, done2, w) == 0 {
                    lemma_occurrences_prefix(kids, kids.len() as int, w);
                    assert(pending_in(edges@, done2, w) + edge_count(edges@, u, w) == pending_in(edges@, done, w));
                    if pending_in(edges@, done, w) == 0 {
                        let i = choose|i: int| 0 <= i < base.len() && base[i] == w;
                        assert(nq[i] == w);
                    } else {
                        assert(unsorted.contains(w));
                        assert(newly@.contains(w));
                        let i = choose|i: int| 0 <= i < newly.len() && newly@[i] == w;
                        assert(nq[base.len() + i] == w);
                    }
                }
            }
            assert forall|ed: int, a: int, b: int|
                #![trigger edges@[ed], nq[a], nq[b]]
                0 <= ed < edges.len() && 0 <= a < nq.len() && 0 <= b < nq.len() && edges@[ed] == (
                    nq[b],
                    nq[a],
                ) implies b < a && b < head by {
                if a < base.len() && b < base.len() {
                    assert(base[a] == nq[a] && base[b] == nq[b]);
                } else if a >= base.len() {
                    let y = nq[a];
                    assert(newly@[a - base.len()] == y);
                    assert(newly@.contains(y));
                    assert(unsorted.contains(y));
                    assert(pending_in(edges@, done2, y) == 0);
                    lemma_pending_zero(edges@, done2, y, ed);
                    let i = choose|i: int| 0 <= i < done2.len() && done2[i] == nq[b];
                    assert(nq[i] == nq[b]);
                } else {
                    let y = nq[a];
                    assert(base[a] == y);
                    assert(pending_in(edges@, done, y) == 0);
                    lemma_pending_zero(edges@, done, y, ed);
                    let i = choose|i: int| 0 <= i < done.len() && done[i] == nq[b];
                    assert(nq[i] == nq[b]);
                }
            }
        }
        proof {
            let nq = queue@;
            assert(nq.take(base.len() as int) =~= base);
            assert(nq[h] == u);
            lemma_position_at(nq, h);
            // Entries listed before keep their last source.
            assert forall|a: int| 0 <= a < base.len() implies #[trigger] last_source(
                edges@,
                nq,
                base[a],
                ne,
            ) == last_source(edges@, base, base[a], ne) by {
                let y = base[a];
                assert(base.contains(y));
                assert(pending_in(edges@, done, y) == 0);
                assert forall|e: int| 0 <= e < ne && (#[trigger] edges@[e]).1 == y implies base.contains(
                    edges@[e].0,
                ) by {
                    lemma_pending_zero(edges@, done, y, e);
                    let m = choose|m: int| 0 <= m < done.len() && done[m] == edges@[e].0;
                    assert(base[m] == edges@[e].0);
                }
                lemma_last_source_append(edges@, base, nq, y, ne);
            }
            // Entries listed now were released by `u`.
            assert forall|i: int| base.len() <= i < nq.len() implies last_source(
                edges@,
                nq,
                #[trigger] nq[i],
                ne,
            ) == h by {
                let w = nq[i];
                assert(newly@[i - base.len()] == w);
                assert(newly@.contains(w));
                assert(unsorted.contains(w));
                let k = choose|k: int| 0 <= k < unsorted.len() && unsorted[k] == w;
                assert(w < n);
                assert(occurrences(kids.take(kids.len() as int), w) > 0);
                lemma_targets_count(edges@, u, w);
                assert(pending_in(edges@, done2, w) == 0) by {
                    assert(indeg[w as int] == 0);
                }
                assert forall|e: int| 0 <= e < ne && (#[trigger] edges@[e]).1 == w implies position_of(
                    nq,
                    edges@[e].0,
                ) <= h by {
                    lemma_pending_zero(edges@, done2, w, e);
                    let m = choose|m: int| 0 <= m < done2.len() && done2[m] == edges@[e].0;
                    assert(nq[m] == edges@[e].0);
                    lemma_position_at(nq, m);
                }
                lemma_last_source_at_most(edges@, nq, w, ne, h);
                let e = lemma_edge_exists(edges@, u, w);
                lemma_last_source_at_least(edges@, nq, w, ne, e);
            }
            assert forall|a: int| 0 <= a < nq.len() implies last_source(
                edges@,
                nq,
                #[trigger] nq[a],
                ne,
            ) < a by {
                if a < base.len() {
                    assert(nq[a] == base[a]);
                    assert(last_source(edges@, base, base[a], ne) < a);
                }
            }
            assert forall|a: int| head <= a < nq.len() implies last_source(
                edges@,
                nq,
                #[trigger] nq[a],
                ne,
            ) < head by {
                if a < base.len() {
                    assert(nq[a] == base[a]);
                    assert(last_source(edges@, base, base[a], ne) < h);
                }
            }
            assert forall|a: int, b: int| 0 <= a < b < nq.len() implies released_before(
                edges@,
                nq,
                nm,
                #[trigger] nq[a],
                #[trigger] nq[b],
            ) by {
                if b < base.len() {
                    assert(nq[a] == base[a] && nq[b] == base[b]);
                    assert(released_before(edges@, base, nm, base[a], base[b]));
                } else if a < base.len() {
                    assert(nq[a] == base[a]);
                    if a <= h {
                        assert(last_source(edges@, base, base[a], ne) < a);
                    } else {
                        assert(last_source(edges@, base, base[a], ne) < h);
                    }
                } else {
                    let a2 = a - base.len();
                    let b2 = b - base.len();
                    assert(nq[a] == newly@[a2] && nq[b] == newly@[b2]);
                    assert(text_lt(names@[newly@[a2] as int]@, names@[newly@[b2] as int]@));
                    assert(nm[nq[a] as int] == names@[nq[a] as int]@);
                    assert(nm[nq[b] as int] == names@[nq[b] as int]@);
                }
            }
        }
    }
    assert(queue@.take(head as int) =~= queue@);
    if queue.len() == n {
        assert(is_topological_order(n as nat, edges@, queue@));
        assert(is_release_order(n as nat, edges@, nm, queue@));
        Some(queue)
    } else {
        proof {
            assert(exists|w: usize| w < n && !queue@.contains(w)) by {
                if forall|w: usize| w < n ==> queue@.contains(w) {
                    lemma_covering_len(queue@, n as nat);
                }
            }
            let missing = choose|w: usize| w < n && !queue@.contains(w);
            assert forall|w: usize| w < n && !queue@.contains(w) implies #[trigger] pending_in(
                edges@,
                queue@,
                w,
            ) > 0 by {}
            lemma_blocked_is_cyclic(n as nat, edges@, queue@, missing);
        }
        None
    }
}


proof fn lemma_newly_pushed(
    nb: Seq<usize>,
    ind0: Seq<usize>,
    ind1: Seq<usize>,
    kids: Seq<usize>,
    j: int,
    c: usize,
    n: nat,
)
    requires
        0 <= j < kids.len(),
        kids[j] == c,
        c < n,
        ind0.len() == n,
        ind0[c as int] == 1,
        ind1 == ind0.update(c as int, 0usize),
        forall|w: usize|
            #![trigger nb.contains(w)]
            #![trigger ind0[w as int]]
            w < n ==> (nb.contains(w) <==> (occurrences(kids.take(j), w) > 0 && ind0[w as int] == 0)),
    ensures
        forall|w: usize|
            #![trigger nb.push(c).contains(w)]
            #![trigger ind1[w as int]]
            w < n ==> (nb.push(c).contains(w) <==> (occurrences(kids.take(j + 1), w) > 0 && ind1[w as int]
                == 0)),
{
    let newly = nb.push(c);
    assert forall|w: usize| #![trigger newly.contains(w)] #![trigger ind1[w as int]] w < n implies (newly.contains(w) <==> (
    occurrences(kids.take(j + 1), w) > 0 && ind1[w as int] == 0)) by {
        assert(nb.contains(w) <==> (occurrences(kids.take(j), w) > 0 && ind0[w as int] == 0));
        assert(kids.take(j + 1).drop_last() =~= kids.take(j));
        if w != c {
            assert(ind1[w as int] == ind0[w as int]);
            if newly.contains(w) {
                let i = choose|i: int| 0 <= i < newly.len() && newly[i] == w;
                assert(nb[i] == w);
            }
            if nb.contains(w) {
                let i = choose|i: int| 0 <= i < nb.len() && nb[i] == w;
                assert(newly[i] == w);
            }
        } else {
            assert(newly[nb.len() as int] == c);
        }
    }
}

proof fn lemma_newly_kept(
    nb: Seq<usize>,
    ind0: Seq<usize>,
    ind1: Seq<usize>,
    kids: Seq<usize>,
    j: int,
    c: usize,
    n: nat,
)
    requires
        0 <= j < kids.len(),
        kids[j] == c,
        c < n,
        ind0.len() == n,
        ind0[c as int] > 1,
        ind1 == ind0.update(c as int, (ind0[c as int] - 1) as usize),
        forall|w: usize|
            #![trigger nb.contains(w)]
            #![trigger ind0[w as int]]
            w < n ==> (nb.contains(w) <==> (occurrences(kids.take(j), w) > 0 && ind0[w as int] == 0)),
    ensures
        forall|w: usize|
            #![trigger nb.contains(w)]
            #![trigger ind1[w as int]]
            w < n ==> (nb.contains(w) <==> (occurrences(kids.take(j + 1), w) > 0 && ind1[w as int] == 0)),
{
    assert forall|w: usize| #![trigger nb.contains(w)] #![trigger ind1[w as int]] w < n implies (nb.contains(w) <==> (occurrences(
        kids.take(j + 1),
        w,
    ) > 0 && ind1[w as int] == 0)) by {
        assert(nb.contains(w) <==> (occurrences(kids.take(j), w) > 0 && ind0[w as int] == 0));
        assert(kids.take(j + 1).drop_last() =~= kids.take(j));
        if w != c {
            assert(ind1[w as int] == ind0[w as int]);
        }
    }
}

/// At most every edge counts toward the pending dependencies of a node.
pub proof fn lemma_pending_bounded(edges: Seq<(usize, usize)>, done: Seq<usize>, v: usize)
    ensures
        pending_in(edges, done, v) <= edges.len(),
    decreases edges.len(),
{
    if edges.len() > 0 {
        lemma_pending_bounded(edges.drop_last(), done, v);
    }
}

/// A sequence containing every node below `n` has at least `n` entries.
proof fn lemma_covering_len(q: Seq<usize>, n: nat)
    requires
        n <= usize::MAX,
        forall|w: usize| w < n ==> q.contains(w),
    ensures
        q.len() >= n,
    decreases n,
{
    if n > 0 {
        let m = (n - 1) as usize;
        assert(q.contains(m));
        let k = choose|k: int| 0 <= k < q.len() && q[k] == m;
        let r = q.remove(k);
        assert(r =~= q.subrange(0, k) + q.subrange(k + 1, q.len() as int));
        assert forall|w: usize| w < m implies r.contains(w) by {
            assert(q.contains(w));
            let i = choose|i: int| 0 <= i < q.len() && q[i] == w;
            if i < k {
                assert(r[i] == q[i]);
            } else {
                assert(i != k);
                assert(r[i - 1] == q[i]);
            }
        }
        lemma_covering_len(r, m as nat);
    }
}

} // verus!
