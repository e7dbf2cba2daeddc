//! What holds of the forest whatever edges it takes in.

use crate::circuit::{disjoint, incorporate, lemma_position, position, size_of, Connection};
use crate::drivers::forest_after;
use vstd::prelude::*;

verus! {

/// Where the new forest `g` keeps the points of cluster `i` of the old forest.
spec fn lands(f: Seq<Seq<usize>>, a: usize, b: usize, i: int) -> int {
    match (position(f, a), position(f, b)) {
        (Some(x), Some(y)) => if x == y {
            i
        } else {
            let lo = if x < y { x } else { y };
            let hi = if x < y { y } else { x };
            if i == lo {
                hi - 1
            } else if i > lo {
                i - 1
            } else {
                i
            }
        },
        _ => i,
    }
}

/// Taking in an edge between two different points keeps the clusters disjoint:
/// no point ever belongs to two clusters, nor twice to one.
pub proof fn lemma_incorporate_disjoint(f: Seq<Seq<usize>>, a: usize, b: usize)
    requires
        disjoint(f),
        a != b,
    ensures
        disjoint(incorporate(f, a, b)),
{
    lemma_position(f, a);
    lemma_position(f, b);
    let g = incorporate(f, a, b);
    assert forall|i: int, k: int, j: int, l: int|
        0 <= i < g.len() && 0 <= k < g[i].len() && 0 <= j < g.len() && 0 <= l < g[j].len()
            && #[trigger] g[i][k] == #[trigger] g[j][l] implies i == j && k == l by {
        lemma_member_origin(f, a, b, i, k);
        lemma_member_origin(f, a, b, j, l);
    }
}

/// Each entry of the new forest is an endpoint that no cluster held, or an entry
/// of the old forest.
spec fn origin(f: Seq<Seq<usize>>, a: usize, b: usize, i: int, k: int) -> (int, int) {
    match (position(f, a), position(f, b)) {
        (Some(x), Some(y)) => if x == y {
            (i, k)
        } else {
            let lo = if x < y { x } else { y };
            let hi = if x < y { y } else { x };
            if i < lo {
                (i, k)
            } else if i == hi - 1 {
                if k < f[hi].len() {
                    (hi, k)
                } else {
                    (lo, k - f[hi].len())
                }
            } else {
                (i + 1, k)
            }
        },
        _ => (i, k),
    }
}

proof fn lemma_member_origin(f: Seq<Seq<usize>>, a: usize, b: usize, i: int, k: int)
    requires
        0 <= i < incorporate(f, a, b).len(),
        0 <= k < incorporate(f, a, b)[i].len(),
    ensures
        ({
            let g = incorporate(f, a, b);
            let (oi, ok) = origin(f, a, b, i, k);
            let fresh = (oi >= f.len() || ok >= f[oi].len());
            &&& 0 <= oi && 0 <= ok
            &&& !fresh ==> f[oi][ok] == g[i][k]
            &&& fresh ==> (g[i][k] == a || g[i][k] == b)
            &&& fresh && g[i][k] == a ==> position(f, a).is_none()
            &&& fresh && g[i][k] == b ==> position(f, b).is_none()
            &&& fresh ==> (oi == i && ok == k)
            &&& fresh && position(f, a).is_none() && position(f, b).is_none() ==> (i == f.len() && (k
                == 0 ==> g[i][k] == a) && (k == 1 ==> g[i][k] == b) && k <= 1)
        }),
{
    lemma_position(f, a);
    lemma_position(f, b);
}

/// Each member of the forest after an edge was taken in is an endpoint of the
/// edge or was a member before.
pub proof fn lemma_incorporate_origin(f: Seq<Seq<usize>>, a: usize, b: usize, i: int, k: int)
    requires
        0 <= i < incorporate(f, a, b).len(),
        0 <= k < incorporate(f, a, b)[i].len(),
    ensures
        ({
            let p = incorporate(f, a, b)[i][k];
            p == a || p == b || exists|j: int, l: int| 0 <= j < f.len() && 0 <= l < f[j].len() && #[trigger] f[j][l] == p
        }),
{
    lemma_member_origin(f, a, b, i, k);
    let (oi, ok) = origin(f, a, b, i, k);
    if !(oi >= f.len() || ok >= f[oi].len()) {
        assert(f[oi][ok] == incorporate(f, a, b)[i][k]);
    }
}

/// In a disjoint forest, a cluster that holds `p` is the position of `p`.
pub proof fn lemma_holder_is_position(f: Seq<Seq<usize>>, p: usize, i: int)
    requires
        disjoint(f),
        0 <= i < f.len(),
        f[i].contains(p),
    ensures
        position(f, p) == Some(i),
{
    lemma_position(f, p);
    let j = position(f, p).unwrap();
    let k = choose|k: int| 0 <= k < f[i].len() && f[i][k] == p;
    let l = choose|l: int| 0 <= l < f[j].len() && f[j][l] == p;
    assert(f[i][k] == f[j][l]);
}

/// Clusters only grow: the cluster that holds a point after an edge was taken in
/// is at least as large as the one that held it before.
pub proof fn lemma_incorporate_grows(f: Seq<Seq<usize>>, a: usize, b: usize, p: usize)
    requires
        disjoint(f),
        a != b,
    ensures
        size_of(f, p) <= size_of(incorporate(f, a, b), p),
{
    lemma_position(f, a);
    lemma_position(f, b);
    lemma_position(f, p);
    lemma_incorporate_disjoint(f, a, b);
    let g = incorporate(f, a, b);
    if let Some(i) = position(f, p) {
        let k = choose|k: int| 0 <= k < f[i].len() && f[i][k] == p;
        let t = lands(f, a, b, i);
        assert(0 <= t < g.len());
        assert(g[t].len() >= f[i].len());
        let kk = if g[t].len() > f[i].len() && g[t][k] != p {
            k + (g[t].len() - f[i].len())
        } else {
            k
        };
        assert(g[t][kk] == p);
        lemma_holder_is_position(g, p, t);
    }
}

/// Every edge of the list joins two different points.
pub open spec fn proper(edges: Seq<Connection>) -> bool {
    forall|k: int| 0 <= k < edges.len() ==> (#[trigger] edges[k]).1 != edges[k].2
}

/// At every step of a run over proper edges the clusters are disjoint.
pub proof fn lemma_forest_after_disjoint(edges: Seq<Connection>, k: nat)
    requires
        proper(edges),
        k <= edges.len(),
    ensures
        disjoint(forest_after(edges, k)),
    decreases k,
{
    if k > 0 {
        lemma_forest_after_disjoint(edges, (k - 1) as nat);
        lemma_incorporate_disjoint(forest_after(edges, (k - 1) as nat), edges[k - 1].1, edges[k - 1].2);
    }
}

/// Over a run of proper edges the cluster of a point never gets smaller.
pub proof fn lemma_forest_after_grows(edges: Seq<Connection>, j: nat, k: nat, p: usize)
    requires
        proper(edges),
        j <= k <= edges.len(),
    ensures
        size_of(forest_after(edges, j), p) <= size_of(forest_after(edges, k), p),
    decreases k,
{
    if j < k {
        lemma_forest_after_grows(edges, j, (k - 1) as nat, p);
        lemma_forest_after_disjoint(edges, (k - 1) as nat);
        lemma_incorporate_grows(forest_after(edges, (k - 1) as nat), edges[k - 1].1, edges[k - 1].2, p);
    }
}

/// Points `p` and `q` belong to one cluster.
pub open spec fn same_cluster(f: Seq<Seq<usize>>, p: usize, q: usize) -> bool {
    exists|i: int| 0 <= i < f.len() && (#[trigger] f[i]).contains(p) && f[i].contains(q)
}

/// Point `p` is an endpoint of the edge, or shares a cluster with one.
pub open spec fn near(f: Seq<Seq<usize>>, a: usize, b: usize, p: usize) -> bool {
    p == a || p == b || same_cluster(f, p, a) || same_cluster(f, p, b)
}

proof fn lemma_member_kept(f: Seq<Seq<usize>>, a: usize, b: usize, i: int, k: int)
    requires
        0 <= i < f.len(),
        0 <= k < f[i].len(),
    ensures
        0 <= lands(f, a, b, i) < incorporate(f, a, b).len(),
        incorporate(f, a, b)[lands(f, a, b, i)].contains(f[i][k]),
{
    lemma_position(f, a);
    lemma_position(f, b);
    let g = incorporate(f, a, b);
    let t = lands(f, a, b, i);
    let kk = if g[t].len() > f[i].len() && g[t][k] != f[i][k] {
        k + (g[t].len() - f[i].len())
    } else {
        k
    };
    assert(g[t][kk] == f[i][k]);
}

/// Points that shared a cluster still share one after an edge was taken in.
pub proof fn lemma_incorporate_keeps(f: Seq<Seq<usize>>, a: usize, b: usize, p: usize, q: usize)
    requires
        same_cluster(f, p, q),
    ensures
        same_cluster(incorporate(f, a, b), p, q),
{
    let i = choose|i: int| 0 <= i < f.len() && (#[trigger] f[i]).contains(p) && f[i].contains(q);
    let k = choose|k: int| 0 <= k < f[i].len() && f[i][k] == p;
    let l = choose|l: int| 0 <= l < f[i].len() && f[i][l] == q;
    lemma_member_kept(f, a, b, i, k);
    lemma_member_kept(f, a, b, i, l);
}

/// After an edge was taken in, its endpoints share a cluster.
pub proof fn lemma_incorporate_joins(f: Seq<Seq<usize>>, a: usize, b: usize)
    ensures
        same_cluster(incorporate(f, a, b), a, b),
{
    lemma_position(f, a);
    lemma_position(f, b);
    let g = incorporate(f, a, b);
    match (position(f, a), position(f, b)) {
        (None, None) => {
            assert(g[f.len() as int][0] == a && g[f.len() as int][1] == b);
        },
        (Some(i), None) => {
            let k = choose|k: int| 0 <= k < f[i].len() && f[i][k] == a;
            assert(g[i][k] == a && g[i][f[i].len() as int] == b);
        },
        (None, Some(j)) => {
            let k = choose|k: int| 0 <= k < f[j].len() && f[j][k] == b;
            assert(g[j][k] == b && g[j][f[j].len() as int] == a);
        },
        (Some(i), Some(j)) => {
            let k = choose|k: int| 0 <= k < f[i].len() && f[i][k] == a;
            let l = choose|l: int| 0 <= l < f[j].len() && f[j][l] == b;
            lemma_member_kept(f, a, b, i, k);
            lemma_member_kept(f, a, b, j, l);
        },
    }
}

/// Points that share a cluster after an edge was taken in shared one before, or
/// each of them is near the edge.
pub proof fn lemma_incorporate_bounded(f: Seq<Seq<usize>>, a: usize, b: usize, p: usize, q: usize)
    requires
        same_cluster(incorporate(f, a, b), p, q),
    ensures
        same_cluster(f, p, q) || (near(f, a, b, p) && near(f, a, b, q)),
{
    lemma_position(f, a);
    lemma_position(f, b);
    let g = incorporate(f, a, b);
    let t = choose|t: int| 0 <= t < g.len() && (#[trigger] g[t]).contains(p) && g[t].contains(q);
    let k = choose|k: int| 0 <= k < g[t].len() && g[t][k] == p;
    let l = choose|l: int| 0 <= l < g[t].len() && g[t][l] == q;
    lemma_member_origin(f, a, b, t, k);
    lemma_member_origin(f, a, b, t, l);
    let (pi, pk) = origin(f, a, b, t, k);
    let (qi, qk) = origin(f, a, b, t, l);
    let p_fresh = pi >= f.len() || pk >= f[pi].len();
    let q_fresh = qi >= f.len() || qk >= f[qi].len();
    if !p_fresh {
        assert(f[pi].contains(p));
    }
    if !q_fresh {
        assert(f[qi].contains(q));
    }
    if !p_fresh && !q_fresh && pi == qi {
        assert(same_cluster(f, p, q));
    } else {
        if !p_fresh {
            assert(Some(pi) == position(f, a) || Some(pi) == position(f, b));
            assert(f[pi].contains(a) || f[pi].contains(b));
        }
        if !q_fresh {
            assert(Some(qi) == position(f, a) || Some(qi) == position(f, b));
            assert(f[qi].contains(a) || f[qi].contains(b));
        }
    }
}

/// The relation is symmetric and transitive.
pub open spec fn is_per(s: spec_fn(usize, usize) -> bool) -> bool {
    &&& forall|p: usize, q: usize| #[trigger] s(p, q) ==> s(q, p)
    &&& forall|p: usize, q: usize, r: usize| #[trigger] s(p, q) && #[trigger] s(q, r) ==> s(p, r)
}

/// The forest after all edges of the list were taken in.
pub open spec fn run(edges: Seq<Connection>) -> Seq<Seq<usize>> {
    forest_after(edges, edges.len())
}

/// In a disjoint forest, sharing a cluster is transitive.
pub proof fn lemma_same_cluster_transitive(f: Seq<Seq<usize>>, p: usize, q: usize, r: usize)
    requires
        disjoint(f),
        same_cluster(f, p, q),
        same_cluster(f, q, r),
    ensures
        same_cluster(f, p, r),
{
    let i = choose|i: int| 0 <= i < f.len() && (#[trigger] f[i]).contains(p) && f[i].contains(q);
    let j = choose|j: int| 0 <= j < f.len() && (#[trigger] f[j]).contains(q) && f[j].contains(r);
    lemma_holder_is_position(f, q, i);
    lemma_holder_is_position(f, q, j);
}

/// Every edge taken in so far has both endpoints in one cluster.
pub proof fn lemma_run_holds_edge(edges: Seq<Connection>, k: nat, j: int)
    requires
        0 <= j < k <= edges.len(),
    ensures
        same_cluster(forest_after(edges, k), edges[j].1, edges[j].2),
    decreases k,
{
    let f = forest_after(edges, (k - 1) as nat);
    if j == k - 1 {
        lemma_incorporate_joins(f, edges[j].1, edges[j].2);
    } else {
        lemma_run_holds_edge(edges, (k - 1) as nat, j);
        lemma_incorporate_keeps(f, edges[k - 1].1, edges[k - 1].2, edges[j].1, edges[j].2);
    }
}

/// Two points share a cluster only if every symmetric and transitive relation
/// that holds of each edge taken in holds of them.
pub proof fn lemma_run_least(
    edges: Seq<Connection>,
    k: nat,
    s: spec_fn(usize, usize) -> bool,
    p: usize,
    q: usize,
)
    requires
        k <= edges.len(),
        is_per(s),
        forall|j: int| 0 <= j < k ==> s((#[trigger] edges[j]).1, edges[j].2),
        same_cluster(forest_after(edges, k), p, q),
    ensures
        s(p, q),
    decreases k,
{
    if k > 0 {
        let f = forest_after(edges, (k - 1) as nat);
        let a = edges[k - 1].1;
        let b = edges[k - 1].2;
        lemma_incorporate_bounded(f, a, b, p, q);
        if same_cluster(f, p, q) {
            lemma_run_least(edges, (k - 1) as nat, s, p, q);
        } else {
            assert(s(a, b));
            assert(s(b, a));
            assert(s(a, a));
            assert(s(b, b));
            if same_cluster(f, p, a) {
                lemma_run_least(edges, (k - 1) as nat, s, p, a);
            }
            if same_cluster(f, p, b) {
                lemma_run_least(edges, (k - 1) as nat, s, p, b);
            }
            if same_cluster(f, q, a) {
                lemma_run_least(edges, (k - 1) as nat, s, q, a);
            }
            if same_cluster(f, q, b) {
                lemma_run_least(edges, (k - 1) as nat, s, q, b);
            }
            assert(s(p, a));
            assert(s(q, a));
            assert(s(a, q));
        }
    } else {
        assert(forest_after(edges, 0).len() == 0);
    }
}

/// Two points share a cluster after an edge was taken in only if every
/// symmetric and transitive relation that holds of the edge, and of each two
/// points that shared a cluster before, holds of them.
pub proof fn lemma_incorporate_least(
    f: Seq<Seq<usize>>,
    a: usize,
    b: usize,
    s: spec_fn(usize, usize) -> bool,
    p: usize,
    q: usize,
)
    requires
        is_per(s),
        forall|x: usize, y: usize| #[trigger] same_cluster(f, x, y) ==> s(x, y),
        s(a, b),
        same_cluster(incorporate(f, a, b), p, q),
    ensures
        s(p, q),
{
    lemma_incorporate_bounded(f, a, b, p, q);
    if !same_cluster(f, p, q) {
        assert(s(b, a));
        assert(s(a, a));
        assert(s(b, b));
        assert(s(p, a)) by {
            if same_cluster(f, p, b) {
                assert(s(p, b));
            }
        }
        assert(s(q, a)) by {
            if same_cluster(f, q, b) {
                assert(s(q, b));
            }
        }
        assert(s(a, q));
    }
}

proof fn lemma_swap_within(f: Seq<Seq<usize>>, a1: usize, b1: usize, a2: usize, b2: usize, p: usize, q: usize)
    requires
        disjoint(f),
        a1 != b1,
        a2 != b2,
        same_cluster(incorporate(incorporate(f, a1, b1), a2, b2), p, q),
    ensures
        same_cluster(incorporate(incorporate(f, a2, b2), a1, b1), p, q),
{
    let g1 = incorporate(f, a1, b1);
    let g2 = incorporate(f, a2, b2);
    let h = incorporate(g2, a1, b1);
    let s = |x: usize, y: usize| same_cluster(h, x, y);
    lemma_incorporate_disjoint(f, a2, b2);
    lemma_incorporate_disjoint(g2, a1, b1);
    assert forall|x: usize, y: usize, z: usize| #[trigger] s(x, y) && #[trigger] s(y, z) implies s(
        x,
        z,
    ) by {
        lemma_same_cluster_transitive(h, x, y, z);
    }
    assert forall|x: usize, y: usize| #[trigger] s(x, y) implies s(y, x) by {
        let i = choose|i: int| 0 <= i < h.len() && (#[trigger] h[i]).contains(x) && h[i].contains(y);
        assert(h[i].contains(y) && h[i].contains(x));
    }
    assert forall|x: usize, y: usize| #[trigger] same_cluster(f, x, y) implies s(x, y) by {
        lemma_incorporate_keeps(f, a2, b2, x, y);
        lemma_incorporate_keeps(g2, a1, b1, x, y);
    }
    lemma_incorporate_joins(g2, a1, b1);
    lemma_incorporate_joins(f, a2, b2);
    lemma_incorporate_keeps(g2, a1, b1, a2, b2);
    assert forall|x: usize, y: usize| #[trigger] same_cluster(g1, x, y) implies s(x, y) by {
        lemma_incorporate_least(f, a1, b1, s, x, y);
    }
    lemma_incorporate_least(g1, a2, b2, s, p, q);
}

/// Two edges taken into a disjoint forest in either order lead to the same
/// partition of the points.
pub proof fn lemma_swap_same_partition(
    f: Seq<Seq<usize>>,
    a1: usize,
    b1: usize,
    a2: usize,
    b2: usize,
    p: usize,
    q: usize,
)
    requires
        disjoint(f),
        a1 != b1,
        a2 != b2,
    ensures
        same_cluster(incorporate(incorporate(f, a1, b1), a2, b2), p, q) == same_cluster(
            incorporate(incorporate(f, a2, b2), a1, b1),
            p,
            q,
        ),
{
    if same_cluster(incorporate(incorporate(f, a1, b1), a2, b2), p, q) {
        lemma_swap_within(f, a1, b1, a2, b2, p, q);
    }
    if same_cluster(incorporate(incorporate(f, a2, b2), a1, b1), p, q) {
        lemma_swap_within(f, a2, b2, a1, b1, p, q);
    }
}

proof fn lemma_run_within(e1: Seq<Connection>, e2: Seq<Connection>, p: usize, q: usize)
    requires
        proper(e1),
        forall|j: int| 0 <= j < e2.len() ==> e1.contains(#[trigger] e2[j]),
        same_cluster(run(e2), p, q),
    ensures
        same_cluster(run(e1), p, q),
{
    let f = run(e1);
    let s = |x: usize, y: usize| same_cluster(f, x, y);
    lemma_forest_after_disjoint(e1, e1.len());
    assert forall|x: usize, y: usize, z: usize| #[trigger] s(x, y) && #[trigger] s(y, z) implies s(
        x,
        z,
    ) by {
        lemma_same_cluster_transitive(f, x, y, z);
    }
    assert forall|x: usize, y: usize| #[trigger] s(x, y) implies s(y, x) by {
        let i = choose|i: int| 0 <= i < f.len() && (#[trigger] f[i]).contains(x) && f[i].contains(y);
        assert(f[i].contains(y) && f[i].contains(x));
    }
    assert forall|j: int| 0 <= j < e2.len() implies s((#[trigger] e2[j]).1, e2[j].2) by {
        let m = choose|m: int| 0 <= m < e1.len() && e1[m] == e2[j];
        lemma_run_holds_edge(e1, e1.len(), m);
    }
    lemma_run_least(e2, e2.len(), s, p, q);
}

/// The order of the edges does not matter: two lists that hold the same edges,
/// each as often as the other, lead to the same partition of the points.
pub proof fn lemma_order_independent(e1: Seq<Connection>, e2: Seq<Connection>, p: usize, q: usize)
    requires
        proper(e1),
        e1.to_multiset() == e2.to_multiset(),
    ensures
        proper(e2),
        same_cluster(run(e1), p, q) == same_cluster(run(e2), p, q),
{
    broadcast use vstd::seq_lib::group_to_multiset_ensures;

    assert forall|j: int| 0 <= j < e2.len() implies e1.contains(#[trigger] e2[j]) by {
        assert(e2.contains(e2[j]));
        assert(e2.to_multiset().count(e2[j]) > 0);
        assert(e1.to_multiset().count(e2[j]) > 0);
    }
    assert forall|j: int| 0 <= j < e1.len() implies e2.contains(#[trigger] e1[j]) by {
        assert(e1.contains(e1[j]));
        assert(e1.to_multiset().count(e1[j]) > 0);
        assert(e2.to_multiset().count(e1[j]) > 0);
    }
    assert forall|j: int| 0 <= j < e2.len() implies (#[trigger] e2[j]).1 != e2[j].2 by {
        let m = choose|m: int| 0 <= m < e1.len() && e1[m] == e2[j];
        assert(e1[m].1 != e1[m].2);
    }
    if same_cluster(run(e2), p, q) {
        lemma_run_within(e1, e2, p, q);
    }
    if same_cluster(run(e1), p, q) {
        lemma_run_within(e2, e1, p, q);
    }
}

/// Whatever the order of the edges, each point ends in a cluster of the same size.
pub proof fn lemma_order_independent_sizes(e1: Seq<Connection>, e2: Seq<Connection>, p: usize)
    requires
        proper(e1),
        e1.to_multiset() == e2.to_multiset(),
    ensures
        size_of(run(e1), p) == size_of(run(e2), p),
{
    assert forall|x: usize, y: usize| same_cluster(run(e1), x, y) == same_cluster(run(e2), x, y) by {
        lemma_order_independent(e1, e2, x, y);
    }
    lemma_order_independent(e1, e2, p, p);
    lemma_forest_after_disjoint(e1, e1.len());
    lemma_forest_after_disjoint(e2, e2.len());
    lemma_same_partition_same_size(run(e1), run(e2), p);
}

/// Two disjoint forests with the same partition give each point a cluster of the
/// same size.
pub proof fn lemma_same_partition_same_size(f: Seq<Seq<usize>>, g: Seq<Seq<usize>>, p: usize)
    requires
        disjoint(f),
        disjoint(g),
        forall|x: usize, y: usize| same_cluster(f, x, y) == same_cluster(g, x, y),
    ensures
        size_of(f, p) == size_of(g, p),
{
    lemma_position(f, p);
    lemma_position(g, p);
    if let Some(i) = position(f, p) {
        assert(same_cluster(f, p, p));
        assert(same_cluster(g, p, p));
        let j = position(g, p).unwrap();
        assert forall|x: usize| f[i].contains(x) == g[j].contains(x) by {
            if f[i].contains(x) {
                assert(same_cluster(f, p, x));
                assert(same_cluster(g, p, x));
                let t = choose|t: int| 0 <= t < g.len() && (#[trigger] g[t]).contains(p) && g[t].contains(x);
                lemma_holder_is_position(g, p, t);
            }
            if g[j].contains(x) {
                assert(same_cluster(g, p, x));
                assert(same_cluster(f, p, x));
                let t = choose|t: int| 0 <= t < f.len() && (#[trigger] f[t]).contains(p) && f[t].contains(x);
                lemma_holder_is_position(f, p, t);
            }
        }
        assert(f[i].to_set() =~= g[j].to_set());
        assert(f[i].no_duplicates());
        assert(g[j].no_duplicates());
        f[i].unique_seq_to_set();
        g[j].unique_seq_to_set();
    } else {
        if position(g, p).is_some() {
            assert(same_cluster(g, p, p));
            assert(same_cluster(f, p, p));
        }
    }
}

} // verus!
