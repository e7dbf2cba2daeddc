//! Why the search for the bridging edge cannot run out of edges: once every edge
//! between `n` points was taken in, one cluster holds all `n` of them.

use crate::circuit::{disjoint, incorporate, lemma_position, position, Connection};
use crate::drivers::{forest_after, is_first_max, lemma_first_max_is, lengths, product_of_largest, spans};
use crate::sizes::{inhabited, lemma_forest_after_inhabited};
use crate::edges::{has_edge, is_sorted_edge_list};
use crate::jbox::JBox;
use crate::laws::{
    lemma_forest_after_disjoint, lemma_holder_is_position, lemma_incorporate_origin, lemma_run_holds_edge, proper,
    run,
};
use vstd::prelude::*;

verus! {

/// The indices below `n`.
pub open spec fn below(n: nat) -> Set<usize> {
    Set::new(|p: usize| p < n)
}

/// There are `n` indices below `n`.
pub proof fn lemma_below_len(n: nat)
    requires
        n <= usize::MAX,
    ensures
        below(n).finite(),
        below(n).len() == n,
    decreases n,
{
    if n == 0 {
        assert(below(0) =~= Set::empty());
    } else {
        lemma_below_len((n - 1) as nat);
        assert(below(n) =~= below((n - 1) as nat).insert((n - 1) as usize));
    }
}

/// Every member of every cluster is below `n`.
pub open spec fn members_below(f: Seq<Seq<usize>>, n: nat) -> bool {
    forall|i: int, k: int| 0 <= i < f.len() && 0 <= k < f[i].len() ==> #[trigger] f[i][k] < n
}

/// Every edge of the list joins indices below `n`.
pub open spec fn edges_below(edges: Seq<Connection>, n: nat) -> bool {
    forall|j: int| 0 <= j < edges.len() ==> (#[trigger] edges[j]).1 < n && edges[j].2 < n
}

/// A forest holds no point that no edge named.
pub proof fn lemma_members_below(edges: Seq<Connection>, k: nat, n: nat)
    requires
        edges_below(edges, n),
        k <= edges.len(),
    ensures
        members_below(forest_after(edges, k), n),
    decreases k,
{
    if k > 0 {
        let f = forest_after(edges, (k - 1) as nat);
        let a = edges[k - 1].1;
        let b = edges[k - 1].2;
        lemma_members_below(edges, (k - 1) as nat, n);
        let g = incorporate(f, a, b);
        assert forall|i: int, m: int| 0 <= i < g.len() && 0 <= m < g[i].len() implies #[trigger] g[i][m] < n by {
            lemma_incorporate_origin(f, a, b, i, m);
        }
    }
}

/// A cluster of a disjoint forest over `n` points has at most `n` members; one
/// with `n` members holds every point.
pub proof fn lemma_cluster_len(f: Seq<Seq<usize>>, n: nat, i: int)
    requires
        disjoint(f),
        members_below(f, n),
        n <= usize::MAX,
        0 <= i < f.len(),
    ensures
        f[i].len() <= n,
        f[i].len() == n ==> forall|p: usize| p < n ==> f[i].contains(p),
{
    broadcast use vstd::seq_lib::seq_to_set_is_finite;

    lemma_below_len(n);
    assert(f[i].no_duplicates());
    f[i].unique_seq_to_set();
    assert forall|p: usize| f[i].to_set().contains(p) implies below(n).contains(p) by {
        let k = choose|k: int| 0 <= k < f[i].len() && f[i][k] == p;
        assert(f[i][k] < n);
    }
    assert(f[i].to_set().subset_of(below(n)));
    vstd::set_lib::lemma_len_subset(f[i].to_set(), below(n));
    if f[i].len() == n {
        vstd::set_lib::lemma_subset_equality(f[i].to_set(), below(n));
        assert forall|p: usize| p < n implies f[i].contains(p) by {
            assert(below(n).contains(p));
            assert(f[i].to_set().contains(p));
        }
    }
}

/// The number of members of the first `k` clusters together.
pub open spec fn total_size(f: Seq<Seq<usize>>, k: nat) -> nat
    decreases k,
{
    if k == 0 {
        0
    } else {
        total_size(f, (k - 1) as nat) + f[k - 1].len()
    }
}

/// The points that the first `k` clusters hold.
pub open spec fn held(f: Seq<Seq<usize>>, k: nat) -> Set<usize>
    decreases k,
{
    if k == 0 {
        Set::empty()
    } else {
        held(f, (k - 1) as nat).union(f[k - 1].to_set())
    }
}

proof fn lemma_held(f: Seq<Seq<usize>>, n: nat, k: nat)
    requires
        disjoint(f),
        members_below(f, n),
        n <= usize::MAX,
        k <= f.len(),
    ensures
        held(f, k).finite(),
        held(f, k).len() == total_size(f, k),
        held(f, k).subset_of(below(n)),
        forall|p: usize| held(f, k).contains(p) ==> exists|i: int| 0 <= i < k && (#[trigger] f[i]).contains(p),
    decreases k,
{
    broadcast use vstd::seq_lib::seq_to_set_is_finite;

    if k > 0 {
        let rest = held(f, (k - 1) as nat);
        let c = k - 1;
        let cluster = f[c];
        let last = cluster.to_set();
        lemma_held(f, n, (k - 1) as nat);
        assert(cluster.no_duplicates());
        cluster.unique_seq_to_set();
        assert forall|p: usize| last.contains(p) implies below(n).contains(p) && !rest.contains(p) by {
            let m = choose|m: int| 0 <= m < cluster.len() && cluster[m] == p;
            assert(f[c][m] < n);
            if rest.contains(p) {
                let i = choose|i: int| 0 <= i < k - 1 && (#[trigger] f[i]).contains(p);
                let l = choose|l: int| 0 <= l < f[i].len() && f[i][l] == p;
                assert(f[i][l] == f[c][m]);
            }
        }
        assert(rest.disjoint(last));
        vstd::set_lib::lemma_set_disjoint_lens(rest, last);
        assert(held(f, k) == rest + last);
        assert forall|p: usize| held(f, k).contains(p) implies exists|i: int|
            0 <= i < k && (#[trigger] f[i]).contains(p) by {
            if last.contains(p) {
                assert(f[c].contains(p));
            } else {
                let i = choose|i: int| 0 <= i < k - 1 && (#[trigger] f[i]).contains(p);
                assert(0 <= i < k && f[i].contains(p));
            }
        }
    }
}

/// The clusters of a disjoint forest over `n` points have at most `n` members
/// together.
pub proof fn lemma_total_size(f: Seq<Seq<usize>>, n: nat)
    requires
        disjoint(f),
        members_below(f, n),
        n <= usize::MAX,
    ensures
        total_size(f, f.len()) <= n,
{
    lemma_held(f, n, f.len());
    lemma_below_len(n);
    vstd::set_lib::lemma_len_subset(held(f, f.len()), below(n));
}

/// At every step of a run over proper edges between `n` points the clusters
/// have at most `n` members together.
pub proof fn lemma_run_total_size(edges: Seq<Connection>, k: nat, n: nat)
    requires
        proper(edges),
        edges_below(edges, n),
        k <= edges.len(),
        n <= usize::MAX,
    ensures
        total_size(forest_after(edges, k), forest_after(edges, k).len()) <= n,
{
    lemma_forest_after_disjoint(edges, k);
    lemma_members_below(edges, k, n);
    lemma_total_size(forest_after(edges, k), n);
}

/// Once every edge between two or more points was taken in, one cluster holds
/// them all.
pub proof fn lemma_all_edges_span(points: Seq<JBox>, edges: Seq<Connection>)
    requires
        points.len() >= 2,
        points.len() <= usize::MAX,
        is_sorted_edge_list(points, edges),
    ensures
        edges.len() > 0,
        spans(run(edges), points.len()),
{
    broadcast use vstd::seq_lib::seq_to_set_is_finite;

    let n = points.len();
    let f = run(edges);
    assert(has_edge(edges, 1, 0));
    assert(proper(edges));
    assert(edges_below(edges, n));
    lemma_forest_after_disjoint(edges, edges.len());
    lemma_members_below(edges, edges.len(), n);
    let first = choose|k: int| 0 <= k < edges.len() && (#[trigger] edges[k]).1 == 1usize && edges[k].2 == 0usize;
    lemma_run_holds_edge(edges, edges.len(), first);
    lemma_position(f, 0);
    let c = position(f, 0).unwrap();
    assert forall|p: usize| below(n).contains(p) implies f[c].to_set().contains(p) by {
        if p > 0 {
            assert(has_edge(edges, p, 0));
            let k = choose|k: int| 0 <= k < edges.len() && (#[trigger] edges[k]).1 == p && edges[k].2 == 0usize;
            lemma_run_holds_edge(edges, edges.len(), k);
            let i = choose|i: int| 0 <= i < f.len() && (#[trigger] f[i]).contains(p) && f[i].contains(0);
            lemma_holder_is_position(f, 0, i);
        }
        assert(f[c].contains(p));
    }
    assert(below(n).subset_of(f[c].to_set()));
    lemma_below_len(n);
    vstd::set_lib::lemma_len_subset(below(n), f[c].to_set());
    assert(f[c].no_duplicates());
    f[c].unique_seq_to_set();
    lemma_cluster_len(f, n, c);
    assert(f[c].len() == n);
}

/// The first `k` clusters of a forest without empty clusters have at least `k`
/// members together.
proof fn lemma_total_at_least(f: Seq<Seq<usize>>, k: nat)
    requires
        inhabited(f),
        k <= f.len(),
    ensures
        total_size(f, k) >= k,
    decreases k,
{
    if k > 0 {
        lemma_total_at_least(f, (k - 1) as nat);
        assert(f[k - 1].len() > 0);
    }
}

/// Beside cluster `c`, each of the other clusters among the first `k` adds at
/// least one member.
proof fn lemma_total_lower(f: Seq<Seq<usize>>, k: nat, c: int)
    requires
        inhabited(f),
        k <= f.len(),
        0 <= c < k,
    ensures
        total_size(f, k) >= f[c].len() + (k - 1),
    decreases k,
{
    if c == k - 1 {
        lemma_total_at_least(f, (k - 1) as nat);
    } else {
        lemma_total_lower(f, (k - 1) as nat, c);
        assert(f[k - 1].len() > 0);
    }
}

/// Once every edge between two or more points was taken in, there is one
/// cluster only; it holds all points, and the product of the largest sizes is
/// the number of points.
pub proof fn lemma_all_edges_one_cluster(points: Seq<JBox>, edges: Seq<Connection>)
    requires
        points.len() >= 2,
        points.len() <= usize::MAX,
        is_sorted_edge_list(points, edges),
    ensures
        lengths(run(edges)) == seq![points.len() as usize],
        product_of_largest(lengths(run(edges)), 3) == points.len(),
{
    let n = points.len();
    let f = run(edges);
    lemma_all_edges_span(points, edges);
    let c = choose|c: int| 0 <= c < f.len() && (#[trigger] f[c]).len() == n;
    assert(proper(edges));
    assert(edges_below(edges, n));
    lemma_forest_after_inhabited(edges, edges.len());
    lemma_run_total_size(edges, edges.len(), n);
    lemma_total_lower(f, f.len(), c);
    assert(f.len() == 1);
    let sizes = lengths(f);
    assert(sizes =~= seq![n as usize]);
    assert(is_first_max(sizes, 0));
    lemma_first_max_is(sizes, 0);
    assert(sizes.remove(0).len() == 0);
    reveal_with_fuel(product_of_largest, 2);
    assert(n * 1 == n) by (nonlinear_arith);
}

} // verus!
