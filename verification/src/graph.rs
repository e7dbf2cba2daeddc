//! The clusters are the connected components of the graph that the edges taken
//! in make up: two points share a cluster exactly where a path of edges joins
//! them.

use crate::circuit::{disjoint, Connection};
use crate::drivers::{forest_after, lengths, product_of_largest};
use crate::laws::{
    is_per, lemma_forest_after_disjoint, lemma_run_holds_edge, lemma_run_least, lemma_same_cluster_transitive,
    proper, same_cluster,
};
use crate::sizes::{
    inhabited, lemma_forest_after_inhabited, lemma_product_by_multiset, lemma_same_partition_same_lengths,
};
use vstd::prelude::*;

verus! {

/// One of the first `k` edges joins `p` and `q`, in either direction.
pub open spec fn joined(edges: Seq<Connection>, k: nat, p: usize, q: usize) -> bool {
    exists|j: int|
        0 <= j < k && j < edges.len() && (((#[trigger] edges[j]).1 == p && edges[j].2 == q) || (edges[j].1 == q
            && edges[j].2 == p))
}

/// Each point of the path, two at least, is joined to the next by one of the
/// first `k` edges.
pub open spec fn is_path(edges: Seq<Connection>, k: nat, path: Seq<usize>) -> bool {
    &&& path.len() >= 2
    &&& forall|i: int| 0 <= i < path.len() - 1 ==> joined(edges, k, #[trigger] path[i], path[i + 1])
}

/// A path along the first `k` edges leads from `p` to `q`.
pub open spec fn connected(edges: Seq<Connection>, k: nat, p: usize, q: usize) -> bool {
    exists|path: Seq<usize>| #[trigger] is_path(edges, k, path) && path[0] == p && path[path.len() - 1] == q
}

proof fn lemma_connected_symmetric(edges: Seq<Connection>, k: nat, p: usize, q: usize)
    requires
        connected(edges, k, p, q),
    ensures
        connected(edges, k, q, p),
{
    let path = choose|path: Seq<usize>| #[trigger]
        is_path(edges, k, path) && path[0] == p && path[path.len() - 1] == q;
    let n = path.len() as int;
    let back = Seq::new(path.len(), |i: int| path[n - 1 - i]);
    assert forall|i: int| 0 <= i < back.len() - 1 implies joined(edges, k, #[trigger] back[i], back[i + 1]) by {
        let m = n - 2 - i;
        assert(joined(edges, k, path[m], path[m + 1]));
        assert(back[i] == path[m + 1] && back[i + 1] == path[m]);
    }
    assert(is_path(edges, k, back) && back[0] == q && back[back.len() - 1] == p);
}

proof fn lemma_connected_transitive(edges: Seq<Connection>, k: nat, p: usize, q: usize, r: usize)
    requires
        connected(edges, k, p, q),
        connected(edges, k, q, r),
    ensures
        connected(edges, k, p, r),
{
    let first = choose|path: Seq<usize>| #[trigger]
        is_path(edges, k, path) && path[0] == p && path[path.len() - 1] == q;
    let second = choose|path: Seq<usize>| #[trigger]
        is_path(edges, k, path) && path[0] == q && path[path.len() - 1] == r;
    let n = first.len() as int;
    let whole = first + second.subrange(1, second.len() as int);
    assert forall|i: int| 0 <= i < whole.len() - 1 implies joined(edges, k, #[trigger] whole[i], whole[i + 1]) by {
        if i < n - 1 {
            assert(joined(edges, k, first[i], first[i + 1]));
            assert(whole[i] == first[i] && whole[i + 1] == first[i + 1]);
        } else {
            let m = i - n + 1;
            assert(joined(edges, k, second[m], second[m + 1]));
            assert(whole[i + 1] == second[m + 1]);
            assert(whole[i] == second[m]);
        }
    }
    assert(is_path(edges, k, whole) && whole[0] == p && whole[whole.len() - 1] == r);
}

proof fn lemma_joined_connected(edges: Seq<Connection>, k: nat, p: usize, q: usize)
    requires
        joined(edges, k, p, q),
    ensures
        connected(edges, k, p, q),
{
    let path = seq![p, q];
    assert forall|i: int| 0 <= i < path.len() - 1 implies joined(edges, k, #[trigger] path[i], path[i + 1]) by {
        assert(i == 0);
    }
    assert(is_path(edges, k, path) && path[0] == p && path[path.len() - 1] == q);
}

proof fn lemma_path_in_cluster(edges: Seq<Connection>, k: nat, path: Seq<usize>, m: int)
    requires
        proper(edges),
        k <= edges.len(),
        is_path(edges, k, path),
        1 <= m < path.len(),
    ensures
        same_cluster(forest_after(edges, k), path[0], path[m]),
    decreases m,
{
    let f = forest_after(edges, k);
    let a = path[m - 1];
    let b = path[m];
    assert(joined(edges, k, a, b));
    let j = choose|j: int|
        0 <= j < k && j < edges.len() && (((#[trigger] edges[j]).1 == a && edges[j].2 == b) || (edges[j].1 == b
            && edges[j].2 == a));
    lemma_run_holds_edge(edges, k, j);
    let i = choose|i: int| 0 <= i < f.len() && (#[trigger] f[i]).contains(edges[j].1) && f[i].contains(edges[j].2);
    assert(f[i].contains(a) && f[i].contains(b));
    assert(same_cluster(f, a, b));
    if m > 1 {
        lemma_path_in_cluster(edges, k, path, m - 1);
        lemma_forest_after_disjoint(edges, k);
        lemma_same_cluster_transitive(f, path[0], a, b);
    }
}

/// The clusters are the connected components: after the first `k` edges two
/// points share a cluster exactly where a path along those edges joins them. A
/// point that no edge touches is in no cluster and on no path.
pub proof fn lemma_clusters_are_components(edges: Seq<Connection>, k: nat, p: usize, q: usize)
    requires
        proper(edges),
        k <= edges.len(),
    ensures
        same_cluster(forest_after(edges, k), p, q) == connected(edges, k, p, q),
{
    if connected(edges, k, p, q) {
        let path = choose|path: Seq<usize>| #[trigger]
            is_path(edges, k, path) && path[0] == p && path[path.len() - 1] == q;
        lemma_path_in_cluster(edges, k, path, path.len() - 1);
    }
    if same_cluster(forest_after(edges, k), p, q) {
        let s = |x: usize, y: usize| connected(edges, k, x, y);
        assert forall|x: usize, y: usize| #[trigger] s(x, y) implies s(y, x) by {
            lemma_connected_symmetric(edges, k, x, y);
        }
        assert forall|x: usize, y: usize, z: usize| #[trigger] s(x, y) && #[trigger] s(y, z) implies s(
            x,
            z,
        ) by {
            lemma_connected_transitive(edges, k, x, y, z);
        }
        assert forall|j: int| 0 <= j < k implies s((#[trigger] edges[j]).1, edges[j].2) by {
            assert(joined(edges, k, edges[j].1, edges[j].2));
            lemma_joined_connected(edges, k, edges[j].1, edges[j].2);
        }
        assert(is_per(s));
        lemma_run_least(edges, k, s, p, q);
    }
}

/// The answer read off the forest is one of the graph alone: whatever disjoint
/// forest without empty clusters lists the connected components of the first
/// `k` edges, in whatever order, its clusters have the sizes of the clusters
/// that the edges built, and the product of the three largest is the same.
pub proof fn lemma_product_of_components(edges: Seq<Connection>, k: nat, g: Seq<Seq<usize>>)
    requires
        proper(edges),
        k <= edges.len(),
        disjoint(g),
        inhabited(g),
        forall|p: usize, q: usize| same_cluster(g, p, q) == connected(edges, k, p, q),
    ensures
        lengths(g).to_multiset() == lengths(forest_after(edges, k)).to_multiset(),
        product_of_largest(lengths(g), 3) == product_of_largest(lengths(forest_after(edges, k)), 3),
{
    let f = forest_after(edges, k);
    assert forall|p: usize, q: usize| same_cluster(g, p, q) == same_cluster(f, p, q) by {
        lemma_clusters_are_components(edges, k, p, q);
    }
    lemma_forest_after_disjoint(edges, k);
    lemma_forest_after_inhabited(edges, k);
    lemma_same_partition_same_lengths(g, f);
    lemma_product_by_multiset(lengths(g), lengths(f), 3);
}

} // verus!
