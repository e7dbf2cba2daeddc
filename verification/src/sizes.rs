//! The cluster sizes, and the product of the largest of them, depend on the
//! partition alone: not on the order of the clusters, nor on the order in which
//! the edges were taken in.

use crate::circuit::{disjoint, incorporate, lemma_position, position, Connection};
use crate::drivers::{first_max, forest_after, is_first_max, lengths, product_of_largest};
use crate::laws::{
    lemma_forest_after_disjoint, lemma_holder_is_position, lemma_incorporate_disjoint, lemma_order_independent,
    lemma_same_partition_same_size, lemma_swap_same_partition, proper, run, same_cluster,
};
use vstd::prelude::*;

verus! {

/// No cluster is empty.
pub open spec fn inhabited(f: Seq<Seq<usize>>) -> bool {
    forall|i: int| 0 <= i < f.len() ==> (#[trigger] f[i]).len() > 0
}

/// Taking in an edge leaves no cluster empty.
pub proof fn lemma_incorporate_inhabited(f: Seq<Seq<usize>>, a: usize, b: usize)
    requires
        inhabited(f),
    ensures
        inhabited(incorporate(f, a, b)),
{
    lemma_position(f, a);
    lemma_position(f, b);
}

/// No cluster of a run is empty.
pub proof fn lemma_forest_after_inhabited(edges: Seq<Connection>, k: nat)
    requires
        k <= edges.len(),
    ensures
        inhabited(forest_after(edges, k)),
    decreases k,
{
    if k > 0 {
        lemma_forest_after_inhabited(edges, (k - 1) as nat);
        lemma_incorporate_inhabited(forest_after(edges, (k - 1) as nat), edges[k - 1].1, edges[k - 1].2);
    }
}

/// The product of the largest entries depends on the entries alone, not on
/// their order.
pub proof fn lemma_product_by_multiset(s: Seq<usize>, t: Seq<usize>, count: nat)
    requires
        s.to_multiset() == t.to_multiset(),
    ensures
        product_of_largest(s, count) == product_of_largest(t, count),
    decreases count,
{
    broadcast use vstd::seq_lib::group_to_multiset_ensures;

    assert(s.len() == t.len()) by {
        vstd::seq_lib::to_multiset_len(s);
        vstd::seq_lib::to_multiset_len(t);
    }
    if count > 0 && s.len() > 0 {
        lemma_first_max_exists(s, s.len());
        lemma_first_max_exists(t, t.len());
        let i = first_max(s);
        let j = first_max(t);
        assert(is_first_max(s, i) && is_first_max(t, j));
        assert(t.contains(s[i])) by {
            assert(s.contains(s[i]));
            assert(s.to_multiset().count(s[i]) > 0);
            assert(t.to_multiset().count(s[i]) > 0);
        }
        assert(s.contains(t[j])) by {
            assert(t.contains(t[j]));
            assert(t.to_multiset().count(t[j]) > 0);
            assert(s.to_multiset().count(t[j]) > 0);
        }
        assert(s[i] == t[j]);
        assert(s.remove(i).to_multiset() =~= s.to_multiset().remove(s[i]));
        assert(t.remove(j).to_multiset() =~= t.to_multiset().remove(t[j]));
        lemma_product_by_multiset(s.remove(i), t.remove(j), (count - 1) as nat);
    }
}

/// Among the first `k` entries, `k` at least 1, one is the first largest.
proof fn lemma_first_max_exists(s: Seq<usize>, k: nat)
    requires
        0 < k <= s.len(),
    ensures
        exists|i: int| is_first_max(s.subrange(0, k as int), i),
        k == s.len() ==> is_first_max(s, first_max(s)),
    decreases k,
{
    let head = s.subrange(0, k as int);
    if k == 1 {
        assert(is_first_max(head, 0));
    } else {
        lemma_first_max_exists(s, (k - 1) as nat);
        let shorter = s.subrange(0, k - 1);
        let i = choose|i: int| is_first_max(shorter, i);
        assert forall|j: int| 0 <= j < k - 1 implies #[trigger] head[j] == shorter[j] by {}
        if s[k - 1] > shorter[i] {
            let top = head[k - 1];
            assert forall|j: int| 0 <= j < k - 1 implies #[trigger] head[j] < top by {
                assert(shorter[j] <= shorter[i]);
            }
            assert(is_first_max(head, k - 1));
        } else {
            assert forall|j: int| 0 <= j < head.len() implies head[j] <= head[i] by {
                if j < k - 1 {
                    assert(shorter[j] <= shorter[i]);
                }
            }
            assert forall|j: int| 0 <= j < i implies head[j] < head[i] by {
                assert(shorter[j] < shorter[i]);
            }
            assert(is_first_max(head, i));
        }
    }
    if k == s.len() {
        assert(head =~= s);
    }
}

/// Two disjoint forests without empty clusters and with the same partition have
/// clusters of the same sizes, each size as often in the one as in the other.
pub proof fn lemma_same_partition_same_lengths(f: Seq<Seq<usize>>, g: Seq<Seq<usize>>)
    requires
        disjoint(f),
        disjoint(g),
        inhabited(f),
        inhabited(g),
        forall|x: usize, y: usize| same_cluster(f, x, y) == same_cluster(g, x, y),
    ensures
        lengths(f).to_multiset() == lengths(g).to_multiset(),
    decreases f.len(),
{
    broadcast use vstd::seq_lib::group_to_multiset_ensures;

    if f.len() == 0 {
        if g.len() > 0 {
            let p = g[0][0];
            assert(g[0].contains(p));
            assert(same_cluster(g, p, p));
            assert(same_cluster(f, p, p));
        }
        assert(lengths(f) =~= lengths(g));
    } else {
        let m = f.len() - 1;
        let p = f[m][0];
        assert(f[m].contains(p));
        assert(same_cluster(f, p, p));
        assert(same_cluster(g, p, p));
        lemma_holder_is_position(f, p, m);
        lemma_position(g, p);
        let j = position(g, p).unwrap();
        lemma_same_partition_same_size(f, g, p);
        assert(f[m].len() == g[j].len());
        let f1 = f.drop_last();
        let g1 = g.remove(j);
        assert forall|x: usize, y: usize| same_cluster(f1, x, y) == same_cluster(g1, x, y) by {
            if same_cluster(f1, x, y) {
                let i = choose|i: int| 0 <= i < f1.len() && (#[trigger] f1[i]).contains(x) && f1[i].contains(y);
                assert(f[i].contains(x) && f[i].contains(y));
                assert(same_cluster(f, x, y));
                assert(same_cluster(g, x, y));
                let t = choose|t: int| 0 <= t < g.len() && (#[trigger] g[t]).contains(x) && g[t].contains(y);
                if t == j {
                    assert(same_cluster(g, x, p));
                    assert(same_cluster(f, x, p));
                    let u = choose|u: int| 0 <= u < f.len() && (#[trigger] f[u]).contains(x) && f[u].contains(p);
                    lemma_holder_is_position(f, p, u);
                    lemma_holder_is_position(f, x, u);
                    lemma_holder_is_position(f, x, i);
                }
                let t1 = if t < j { t } else { t - 1 };
                assert(g1[t1] == g[t]);
                assert(g1[t1].contains(x) && g1[t1].contains(y));
            }
            if same_cluster(g1, x, y) {
                let t1 = choose|t: int| 0 <= t < g1.len() && (#[trigger] g1[t]).contains(x) && g1[t].contains(y);
                let t = if t1 < j { t1 } else { t1 + 1 };
                assert(g[t] == g1[t1]);
                assert(g[t].contains(x) && g[t].contains(y));
                assert(same_cluster(g, x, y));
                assert(same_cluster(f, x, y));
                let i = choose|i: int| 0 <= i < f.len() && (#[trigger] f[i]).contains(x) && f[i].contains(y);
                if i == m {
                    assert(same_cluster(f, x, p));
                    assert(same_cluster(g, x, p));
                    let u = choose|u: int| 0 <= u < g.len() && (#[trigger] g[u]).contains(x) && g[u].contains(p);
                    lemma_holder_is_position(g, p, u);
                    lemma_holder_is_position(g, x, u);
                    lemma_holder_is_position(g, x, t);
                }
                assert(f1[i] == f[i]);
                assert(f1[i].contains(x) && f1[i].contains(y));
            }
        }
        assert(disjoint(f1)) by {
            assert forall|i: int, k: int, l: int, n: int|
                0 <= i < f1.len() && 0 <= k < f1[i].len() && 0 <= l < f1.len() && 0 <= n < f1[l].len()
                    && #[trigger] f1[i][k] == #[trigger] f1[l][n] implies i == l && k == n by {
                assert(f[i][k] == f[l][n]);
            }
        }
        assert(disjoint(g1)) by {
            assert forall|i: int, k: int, l: int, n: int|
                0 <= i < g1.len() && 0 <= k < g1[i].len() && 0 <= l < g1.len() && 0 <= n < g1[l].len()
                    && #[trigger] g1[i][k] == #[trigger] g1[l][n] implies i == l && k == n by {
                let i0 = if i < j { i } else { i + 1 };
                let l0 = if l < j { l } else { l + 1 };
                assert(g[i0][k] == g[l0][n]);
            }
        }
        assert(inhabited(f1)) by {
            assert forall|i: int| 0 <= i < f1.len() implies (#[trigger] f1[i]).len() > 0 by {
                assert(f[i].len() > 0);
            }
        }
        assert(inhabited(g1)) by {
            assert forall|i: int| 0 <= i < g1.len() implies (#[trigger] g1[i]).len() > 0 by {
                let i0 = if i < j { i } else { i + 1 };
                assert(g[i0].len() > 0);
            }
        }
        lemma_same_partition_same_lengths(f1, g1);
        let lf = lengths(f);
        let lg = lengths(g);
        assert(lengths(f1) =~= lf.drop_last());
        assert(lengths(g1) =~= lg.remove(j));
        assert(lf.drop_last() =~= lf.remove(m));
        assert(lf.remove(m).to_multiset() =~= lf.to_multiset().remove(lf[m]));
        assert(lg.remove(j).to_multiset() =~= lg.to_multiset().remove(lg[j]));
        assert(lf[m] == lg[j]);
        assert(lf.contains(lf[m]));
        assert(lg.contains(lg[j]));
        assert(lf.to_multiset().count(lf[m]) > 0);
        assert(lg.to_multiset().count(lg[j]) > 0);
        assert(lf.to_multiset() =~= lf.to_multiset().remove(lf[m]).insert(lf[m]));
        assert(lg.to_multiset() =~= lg.to_multiset().remove(lg[j]).insert(lg[j]));
    }
}

/// Some cluster of `g` holds the same points as cluster `i` of `f`.
pub open spec fn has_twin(f: Seq<Seq<usize>>, i: int, g: Seq<Seq<usize>>) -> bool {
    exists|j: int| 0 <= j < g.len() && f[i].to_set() == (#[trigger] g[j]).to_set()
}

/// In two disjoint forests without empty clusters and with the same partition,
/// each cluster of the one holds the same points as exactly one cluster of the
/// other.
pub proof fn lemma_same_partition_same_clusters(f: Seq<Seq<usize>>, g: Seq<Seq<usize>>, i: int) -> (j: int)
    requires
        disjoint(f),
        disjoint(g),
        inhabited(f),
        forall|x: usize, y: usize| same_cluster(f, x, y) == same_cluster(g, x, y),
        0 <= i < f.len(),
    ensures
        0 <= j < g.len(),
        f[i].to_set() == g[j].to_set(),
        forall|k: int| 0 <= k < g.len() && (#[trigger] g[k]).to_set() == f[i].to_set() ==> k == j,
{
    let p = f[i][0];
    assert(f[i].contains(p));
    assert(same_cluster(f, p, p));
    assert(same_cluster(g, p, p));
    lemma_position(g, p);
    let j = position(g, p).unwrap();
    assert forall|x: usize| f[i].contains(x) == g[j].contains(x) by {
        if f[i].contains(x) {
            assert(same_cluster(f, p, x));
            assert(same_cluster(g, p, x));
            let t = choose|t: int| 0 <= t < g.len() && (#[trigger] g[t]).contains(p) && g[t].contains(x);
            lemma_holder_is_position(g, p, t);
        }
        if g[j].contains(x) {
            assert(same_cluster(g, p, x));
            assert(same_cluster(f, p, x));
            let t = choose|t: int| 0 <= t < f.len() && (#[trigger] f[t]).contains(p) && f[t].contains(x);
            lemma_holder_is_position(f, p, t);
            lemma_holder_is_position(f, p, i);
        }
    }
    assert(f[i].to_set() =~= g[j].to_set());
    assert forall|k: int| 0 <= k < g.len() && (#[trigger] g[k]).to_set() == f[i].to_set() implies k == j by {
        assert(f[i].to_set().contains(p));
        assert(g[k].to_set().contains(p));
        assert(g[k].contains(p));
        lemma_holder_is_position(g, p, k);
    }
    j
}

/// Two edges, each between two different points, taken into a disjoint forest
/// without empty clusters in either order: the two results hold the same
/// partition, as many clusters, clusters of the same sizes, and each cluster of
/// the one holds the same points as exactly one cluster of the other.
pub proof fn lemma_swap_edges(f: Seq<Seq<usize>>, a1: usize, b1: usize, a2: usize, b2: usize)
    requires
        disjoint(f),
        inhabited(f),
        a1 != b1,
        a2 != b2,
    ensures
        ({
            let f1 = incorporate(incorporate(f, a1, b1), a2, b2);
            let f2 = incorporate(incorporate(f, a2, b2), a1, b1);
            &&& forall|p: usize, q: usize| same_cluster(f1, p, q) == same_cluster(f2, p, q)
            &&& f1.len() == f2.len()
            &&& lengths(f1).to_multiset() == lengths(f2).to_multiset()
            &&& forall|i: int| 0 <= i < f1.len() ==> #[trigger] has_twin(f1, i, f2)
            &&& forall|i: int, j: int, k: int|
                0 <= i < f1.len() && 0 <= j < f2.len() && 0 <= k < f2.len() && (#[trigger] f1[i]).to_set() == (
                #[trigger] f2[j]).to_set() && f1[i].to_set() == (#[trigger] f2[k]).to_set() ==> j == k
        }),
{
    let g1 = incorporate(f, a1, b1);
    let g2 = incorporate(f, a2, b2);
    let f1 = incorporate(g1, a2, b2);
    let f2 = incorporate(g2, a1, b1);
    lemma_incorporate_disjoint(f, a1, b1);
    lemma_incorporate_disjoint(g1, a2, b2);
    lemma_incorporate_disjoint(f, a2, b2);
    lemma_incorporate_disjoint(g2, a1, b1);
    lemma_incorporate_inhabited(f, a1, b1);
    lemma_incorporate_inhabited(g1, a2, b2);
    lemma_incorporate_inhabited(f, a2, b2);
    lemma_incorporate_inhabited(g2, a1, b1);
    assert forall|p: usize, q: usize| same_cluster(f1, p, q) == same_cluster(f2, p, q) by {
        lemma_swap_same_partition(f, a1, b1, a2, b2, p, q);
    }
    lemma_same_partition_same_lengths(f1, f2);
    vstd::seq_lib::to_multiset_len(lengths(f1));
    vstd::seq_lib::to_multiset_len(lengths(f2));
    assert forall|i: int| 0 <= i < f1.len() implies #[trigger] has_twin(f1, i, f2) by {
        let j = lemma_same_partition_same_clusters(f1, f2, i);
        assert(0 <= j < f2.len() && f1[i].to_set() == f2[j].to_set());
    }
    assert forall|i: int, j: int, k: int|
        0 <= i < f1.len() && 0 <= j < f2.len() && 0 <= k < f2.len() && (#[trigger] f1[i]).to_set() == (
        #[trigger] f2[j]).to_set() && f1[i].to_set() == (#[trigger] f2[k]).to_set() implies j == k by {
        let m = lemma_same_partition_same_clusters(f1, f2, i);
    }
}

/// The order of the edges does not matter to the answer: two lists that hold the
/// same edges, each as often as the other, end in clusters of the same sizes and
/// give the same product of the three largest sizes.
pub proof fn lemma_order_independent_product(e1: Seq<Connection>, e2: Seq<Connection>)
    requires
        proper(e1),
        e1.to_multiset() == e2.to_multiset(),
    ensures
        lengths(run(e1)).to_multiset() == lengths(run(e2)).to_multiset(),
        product_of_largest(lengths(run(e1)), 3) == product_of_largest(lengths(run(e2)), 3),
{
    assert forall|x: usize, y: usize| same_cluster(run(e1), x, y) == same_cluster(run(e2), x, y) by {
        lemma_order_independent(e1, e2, x, y);
    }
    lemma_order_independent(e1, e2, 0, 0);
    lemma_forest_after_disjoint(e1, e1.len());
    lemma_forest_after_disjoint(e2, e2.len());
    lemma_forest_after_inhabited(e1, e1.len());
    lemma_forest_after_inhabited(e2, e2.len());
    lemma_same_partition_same_lengths(run(e1), run(e2));
    lemma_product_by_multiset(lengths(run(e1)), lengths(run(e2)), 3);
}

/// The forest after the first `k` edges depends on those edges alone.
pub proof fn lemma_forest_after_prefix(edges: Seq<Connection>, k: nat, j: nat)
    requires
        j <= k <= edges.len(),
    ensures
        forest_after(edges.subrange(0, k as int), j) == forest_after(edges, j),
    decreases j,
{
    if j > 0 {
        lemma_forest_after_prefix(edges, k, (j - 1) as nat);
        assert(edges.subrange(0, k as int)[j - 1] == edges[j - 1]);
    }
}

/// The product after the first `k` edges of a list is that of any list that
/// holds the same `k` edges, in whatever order.
pub proof fn lemma_prefix_any_order(edges: Seq<Connection>, k: nat, chosen: Seq<Connection>)
    requires
        proper(edges),
        k <= edges.len(),
        chosen.to_multiset() == edges.subrange(0, k as int).to_multiset(),
    ensures
        lengths(run(chosen)).to_multiset() == lengths(forest_after(edges, k)).to_multiset(),
        product_of_largest(lengths(run(chosen)), 3) == product_of_largest(lengths(forest_after(edges, k)), 3),
{
    let head = edges.subrange(0, k as int);
    assert(proper(head)) by {
        assert forall|i: int| 0 <= i < head.len() implies (#[trigger] head[i]).1 != head[i].2 by {
            assert(head[i] == edges[i]);
        }
    }
    lemma_forest_after_prefix(edges, k, k);
    lemma_order_independent_product(head, chosen);
}

} // verus!
