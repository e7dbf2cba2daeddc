//! All pairwise edges of a point list, in ascending order of distance.
//!
//! Edges of equal floored distance come in the order of their exact squared
//! distance; edges of equal squared distance in the order of their endpoint
//! indices, the larger index of an edge first.

use crate::circuit::Connection;
use crate::jbox::{
    distances_fit, is_floor_sqrt, isqrt, lemma_floor_sqrt_monotone, lemma_floor_sqrt_unique, sq_dist, sq_distance,
    JBox,
};
use vstd::prelude::*;

verus! {

/// Why a computation on a point list gave no answer.
#[derive(Debug, Clone, Copy, PartialEq, Eq, Structural)]
pub enum ClusterError {
    /// Fewer than two points: there is no edge.
    InsufficientPoints,
    /// Every edge was taken in and still no cluster holds all points.
    NotConnected,
    /// The answer does not fit the result type.
    Overflow,
    /// No edge was taken in, so there is no cluster whose size could be multiplied.
    EmptyPrefix,
}

/// A sort key: squared distance, then the two endpoint indices.
pub type EdgeKey = (u64, usize, usize);

/// The lexicographic order on sort keys.
pub open spec fn key_le(p: EdgeKey, q: EdgeKey) -> bool {
    p.0 < q.0 || (p.0 == q.0 && (p.1 < q.1 || (p.1 == q.1 && p.2 <= q.2)))
}

/// `e` joins two different points of the list, the larger index first, and carries
/// their floored distance.
pub open spec fn is_edge(points: Seq<JBox>, e: Connection) -> bool {
    &&& e.2 < e.1 < points.len()
    &&& is_floor_sqrt(sq_dist(points[e.1 as int], points[e.2 as int]), e.0 as int)
}

/// Edge `e` comes strictly before edge `g`: by squared distance, then by the
/// larger endpoint index, then by the smaller one.
pub open spec fn edge_before(points: Seq<JBox>, e: Connection, g: Connection) -> bool {
    let s = sq_dist(points[e.1 as int], points[e.2 as int]);
    let t = sq_dist(points[g.1 as int], points[g.2 as int]);
    s < t || (s == t && (e.1 < g.1 || (e.1 == g.1 && e.2 < g.2)))
}

/// Some edge of the list joins point `a` to point `b`, in this order.
pub open spec fn has_edge(edges: Seq<Connection>, a: usize, b: usize) -> bool {
    exists|k: int| 0 <= k < edges.len() && (#[trigger] edges[k]).1 == a && edges[k].2 == b
}

/// `edges` is the edge list of `points`: one edge for each pair, in strictly
/// ascending order.
pub open spec fn is_sorted_edge_list(points: Seq<JBox>, edges: Seq<Connection>) -> bool {
    &&& forall|k: int| 0 <= k < edges.len() ==> is_edge(points, #[trigger] edges[k])
    &&& forall|a: usize, b: usize| b < a < points.len() ==> #[trigger] has_edge(edges, a, b)
    &&& forall|i: int, j: int|
        0 <= i < j < edges.len() ==> edge_before(points, #[trigger] edges[i], #[trigger] edges[j])
}

proof fn lemma_edge_found(points: Seq<JBox>, edges: Seq<Connection>, x: Connection) -> (m: int)
    requires
        is_sorted_edge_list(points, edges),
        is_edge(points, x),
    ensures
        0 <= m < edges.len(),
        edges[m] == x,
{
    assert(has_edge(edges, x.1, x.2));
    let m = choose|m: int| 0 <= m < edges.len() && (#[trigger] edges[m]).1 == x.1 && edges[m].2 == x.2;
    assert(is_edge(points, edges[m]));
    lemma_floor_sqrt_unique(
        sq_dist(points[x.1 as int], points[x.2 as int]),
        x.0 as int,
        edges[m].0 as int,
    );
    m
}

proof fn lemma_edge_lists_agree(points: Seq<JBox>, e1: Seq<Connection>, e2: Seq<Connection>, k: nat)
    requires
        is_sorted_edge_list(points, e1),
        is_sorted_edge_list(points, e2),
        k <= e1.len(),
    ensures
        k <= e2.len(),
        forall|j: int| 0 <= j < k ==> e1[j] == e2[j],
    decreases k,
{
    if k > 0 {
        lemma_edge_lists_agree(points, e1, e2, (k - 1) as nat);
        let x = e1[k - 1];
        let m = lemma_edge_found(points, e2, x);
        if m < k - 1 {
            assert(e1[m] == e2[m]);
            assert(edge_before(points, e1[m], e1[k - 1]));
        }
        let y = e2[k - 1];
        let n = lemma_edge_found(points, e1, y);
        if n < k - 1 {
            assert(e1[n] == e2[n]);
            assert(edge_before(points, e2[n], e2[k - 1]));
        }
        if m > k - 1 {
            assert(edge_before(points, e2[k - 1], e2[m]));
            if n > k - 1 {
                assert(edge_before(points, e1[k - 1], e1[n]));
            }
        }
    }
}

/// A point list has one edge list only.
pub proof fn lemma_edge_list_unique(points: Seq<JBox>, e1: Seq<Connection>, e2: Seq<Connection>)
    requires
        is_sorted_edge_list(points, e1),
        is_sorted_edge_list(points, e2),
    ensures
        e1 == e2,
{
    lemma_edge_lists_agree(points, e1, e2, e1.len());
    lemma_edge_lists_agree(points, e2, e1, e2.len());
    assert(e1 =~= e2);
}

/// `key` is the sort key of a pair of the list.
pub open spec fn is_key(points: Seq<JBox>, key: EdgeKey) -> bool {
    &&& key.2 < key.1 < points.len()
    &&& key.0 == sq_dist(points[key.1 as int], points[key.2 as int])
}

/// The sort key of the pair of points `a` and `b`.
pub open spec fn pair_key(points: Seq<JBox>, a: usize, b: usize) -> EdgeKey {
    (sq_dist(points[a as int], points[b as int]) as u64, a, b)
}

/// Sorts the keys with `slice::sort_unstable` of std, which orders tuples
/// lexicographically: the result holds the same keys, each as often as before,
/// in ascending order.
#[verifier::external_body]
fn sort_keys(keys: &mut Vec<EdgeKey>)
    ensures
        final(keys)@.to_multiset() == old(keys)@.to_multiset(),
        forall|i: int, j: int|
            0 <= i < j < final(keys)@.len() ==> key_le(
                #[trigger] final(keys)@[i],
                #[trigger] final(keys)@[j],
            ),
{
    keys.sort_unstable();
}

/// The number of pairs among `n` points.
pub open spec fn pair_count(n: int) -> int {
    n * (n - 1) / 2
}

proof fn lemma_pair_count_step(a: int)
    requires
        a >= 0,
    ensures
        pair_count(a) + a == pair_count(a + 1),
{
    assert((a + 1) * a == a * (a - 1) + 2 * a) by (nonlinear_arith);
}

/// The sort keys of all pairs, in the order of their endpoint indices.
fn pair_keys(points: &[JBox]) -> (keys: Vec<EdgeKey>)
    requires
        distances_fit(points@),
    ensures
        keys@.len() == pair_count(points@.len() as int) || points@.len() == 0,
        points@.len() == 0 ==> keys@.len() == 0,
        keys@.no_duplicates(),
        forall|k: int| 0 <= k < keys@.len() ==> is_key(points@, #[trigger] keys@[k]),
        forall|a: usize, b: usize|
            b < a < points@.len() ==> keys@.contains(
                pair_key(points@, a, b),
            ),
{
    let n: usize = points.len();
    let mut keys: Vec<EdgeKey> = Vec::new();
    if n == 0 {
        return keys;
    }
    let mut a: usize = 1;
    assert(pair_count(1) == 0) by (nonlinear_arith);
    while a < n
        invariant
            n == points@.len(),
            1 <= a <= n,
            distances_fit(points@),
            keys@.len() == pair_count(a as int),
            forall|k: int| 0 <= k < keys@.len() ==> is_key(points@, #[trigger] keys@[k]) && keys@[k].1 < a,
            forall|i: int, j: int|
                0 <= i < j < keys@.len() ==> (#[trigger] keys@[i]).1 < (#[trigger] keys@[j]).1 || (
                keys@[i].1 == keys@[j].1 && keys@[i].2 < keys@[j].2),
            forall|c: usize, d: usize|
                d < c < a ==> keys@.contains(
                    pair_key(points@, c, d),
                ),
        decreases n - a,
    {
        let mut b: usize = 0;
        while b < a
            invariant
                n == points@.len(),
                1 <= a < n,
                b <= a,
                distances_fit(points@),
                keys@.len() == pair_count(a as int) + b,
                forall|k: int|
                    0 <= k < keys@.len() ==> is_key(points@, #[trigger] keys@[k]) && (keys@[k].1 < a || (
                    keys@[k].1 == a && keys@[k].2 < b)),
                forall|i: int, j: int|
                    0 <= i < j < keys@.len() ==> (#[trigger] keys@[i]).1 < (#[trigger] keys@[j]).1 || (
                    keys@[i].1 == keys@[j].1 && keys@[i].2 < keys@[j].2),
                forall|c: usize, d: usize|
                    (d < c < a || (c == a && d < b)) ==> keys@.contains(
                        pair_key(points@, c, d),
                    ),
            decreases a - b,
        {
            let s: u64 = sq_distance(&points[a], &points[b]);
            let ghost before = keys@;
            keys.push((s, a, b));
            proof {
                assert forall|c: usize, d: usize|
                    (d < c < a || (c == a && d < b + 1)) implies keys@.contains(
                    pair_key(points@, c, d),
                ) by {
                    let key = pair_key(points@, c, d);
                    if c == a && d == b {
                        assert(keys@[before.len() as int] == key);
                    } else {
                        assert(before.contains(key));
                        let k = choose|k: int| 0 <= k < before.len() && before[k] == key;
                        assert(keys@[k] == key);
                    }
                }
            }
            b += 1;
        }
        proof {
            lemma_pair_count_step(a as int);
        }
        a += 1;
    }
    keys
}

/// All edges between the points, in ascending order of distance.
///
/// Fails on fewer than two points.
pub fn find_min_distances(points: &[JBox]) -> (r: Result<Vec<Connection>, ClusterError>)
    requires
        distances_fit(points@),
    ensures
        points@.len() < 2 <==> r == Err::<Vec<Connection>, ClusterError>(ClusterError::InsufficientPoints),
        points@.len() >= 2 <==> r is Ok,
        r matches Ok(edges) ==> {
            &&& is_sorted_edge_list(points@, edges@)
            &&& edges@.len() == pair_count(points@.len() as int)
            &&& forall|i: int, j: int|
                0 <= i < j < edges@.len() ==> (#[trigger] edges@[i]).0 <= (#[trigger] edges@[j]).0
        },
{
    if points.len() < 2 {
        return Err(ClusterError::InsufficientPoints);
    }
    let mut keys: Vec<EdgeKey> = pair_keys(points);
    let ghost unsorted = keys@;
    sort_keys(&mut keys);
    proof {
        broadcast use vstd::seq_lib::group_to_multiset_ensures;

        assert(keys@.len() == unsorted.len()) by {
            assert(keys@.to_multiset().len() == unsorted.to_multiset().len());
        }
        unsorted.lemma_multiset_has_no_duplicates();
        keys@.lemma_multiset_has_no_duplicates_conv();
        assert forall|k: int| 0 <= k < keys@.len() implies is_key(points@, #[trigger] keys@[k]) by {
            assert(keys@.contains(keys@[k]));
            assert(keys@.to_multiset().count(keys@[k]) > 0);
            assert(unsorted.to_multiset().count(keys@[k]) > 0);
            assert(unsorted.contains(keys@[k]));
        }
        assert forall|a: usize, b: usize| b < a < points@.len() implies keys@.contains(
            pair_key(points@, a, b),
        ) by {
            let key = pair_key(points@, a, b);
            assert(unsorted.contains(key));
            assert(unsorted.to_multiset().count(key) > 0);
            assert(keys@.to_multiset().count(key) > 0);
        }
    }
    let mut edges: Vec<Connection> = Vec::new();
    let mut k: usize = 0;
    while k < keys.len()
        invariant
            k <= keys@.len(),
            edges@.len() == k,
            forall|m: int| 0 <= m < keys@.len() ==> is_key(points@, #[trigger] keys@[m]),
            forall|m: int|
                0 <= m < k ==> (#[trigger] edges@[m]).1 == keys@[m].1 && edges@[m].2 == keys@[m].2
                    && is_floor_sqrt(keys@[m].0 as int, edges@[m].0 as int),
        decreases keys@.len() - k,
    {
        let key: EdgeKey = keys[k];
        let d: u64 = isqrt(key.0);
        edges.push((d as i64, key.1, key.2));
        k += 1;
    }
    proof {
        let es = edges@;
        let ps = points@;
        assert forall|a: usize, b: usize| b < a < ps.len() implies #[trigger] has_edge(es, a, b) by {
            let key = pair_key(ps, a, b);
            assert(keys@.contains(key));
            let m = choose|m: int| 0 <= m < keys@.len() && keys@[m] == key;
            assert(es[m].1 == a && es[m].2 == b);
        }
        assert forall|i: int, j: int| 0 <= i < j < es.len() implies edge_before(
            ps,
            #[trigger] es[i],
            #[trigger] es[j],
        ) && es[i].0 <= es[j].0 by {
            assert(key_le(keys@[i], keys@[j]));
            assert(keys@[i] != keys@[j]);
            assert(is_key(ps, keys@[i]) && is_key(ps, keys@[j]));
            lemma_floor_sqrt_monotone(keys@[i].0 as int, es[i].0 as int, keys@[j].0 as int, es[j].0 as int);
        }
    }
    Ok(edges)
}

} // verus!
