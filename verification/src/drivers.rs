//! The two answers read off the forest: the product of the three largest cluster
//! sizes after the shortest edges, and the edge that first joins all points.

use crate::circuit::{forest, incorporate, search_circuits, Circuit, Connection};
use crate::edges::{find_min_distances, is_sorted_edge_list, lemma_edge_list_unique, pair_count, ClusterError};
use crate::jbox::{distances_fit, JBox};
use crate::laws::lemma_run_holds_edge;
use crate::spanning::{lemma_all_edges_one_cluster, lemma_all_edges_span};
use vstd::prelude::*;

verus! {

/// The forest after the first `k` edges of the list were taken in, in their order.
pub open spec fn forest_after(edges: Seq<Connection>, k: nat) -> Seq<Seq<usize>>
    decreases k,
{
    if k == 0 {
        Seq::empty()
    } else {
        incorporate(forest_after(edges, (k - 1) as nat), edges[k - 1].1, edges[k - 1].2)
    }
}

/// The sizes of the clusters, in the order of the clusters.
pub open spec fn lengths(f: Seq<Seq<usize>>) -> Seq<usize> {
    Seq::new(f.len(), |i: int| f[i].len() as usize)
}

/// Entry `i` is the first largest entry of `s`.
pub open spec fn is_first_max(s: Seq<usize>, i: int) -> bool {
    &&& 0 <= i < s.len()
    &&& forall|j: int| 0 <= j < s.len() ==> s[j] <= s[i]
    &&& forall|j: int| 0 <= j < i ==> s[j] < s[i]
}

/// The index of the first largest entry of a sequence that is not empty.
pub open spec fn first_max(s: Seq<usize>) -> int {
    choose|i: int| is_first_max(s, i)
}

/// The product of the `count` largest entries of `sizes`; of all entries where
/// there are fewer. The recursion ends in the empty product, 1; no function of
/// the library hands that out as the answer for no cluster.
pub open spec fn product_of_largest(sizes: Seq<usize>, count: nat) -> int
    decreases count,
{
    if count == 0 || sizes.len() == 0 {
        1
    } else {
        let i = first_max(sizes);
        sizes[i] * product_of_largest(sizes.remove(i), (count - 1) as nat)
    }
}

/// Some cluster of the forest has exactly `n` members.
pub open spec fn spans(f: Seq<Seq<usize>>, n: nat) -> bool {
    exists|i: int| 0 <= i < f.len() && (#[trigger] f[i]).len() == n
}

/// Edge `k` is the bridging edge: the first one after which a cluster has `n` members.
pub open spec fn is_bridging(edges: Seq<Connection>, n: nat, k: int) -> bool {
    &&& 0 <= k < edges.len()
    &&& spans(forest_after(edges, (k + 1) as nat), n)
    &&& forall|j: int| 0 <= j < k ==> !spans(#[trigger] forest_after(edges, (j + 1) as nat), n)
}

/// What the search for the bridging edge answers on a given edge list: the
/// product of the x-coordinates of the bridging edge's endpoints.
pub open spec fn percolation_result(
    points: Seq<JBox>,
    edges: Seq<Connection>,
    r: Result<i64, ClusterError>,
) -> bool {
    match r {
        Ok(v) => exists|k: int|
            #[trigger] is_bridging(edges, points.len(), k) && v == points[edges[k].1 as int].x
                * points[edges[k].2 as int].x,
        Err(ClusterError::Overflow) => exists|k: int|
            #[trigger] is_bridging(edges, points.len(), k) && !(i64::MIN <= points[edges[k].1 as int].x
                * points[edges[k].2 as int].x <= i64::MAX),
        Err(ClusterError::NotConnected) => forall|k: int|
            0 <= k < edges.len() ==> !spans(#[trigger] forest_after(edges, (k + 1) as nat), points.len()),
        Err(ClusterError::InsufficientPoints) => false,
        Err(ClusterError::EmptyPrefix) => false,
    }
}

/// What the product of the (up to three) largest of the given sizes is: an
/// error where there is no size at all, or where the product does not fit.
pub open spec fn product_result(sizes: Seq<usize>, r: Result<usize, ClusterError>) -> bool {
    let product = product_of_largest(sizes, 3);
    if sizes.len() == 0 {
        r == Err::<usize, ClusterError>(ClusterError::EmptyPrefix)
    } else {
        match r {
            Ok(v) => v == product,
            Err(e) => e == ClusterError::Overflow && product > usize::MAX,
        }
    }
}

/// What the product of the three largest clusters is after the `num_pairs`
/// first edges of a given list, or after all where the list is shorter: an
/// error where no edge is taken in, or where the product does not fit.
pub open spec fn prefix_result(edges: Seq<Connection>, num_pairs: nat, r: Result<usize, ClusterError>) -> bool {
    let k = if num_pairs < edges.len() { num_pairs } else { edges.len() };
    let product = product_of_largest(lengths(forest_after(edges, k)), 3);
    if k == 0 {
        r == Err::<usize, ClusterError>(ClusterError::EmptyPrefix)
    } else {
        match r {
            Ok(v) => v == product,
            Err(e) => e == ClusterError::Overflow && product > usize::MAX,
        }
    }
}

/// The first largest entry is unique.
pub proof fn lemma_first_max_is(s: Seq<usize>, i: int)
    requires
        is_first_max(s, i),
    ensures
        first_max(s) == i,
{
    let c = first_max(s);
    assert(is_first_max(s, c));
    if c < i {
        assert(s[c] < s[i]);
    } else if i < c {
        assert(s[i] < s[c]);
    }
}

/// The index of the first largest entry.
fn max_index(sizes: &Vec<usize>) -> (i: usize)
    requires
        sizes@.len() > 0,
    ensures
        i == first_max(sizes@),
        i < sizes@.len(),
{
    let mut best: usize = 0;
    let mut k: usize = 1;
    while k < sizes.len()
        invariant
            best < k <= sizes@.len(),
            forall|j: int| 0 <= j < k ==> sizes@[j] <= sizes@[best as int],
            forall|j: int| 0 <= j < best ==> sizes@[j] < sizes@[best as int],
        decreases sizes@.len() - k,
    {
        if sizes[k] > sizes[best] {
            best = k;
        }
        k += 1;
    }
    proof {
        lemma_first_max_is(sizes@, best as int);
    }
    best
}

/// The size of the largest cluster; nothing for an empty forest.
pub fn max_length(circuits: &Vec<Circuit>) -> (r: Option<usize>)
    ensures
        r is None <==> circuits@.len() == 0,
        r matches Some(m) ==> {
            &&& exists|i: int| 0 <= i < circuits@.len() && (#[trigger] circuits@[i])@.len() == m
            &&& forall|i: int| 0 <= i < circuits@.len() ==> (#[trigger] circuits@[i])@.len() <= m
        },
{
    if circuits.len() == 0 {
        return None;
    }
    let mut best: usize = circuits[0].jboxes.len();
    let ghost mut at: int = 0;
    let mut k: usize = 1;
    while k < circuits.len()
        invariant
            1 <= k <= circuits@.len(),
            0 <= at < k,
            circuits@[at]@.len() == best,
            forall|i: int| 0 <= i < k ==> (#[trigger] circuits@[i])@.len() <= best,
        decreases circuits@.len() - k,
    {
        if circuits[k].jboxes.len() > best {
            best = circuits[k].jboxes.len();
            proof {
                at = k as int;
            }
        }
        k += 1;
    }
    Some(best)
}

/// The sizes of the clusters, in their order.
pub fn cluster_sizes(circuits: &Vec<Circuit>) -> (sizes: Vec<usize>)
    ensures
        sizes@ == lengths(forest(circuits@)),
{
    let mut sizes: Vec<usize> = Vec::new();
    let mut k: usize = 0;
    while k < circuits.len()
        invariant
            k <= circuits@.len(),
            sizes@.len() == k,
            forall|i: int| 0 <= i < k ==> sizes@[i] == (#[trigger] circuits@[i])@.len(),
        decreases circuits@.len() - k,
    {
        sizes.push(circuits[k].jboxes.len());
        k += 1;
    }
    proof {
        assert(sizes@ =~= lengths(forest(circuits@)));
    }
    sizes
}

/// The product of the three largest of the given sizes.
///
/// With one or two sizes the product is that of those there are. Fails with
/// `EmptyPrefix` where there is no size, and with `Overflow` where the product
/// does not fit.
pub fn largest_product(sizes: Vec<usize>) -> (r: Result<usize, ClusterError>)
    ensures
        product_result(sizes@, r),
{
    let mut rest = sizes;
    let ghost s0 = rest@;
    proof {
        reveal_with_fuel(product_of_largest, 4);
    }
    if rest.len() == 0 {
        return Err(ClusterError::EmptyPrefix);
    }
    let i1: usize = max_index(&rest);
    let a: usize = rest.remove(i1);
    let ghost s1 = rest@;
    if rest.len() == 0 {
        assert(a * 1 == a) by (nonlinear_arith);
        return Ok(a);
    }
    let i2: usize = max_index(&rest);
    let b: usize = rest.remove(i2);
    let ghost s2 = rest@;
    let c: usize = if rest.len() == 0 {
        1
    } else {
        let i3: usize = max_index(&rest);
        rest[i3]
    };
    assert(a * b <= usize::MAX * usize::MAX) by (nonlinear_arith)
        requires
            0 <= a <= usize::MAX,
            0 <= b <= usize::MAX,
    ;
    assert(usize::MAX * usize::MAX <= u128::MAX) by (nonlinear_arith)
        requires
            usize::MAX <= 0xffff_ffff_ffff_ffff,
    ;
    let ab: u128 = (a as u128) * (b as u128);
    assert(product_of_largest(s0, 3) == ab * c) by {
        assert(product_of_largest(s2, 1) == c) by {
            if s2.len() > 0 {
                assert(c * 1 == c) by (nonlinear_arith);
            }
        }
        assert(product_of_largest(s1, 2) == b * c);
        assert(product_of_largest(s0, 3) == a * (b * c));
        assert(a * (b * c) == (a * b) * c) by (nonlinear_arith);
    }
    match ab.checked_mul(c as u128) {
        None => Err(ClusterError::Overflow),
        Some(p) => {
            if p > usize::MAX as u128 {
                Err(ClusterError::Overflow)
            } else {
                Ok(p as usize)
            }
        },
    }
}

/// The product of the three largest cluster sizes after the `num_pairs` first
/// edges of the list were taken in; after all of them where the list is shorter.
///
/// With one or two clusters the product is that of the sizes there are. Where
/// no edge is taken in (`num_pairs` is 0, or the list is empty) there is no
/// cluster, and the answer is the error `EmptyPrefix`. The edges are taken in
/// in the order of the list; any other order of the same edges gives the same
/// product.
pub fn prefix_product(edges: &Vec<Connection>, num_pairs: usize) -> (r: Result<usize, ClusterError>)
    ensures
        prefix_result(edges@, num_pairs as nat, r),
{
    let k: usize = if num_pairs < edges.len() {
        num_pairs
    } else {
        edges.len()
    };
    if k == 0 {
        return Err(ClusterError::EmptyPrefix);
    }
    let mut circuits: Vec<Circuit> = Vec::new();
    let mut i: usize = 0;
    proof {
        assert(forest(circuits@) =~= forest_after(edges@, 0));
    }
    while i < k
        invariant
            i <= k <= edges@.len(),
            forest(circuits@) == forest_after(edges@, i as nat),
        decreases k - i,
    {
        search_circuits(&mut circuits, &edges[i]);
        i += 1;
    }
    proof {
        lemma_run_holds_edge(edges@, k as nat, 0);
        assert(forest_after(edges@, k as nat).len() > 0);
    }
    let sizes = cluster_sizes(&circuits);
    largest_product(sizes)
}

/// Whether some cluster has exactly `n` members.
pub fn has_cluster_of(circuits: &Vec<Circuit>, n: usize) -> (found: bool)
    ensures
        found == spans(forest(circuits@), n as nat),
{
    let mut k: usize = 0;
    while k < circuits.len()
        invariant
            k <= circuits@.len(),
            forall|i: int| 0 <= i < k ==> (#[trigger] forest(circuits@)[i]).len() != n,
        decreases circuits@.len() - k,
    {
        if circuits[k].jboxes.len() == n {
            assert(forest(circuits@)[k as int].len() == n);
            return true;
        }
        k += 1;
    }
    false
}

/// The index of the bridging edge for `n` points: the first edge of the list
/// after which one cluster has `n` members.
pub fn bridging_edge(edges: &Vec<Connection>, n: usize) -> (r: Option<usize>)
    ensures
        match r {
            Some(k) => is_bridging(edges@, n as nat, k as int),
            None => forall|k: int|
                0 <= k < edges@.len() ==> !spans(#[trigger] forest_after(edges@, (k + 1) as nat), n as nat),
        },
{
    let mut circuits: Vec<Circuit> = Vec::new();
    let mut i: usize = 0;
    proof {
        assert(forest(circuits@) =~= forest_after(edges@, 0));
    }
    while i < edges.len()
        invariant
            i <= edges@.len(),
            forest(circuits@) == forest_after(edges@, i as nat),
            forall|j: int| 0 <= j < i ==> !spans(#[trigger] forest_after(edges@, (j + 1) as nat), n as nat),
        decreases edges@.len() - i,
    {
        search_circuits(&mut circuits, &edges[i]);
        if has_cluster_of(&circuits, n) {
            return Some(i);
        }
        i += 1;
    }
    None
}

/// The product of the x-coordinates of the endpoints of the bridging edge of the
/// given edge list.
pub fn percolate(positions: &[JBox], edges: &Vec<Connection>) -> (r: Result<i64, ClusterError>)
    requires
        forall|k: int|
            0 <= k < edges@.len() ==> (#[trigger] edges@[k]).1 < positions@.len() && edges@[k].2
                < positions@.len(),
    ensures
        percolation_result(positions@, edges@, r),
{
    match bridging_edge(edges, positions.len()) {
        None => Err(ClusterError::NotConnected),
        Some(k) => {
            let e: Connection = edges[k];
            let x1: i64 = positions[e.1].x;
            let x2: i64 = positions[e.2].x;
            match x1.checked_mul(x2) {
                Some(v) => Ok(v),
                None => Err(ClusterError::Overflow),
            }
        },
    }
}

/// The product of the sizes of the three largest clusters after the `num_pairs`
/// shortest edges between the points were taken in.
///
/// Fails on fewer than two points; with `EmptyPrefix` where `num_pairs` is 0,
/// for then there is no cluster; and where the product does not fit. With one
/// or two clusters the product is that of the sizes there are. Where
/// `num_pairs` reaches the number of edges, all points are in one cluster and
/// the answer is their number. The clusters are the connected components of
/// the graph of the edges taken in, so the answer does not depend on the order
/// in which they are taken in.
pub fn part1(positions: &[JBox], num_pairs: usize) -> (r: Result<usize, ClusterError>)
    requires
        distances_fit(positions@),
    ensures
        positions@.len() < 2 <==> r == Err::<usize, ClusterError>(ClusterError::InsufficientPoints),
        positions@.len() >= 2 ==> (num_pairs == 0 <==> r == Err::<usize, ClusterError>(
            ClusterError::EmptyPrefix,
        )),
        positions@.len() >= 2 && num_pairs >= pair_count(positions@.len() as int) ==> r == Ok::<
            usize,
            ClusterError,
        >(positions@.len() as usize),
        positions@.len() >= 2 ==> exists|edges: Seq<Connection>| #[trigger]
            is_sorted_edge_list(positions@, edges),
        forall|edges: Seq<Connection>| #[trigger]
            is_sorted_edge_list(positions@, edges) && positions@.len() >= 2 ==> prefix_result(
                edges,
                num_pairs as nat,
                r,
            ),
{
    match find_min_distances(positions) {
        Err(e) => Err(e),
        Ok(found) => {
            let count: usize = positions.len();
            let r = prefix_product(&found, num_pairs);
            proof {
                assert(positions@.len() == count);
                lemma_all_edges_one_cluster(positions@, found@);
                assert forall|edges: Seq<Connection>| #[trigger]
                    is_sorted_edge_list(positions@, edges) implies prefix_result(edges, num_pairs as nat, r) by {
                    lemma_edge_list_unique(positions@, edges, found@);
                }
            }
            r
        },
    }
}

/// The product of the x-coordinates of the two points that the bridging edge joins.
///
/// Fails on fewer than two points, and where the product does not fit. The
/// edges between two or more points always join them all, so the search never
/// runs out of edges.
pub fn part2(positions: &[JBox]) -> (r: Result<i64, ClusterError>)
    requires
        distances_fit(positions@),
    ensures
        positions@.len() < 2 <==> r == Err::<i64, ClusterError>(ClusterError::InsufficientPoints),
        positions@.len() >= 2 ==> exists|edges: Seq<Connection>| #[trigger]
            is_sorted_edge_list(positions@, edges),
        forall|edges: Seq<Connection>| #[trigger]
            is_sorted_edge_list(positions@, edges) && positions@.len() >= 2 ==> percolation_result(
                positions@,
                edges,
                r,
            ),
        r != Err::<i64, ClusterError>(ClusterError::NotConnected),
{
    match find_min_distances(positions) {
        Err(e) => Err(e),
        Ok(found) => {
            let count: usize = positions.len();
            let r = percolate(positions, &found);
            proof {
                assert(positions@.len() == count);
                lemma_all_edges_span(positions@, found@);
                assert(spans(forest_after(found@, (found@.len() - 1 + 1) as nat), positions@.len()));
                assert forall|edges: Seq<Connection>| #[trigger]
                    is_sorted_edge_list(positions@, edges) implies percolation_result(positions@, edges, r) by {
                    lemma_edge_list_unique(positions@, edges, found@);
                }
            }
            r
        },
    }
}

} // verus!
