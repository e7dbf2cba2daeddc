//! Clusters of points and the forest of clusters that grows edge by edge.
//!
//! A point is named by its position in the input list, so two points with equal
//! coordinates stay distinct.

use crate::laws::{lemma_incorporate_disjoint, lemma_incorporate_grows};
use vstd::prelude::*;

verus! {

/// An edge: the floored distance, then the indices of its two endpoints.
pub type Connection = (i64, usize, usize);

/// A cluster: the indices of the points that belong to it.
#[derive(Debug, Clone, PartialEq, Eq)]
pub struct Circuit {
    pub jboxes: Vec<usize>,
}

impl View for Circuit {
    type V = Seq<usize>;

    open spec fn view(&self) -> Seq<usize> {
        self.jboxes@
    }
}

/// The forest as a sequence of clusters, each a sequence of point indices.
pub open spec fn forest(circuits: Seq<Circuit>) -> Seq<Seq<usize>> {
    Seq::new(circuits.len(), |i: int| circuits[i]@)
}

/// Cluster `i` is the first cluster of `f` that holds point `p`.
pub open spec fn is_first_holder(f: Seq<Seq<usize>>, p: usize, i: int) -> bool {
    &&& 0 <= i < f.len()
    &&& f[i].contains(p)
    &&& forall|j: int| 0 <= j < i ==> !(#[trigger] f[j]).contains(p)
}

/// The index of the first cluster that holds `p`, if any cluster does.
pub open spec fn position(f: Seq<Seq<usize>>, p: usize) -> Option<int> {
    if exists|i: int| is_first_holder(f, p, i) {
        Some(choose|i: int| is_first_holder(f, p, i))
    } else {
        None
    }
}

/// The forest after one edge between points `a` and `b` has been taken in.
///
/// With both endpoints in different clusters, the cluster with the smaller index
/// is appended to the other one and leaves the forest.
pub open spec fn incorporate(f: Seq<Seq<usize>>, a: usize, b: usize) -> Seq<Seq<usize>> {
    match (position(f, a), position(f, b)) {
        (None, None) => f.push(seq![a, b]),
        (Some(i), None) => f.update(i, f[i].push(b)),
        (None, Some(j)) => f.update(j, f[j].push(a)),
        (Some(i), Some(j)) => if i == j {
            f
        } else if i < j {
            f.update(j, f[j] + f[i]).remove(i)
        } else {
            f.update(i, f[i] + f[j]).remove(j)
        },
    }
}

/// No point occurs twice: neither in two clusters nor twice in one.
pub open spec fn disjoint(f: Seq<Seq<usize>>) -> bool {
    forall|i: int, k: int, j: int, l: int|
        0 <= i < f.len() && 0 <= k < f[i].len() && 0 <= j < f.len() && 0 <= l < f[j].len()
            && #[trigger] f[i][k] == #[trigger] f[j][l] ==> i == j && k == l
}

/// The size of the cluster that holds `p`; zero while no edge has touched `p`.
pub open spec fn size_of(f: Seq<Seq<usize>>, p: usize) -> nat {
    match position(f, p) {
        Some(i) => f[i].len(),
        None => 0,
    }
}

proof fn lemma_first_holder_exists(f: Seq<Seq<usize>>, p: usize, i: int)
    requires
        0 <= i < f.len(),
        f[i].contains(p),
    ensures
        exists|j: int| is_first_holder(f, p, j),
    decreases i,
{
    if exists|j: int| 0 <= j < i && f[j].contains(p) {
        let j = choose|j: int| 0 <= j < i && f[j].contains(p);
        lemma_first_holder_exists(f, p, j);
    } else {
        assert(is_first_holder(f, p, i));
    }
}

/// What `position` returns: the first holder, or nothing where no cluster holds `p`.
pub proof fn lemma_position(f: Seq<Seq<usize>>, p: usize)
    ensures
        match position(f, p) {
            Some(i) => is_first_holder(f, p, i),
            None => forall|j: int| 0 <= j < f.len() ==> !(#[trigger] f[j]).contains(p),
        },
{
    if !exists|i: int| is_first_holder(f, p, i) {
        assert forall|j: int| 0 <= j < f.len() implies !(#[trigger] f[j]).contains(p) by {
            if f[j].contains(p) {
                lemma_first_holder_exists(f, p, j);
            }
        }
    }
}

/// A first holder is the position.
pub proof fn lemma_position_is(f: Seq<Seq<usize>>, p: usize, i: int)
    requires
        is_first_holder(f, p, i),
    ensures
        position(f, p) == Some(i),
{
    let c = choose|j: int| is_first_holder(f, p, j);
    if c < i {
        assert(!f[c].contains(p));
    } else if i < c {
        assert(!f[i].contains(p));
    }
}

impl Circuit {
    /// The cluster that a first edge between two loose points founds.
    pub fn new(connection: &Connection) -> (c: Circuit)
        ensures
            c@ == seq![connection.1, connection.2],
    {
        let mut jboxes: Vec<usize> = Vec::new();
        jboxes.push(connection.1);
        jboxes.push(connection.2);
        proof {
            assert(jboxes@ =~= seq![connection.1, connection.2]);
        }
        Circuit { jboxes }
    }

    /// Adds one point at the end.
    pub fn add(&mut self, jbox: usize)
        ensures
            final(self)@ == old(self)@.push(jbox),
    {
        self.jboxes.push(jbox);
    }

    /// Whether the cluster holds the point.
    pub fn contains(&self, jbox: usize) -> (found: bool)
        ensures
            found == self@.contains(jbox),
    {
        let mut k: usize = 0;
        while k < self.jboxes.len()
            invariant
                k <= self.jboxes@.len(),
                forall|m: int| 0 <= m < k ==> self.jboxes@[m] != jbox,
            decreases self.jboxes@.len() - k,
        {
            if self.jboxes[k] == jbox {
                return true;
            }
            k += 1;
        }
        false
    }

    /// Appends the points of `other`, in their order.
    pub fn merge(&mut self, other: &Circuit)
        ensures
            final(self)@ == old(self)@ + other@,
    {
        let mut k: usize = 0;
        while k < other.jboxes.len()
            invariant
                k <= other.jboxes@.len(),
                self.jboxes@ == old(self).jboxes@ + other.jboxes@.subrange(0, k as int),
            decreases other.jboxes@.len() - k,
        {
            self.jboxes.push(other.jboxes[k]);
            proof {
                assert(self.jboxes@ =~= old(self).jboxes@ + other.jboxes@.subrange(0, k + 1));
            }
            k += 1;
        }
        proof {
            assert(other.jboxes@.subrange(0, k as int) =~= other.jboxes@);
        }
    }
}

/// The index of the first cluster that holds `jbox`.
pub fn find_circuit(circuits: &Vec<Circuit>, jbox: usize) -> (found: Option<usize>)
    ensures
        match found {
            Some(i) => position(forest(circuits@), jbox) == Some(i as int),
            None => position(forest(circuits@), jbox) == None::<int>,
        },
{
    let ghost f = forest(circuits@);
    let mut i: usize = 0;
    while i < circuits.len()
        invariant
            i <= circuits@.len(),
            f == forest(circuits@),
            forall|j: int| 0 <= j < i ==> !(#[trigger] f[j]).contains(jbox),
        decreases circuits@.len() - i,
    {
        if circuits[i].contains(jbox) {
            proof {
                lemma_position_is(f, jbox, i as int);
            }
            return Some(i);
        }
        i += 1;
    }
    proof {
        lemma_position(f, jbox);
    }
    None
}

/// Takes one edge into the forest.
///
/// An edge between two loose points founds a cluster; an edge from a cluster to
/// a loose point adds the point; an edge inside a cluster changes nothing; an edge
/// between two clusters appends the one with the smaller index to the other.
/// With two different endpoints the clusters stay disjoint, and no point's
/// cluster gets smaller.
pub fn search_circuits(circuits: &mut Vec<Circuit>, connection: &Connection)
    ensures
        forest(final(circuits)@) == incorporate(forest(old(circuits)@), connection.1, connection.2),
        disjoint(forest(old(circuits)@)) && connection.1 != connection.2 ==> disjoint(
            forest(final(circuits)@),
        ),
        disjoint(forest(old(circuits)@)) && connection.1 != connection.2 ==> forall|p: usize|
            size_of(forest(old(circuits)@), p) <= #[trigger] size_of(forest(final(circuits)@), p),
{
    let ghost f = forest(circuits@);
    proof {
        if disjoint(f) && connection.1 != connection.2 {
            lemma_incorporate_disjoint(f, connection.1, connection.2);
            assert forall|p: usize|
                size_of(f, p) <= #[trigger] size_of(incorporate(f, connection.1, connection.2), p) by {
                lemma_incorporate_grows(f, connection.1, connection.2, p);
            }
        }
    }
    let a: usize = connection.1;
    let b: usize = connection.2;
    let pa = find_circuit(circuits, a);
    let pb = find_circuit(circuits, b);
    match (pa, pb) {
        (None, None) => {
            circuits.push(Circuit::new(connection));
            proof {
                assert(forest(circuits@) =~= f.push(seq![a, b]));
            }
        },
        (Some(i), None) => {
            circuits[i].add(b);
            proof {
                assert(forest(circuits@) =~= f.update(i as int, f[i as int].push(b)));
            }
        },
        (None, Some(j)) => {
            circuits[j].add(a);
            proof {
                assert(forest(circuits@) =~= f.update(j as int, f[j as int].push(a)));
            }
        },
        (Some(i), Some(j)) => {
            if i < j {
                let absorbed = circuits.remove(i);
                circuits[j - 1].merge(&absorbed);
                proof {
                    assert(forest(circuits@) =~= f.update(j as int, f[j as int] + f[i as int]).remove(
                        i as int,
                    ));
                }
            } else if j < i {
                let absorbed = circuits.remove(j);
                circuits[i - 1].merge(&absorbed);
                proof {
                    assert(forest(circuits@) =~= f.update(i as int, f[i as int] + f[j as int]).remove(
                        j as int,
                    ));
                }
            }
        },
    }
}

} // verus!
