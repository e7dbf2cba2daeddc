use circuits::circuit::{find_circuit, search_circuits, Circuit, Connection};
use circuits::drivers::{
    bridging_edge, cluster_sizes, has_cluster_of, largest_product, max_length, part1, part2, percolate,
    prefix_product,
};
use circuits::edges::{find_min_distances, ClusterError};
use circuits::jbox::{all_distances_fit, isqrt, sq_dist_fits, sq_distance, JBox};

fn at(x: i64, y: i64, z: i64) -> JBox {
    JBox { x, y, z }
}

fn points(coords: &[(i64, i64, i64)]) -> Vec<JBox> {
    coords.iter().map(|&(x, y, z)| at(x, y, z)).collect()
}

fn run(edges: &[Connection]) -> Vec<Circuit> {
    let mut circuits: Vec<Circuit> = Vec::new();
    for e in edges {
        search_circuits(&mut circuits, e);
    }
    circuits
}

fn partition(circuits: &[Circuit]) -> Vec<Vec<usize>> {
    let mut out: Vec<Vec<usize>> = circuits
        .iter()
        .map(|c| {
            let mut v = c.jboxes.clone();
            v.sort();
            v
        })
        .collect();
    out.sort();
    out
}

fn unit_square() -> Vec<JBox> {
    points(&[(0, 0, 0), (1, 0, 0), (0, 1, 0), (1, 1, 0)])
}

#[test]
fn isqrt_is_the_floor_of_the_root() {
    assert_eq!(isqrt(0), 0);
    assert_eq!(isqrt(1), 1);
    assert_eq!(isqrt(3), 1);
    assert_eq!(isqrt(4), 2);
    assert_eq!(isqrt(24), 4);
    assert_eq!(isqrt(25), 5);
    assert_eq!(isqrt(u64::MAX), 4294967295);
    assert_eq!(isqrt(9223372036854775807), 3037000499);
}

#[test]
fn distance_of_a_pythagorean_pair_is_exact() {
    let a = at(0, 0, 0);
    let b = at(3, 4, 0);
    assert_eq!(a.distance(&b), 5);
    assert_eq!(b.distance(&a), 5);
    assert_eq!(sq_distance(&a, &b), 25);
}

#[test]
fn distance_is_floored() {
    let a = at(0, 0, 0);
    let b = at(1, 1, 1);
    assert_eq!(a.distance(&b), 1);
    assert_eq!(a.distance(&a), 0);
}

#[test]
fn distance_with_negative_coordinates() {
    let a = at(-2, -3, -6);
    let b = at(0, 0, 0);
    assert_eq!(a.distance(&b), 7);
    assert_eq!(at(-1, 0, 0).distance(&at(1, 1, 0)), 2);
}

#[test]
fn get_distances_keeps_the_order_of_the_points() {
    let origin = at(0, 0, 0);
    let others = points(&[(3, 4, 0), (1, 1, 1), (0, 0, 9)]);
    let got = origin.get_distances(&others);
    assert_eq!(got, vec![(5, others[0]), (1, others[1]), (9, others[2])]);
}

#[test]
fn circuit_new_add_contains_merge() {
    let mut c = Circuit::new(&(1, 4, 2));
    assert_eq!(c.jboxes, vec![4, 2]);
    c.add(7);
    assert_eq!(c.jboxes, vec![4, 2, 7]);
    assert!(c.contains(7));
    assert!(c.contains(4));
    assert!(!c.contains(5));
    let d = Circuit::new(&(3, 9, 8));
    c.merge(&d);
    assert_eq!(c.jboxes, vec![4, 2, 7, 9, 8]);
    assert_eq!(d.jboxes, vec![9, 8]);
}

#[test]
fn edges_come_sorted_by_distance() {
    let ps = points(&[(0, 0, 0), (10, 0, 0), (11, 0, 0)]);
    let edges = find_min_distances(&ps).unwrap();
    assert_eq!(edges, vec![(1, 2, 1), (10, 1, 0), (11, 2, 0)]);
}

#[test]
fn edges_of_equal_floored_distance_go_by_squared_distance_then_by_index() {
    let edges = find_min_distances(&unit_square()).unwrap();
    assert_eq!(edges.len(), 6);
    assert_eq!(
        edges,
        vec![(1, 1, 0), (1, 2, 0), (1, 3, 1), (1, 3, 2), (1, 2, 1), (1, 3, 0)]
    );
}

#[test]
fn fewer_than_two_points_have_no_edges() {
    assert_eq!(find_min_distances(&[]), Err(ClusterError::InsufficientPoints));
    assert_eq!(
        find_min_distances(&points(&[(1, 2, 3)])),
        Err(ClusterError::InsufficientPoints)
    );
    assert_eq!(part1(&[], 10), Err(ClusterError::InsufficientPoints));
    assert_eq!(part1(&points(&[(1, 2, 3)]), 10), Err(ClusterError::InsufficientPoints));
    assert_eq!(part2(&[]), Err(ClusterError::InsufficientPoints));
    assert_eq!(part2(&points(&[(1, 2, 3)])), Err(ClusterError::InsufficientPoints));
}

#[test]
fn points_with_equal_coordinates_stay_distinct() {
    let ps = points(&[(5, 5, 5), (5, 5, 5), (6, 5, 5)]);
    let edges = find_min_distances(&ps).unwrap();
    assert_eq!(edges, vec![(0, 1, 0), (1, 2, 0), (1, 2, 1)]);
    assert_eq!(part2(&ps), Ok(30));
}

#[test]
fn an_edge_between_loose_points_founds_a_cluster() {
    let circuits = run(&[(1, 1, 0), (1, 3, 2)]);
    assert_eq!(circuits.len(), 2);
    assert_eq!(circuits[0].jboxes, vec![1, 0]);
    assert_eq!(circuits[1].jboxes, vec![3, 2]);
}

#[test]
fn an_edge_to_a_loose_point_grows_the_cluster() {
    let circuits = run(&[(1, 1, 0), (1, 2, 1), (1, 0, 5)]);
    assert_eq!(circuits.len(), 1);
    assert_eq!(circuits[0].jboxes, vec![1, 0, 2, 5]);
}

#[test]
fn an_edge_inside_a_cluster_changes_nothing() {
    let mut circuits = run(&[(1, 1, 0), (1, 2, 1)]);
    let before = circuits.clone();
    search_circuits(&mut circuits, &(9, 2, 0));
    assert_eq!(circuits, before);
}

#[test]
fn an_edge_between_clusters_merges_them_into_the_later_one() {
    let mut circuits = run(&[(1, 1, 0), (1, 3, 2), (1, 5, 4)]);
    search_circuits(&mut circuits, &(2, 0, 5));
    assert_eq!(circuits.len(), 2);
    assert_eq!(circuits[0].jboxes, vec![3, 2]);
    assert_eq!(circuits[1].jboxes, vec![5, 4, 1, 0]);
    search_circuits(&mut circuits, &(2, 4, 3));
    assert_eq!(circuits.len(), 1);
    assert_eq!(circuits[0].jboxes, vec![5, 4, 1, 0, 3, 2]);
}

#[test]
fn find_circuit_gives_the_holder() {
    let circuits = run(&[(1, 1, 0), (1, 3, 2)]);
    assert_eq!(find_circuit(&circuits, 0), Some(0));
    assert_eq!(find_circuit(&circuits, 3), Some(1));
    assert_eq!(find_circuit(&circuits, 4), None);
}

#[test]
fn clusters_stay_disjoint_at_every_step() {
    let ps = points(&[(0, 0, 0), (4, 0, 0), (5, 1, 0), (9, 9, 9), (9, 8, 9), (0, 1, 1), (20, 0, 3)]);
    let edges = find_min_distances(&ps).unwrap();
    let mut circuits: Vec<Circuit> = Vec::new();
    for e in &edges {
        search_circuits(&mut circuits, e);
        let mut seen = vec![false; ps.len()];
        for c in &circuits {
            for &p in &c.jboxes {
                assert!(!seen[p]);
                seen[p] = true;
            }
        }
        let total: usize = circuits.iter().map(|c| c.jboxes.len()).sum();
        assert!(total <= ps.len());
    }
    assert_eq!(circuits.len(), 1);
    assert_eq!(circuits[0].jboxes.len(), ps.len());
}

#[test]
fn clusters_never_shrink() {
    let ps = points(&[(0, 0, 0), (4, 0, 0), (5, 1, 0), (9, 9, 9), (9, 8, 9), (0, 1, 1), (20, 0, 3)]);
    let edges = find_min_distances(&ps).unwrap();
    let mut circuits: Vec<Circuit> = Vec::new();
    let mut sizes = vec![0usize; ps.len()];
    for e in &edges {
        search_circuits(&mut circuits, e);
        for p in 0..ps.len() {
            let now = match find_circuit(&circuits, p) {
                Some(i) => circuits[i].jboxes.len(),
                None => 0,
            };
            assert!(now >= sizes[p]);
            sizes[p] = now;
        }
    }
}

#[test]
fn the_order_of_the_edges_does_not_change_the_partition() {
    let ps = points(&[(0, 0, 0), (4, 0, 0), (5, 1, 0), (9, 9, 9), (9, 8, 9), (0, 1, 1), (20, 0, 3)]);
    let all = find_min_distances(&ps).unwrap();
    let chosen: Vec<Connection> = all[..4].to_vec();
    let forward = run(&chosen);
    let mut reversed = chosen.clone();
    reversed.reverse();
    let backward = run(&reversed);
    let rotated = vec![chosen[2], chosen[0], chosen[3], chosen[1]];
    let mixed = run(&rotated);
    assert_eq!(partition(&forward), partition(&backward));
    assert_eq!(partition(&forward), partition(&mixed));
    assert_eq!(
        largest_product(cluster_sizes(&forward)),
        largest_product(cluster_sizes(&backward))
    );
    assert_eq!(prefix_product(&chosen, 4), prefix_product(&reversed, 4));
}

#[test]
fn max_length_is_the_largest_size() {
    assert_eq!(max_length(&Vec::new()), None);
    let circuits = run(&[(1, 1, 0), (1, 3, 2), (1, 3, 4)]);
    assert_eq!(max_length(&circuits), Some(3));
    assert_eq!(cluster_sizes(&circuits), vec![2, 3]);
    assert!(has_cluster_of(&circuits, 3));
    assert!(has_cluster_of(&circuits, 2));
    assert!(!has_cluster_of(&circuits, 5));
}

#[test]
fn largest_product_takes_the_three_largest() {
    assert_eq!(largest_product(vec![2, 7, 3, 5, 4]), Ok(140));
    assert_eq!(largest_product(vec![5, 5, 5, 5]), Ok(125));
    assert_eq!(largest_product(vec![4, 0, 0]), Ok(0));
}

#[test]
fn largest_product_of_fewer_than_three_sizes() {
    assert_eq!(largest_product(vec![]), Err(ClusterError::EmptyPrefix));
    assert_eq!(largest_product(vec![6]), Ok(6));
    assert_eq!(largest_product(vec![6, 7]), Ok(42));
}

#[test]
fn largest_product_that_does_not_fit() {
    assert_eq!(largest_product(vec![usize::MAX, 2]), Err(ClusterError::Overflow));
    assert_eq!(
        largest_product(vec![usize::MAX, usize::MAX, usize::MAX]),
        Err(ClusterError::Overflow)
    );
    assert_eq!(largest_product(vec![usize::MAX, usize::MAX, 0]), Ok(0));
    assert_eq!(largest_product(vec![usize::MAX, 1]), Ok(usize::MAX));
}

#[test]
fn bridging_edge_of_three_collinear_points() {
    let ps = points(&[(0, 0, 0), (1, 0, 0), (3, 0, 0)]);
    let edges = find_min_distances(&ps).unwrap();
    assert_eq!(edges, vec![(1, 1, 0), (2, 2, 1), (3, 2, 0)]);
    assert_eq!(bridging_edge(&edges, 3), Some(1));
    assert_eq!(edges[1].0, 2);
    assert_eq!(part2(&ps), Ok(3));
}

#[test]
fn unit_square_is_joined_by_a_side() {
    let ps = unit_square();
    let edges = find_min_distances(&ps).unwrap();
    let k = bridging_edge(&edges, 4).unwrap();
    assert_eq!(k, 2);
    let (_, a, b) = edges[k];
    assert_eq!(sq_distance(&ps[a], &ps[b]), 1);
    assert_eq!((a, b), (3, 1));
    assert_eq!(part2(&ps), Ok(1));
    assert_eq!(percolate(&ps, &edges), Ok(1));
    let stopped = run(&edges[..k + 1]);
    assert_eq!(stopped.len(), 1);
    assert_eq!(stopped[0].jboxes.len(), 4);
    let all = run(&edges);
    assert_eq!(partition(&all), partition(&stopped));
}

#[test]
fn prefix_product_of_one_cluster_is_its_size() {
    let ps = unit_square();
    assert_eq!(part1(&ps, 6), Ok(4));
    assert_eq!(part1(&ps, 1000), Ok(4));
    assert_eq!(part1(&ps, 3), Ok(4));
}

#[test]
fn an_empty_prefix_is_an_error() {
    assert_eq!(part1(&unit_square(), 0), Err(ClusterError::EmptyPrefix));
    let edges = find_min_distances(&unit_square()).unwrap();
    assert_eq!(prefix_product(&edges, 0), Err(ClusterError::EmptyPrefix));
    assert_eq!(prefix_product(&Vec::new(), 5), Err(ClusterError::EmptyPrefix));
    assert_eq!(prefix_product(&Vec::new(), 0), Err(ClusterError::EmptyPrefix));
    assert_eq!(part1(&unit_square(), 1), Ok(2));
}

#[test]
fn all_edges_leave_one_cluster_of_all_points() {
    let two = points(&[(0, 0, 0), (5, 5, 5)]);
    assert_eq!(part1(&two, 1), Ok(2));
    assert_eq!(part1(&two, usize::MAX), Ok(2));
    let three = points(&[(0, 0, 0), (1, 0, 0), (3, 0, 0)]);
    assert_eq!(part1(&three, 3), Ok(3));
    assert_eq!(part1(&three, 4), Ok(3));
    let seven = points(&[(0, 0, 0), (4, 0, 0), (5, 1, 0), (9, 9, 9), (9, 8, 9), (0, 1, 1), (20, 0, 3)]);
    assert_eq!(part1(&seven, 21), Ok(7));
    assert_eq!(part1(&seven, 1000), Ok(7));
    let twins = points(&[(1, 1, 1), (1, 1, 1), (1, 1, 1)]);
    assert_eq!(part1(&twins, 3), Ok(3));
}

#[test]
fn prefix_product_of_a_few_edges() {
    let ps = points(&[(0, 0, 0), (1, 0, 0), (10, 0, 0), (12, 0, 0), (30, 0, 0), (33, 0, 0), (34, 0, 0)]);
    assert_eq!(part1(&ps, 1), Ok(2));
    assert_eq!(part1(&ps, 2), Ok(4));
    assert_eq!(part1(&ps, 3), Ok(8));
    assert_eq!(part1(&ps, 4), Ok(12));
}

#[test]
fn part2_product_that_does_not_fit() {
    let ps = points(&[(4_000_000_000, 0, 0), (4_000_000_001, 0, 0)]);
    assert_eq!(part2(&ps), Err(ClusterError::Overflow));
    let qs = points(&[(-2_000_000_000, 0, 0), (1_000_000_000, 0, 0)]);
    assert_eq!(part2(&qs), Ok(-2_000_000_000_000_000_000));
}

#[test]
fn percolate_without_enough_edges() {
    let ps = points(&[(0, 0, 0), (1, 0, 0), (3, 0, 0)]);
    assert_eq!(percolate(&ps, &Vec::new()), Err(ClusterError::NotConnected));
    assert_eq!(percolate(&ps, &vec![(1, 1, 0)]), Err(ClusterError::NotConnected));
    assert_eq!(bridging_edge(&vec![(1, 1, 0)], 3), None);
}

#[test]
fn squared_distances_that_fit_and_that_do_not() {
    let a = at(0, 0, 0);
    assert!(sq_dist_fits(&a, &at(3037000499, 0, 0)));
    assert!(!sq_dist_fits(&a, &at(3037000500, 0, 0)));
    assert!(!sq_dist_fits(&a, &at(0, -3037000500, 0)));
    assert!(!sq_dist_fits(&at(i64::MIN, 0, 0), &at(i64::MAX, 0, 0)));
    assert!(!sq_dist_fits(&a, &at(2_000_000_000, 2_000_000_000, 2_000_000_000)));
    assert!(sq_dist_fits(&a, &at(1_700_000_000, 1_700_000_000, 1_700_000_000)));
    assert!(all_distances_fit(&unit_square()));
    assert!(all_distances_fit(&[]));
    assert!(!all_distances_fit(&points(&[(0, 0, 0), (1, 1, 1), (0, 0, 4_000_000_000)])));
}

#[test]
fn two_edges_in_either_order_give_the_same_partition() {
    let start: Vec<Connection> = vec![(1, 1, 0), (1, 3, 2), (1, 5, 4), (1, 7, 6)];
    let pairs: [(Connection, Connection); 6] = [
        ((2, 0, 3), (2, 2, 5)),
        ((2, 0, 3), (2, 1, 2)),
        ((2, 8, 9), (2, 9, 0)),
        ((2, 8, 0), (2, 8, 7)),
        ((2, 10, 11), (2, 12, 13)),
        ((2, 6, 1), (2, 1, 6)),
    ];
    for (e1, e2) in pairs {
        let mut one = run(&start);
        search_circuits(&mut one, &e1);
        search_circuits(&mut one, &e2);
        let mut other = run(&start);
        search_circuits(&mut other, &e2);
        search_circuits(&mut other, &e1);
        assert_eq!(one.len(), other.len());
        assert_eq!(partition(&one), partition(&other));
        let mut sizes_one = cluster_sizes(&one);
        let mut sizes_other = cluster_sizes(&other);
        sizes_one.sort();
        sizes_other.sort();
        assert_eq!(sizes_one, sizes_other);
    }
}

fn component_sizes(n: usize, edges: &[Connection]) -> Vec<usize> {
    let mut label: Vec<usize> = (0..n).collect();
    let mut changed = true;
    while changed {
        changed = false;
        for &(_, a, b) in edges {
            let low = label[a].min(label[b]);
            if label[a] != low || label[b] != low {
                label[a] = low;
                label[b] = low;
                changed = true;
            }
        }
    }
    let mut sizes: Vec<usize> = (0..n)
        .map(|l| label.iter().filter(|&&x| x == l).count())
        .filter(|&c| c >= 2)
        .collect();
    sizes.sort();
    sizes.reverse();
    sizes
}

#[test]
fn the_answer_is_the_product_over_the_connected_components() {
    let ps = points(&[
        (0, 0, 0), (1, 0, 0), (10, 0, 0), (12, 0, 0), (30, 0, 0), (33, 0, 0), (34, 0, 0), (100, 0, 0), (105, 0, 0),
    ]);
    let edges = find_min_distances(&ps).unwrap();
    for k in 1..=edges.len() {
        let sizes = component_sizes(ps.len(), &edges[..k]);
        let expected: usize = sizes.iter().take(3).product();
        assert_eq!(part1(&ps, k), Ok(expected));
        let mut got = cluster_sizes(&run(&edges[..k]));
        got.sort();
        got.reverse();
        assert_eq!(got, sizes);
        let mut shuffled: Vec<Connection> = edges[..k].to_vec();
        shuffled.reverse();
        shuffled.rotate_left(k / 3);
        assert_eq!(prefix_product(&shuffled, k), Ok(expected));
    }
}
