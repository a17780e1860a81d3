use std::cell::Cell;
use std::collections::HashMap;

use mutex_watershed::forest::Forest;
use mutex_watershed::mutex::{
    compute_mutex_watershed_clustering, compute_mutex_watershed_clustering_with_callback,
    mutex_watershed_mst_cut_iter_with_callback, mutex_watershed_mst_cut_with_callback,
    priority_order, Edge, IndexArrayIter,
};

/// Maps a weight to a key with the same order (the IEEE total order).
fn weight_key(w: f64) -> u64 {
    let b = w.to_bits();
    if b >> 63 == 1 {
        !b
    } else {
        b | (1u64 << 63)
    }
}

fn keyed(edges: &[(u32, u32, f64, bool)]) -> Vec<(u32, u32, u64, bool)> {
    edges.iter().map(|&(a, b, w, m)| (a, b, weight_key(w), m)).collect()
}

fn cluster(num_labels: usize, edges: &[(u32, u32, f64, bool)]) -> Forest {
    compute_mutex_watershed_clustering(num_labels, &keyed(edges))
}

fn group_by_smallest_element(uf: &Forest) -> Vec<Vec<u32>> {
    let mut hm: HashMap<u32, Vec<u32>> = HashMap::new();
    for id in 0..uf.len() {
        let id_u32 = id as u32;
        let root = uf.find(id_u32);
        hm.entry(root).or_insert_with(Vec::new).push(id_u32);
    }
    let mut clusters: Vec<Vec<u32>> = hm.values().cloned().collect();
    for cluster in clusters.iter_mut() {
        cluster.sort();
    }
    clusters.sort_by(|c1, c2| c1[0].cmp(&c2[0]));
    clusters
}

const EDGES_BASE: [(u32, u32, f64, bool); 7] = [
    (0, 1, 1.0, false),
    (1, 2, 1.0, false),
    (2, 3, 1.0, false),
    (4, 5, 1.0, false),
    (5, 6, 1.0, false),
    (6, 7, 1.0, false),
    (6, 8, 1.0, false),
];

fn mutex_ws_for_edges(edges: &[(u32, u32, f64, bool)], expected: &[Vec<u32>]) {
    let uf = cluster(9, edges);
    let actual = group_by_smallest_element(&uf);
    assert_eq!(actual, expected);
}

#[test]
fn mutex_ws() {
    let uf = cluster(3, &[(0, 1, 1.0, false), (1, 2, 2.0, false), (0, 2, 1.9, true)]);
    assert_ne!(uf.find(0), uf.find(1));
    assert_ne!(uf.find(0), uf.find(2));
    assert_eq!(uf.find(1), uf.find(2));
}

#[test]
fn mutex_ws_variable_edge() {
    mutex_ws_for_edges(&EDGES_BASE, &[vec![0, 1, 2, 3], vec![4, 5, 6, 7, 8]]);

    let mut edges_without_mutex = EDGES_BASE.to_vec();
    edges_without_mutex.push((3, 4, 1.1, false));
    mutex_ws_for_edges(&edges_without_mutex[..], &[vec![0, 1, 2, 3, 4, 5, 6, 7, 8]]);

    let mut edges_with_mutex = EDGES_BASE.to_vec();
    edges_with_mutex.push((3, 4, 1.1, true));
    mutex_ws_for_edges(&edges_with_mutex[..], &[vec![0, 1, 2, 3], vec![4, 5, 6, 7, 8]]);

    let mut edges_without_mutex = EDGES_BASE.to_vec();
    edges_without_mutex.push((3, 5, 0.9, false));
    mutex_ws_for_edges(&edges_without_mutex[..], &[vec![0, 1, 2, 3, 4, 5, 6, 7, 8]]);

    let mut edges_with_mutex = EDGES_BASE.to_vec();
    edges_with_mutex.push((3, 4, 1.1, true));
    edges_with_mutex.push((3, 5, 0.9, false));
    mutex_ws_for_edges(&edges_with_mutex[..], &[vec![0, 1, 2, 3], vec![4, 5, 6, 7, 8]]);
}

#[test]
fn two_chains_stay_two_clusters() {
    mutex_ws_for_edges(&EDGES_BASE, &[vec![0, 1, 2, 3], vec![4, 5, 6, 7, 8]]);
}

#[test]
fn attractive_bridge_merges_all() {
    let mut edges = EDGES_BASE.to_vec();
    edges.push((3, 4, 1.1, false));
    mutex_ws_for_edges(&edges, &[vec![0, 1, 2, 3, 4, 5, 6, 7, 8]]);
}

#[test]
fn mutex_bridge_keeps_two_clusters() {
    let mut edges = EDGES_BASE.to_vec();
    edges.push((3, 4, 1.1, true));
    mutex_ws_for_edges(&edges, &[vec![0, 1, 2, 3], vec![4, 5, 6, 7, 8]]);
}

#[test]
fn mutex_blocks_weaker_bypass() {
    let mut edges = EDGES_BASE.to_vec();
    edges.push((3, 4, 1.1, true));
    edges.push((3, 5, 0.9, false));
    mutex_ws_for_edges(&edges, &[vec![0, 1, 2, 3], vec![4, 5, 6, 7, 8]]);
}

#[test]
fn reversed_weights_change_the_partition() {
    let uf = cluster(3, &[(0, 1, 2.0, false), (1, 2, 1.0, false), (0, 2, 1.9, true)]);
    assert_eq!(group_by_smallest_element(&uf), vec![vec![0, 1], vec![2]]);
    let uf = cluster(3, &[(0, 1, 1.0, false), (1, 2, 2.0, false), (0, 2, 1.9, true)]);
    assert_eq!(group_by_smallest_element(&uf), vec![vec![0], vec![1, 2]]);
}

#[test]
fn find_is_idempotent() {
    let mut edges = EDGES_BASE.to_vec();
    edges.push((3, 4, 1.1, true));
    let uf = cluster(9, &edges);
    for x in 0..9u32 {
        let r = uf.find(x);
        assert_eq!(uf.find(x), r);
        assert_eq!(uf.find(r), r);
    }
}

#[test]
fn no_labels_no_edges() {
    let uf = compute_mutex_watershed_clustering(0, &[]);
    assert_eq!(uf.len(), 0);
}

#[test]
fn no_edges_leaves_singletons() {
    let uf = compute_mutex_watershed_clustering(4, &[]);
    assert_eq!(group_by_smallest_element(&uf), vec![vec![0], vec![1], vec![2], vec![3]]);
}

#[test]
fn callback_fires_on_changes_only() {
    let count = Cell::new(0usize);
    let edges = keyed(&[(0, 1, 1.0, false), (1, 2, 2.0, false), (0, 2, 1.9, true)]);
    let uf = compute_mutex_watershed_clustering_with_callback(3, &edges, |f: &Forest| {
        assert_eq!(f.len(), 3);
        count.set(count.get() + 1);
    });
    assert_eq!(count.get(), 2);
    assert_eq!(uf.find(1), uf.find(2));
}

#[test]
fn priority_order_descending_ties_in_input_order() {
    let edges = vec![(0, 1, 1, false), (1, 2, 3, false), (2, 3, 3, true), (3, 4, 2, false)];
    assert_eq!(priority_order(&edges), vec![1, 2, 3, 0]);
    assert_eq!(priority_order(&[]), Vec::<usize>::new());
}

#[test]
fn sorted_slice_cut() {
    let edges: Vec<(u32, u32, bool)> = vec![(1, 2, false), (0, 2, true), (0, 1, false)];
    let uf = mutex_watershed_mst_cut_with_callback(3, &edges, |_f: &Forest| {});
    assert_eq!(group_by_smallest_element(&uf), vec![vec![0], vec![1, 2]]);
}

#[test]
fn index_array_iter_walks_in_index_order() {
    let data = vec![10, 20, 30];
    let indices = vec![2, 0, 2];
    let mut it = IndexArrayIter::new(&data, &indices);
    assert_eq!(it.next(), Some(&30));
    assert_eq!(it.next(), Some(&10));
    assert_eq!(it.next(), Some(&30));
    assert_eq!(it.next(), None);
    assert_eq!(it.next(), None);
}

#[test]
fn iter_cut_follows_indices() {
    let edges: Vec<(u32, u32, bool)> = vec![(0, 1, false), (1, 2, false), (0, 2, true)];
    let order = vec![1, 2, 0];
    let uf = mutex_watershed_mst_cut_iter_with_callback(3, IndexArrayIter::new(&edges, &order), |_f: &Forest| {});
    assert_eq!(group_by_smallest_element(&uf), vec![vec![0], vec![1, 2]]);
}

#[test]
fn edge_accessors() {
    let e = (3u32, 7u32, 5u64, true);
    assert_eq!((e.from(), e.to(), e.is_mutex_edge()), (3, 7, true));
    let e = (4u32, 1u32, false);
    assert_eq!((e.from(), e.to(), e.is_mutex_edge()), (4, 1, false));
}

#[test]
fn chain_of_mutexes_between_three_clusters() {
    // 0-1 and 2-3 form clusters; mutex 1-2 then attractive 0-3 is blocked.
    let uf = cluster(4, &[(0, 1, 5.0, false), (2, 3, 5.0, false), (1, 2, 4.0, true), (0, 3, 1.0, false)]);
    assert_eq!(group_by_smallest_element(&uf), vec![vec![0, 1], vec![2, 3]]);
}
