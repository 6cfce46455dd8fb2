use rustc_hash::FxHashMap;
use triplclust_rs::cluster::{
    check_triplets,
    apply_min_cluster_size, collapse_by_max, distinct_values, label_points, normalize, ClusterResult,
};
use triplclust_rs::dendrogram::{compute_triplet_labels, Dendrogram, MergeStep};
use triplclust_rs::error::{ClusterError, TriplclustError};
use triplclust_rs::triplet::Triplet;

fn step(cluster1: usize, cluster2: usize, size: usize) -> MergeStep {
    MergeStep { cluster1, cluster2, size }
}

/// Four observations: 0+1 -> 4, 2+3 -> 5, 4+5 -> 6.
fn four_leaf_dendrogram() -> Dendrogram {
    Dendrogram { observations: 4, steps: vec![step(0, 1, 2), step(2, 3, 2), step(4, 5, 4)] }
}

fn triplet(a: usize, b: usize, c: usize) -> Triplet<f64> {
    Triplet { index_a: a, index_b: b, index_c: c, centroid: [0.0; 3], direction: [0.0, 0.0, 1.0], error: 0.0 }
}

#[test]
fn cluster_sizes_follow_the_merge_steps() {
    let d = four_leaf_dendrogram();
    assert_eq!(d.cluster_size(0), 1);
    assert_eq!(d.cluster_size(3), 1);
    assert_eq!(d.cluster_size(4), 2);
    assert_eq!(d.cluster_size(5), 2);
    assert_eq!(d.cluster_size(6), 4);
}

#[test]
fn triplet_labels_name_the_latest_cluster() {
    let d = four_leaf_dendrogram();
    assert_eq!(compute_triplet_labels(4, &d, 0), vec![-1, -1, -1, -1]);
    assert_eq!(compute_triplet_labels(4, &d, 1), vec![4, 4, -1, -1]);
    assert_eq!(compute_triplet_labels(4, &d, 2), vec![4, 4, 5, 5]);
    assert_eq!(compute_triplet_labels(4, &d, 3), vec![6, 6, 6, 6]);
}

#[test]
fn triplet_labels_merge_a_single_into_a_cluster() {
    // 0+2 -> 3, 1+3 -> 4
    let d = Dendrogram { observations: 3, steps: vec![step(0, 2, 2), step(1, 3, 3)] };
    assert_eq!(compute_triplet_labels(3, &d, 1), vec![3, -1, 3]);
    assert_eq!(compute_triplet_labels(3, &d, 2), vec![4, 4, 4]);
}

#[test]
fn small_clusters_become_noise() {
    let d = four_leaf_dendrogram();
    let mut labels = vec![4, 4, 5, 5];
    let removed = apply_min_cluster_size(&mut labels, &d, 3);
    assert_eq!(labels, vec![-1, -1, -1, -1]);
    assert_eq!(removed, 2);

    let mut labels = vec![6, 6, -1, 6];
    let removed = apply_min_cluster_size(&mut labels, &d, 3);
    assert_eq!(labels, vec![6, 6, -1, 6]);
    assert_eq!(removed, 0);

    let mut labels = vec![4, 4, 2, -1];
    let removed = apply_min_cluster_size(&mut labels, &d, 2);
    assert_eq!(labels, vec![4, 4, -1, -1]);
    assert_eq!(removed, 1);
}

#[test]
fn collapse_picks_the_most_frequent_label() {
    let mut a: FxHashMap<i32, i32> = FxHashMap::default();
    // counts are stored as votes minus one
    a.insert(1, 2);
    a.insert(2, 1);
    let mut b: FxHashMap<i32, i32> = FxHashMap::default();
    b.insert(7, 0);
    let c: FxHashMap<i32, i32> = FxHashMap::default();
    let labels = collapse_by_max(vec![a, b, c]);
    assert_eq!(labels, vec![1, 7, -1]);
}

#[test]
fn normalize_renumbers_from_zero() {
    let out = normalize(vec![40, -1, 12, 40, 12, 99]);
    assert_eq!(out.len(), 6);
    assert_eq!(out[1], -1);
    assert_eq!(out[0], out[3]);
    assert_eq!(out[2], out[4]);
    assert_ne!(out[0], out[2]);
    assert_ne!(out[0], out[5]);
    assert_ne!(out[2], out[5]);
    let mut seen = vec![out[0], out[2], out[5]];
    seen.sort();
    assert_eq!(seen, vec![0, 1, 2]);
    assert_eq!(normalize(vec![-1, -1]), vec![-1, -1]);
    assert_eq!(normalize(vec![]), Vec::<i32>::new());
}

#[test]
fn distinct_values_are_listed_once() {
    let mut d = distinct_values(&vec![3, 3, -1, 5, 3, -1]);
    d.sort();
    assert_eq!(d, vec![-1, 3, 5]);
}

#[test]
fn points_take_their_most_frequent_triplet_label() {
    // Point 0 receives the labels [1, 1, 1, 2, 2]: it takes label 1, like point 1.
    let triplets = vec![
        triplet(0, 1, 1),
        triplet(0, 1, 1),
        triplet(0, 1, 1),
        triplet(0, 2, 2),
        triplet(0, 2, 2),
    ];
    let r = ClusterResult::new(4, vec![1, 1, 1, 2, 2], &triplets, 3, 0.5);
    assert_eq!(r.labels.len(), 4);
    assert_eq!(r.labels[0], r.labels[1]);
    assert_ne!(r.labels[0], r.labels[2]);
    assert_eq!(r.labels[3], -1);
    assert!(r.labels[0] == 0 || r.labels[0] == 1);
    assert!(r.labels[2] == 0 || r.labels[2] == 1);
    let mut u = r.unique_labels.clone();
    u.sort();
    assert_eq!(u, vec![-1, 0, 1]);
    assert_eq!(r.n_clusters_removed, 3);
    assert_eq!(r.optimal_cdt, 0.5);
}

#[test]
fn noise_votes_can_win() {
    let triplets = vec![triplet(0, 1, 2), triplet(0, 1, 2), triplet(0, 3, 3)];
    let r = ClusterResult::new(4, vec![-1, -1, 5], &triplets, 0, 0.0);
    assert_eq!(r.labels, vec![-1, -1, -1, 0]);
    assert_eq!(r.unique_labels.len(), 2);
}

#[test]
fn label_points_runs_the_whole_label_stage() {
    // Four triplets; clusters {0,1} -> 4 and {2,3} -> 5 after two merges.
    let d = four_leaf_dendrogram();
    let triplets = vec![triplet(0, 1, 2), triplet(1, 2, 3), triplet(4, 5, 6), triplet(5, 6, 7)];
    let r = label_points(8, &triplets, &d, 2, 2, 1.25);
    assert_eq!(r.labels.len(), 8);
    // point 0 only in triplet 0 (cluster 4); point 7 only in triplet 3 (cluster 5)
    assert_ne!(r.labels[0], -1);
    assert_ne!(r.labels[7], -1);
    assert_ne!(r.labels[0], r.labels[7]);
    assert_eq!(r.labels[0], r.labels[3]);
    assert_eq!(r.labels[4], r.labels[7]);
    assert_eq!(r.n_clusters_removed, 0);

    // With a minimum size of three both clusters are removed.
    let r = label_points(8, &triplets, &d, 2, 3, 1.25);
    assert_eq!(r.labels, vec![-1; 8]);
    assert_eq!(r.n_clusters_removed, 2);
    assert_eq!(r.unique_labels, vec![-1]);
}

#[test]
fn triplets_compare_by_their_points() {
    let a = triplet(1, 2, 3);
    let mut b = triplet(1, 2, 3);
    b.error = 0.5;
    b.centroid = [1.0, 2.0, 3.0];
    assert!(a == b);
    assert!(a != triplet(3, 2, 1));
}

#[test]
fn empty_triplets_are_refused() {
    let none: Vec<Triplet<f64>> = vec![];
    assert!(matches!(
        check_triplets(&none),
        Err(TriplclustError::Cluster(ClusterError::EmptyTriplets))
    ));
    assert!(check_triplets(&vec![triplet(0, 1, 2)]).is_ok());
}
