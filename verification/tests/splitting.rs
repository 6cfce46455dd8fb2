use triplclust_rs::stitch::{
    join_candidates, join_subclusters, label_subclusters, max_label, points_with_label, record_split,
    scatter_labels,
    sort_indices,
};

#[test]
fn max_label_of_labels() {
    assert_eq!(max_label(&vec![]), None);
    assert_eq!(max_label(&vec![-1, 4, 2]), Some(4));
    assert_eq!(max_label(&vec![-3]), Some(-3));
}

#[test]
fn points_of_a_label_in_order() {
    assert_eq!(points_with_label(&vec![2, 1, 2, -1, 2], 2), vec![0, 2, 4]);
    assert_eq!(points_with_label(&vec![2, 1], 7), Vec::<usize>::new());
}

#[test]
fn sub_clusters_get_fresh_labels() {
    let subs = vec![vec![0, 2], vec![3], vec![1, 3]];
    assert_eq!(label_subclusters(5, 7, 10, &subs), vec![11, 13, 11, 13, 7]);
    assert_eq!(label_subclusters(2, 7, 10, &vec![]), vec![7, 7]);
}

#[test]
fn sorting_indices() {
    let mut v = vec![5, 1, 4, 1, 0];
    sort_indices(&mut v);
    assert_eq!(v, vec![0, 1, 1, 4, 5]);
    let mut e: Vec<usize> = vec![];
    sort_indices(&mut e);
    assert!(e.is_empty());
}

#[test]
fn joining_sub_clusters() {
    let mut subs = vec![vec![0, 4], vec![1, 2], vec![3, 5]];
    join_subclusters(&mut subs, 0, 2);
    assert_eq!(subs, vec![vec![0, 3, 4, 5], vec![1, 2]]);
    let mut subs = vec![vec![0, 4], vec![1, 2], vec![3, 5]];
    join_subclusters(&mut subs, 2, 0);
    assert_eq!(subs, vec![vec![1, 2], vec![0, 3, 4, 5]]);
}

#[test]
fn scattering_labels() {
    let mut labels = vec![1, 1, 1, 1];
    scatter_labels(&mut labels, &vec![3, 0], &vec![8, 9]);
    assert_eq!(labels, vec![9, 1, 1, 8]);
    scatter_labels(&mut labels, &vec![1, 1], &vec![5, 6]);
    assert_eq!(labels, vec![9, 6, 1, 8]);
}

#[test]
fn join_candidates_respect_the_tolerance() {
    let subs = vec![vec![0, 5], vec![14, 20], vec![16], vec![2]];
    assert_eq!(join_candidates(&subs, 0, 10), vec![1, 3]);
    assert_eq!(join_candidates(&subs, 0, 11), vec![1, 2, 3]);
    assert_eq!(join_candidates(&subs, 1, 10), vec![0, 2, 3]);
}

#[test]
fn recording_a_split() {
    let mut labels = vec![0, 2, 0, 1, 0];
    let max_id = record_split(&mut labels, &vec![0, 2, 4], &vec![3, 4, 3]);
    assert_eq!(max_id, 4);
    assert_eq!(labels, vec![3, 2, 4, 1, 3]);
}
