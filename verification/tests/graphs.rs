use triplclust_rs::digraph::DiGraph;
use triplclust_rs::triplet::candidate_pairs;

fn sorted(mut v: Vec<usize>) -> Vec<usize> {
    v.sort();
    v
}

/// A chain 0 -> 1 -> 2 -> 3 -> 4.
fn chain(n: usize) -> DiGraph {
    let points: Vec<usize> = (0..n).map(|i| 10 + i).collect();
    let targets: Vec<(usize, Option<u64>)> = (0..n - 1).map(|i| (i + 1, Some(i as u64))).collect();
    DiGraph::from_arborescence(&points, &targets)
}

#[test]
fn a_chain_is_one_subtree() {
    let g = chain(5);
    assert_eq!(g.len(), 5);
    let trees = g.subtrees();
    assert_eq!(trees.len(), 1);
    assert_eq!(trees[0][0], 4);
    assert_eq!(sorted(trees[0].clone()), vec![0, 1, 2, 3, 4]);
}

#[test]
fn in_edges_and_cuts() {
    let mut g = chain(4);
    assert_eq!(g.in_edge_list(0), Vec::<usize>::new());
    assert_eq!(g.in_edge_list(2), vec![1]);
    g.cut_edge(2, 1);
    assert_eq!(g.in_edge_list(2), Vec::<usize>::new());
    let trees = g.subtrees();
    assert_eq!(trees.len(), 2);
    assert_eq!(sorted(trees[0].clone()), vec![2, 3]);
    assert_eq!(trees[1][0], 1);
    assert_eq!(sorted(trees[1].clone()), vec![0, 1]);
}

#[test]
fn a_fork_of_two_deep_branches_is_split() {
    // Two chains 0->1->2->6 and 3->4->5->6 meet at node 6.
    let points: Vec<usize> = (0..7).collect();
    let targets = vec![
        (1, Some(0)),
        (2, Some(1)),
        (6, Some(5)),
        (4, Some(2)),
        (5, Some(3)),
        (6, Some(4)),
    ];
    let mut g = DiGraph::from_arborescence(&points, &targets);
    assert!(g.split_by_depth(2));
    // The in-edge of node 6 with the smaller rank (edge 5) stays.
    assert_eq!(g.in_edge_list(6), vec![5]);
    let trees = g.subtrees();
    assert_eq!(trees.len(), 2);
    assert_eq!(sorted(trees[0].clone()), vec![3, 4, 5, 6]);
    assert_eq!(trees[1][0], 2);
    assert_eq!(sorted(trees[1].clone()), vec![0, 1, 2]);
    // Nothing is left to split.
    assert!(!g.split_by_depth(2));
}

#[test]
fn shallow_branches_are_not_split() {
    let points: Vec<usize> = (0..4).collect();
    let targets = vec![(3, Some(0)), (3, Some(1)), (3, Some(2))];
    let mut g = DiGraph::from_arborescence(&points, &targets);
    assert!(!g.split_by_depth(2));
    assert_eq!(sorted(g.in_edge_list(3)), vec![0, 1, 2]);
    assert!(!g.split_by_depth(1));
    // At depth zero all three sources qualify; the shortest edge stays.
    assert!(g.split_by_depth(0));
    assert_eq!(g.in_edge_list(3), vec![0]);
}

#[test]
fn unranked_edges_are_all_cut() {
    let points: Vec<usize> = (0..3).collect();
    let targets = vec![(2, None), (2, None)];
    let mut g = DiGraph::from_arborescence(&points, &targets);
    assert!(g.split_by_depth(0));
    assert_eq!(g.in_edge_list(2), Vec::<usize>::new());
    assert_eq!(g.subtrees().len(), 3);
}

#[test]
fn depth_four_walk_lists_neighbour_edges() {
    let g = chain(7);
    // From node 3: edges 2 (2->3) and 3 (3->4) first, then further out.
    let counted = g.edges_to_depth4(3);
    assert!(counted.contains(&2));
    assert!(counted.contains(&3));
    assert_eq!(sorted(counted), vec![0, 1, 2, 3, 4, 5]);
    // From an end of a long chain only four edges are reached.
    let g = chain(9);
    assert_eq!(sorted(g.edges_to_depth4(0)), vec![0, 1, 2, 3]);
}

#[test]
fn candidate_pairs_skip_the_core_point_and_coincident_neighbours() {
    assert_eq!(candidate_pairs(&vec![]), Vec::<(usize, usize)>::new());
    assert_eq!(candidate_pairs(&vec![false]), Vec::<(usize, usize)>::new());
    assert_eq!(
        candidate_pairs(&vec![false, true, true, true]),
        vec![(1, 2), (1, 3), (2, 3)]
    );
    assert_eq!(
        candidate_pairs(&vec![false, true, false, true, true]),
        vec![(1, 3), (1, 4), (3, 4)]
    );
    assert_eq!(candidate_pairs(&vec![true, true]), Vec::<(usize, usize)>::new());
}

#[test]
fn depth_four_walk_follows_the_levels_of_a_tree() {
    // 0 -> 2, 1 -> 2, 2 -> 6, 3 -> 4, 4 -> 5, 5 -> 6.
    let points: Vec<usize> = (0..7).collect();
    let targets = vec![
        (2, Some(0)),
        (2, Some(1)),
        (6, Some(2)),
        (4, Some(3)),
        (5, Some(4)),
        (6, Some(5)),
    ];
    let g = DiGraph::from_arborescence(&points, &targets);
    // From node 0: 2 at distance 1, then 1 and 6, then 5, then 4; node 3 is
    // five steps away and edge 3 is left out.
    let counted = g.edges_to_depth4(0);
    assert_eq!(counted.len(), 5);
    assert_eq!(sorted(counted), vec![0, 1, 2, 4, 5]);
    // From node 6 every edge lies within four levels.
    assert_eq!(sorted(g.edges_to_depth4(6)), vec![0, 1, 2, 3, 4, 5]);
}

#[test]
fn a_lone_unranked_deep_edge_stays() {
    let points: Vec<usize> = (0..3).collect();
    let targets = vec![(1, None), (2, None)];
    let mut g = DiGraph::from_arborescence(&points, &targets);
    assert!(!g.split_by_depth(1));
    assert_eq!(g.in_edge_list(2), vec![1]);
    assert_eq!(g.subtrees().len(), 1);
}

#[test]
fn new_roots_come_in_node_order() {
    let points: Vec<usize> = (0..7).collect();
    let targets = vec![
        (4, Some(0)),
        (4, Some(1)),
        (5, Some(2)),
        (5, Some(3)),
        (6, Some(4)),
        (6, Some(5)),
    ];
    let mut g = DiGraph::from_arborescence(&points, &targets);
    assert!(g.split_by_depth(0));
    let trees = g.subtrees();
    let roots: Vec<usize> = trees.iter().map(|t| t[0]).collect();
    assert_eq!(roots, vec![6, 1, 3, 5]);
    // The sub-trees partition the nodes.
    let mut all: Vec<usize> = trees.concat();
    all.sort();
    assert_eq!(all, vec![0, 1, 2, 3, 4, 5, 6]);
    assert_eq!(sorted(trees[0].clone()), vec![0, 4, 6]);
    assert_eq!(trees[1], vec![1]);
    assert_eq!(trees[2], vec![3]);
    assert_eq!(sorted(trees[3].clone()), vec![2, 5]);
}

#[test]
fn subtrees_come_in_breadth_first_order() {
    // A chain walked from its last node meets the nodes one step at a time.
    let g = chain(5);
    assert_eq!(g.subtrees(), vec![vec![4, 3, 2, 1, 0]]);
    // From node 6 of the tree 0,1 -> 2 -> 6 <- 5 <- 4 <- 3: first 2 and 5,
    // then 0, 1 and 4, then 3.
    let points: Vec<usize> = (0..7).collect();
    let targets = vec![
        (2, Some(0)),
        (2, Some(1)),
        (6, Some(2)),
        (4, Some(3)),
        (5, Some(4)),
        (6, Some(5)),
    ];
    let g = DiGraph::from_arborescence(&points, &targets);
    let tree = &g.subtrees()[0];
    assert_eq!(tree[0], 6);
    assert_eq!(sorted(tree[1..3].to_vec()), vec![2, 5]);
    assert_eq!(sorted(tree[3..6].to_vec()), vec![0, 1, 4]);
    assert_eq!(tree[6], 3);
}
