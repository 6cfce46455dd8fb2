//! A directed graph over the points of one cluster, used to split the cluster
//! into sub-trees.
//!
//! Every point of the cluster is a node; every node except the last has one
//! out-edge, to its nearest neighbour among the nodes at or after it. Edges are
//! ordered by their length through a rank (equal lengths, equal ranks; an edge
//! whose length is not a finite number has no rank). Splitting cuts edges and
//! records the start of every cut edge as the root of a new sub-tree.
use crate::fxcollections::{set_contains, set_insert, set_items, set_remove};
use rustc_hash::FxHashSet;
use std::collections::VecDeque;
use vstd::prelude::*;
use vstd::relations::injective_on;
use vstd::set_lib::lemma_map_size;

verus! {

broadcast use vstd::std_specs::hash::group_hash_axioms;

/// A directed edge.
#[derive(Debug)]
struct Edge {
    /// Node the edge starts at.
    begin: usize,
    /// Node the edge ends at.
    end: usize,
    /// Rank of the edge's length among all lengths; `None` for a length that
    /// is not a finite number.
    rank: Option<u64>,
}

/// A node, i.e. a point of the cluster.
#[derive(Debug)]
struct Node {
    /// Position of this node in the graph.
    index: usize,
    /// Index of this node's point in the point cloud.
    row: usize,
    /// Edges flowing into this node.
    in_edges: FxHashSet<usize>,
    /// Edges flowing out of this node.
    out_edges: FxHashSet<usize>,
}

/// The directed graph of a cluster, with the roots of its sub-trees.
pub struct DiGraph {
    edges: Vec<Edge>,
    nodes: Vec<Node>,
    roots: Vec<usize>,
}

/// An element of the first `k + 1` items is one of the first `k` or item `k`.
pub(crate) proof fn lemma_take_next<A>(s: Seq<A>, k: int)
    requires
        0 <= k < s.len(),
    ensures
        forall|x: A| #[trigger] s.take(k + 1).contains(x) <==> (s.take(k).contains(x) || x == s[k]),
{
    assert forall|x: A| #[trigger] s.take(k + 1).contains(x) <==> (s.take(k).contains(x) || x == s[k]) by {
        if s.take(k + 1).contains(x) && x != s[k] {
            let w = choose|w: int| 0 <= w < k + 1 && #[trigger] s.take(k + 1)[w] == x;
            assert(s.take(k)[w] == x);
        }
        if s.take(k).contains(x) {
            let w = choose|w: int| 0 <= w < k && #[trigger] s.take(k)[w] == x;
            assert(s.take(k + 1)[w] == x);
        }
        if x == s[k] {
            assert(s.take(k + 1)[k] == x);
        }
    }
}

/// The node lists of `trees`.
pub open spec fn tree_seqs(trees: Seq<Vec<usize>>) -> Seq<Seq<usize>> {
    trees.map_values(|t: Vec<usize>| t@)
}

/// Node `y` lies in one of the `trees`.
pub open spec fn in_some_tree(trees: Seq<Seq<usize>>, y: usize) -> bool {
    exists|r: int| 0 <= r < trees.len() && #[trigger] trees[r].contains(y)
}

impl DiGraph {
    /// Number of nodes.
    pub closed spec fn node_count(&self) -> int {
        self.nodes@.len() as int
    }

    /// Number of edges ever created (cut ones included).
    pub closed spec fn edge_count(&self) -> int {
        self.edges@.len() as int
    }

    /// Point-cloud row of node `i`.
    pub closed spec fn row_of(&self, i: int) -> usize {
        self.nodes@[i].row
    }

    /// Start node of edge `e`.
    pub closed spec fn begin_of(&self, e: usize) -> int {
        self.edges@[e as int].begin as int
    }

    /// End node of edge `e`.
    pub closed spec fn end_of(&self, e: usize) -> int {
        self.edges@[e as int].end as int
    }

    /// Length rank of edge `e`.
    pub closed spec fn rank_of(&self, e: usize) -> Option<u64> {
        self.edges@[e as int].rank
    }

    /// Edge `e` flows into node `i` (and has not been cut).
    pub closed spec fn has_in_edge(&self, i: int, e: usize) -> bool {
        0 <= i < self.nodes@.len() && e < self.edges@.len() && self.nodes@[i].in_edges@.contains(e)
    }

    /// Edge `e` is still part of the graph.
    pub open spec fn present(&self, e: usize) -> bool {
        e < self.edge_count() && self.has_in_edge(self.end_of(e), e)
    }

    /// The roots recorded so far.
    pub closed spec fn root_list(&self) -> Seq<usize> {
        self.roots@
    }

    /// Internal consistency: node positions, edge endpoints, and the in- and
    /// out-edge sets agree with each other.
    pub closed spec fn wf(&self) -> bool {
        &&& forall|i: int| 0 <= i < self.nodes@.len() ==> (#[trigger] self.nodes@[i]).index == i
        &&& forall|e: int|
            0 <= e < self.edges@.len() ==> (#[trigger] self.edges@[e]).begin < self.nodes@.len()
                && self.edges@[e].end < self.nodes@.len()
        &&& forall|i: int, e: usize|
            0 <= i < self.nodes@.len() && #[trigger] self.nodes@[i].in_edges@.contains(e) ==> e
                < self.edges@.len() && self.edges@[e as int].end == i
        &&& forall|i: int, e: usize|
            0 <= i < self.nodes@.len() && #[trigger] self.nodes@[i].out_edges@.contains(e) ==> e
                < self.edges@.len() && self.edges@[e as int].begin == i
        &&& forall|e: int|
            0 <= e < self.edges@.len() ==> (self.nodes@[(#[trigger] self.edges@[e]).begin as int].out_edges@.contains(
                e as usize,
            ) <==> self.nodes@[self.edges@[e].end as int].in_edges@.contains(e as usize))
        &&& forall|k: int| 0 <= k < self.roots@.len() ==> #[trigger] self.roots@[k] < self.nodes@.len()
    }

    /// Node `node` sits at the end of a chain of at least `depth` edges: some
    /// in-edge of it starts at a node that itself reaches depth `depth - 1`.
    pub closed spec fn reaches_depth(&self, node: int, depth: nat) -> bool
        decreases depth,
    {
        if depth == 0 {
            true
        } else {
            exists|e: usize|
                #[trigger] self.has_in_edge(node, e) && self.reaches_depth(
                    self.begin_of(e),
                    (depth - 1) as nat,
                )
        }
    }

    /// `self` is `other` with some edges cut: same nodes, same edge list, and
    /// every remaining in-edge was an in-edge of `other`.
    pub closed spec fn cut_from(&self, other: &Self) -> bool {
        &&& self.nodes@.len() == other.nodes@.len()
        &&& self.edges@ == other.edges@
        &&& forall|i: int| 0 <= i < self.nodes@.len() ==> (#[trigger] self.nodes@[i]).row == other.nodes@[i].row
        &&& forall|i: int, e: usize| #[trigger] self.has_in_edge(i, e) ==> other.has_in_edge(i, e)
    }

    /// With edges leading to later nodes, whether a node reaches a depth
    /// depends only on the in-edges of it and the nodes before it.
    proof fn lemma_depth_frame(&self, other: &Self, x: int, depth: nat)
        requires
            self.wf(),
            other.wf(),
            self.edges@ == other.edges@,
            forall|e: int| 0 <= e < self.edges@.len() ==> (#[trigger] self.edges@[e]).begin < self.edges@[e].end,
            forall|i: int, e: usize| i <= x ==> #[trigger] self.has_in_edge(i, e) == other.has_in_edge(i, e),
        ensures
            self.reaches_depth(x, depth) == other.reaches_depth(x, depth),
        decreases depth,
    {
        if depth > 0 {
            if self.reaches_depth(x, depth) {
                let e = choose|e: usize| #[trigger] self.has_in_edge(x, e) && self.reaches_depth(self.begin_of(e), (depth - 1) as nat);
                assert(self.edges@[e as int].end == x);
                self.lemma_depth_frame(other, self.begin_of(e), (depth - 1) as nat);
                assert(other.has_in_edge(x, e));
            }
            if other.reaches_depth(x, depth) {
                let e = choose|e: usize| #[trigger] other.has_in_edge(x, e) && other.reaches_depth(other.begin_of(e), (depth - 1) as nat);
                assert(self.has_in_edge(x, e));
                assert(self.edges@[e as int].end == x);
                self.lemma_depth_frame(other, self.begin_of(e), (depth - 1) as nat);
            }
        }
    }

    /// Cutting edges never lets a node reach a greater depth.
    pub proof fn lemma_cut_keeps_depth_bound(&self, other: &Self, node: int, depth: nat)
        requires
            self.cut_from(other),
            self.reaches_depth(node, depth),
        ensures
            other.reaches_depth(node, depth),
        decreases depth,
    {
        if depth > 0 {
            let e = choose|e: usize|
                #[trigger] self.has_in_edge(node, e) && self.reaches_depth(
                    self.begin_of(e),
                    (depth - 1) as nat,
                );
            self.lemma_cut_keeps_depth_bound(other, self.begin_of(e), (depth - 1) as nat);
            assert(other.has_in_edge(node, e));
        }
    }

    /// Whether node `node` reaches depth `depth` (see [`Self::reaches_depth`]).
    fn depth_search(&self, node: usize, depth: usize) -> (found: bool)
        requires
            self.wf(),
            node < self.nodes@.len(),
        ensures
            found == self.reaches_depth(node as int, depth as nat),
        decreases depth,
    {
        if depth > 0 {
            let in_list = set_items(&self.nodes[node].in_edges);
            let mut i: usize = 0;
            while i < in_list.len()
                invariant
                    self.wf(),
                    node < self.nodes@.len(),
                    depth > 0,
                    in_list@.to_set() == self.nodes@[node as int].in_edges@,
                    i <= in_list@.len(),
                    forall|j: int| 0 <= j < i ==> !self.reaches_depth(
                        self.begin_of(#[trigger] in_list@[j]),
                        (depth - 1) as nat,
                    ),
                decreases in_list@.len() - i,
            {
                let e = in_list[i];
                proof {
                    assert(in_list@.to_set().contains(e));
                }
                if self.depth_search(self.edges[e].begin, depth - 1) {
                    assert(self.has_in_edge(node as int, e));
                    return true;
                }
                i += 1;
            }
            proof {
                assert forall|e: usize| !(#[trigger] self.has_in_edge(node as int, e) && self.reaches_depth(
                    self.begin_of(e),
                    (depth - 1) as nat,
                )) by {
                    if self.has_in_edge(node as int, e) {
                        assert(in_list@.to_set().contains(e));
                        let j = choose|j: int| 0 <= j < in_list@.len() && in_list@[j] == e;
                    }
                }
            }
            false
        } else {
            true
        }
    }

    /// Cuts edge `edge`, which flows into `node`: it leaves the in-edges of
    /// `node` and the out-edges of its start, and its start becomes a root.
    /// Cutting an edge still present keeps a tidy graph tidy.
    pub fn cut_edge(&mut self, node: usize, edge: usize)
        requires
            old(self).wf(),
            node < old(self).node_count(),
            edge < old(self).edge_count(),
            old(self).end_of(edge) == node,
        ensures
            final(self).wf(),
            final(self).cut_from(&*old(self)),
            final(self).root_list() == old(self).root_list().push(old(self).begin_of(edge) as usize),
            forall|i: int, e: usize| #[trigger] final(self).has_in_edge(i, e) == (old(self).has_in_edge(i, e) && e != edge),
            old(self).tidy() && old(self).present(edge) ==> final(self).tidy(),
    {
        let begin = self.edges[edge].begin;
        let ghost before = self.nodes@;
        self.roots.push(begin);
        set_remove(&mut self.nodes[node].in_edges, &edge);
        let ghost middle = self.nodes@;
        set_remove(&mut self.nodes[begin].out_edges, &edge);
        proof {
            assert forall|i: int, e: usize| #[trigger] self.has_in_edge(i, e) == (old(self).has_in_edge(i, e) && e != edge) by {
                if 0 <= i < self.nodes@.len() && i != node {
                    assert(self.nodes@[i].in_edges@ == before[i].in_edges@);
                }
            }
            assert forall|i: int| 0 <= i < self.nodes@.len() implies (#[trigger] self.nodes@[i]).index == i by {
                assert(before[i].index == i);
            }
            assert forall|i: int, e: usize|
                0 <= i < self.nodes@.len() && #[trigger] self.nodes@[i].out_edges@.contains(e) implies e
                    < self.edges@.len() && self.edges@[e as int].begin == i by {
                assert(before[i].out_edges@.contains(e));
            }
            assert forall|i: int, e: usize|
                0 <= i < self.nodes@.len() && #[trigger] self.nodes@[i].in_edges@.contains(e) implies e
                    < self.edges@.len() && self.edges@[e as int].end == i by {
                assert(before[i].in_edges@.contains(e));
            }
            assert forall|e: int|
                0 <= e < self.edges@.len() implies (self.nodes@[(#[trigger] self.edges@[e]).begin as int].out_edges@.contains(
                    e as usize,
                ) <==> self.nodes@[self.edges@[e].end as int].in_edges@.contains(e as usize)) by {
                assert(before[self.edges@[e].begin as int].out_edges@.contains(e as usize)
                    <==> before[self.edges@[e].end as int].in_edges@.contains(e as usize));
            }
            assert forall|i: int| 0 <= i < self.nodes@.len() implies (#[trigger] self.nodes@[i]).row == old(self).nodes@[i].row by {
                assert(before[i].row == old(self).nodes@[i].row);
            }
            assert forall|k: int| 0 <= k < self.roots@.len() implies #[trigger] self.roots@[k] < self.nodes@.len() by {
                if k < old(self).roots@.len() {
                    assert(old(self).roots@[k] < old(self).nodes@.len());
                }
            }
            if old(self).tidy() && old(self).present(edge) {
                let order = seq![edge];
                assert forall|e: usize| #[trigger] order.contains(e) <==> self.edge_was_cut(&*old(self), e) by {
                    if order.contains(e) {
                        assert(order[0] == e);
                    }
                    if e == edge {
                        assert(order[0] == e);
                    }
                }
                assert(self.roots@ =~= old(self).roots@ + order.map_values(|e: usize| old(self).edges@[e as int].begin));
                self.lemma_tidy_after_cuts(&*old(self), order);
            }
        }
    }

    /// Edge `e` flows into `node` from a node that reaches depth `depth`.
    pub open spec fn deep_in_edge(&self, node: int, e: usize, depth: nat) -> bool {
        self.has_in_edge(node, e) && self.reaches_depth(self.begin_of(e), depth)
    }

    /// Edge `e` flowed into `node` in `before` and is cut in `self`.
    pub open spec fn was_cut(&self, before: &Self, node: int, e: usize) -> bool {
        before.has_in_edge(node, e) && !self.has_in_edge(node, e)
    }

    /// `self` extends the roots of `before` by the starts of the edges listed in
    /// `order`, in that order.
    pub closed spec fn roots_extended_by(&self, before: &Self, order: Seq<usize>) -> bool {
        self.roots@ == before.roots@ + order.map_values(|e: usize| before.edges@[e as int].begin)
    }

    /// The in-edges of `node` listed in `in_list` whose start reaches `min_depth`.
    fn collect_deep_edges(&self, node: usize, in_list: &Vec<usize>, min_depth: usize) -> (deep: FxHashSet<usize>)
        requires
            self.wf(),
            node < self.node_count(),
            in_list@.to_set() == self.nodes@[node as int].in_edges@,
        ensures
            forall|e: usize| #[trigger] deep@.contains(e) <==> self.deep_in_edge(node as int, e, min_depth as nat),
    {
        let mut deep: FxHashSet<usize> = FxHashSet::default();
        let mut i: usize = 0;
        while i < in_list.len()
            invariant
                self.wf(),
                node < self.node_count(),
                in_list@.to_set() == self.nodes@[node as int].in_edges@,
                i <= in_list@.len(),
                forall|e: usize| #[trigger] deep@.contains(e) <==> (in_list@.take(i as int).contains(e)
                    && self.deep_in_edge(node as int, e, min_depth as nat)),
            decreases in_list@.len() - i,
        {
            let e = in_list[i];
            proof {
                assert(in_list@.to_set().contains(e));
                assert(self.has_in_edge(node as int, e));
                lemma_take_next(in_list@, i as int);
            }
            if self.depth_search(self.edges[e].begin, min_depth) {
                set_insert(&mut deep, e);
            }
            i += 1;
        }
        proof {
            assert(in_list@.take(in_list@.len() as int) =~= in_list@);
            assert forall|e: usize| #[trigger] deep@.contains(e) <==> self.deep_in_edge(node as int, e, min_depth as nat) by {
                if self.deep_in_edge(node as int, e, min_depth as nat) {
                    assert(in_list@.to_set().contains(e));
                }
            }
        }
        deep
    }

    /// The first edge of `list` of smallest length rank, if any edge has a rank.
    fn shortest_edge(&self, list: &Vec<usize>) -> (shortest: Option<usize>)
        requires
            self.wf(),
            forall|k: int| 0 <= k < list@.len() ==> (#[trigger] list@[k] as int) < self.edge_count(),
        ensures
            match shortest {
                Some(m) => list@.contains(m) && self.rank_of(m) is Some && forall|k: int|
                    0 <= k < list@.len() && (#[trigger] self.rank_of(list@[k])) is Some ==> self.rank_of(m).unwrap()
                        <= self.rank_of(list@[k]).unwrap(),
                None => forall|k: int| 0 <= k < list@.len() ==> (#[trigger] self.rank_of(list@[k])) is None,
            },
    {
        let mut min_edge: Option<usize> = None;
        let mut min_rank: u64 = 0;
        let mut j: usize = 0;
        while j < list.len()
            invariant
                self.wf(),
                forall|k: int| 0 <= k < list@.len() ==> (#[trigger] list@[k] as int) < self.edge_count(),
                j <= list@.len(),
                match min_edge {
                    Some(m) => list@.take(j as int).contains(m) && self.rank_of(m) == Some(min_rank) && forall|k: int|
                        0 <= k < j && (#[trigger] self.rank_of(list@[k])) is Some ==> min_rank <= self.rank_of(list@[k]).unwrap(),
                    None => forall|k: int| 0 <= k < j ==> (#[trigger] self.rank_of(list@[k])) is None,
                },
            decreases list@.len() - j,
        {
            let e = list[j];
            proof {
                assert(list@.take(j as int + 1) =~= list@.take(j as int).push(e));
                assert((list@[j as int] as int) < self.edge_count());
                if let Some(m) = min_edge {
                    let w = choose|w: int| 0 <= w < j && #[trigger] list@.take(j as int)[w] == m;
                    assert(list@.take(j as int + 1)[w] == m);
                }
            }
            match self.edges[e].rank {
                Some(r) => {
                    let better = match min_edge {
                        None => true,
                        Some(_) => r < min_rank,
                    };
                    if better {
                        min_edge = Some(e);
                        min_rank = r;
                        assert(list@.take(j as int + 1)[j as int] == e);
                    }
                },
                None => {},
            }
            j += 1;
        }
        assert(list@.take(list@.len() as int) =~= list@);
        min_edge
    }

    /// Cuts every edge of `list`, all of which flow into `node`, in list order.
    fn cut_edges(&mut self, node: usize, list: &Vec<usize>)
        requires
            old(self).wf(),
            node < old(self).node_count(),
            list@.no_duplicates(),
            forall|k: int| 0 <= k < list@.len() ==> old(self).has_in_edge(node as int, #[trigger] list@[k]),
        ensures
            final(self).wf(),
            final(self).cut_from(&*old(self)),
            forall|i: int, e: usize| #[trigger] final(self).has_in_edge(i, e) == (old(self).has_in_edge(i, e)
                && !(i == node && list@.contains(e))),
            final(self).roots_extended_by(&*old(self), list@),
    {
        let ghost g0 = *self;
        let mut k: usize = 0;
        proof {
            assert(g0.roots@ + list@.take(0).map_values(|e: usize| g0.edges@[e as int].begin) =~= g0.roots@);
        }
        while k < list.len()
            invariant
                g0 == *old(self),
                g0.wf(),
                self.wf(),
                node < g0.node_count(),
                self.cut_from(&g0),
                forall|m: int| 0 <= m < list@.len() ==> g0.has_in_edge(node as int, #[trigger] list@[m]),
                k <= list@.len(),
                forall|i: int, e: usize| #[trigger] self.has_in_edge(i, e) == (g0.has_in_edge(i, e)
                    && !(i == node && list@.take(k as int).contains(e))),
                self.roots_extended_by(&g0, list@.take(k as int)),
            decreases list@.len() - k,
        {
            let e = list[k];
            let ghost before = *self;
            proof {
                assert(g0.has_in_edge(node as int, list@[k as int]));
                assert(list@.take(k as int + 1) =~= list@.take(k as int).push(e));
                lemma_take_next(list@, k as int);
            }
            self.cut_edge(node, e);
            proof {
                assert forall|i: int, e2: usize| #[trigger] self.has_in_edge(i, e2) implies g0.has_in_edge(i, e2) by {
                    assert(before.has_in_edge(i, e2));
                }
                assert forall|i: int| 0 <= i < self.nodes@.len() implies (#[trigger] self.nodes@[i]).row == g0.nodes@[i].row by {
                    assert(before.nodes@[i].row == g0.nodes@[i].row);
                }
                assert forall|i: int, e2: usize| #[trigger] self.has_in_edge(i, e2) == (g0.has_in_edge(i, e2)
                    && !(i == node && list@.take(k as int + 1).contains(e2))) by {
                    assert(before.has_in_edge(i, e2) == (g0.has_in_edge(i, e2)
                        && !(i == node && list@.take(k as int).contains(e2))));
                }
                let f = |x: usize| g0.edges@[x as int].begin;
                assert(list@.take(k as int + 1).map_values(f) =~= list@.take(k as int).map_values(f).push(f(e)));
                assert(before.edges@ == g0.edges@);
            }
            k += 1;
        }
        assert(list@.take(list@.len() as int) =~= list@);
    }

    /// Splits at one node: when two or more of its in-edges come from nodes
    /// that reach `min_depth`, all of them but one of smallest length rank are
    /// cut (all of them when none has a rank), and the start of every cut edge
    /// becomes a root. Returns whether edges were cut.
    fn split_node_by_depth(&mut self, node: usize, min_depth: usize) -> (changed: bool)
        requires
            old(self).wf(),
            node < old(self).node_count(),
        ensures
            final(self).wf(),
            final(self).cut_from(&*old(self)),
            forall|i: int, e: usize| i != node ==> #[trigger] final(self).has_in_edge(i, e) == old(self).has_in_edge(i, e),
            forall|e: usize| #[trigger] final(self).was_cut(&*old(self), node as int, e)
                ==> old(self).deep_in_edge(node as int, e, min_depth as nat),
            forall|e1: usize, e2: usize|
                #[trigger] final(self).has_in_edge(node as int, e1) && #[trigger] final(self).has_in_edge(node as int, e2)
                    && old(self).deep_in_edge(node as int, e1, min_depth as nat)
                    && old(self).deep_in_edge(node as int, e2, min_depth as nat) ==> e1 == e2,
            forall|e: usize, e2: usize|
                #[trigger] final(self).has_in_edge(node as int, e) && old(self).deep_in_edge(node as int, e, min_depth as nat)
                    && #[trigger] old(self).deep_in_edge(node as int, e2, min_depth as nat) && e2 != e
                    ==> old(self).rank_of(e) is Some && (old(self).rank_of(e2) is Some
                        ==> old(self).rank_of(e).unwrap() <= old(self).rank_of(e2).unwrap()),
            forall|e2: usize| #[trigger] final(self).was_cut(&*old(self), node as int, e2) && old(self).rank_of(e2) is Some
                ==> exists|e: usize| #[trigger] final(self).has_in_edge(node as int, e)
                    && old(self).deep_in_edge(node as int, e, min_depth as nat),
            forall|e: usize| #[trigger] final(self).was_cut(&*old(self), node as int, e)
                ==> exists|e2: usize| e2 != e && #[trigger] old(self).deep_in_edge(node as int, e2, min_depth as nat),
            changed <==> exists|e1: usize, e2: usize| e1 != e2 && #[trigger] old(self).deep_in_edge(node as int, e1, min_depth as nat)
                && #[trigger] old(self).deep_in_edge(node as int, e2, min_depth as nat),
            !changed ==> *final(self) == *old(self),
            changed == exists|e: usize| #[trigger] final(self).was_cut(&*old(self), node as int, e),
            exists|order: Seq<usize>| {
                &&& order.no_duplicates()
                &&& forall|e: usize| #[trigger] order.contains(e) <==> final(self).was_cut(&*old(self), node as int, e)
                &&& final(self).roots_extended_by(&*old(self), order)
            },
    {
        let ghost g0 = *self;
        let ghost d = min_depth as nat;
        let in_list = set_items(&self.nodes[node].in_edges);
        proof {
            assert(g0.roots@ + Seq::<usize>::empty().map_values(|e: usize| g0.edges@[e as int].begin) =~= g0.roots@);
            assert(self.roots_extended_by(&g0, Seq::<usize>::empty()));
        }
        if in_list.len() <= 1 {
            proof {
                assert forall|e1: usize, e2: usize|
                    self.has_in_edge(node as int, e1) && self.has_in_edge(node as int, e2) implies e1 == e2 by {
                    assert(in_list@.to_set().contains(e1));
                    assert(in_list@.to_set().contains(e2));
                }
                let order = Seq::<usize>::empty();
                assert forall|e: usize| #[trigger] order.contains(e) <==> self.was_cut(&g0, node as int, e) by {}
                assert(order.no_duplicates());
                assert(self.roots_extended_by(&g0, order));
                assert forall|e1: usize, e2: usize| #[trigger] g0.deep_in_edge(node as int, e1, d)
                    && #[trigger] g0.deep_in_edge(node as int, e2, d) implies e1 == e2 by {
                    assert(self.has_in_edge(node as int, e1));
                }
            }
            return false;
        }
        let mut to_remove = self.collect_deep_edges(node, &in_list, min_depth);
        let remove_list = set_items(&to_remove);
        proof {
            assert forall|k: int| 0 <= k < remove_list@.len() implies (#[trigger] remove_list@[k] as int) < self.edge_count() by {
                assert(remove_list@.to_set().contains(remove_list@[k]));
            }
        }
        if remove_list.len() > 1 {
            let kept = self.shortest_edge(&remove_list);
            let ghost deep_set = to_remove@;
            match kept {
                Some(m) => {
                    set_remove(&mut to_remove, &m);
                },
                None => {},
            }
            let cut_list = set_items(&to_remove);
            proof {
                assert forall|k: int| 0 <= k < cut_list@.len() implies self.has_in_edge(node as int, #[trigger] cut_list@[k]) by {
                    assert(cut_list@.to_set().contains(cut_list@[k]));
                }
            }
            self.cut_edges(node, &cut_list);
            proof {
                assert forall|e: usize| #[trigger] cut_list@.contains(e) <==> self.was_cut(&g0, node as int, e) by {
                    if cut_list@.contains(e) {
                        assert(cut_list@.to_set().contains(e));
                    }
                    if self.was_cut(&g0, node as int, e) {
                        assert(cut_list@.contains(e));
                    }
                }
                assert forall|e: usize| #[trigger] remove_list@.contains(e) <==> g0.deep_in_edge(node as int, e, d) by {
                    if remove_list@.contains(e) {
                        assert(remove_list@.to_set().contains(e));
                    }
                    if g0.deep_in_edge(node as int, e, d) {
                        assert(remove_list@.to_set().contains(e));
                    }
                }
                assert forall|e: usize| #[trigger] self.has_in_edge(node as int, e) && g0.deep_in_edge(node as int, e, d)
                    implies kept == Some(e) by {
                    assert(!cut_list@.contains(e));
                    assert(!cut_list@.to_set().contains(e));
                    assert(deep_set.contains(e));
                }
                assert forall|e: usize, e2: usize|
                    #[trigger] self.has_in_edge(node as int, e) && g0.deep_in_edge(node as int, e, d)
                        && #[trigger] g0.deep_in_edge(node as int, e2, d) && e2 != e
                        implies g0.rank_of(e) is Some && (g0.rank_of(e2) is Some
                            ==> g0.rank_of(e).unwrap() <= g0.rank_of(e2).unwrap()) by {
                    assert(kept == Some(e));
                    assert(remove_list@.contains(e2));
                    let w = choose|w: int| 0 <= w < remove_list@.len() && #[trigger] remove_list@[w] == e2;
                    assert(g0.rank_of(remove_list@[w]) == g0.rank_of(e2));
                }
                assert forall|e1: usize, e2: usize|
                    #[trigger] self.has_in_edge(node as int, e1) && #[trigger] self.has_in_edge(node as int, e2)
                        && g0.deep_in_edge(node as int, e1, d) && g0.deep_in_edge(node as int, e2, d) implies e1 == e2 by {
                    assert(kept == Some(e1));
                    assert(kept == Some(e2));
                }
                let a = remove_list@[0];
                let b = remove_list@[1];
                assert(a != b);
                assert(remove_list@.to_set().contains(a));
                assert(remove_list@.to_set().contains(b));
                if kept == Some(a) {
                    assert(to_remove@.contains(b));
                    assert(cut_list@.to_set().contains(b));
                    assert(self.was_cut(&g0, node as int, b));
                } else {
                    assert(to_remove@.contains(a));
                    assert(cut_list@.to_set().contains(a));
                    assert(self.was_cut(&g0, node as int, a));
                }
                assert(cut_list@.no_duplicates());
                assert(self.roots_extended_by(&g0, cut_list@));
                assert forall|e: usize| #[trigger] self.was_cut(&g0, node as int, e) implies g0.deep_in_edge(node as int, e, d) by {
                    assert(cut_list@.contains(e));
                    assert(cut_list@.to_set().contains(e));
                    assert(deep_set.contains(e));
                }
                assert(g0.deep_in_edge(node as int, a, d) && g0.deep_in_edge(node as int, b, d));
                assert forall|e: usize| #[trigger] self.was_cut(&g0, node as int, e)
                    implies exists|e2: usize| e2 != e && #[trigger] g0.deep_in_edge(node as int, e2, d) by {
                    if e == a {
                        assert(b != e && g0.deep_in_edge(node as int, b, d));
                    } else {
                        assert(a != e && g0.deep_in_edge(node as int, a, d));
                    }
                }
                assert forall|e2: usize| #[trigger] self.was_cut(&g0, node as int, e2) && g0.rank_of(e2) is Some
                    implies exists|e: usize| #[trigger] self.has_in_edge(node as int, e) && g0.deep_in_edge(node as int, e, d) by {
                    assert(cut_list@.contains(e2));
                    assert(cut_list@.to_set().contains(e2));
                    assert(deep_set.contains(e2));
                    assert(remove_list@.contains(e2));
                    let w = choose|w: int| 0 <= w < remove_list@.len() && #[trigger] remove_list@[w] == e2;
                    assert(g0.rank_of(remove_list@[w]) is Some);
                    let m = kept.unwrap();
                    assert(remove_list@.contains(m));
                    assert(!to_remove@.contains(m));
                    assert(!cut_list@.to_set().contains(m));
                    assert(!cut_list@.contains(m));
                    assert(g0.deep_in_edge(node as int, m, d));
                    assert(self.has_in_edge(node as int, m));
                }
            }
            return true;
        }
        proof {
            assert forall|e1: usize, e2: usize|
                g0.deep_in_edge(node as int, e1, d) && g0.deep_in_edge(node as int, e2, d) implies e1 == e2 by {
                assert(remove_list@.to_set().contains(e1));
                assert(remove_list@.to_set().contains(e2));
            }
            let order = Seq::<usize>::empty();
            assert forall|e: usize| #[trigger] order.contains(e) <==> self.was_cut(&g0, node as int, e) by {}
            assert(order.no_duplicates());
            assert(self.roots_extended_by(&g0, order));
            assert(*self == g0);
        }
        false
    }

    /// Edge `e` was part of `before` and is cut in `self`.
    pub open spec fn edge_was_cut(&self, before: &Self, e: usize) -> bool {
        before.present(e) && !self.present(e)
    }

    proof fn lemma_cut_from_transitive(&self, mid: &Self, first: &Self)
        requires
            self.cut_from(mid),
            mid.cut_from(first),
        ensures
            self.cut_from(first),
    {
        assert forall|i: int| 0 <= i < self.nodes@.len() implies (#[trigger] self.nodes@[i]).row == first.nodes@[i].row by {
            assert(mid.nodes@[i].row == first.nodes@[i].row);
        }
        assert forall|i: int, e: usize| #[trigger] self.has_in_edge(i, e) implies first.has_in_edge(i, e) by {
            assert(mid.has_in_edge(i, e));
        }
    }

    /// Splits the graph by depth. Nodes are visited in order; at each node with
    /// two or more in-edges coming from nodes that reach `min_depth`, all of
    /// those edges but one of smallest length rank are cut (see
    /// [`Self::cut_edge`]). Returns whether any edge was cut.
    ///
    /// An edge is cut only at a node that had two or more such in-edges, and
    /// something is cut exactly when some node had them; otherwise the graph
    /// is left as it was. Afterwards no node has two in-edges coming from nodes
    /// that reach `min_depth`; wherever an edge with a rank was cut, a deep
    /// in-edge of no greater rank remains at its end (still deep afterwards
    /// in a tidy graph); an in-edge still deep at a node where edges were cut
    /// has a rank, no greater than that of any edge cut there; the new roots
    /// come node by node, in node order; a tidy graph stays tidy.
    #[verifier::spinoff_prover]
    #[verifier::rlimit(60)]
    pub fn split_by_depth(&mut self, min_depth: usize) -> (changed: bool)
        requires
            old(self).wf(),
        ensures
            final(self).wf(),
            final(self).cut_from(&*old(self)),
            changed == exists|e: usize| #[trigger] final(self).edge_was_cut(&*old(self), e),
            forall|e: usize| #[trigger] final(self).edge_was_cut(&*old(self), e)
                ==> old(self).deep_in_edge(old(self).end_of(e), e, min_depth as nat),
            forall|e2: usize| #[trigger] final(self).edge_was_cut(&*old(self), e2) && old(self).rank_of(e2) is Some
                ==> exists|e: usize| {
                    &&& #[trigger] final(self).has_in_edge(old(self).end_of(e2), e)
                    &&& old(self).deep_in_edge(old(self).end_of(e2), e, min_depth as nat)
                    &&& old(self).rank_of(e) is Some
                    &&& old(self).rank_of(e).unwrap() <= old(self).rank_of(e2).unwrap()
                },
            forall|e: usize| #[trigger] final(self).edge_was_cut(&*old(self), e)
                ==> exists|e2: usize| e2 != e && #[trigger] old(self).deep_in_edge(old(self).end_of(e), e2, min_depth as nat),
            changed <==> exists|i: int, e1: usize, e2: usize| e1 != e2 && #[trigger] old(self).deep_in_edge(i, e1, min_depth as nat)
                && #[trigger] old(self).deep_in_edge(i, e2, min_depth as nat),
            !changed ==> *final(self) == *old(self),
            old(self).tidy() ==> final(self).tidy(),
            old(self).tidy() ==> forall|e2: usize| #[trigger] final(self).edge_was_cut(&*old(self), e2) && old(self).rank_of(e2) is Some
                ==> exists|e: usize| {
                    &&& #[trigger] final(self).deep_in_edge(old(self).end_of(e2), e, min_depth as nat)
                    &&& old(self).rank_of(e) is Some
                    &&& old(self).rank_of(e).unwrap() <= old(self).rank_of(e2).unwrap()
                },
            forall|e2: usize, e: usize|
                #[trigger] final(self).edge_was_cut(&*old(self), e2) && #[trigger] final(self).deep_in_edge(
                    old(self).end_of(e2),
                    e,
                    min_depth as nat,
                ) ==> old(self).rank_of(e) is Some && (old(self).rank_of(e2) is Some ==> old(self).rank_of(e).unwrap()
                    <= old(self).rank_of(e2).unwrap()),
            forall|i: int, e1: usize, e2: usize|
                #[trigger] final(self).deep_in_edge(i, e1, min_depth as nat)
                    && #[trigger] final(self).deep_in_edge(i, e2, min_depth as nat) ==> e1 == e2,
            exists|order: Seq<usize>| {
                &&& order.no_duplicates()
                &&& forall|e: usize| #[trigger] order.contains(e) <==> final(self).edge_was_cut(&*old(self), e)
                &&& forall|a: int, b: int| 0 <= a < b < order.len() ==> old(self).end_of(#[trigger] order[a])
                    <= old(self).end_of(#[trigger] order[b])
                &&& final(self).roots_extended_by(&*old(self), order)
            },
    {
        let ghost g0 = *self;
        let ghost d = min_depth as nat;
        let ghost mut order: Seq<usize> = Seq::empty();
        let mut changed = false;
        let n = self.nodes.len();
        proof {
            assert(g0.roots@ + order.map_values(|e: usize| g0.edges@[e as int].begin) =~= g0.roots@);
            assert(self.cut_from(&g0));
        }
        let mut node_idx: usize = 0;
        while node_idx < n
            invariant
                g0 == *old(self),
                g0.wf(),
                self.wf(),
                n == g0.nodes@.len(),
                node_idx <= n,
                self.cut_from(&g0),
                forall|i: int, e: usize| node_idx <= i ==> #[trigger] self.has_in_edge(i, e) == g0.has_in_edge(i, e),
                forall|i: int, e1: usize, e2: usize|
                    0 <= i < node_idx && #[trigger] self.deep_in_edge(i, e1, d) && #[trigger] self.deep_in_edge(i, e2, d)
                        ==> e1 == e2,
                forall|e: usize| #[trigger] self.edge_was_cut(&g0, e) ==> g0.deep_in_edge(g0.end_of(e), e, d),
                forall|e2: usize| #[trigger] self.edge_was_cut(&g0, e2) && g0.rank_of(e2) is Some
                    ==> exists|e: usize| {
                        &&& #[trigger] self.has_in_edge(g0.end_of(e2), e)
                        &&& g0.deep_in_edge(g0.end_of(e2), e, d)
                        &&& g0.rank_of(e) is Some
                        &&& g0.rank_of(e).unwrap() <= g0.rank_of(e2).unwrap()
                    },
                changed == exists|e: usize| #[trigger] self.edge_was_cut(&g0, e),
                forall|e: usize| #[trigger] self.edge_was_cut(&g0, e)
                    ==> exists|e2: usize| e2 != e && #[trigger] g0.deep_in_edge(g0.end_of(e), e2, d),
                changed <==> exists|i: int, e1: usize, e2: usize| 0 <= i < node_idx && e1 != e2
                    && #[trigger] g0.deep_in_edge(i, e1, d) && #[trigger] g0.deep_in_edge(i, e2, d),
                !changed ==> *self == g0,
                g0.tidy() ==> forall|e2: usize| #[trigger] self.edge_was_cut(&g0, e2) && g0.rank_of(e2) is Some
                    ==> exists|e: usize| {
                        &&& #[trigger] self.deep_in_edge(g0.end_of(e2), e, d)
                        &&& g0.rank_of(e) is Some
                        &&& g0.rank_of(e).unwrap() <= g0.rank_of(e2).unwrap()
                    },
                forall|e2: usize, e: usize|
                    #[trigger] self.edge_was_cut(&g0, e2) && #[trigger] self.deep_in_edge(g0.end_of(e2), e, d)
                        ==> g0.rank_of(e) is Some && (g0.rank_of(e2) is Some ==> g0.rank_of(e).unwrap()
                        <= g0.rank_of(e2).unwrap()),
                order.no_duplicates(),
                forall|e: usize| #[trigger] order.contains(e) <==> self.edge_was_cut(&g0, e),
                forall|k: int| 0 <= k < order.len() ==> g0.end_of(#[trigger] order[k]) < node_idx,
                forall|a: int, b: int| 0 <= a < b < order.len() ==> g0.end_of(#[trigger] order[a]) <= g0.end_of(#[trigger] order[b]),
                self.roots_extended_by(&g0, order),
                d == min_depth as nat,
            decreases n - node_idx,
        {
            let ghost prev = *self;
            let step_changed = self.split_node_by_depth(node_idx, min_depth);
            proof {
                let step_order = choose|o: Seq<usize>| {
                    &&& o.no_duplicates()
                    &&& forall|e: usize| #[trigger] o.contains(e) <==> self.was_cut(&prev, node_idx as int, e)
                    &&& self.roots_extended_by(&prev, o)
                };
                self.lemma_cut_from_transitive(&prev, &g0);
                // An edge is cut now exactly when it flowed into this node and was cut by this step.
                assert forall|e: usize| #[trigger] self.was_cut(&prev, node_idx as int, e)
                    <==> (prev.present(e) && !self.present(e)) by {
                    if prev.present(e) && !self.present(e) {
                        assert(prev.has_in_edge(prev.end_of(e), e));
                        if prev.end_of(e) != node_idx {
                            assert(self.has_in_edge(prev.end_of(e), e) == prev.has_in_edge(prev.end_of(e), e));
                        }
                    }
                    if self.was_cut(&prev, node_idx as int, e) {
                        assert(prev.nodes@[node_idx as int].in_edges@.contains(e));
                    }
                }
                assert forall|e: usize| #[trigger] self.edge_was_cut(&g0, e)
                    <==> (prev.edge_was_cut(&g0, e) || self.was_cut(&prev, node_idx as int, e)) by {
                    if self.present(e) {
                        assert(prev.has_in_edge(self.end_of(e), e));
                    }
                }
                assert forall|e: usize| #[trigger] self.edge_was_cut(&g0, e) implies g0.deep_in_edge(g0.end_of(e), e, d) by {
                    if !prev.edge_was_cut(&g0, e) {
                        assert(self.was_cut(&prev, node_idx as int, e));
                        assert(prev.deep_in_edge(node_idx as int, e, d));
                        prev.lemma_cut_keeps_depth_bound(&g0, prev.begin_of(e), d);
                        assert(prev.has_in_edge(node_idx as int, e));
                        assert(g0.has_in_edge(node_idx as int, e));
                    }
                }
                assert forall|e2: usize| #[trigger] self.edge_was_cut(&g0, e2) && g0.rank_of(e2) is Some
                    implies exists|e: usize| {
                        &&& #[trigger] self.has_in_edge(g0.end_of(e2), e)
                        &&& g0.deep_in_edge(g0.end_of(e2), e, d)
                        &&& g0.rank_of(e) is Some
                        &&& g0.rank_of(e).unwrap() <= g0.rank_of(e2).unwrap()
                    } by {
                    if prev.edge_was_cut(&g0, e2) {
                        let e = choose|e: usize| {
                            &&& #[trigger] prev.has_in_edge(g0.end_of(e2), e)
                            &&& g0.deep_in_edge(g0.end_of(e2), e, d)
                            &&& g0.rank_of(e) is Some
                            &&& g0.rank_of(e).unwrap() <= g0.rank_of(e2).unwrap()
                        };
                        assert(g0.end_of(e2) < node_idx);
                        assert(self.has_in_edge(g0.end_of(e2), e));
                    } else {
                        assert(self.was_cut(&prev, node_idx as int, e2));
                        assert(prev.rank_of(e2) is Some);
                        let e = choose|e: usize| #[trigger] self.has_in_edge(node_idx as int, e)
                            && prev.deep_in_edge(node_idx as int, e, d);
                        assert(prev.deep_in_edge(node_idx as int, e2, d));
                        assert(e != e2);
                        assert(prev.rank_of(e) is Some && prev.rank_of(e).unwrap() <= prev.rank_of(e2).unwrap());
                        prev.lemma_cut_keeps_depth_bound(&g0, prev.begin_of(e), d);
                        assert(g0.has_in_edge(node_idx as int, e));
                        assert(g0.deep_in_edge(node_idx as int, e, d));
                        assert(g0.end_of(e2) == node_idx);
                    }
                }
                assert forall|i: int, e1: usize, e2: usize|
                    0 <= i < node_idx + 1 && #[trigger] self.deep_in_edge(i, e1, d) && #[trigger] self.deep_in_edge(i, e2, d)
                        implies e1 == e2 by {
                    self.lemma_cut_keeps_depth_bound(&prev, self.begin_of(e1), d);
                    self.lemma_cut_keeps_depth_bound(&prev, self.begin_of(e2), d);
                    assert(prev.deep_in_edge(i, e1, d));
                    assert(prev.deep_in_edge(i, e2, d));
                }
                assert forall|e: usize| #[trigger] self.edge_was_cut(&g0, e)
                    implies exists|e2: usize| e2 != e && #[trigger] g0.deep_in_edge(g0.end_of(e), e2, d) by {
                    if !prev.edge_was_cut(&g0, e) {
                        assert(self.was_cut(&prev, node_idx as int, e));
                        let e2 = choose|e2: usize| e2 != e && #[trigger] prev.deep_in_edge(node_idx as int, e2, d);
                        prev.lemma_cut_keeps_depth_bound(&g0, prev.begin_of(e2), d);
                        assert(g0.has_in_edge(node_idx as int, e2));
                        assert(g0.deep_in_edge(node_idx as int, e2, d));
                        assert(prev.has_in_edge(node_idx as int, e));
                        assert(g0.end_of(e) == node_idx);
                    }
                }
                assert forall|e2: usize, e: usize|
                    #[trigger] self.edge_was_cut(&g0, e2) && #[trigger] self.deep_in_edge(g0.end_of(e2), e, d)
                        implies g0.rank_of(e) is Some && (g0.rank_of(e2) is Some ==> g0.rank_of(e).unwrap()
                        <= g0.rank_of(e2).unwrap()) by {
                    self.lemma_cut_keeps_depth_bound(&prev, self.begin_of(e), d);
                    assert(prev.has_in_edge(g0.end_of(e2), e));
                    assert(prev.deep_in_edge(g0.end_of(e2), e, d));
                    if !prev.edge_was_cut(&g0, e2) {
                        assert(self.was_cut(&prev, node_idx as int, e2));
                        assert(prev.deep_in_edge(node_idx as int, e2, d));
                        assert(prev.has_in_edge(node_idx as int, e2));
                        assert(g0.end_of(e2) == node_idx);
                        assert(e != e2);
                        assert(prev.rank_of(e) == g0.rank_of(e));
                    }
                }
                if g0.tidy() {
                    assert(forall|e: int| 0 <= e < self.edges@.len() ==> (#[trigger] self.edges@[e]).begin < self.edges@[e].end) by {
                        assert(self.edges@ == g0.edges@);
                        assert forall|e: int| 0 <= e < self.edges@.len() implies (#[trigger] self.edges@[e]).begin < self.edges@[e].end by {
                            assert(g0.edges@[e].begin == e && e < g0.edges@[e].end);
                        }
                    }
                    assert forall|e2: usize| #[trigger] self.edge_was_cut(&g0, e2) && g0.rank_of(e2) is Some
                        implies exists|e: usize| {
                            &&& #[trigger] self.deep_in_edge(g0.end_of(e2), e, d)
                            &&& g0.rank_of(e) is Some
                            &&& g0.rank_of(e).unwrap() <= g0.rank_of(e2).unwrap()
                        } by {
                        let i = g0.end_of(e2);
                        let e = if prev.edge_was_cut(&g0, e2) {
                            choose|e: usize| {
                                &&& #[trigger] prev.deep_in_edge(g0.end_of(e2), e, d)
                                &&& g0.rank_of(e) is Some
                                &&& g0.rank_of(e).unwrap() <= g0.rank_of(e2).unwrap()
                            }
                        } else {
                            choose|e: usize| #[trigger] self.has_in_edge(node_idx as int, e) && prev.deep_in_edge(node_idx as int, e, d)
                        };
                        if prev.edge_was_cut(&g0, e2) {
                            assert(i < node_idx);
                            assert(self.has_in_edge(i, e) == prev.has_in_edge(i, e));
                        } else {
                            assert(self.was_cut(&prev, node_idx as int, e2));
                            assert(prev.has_in_edge(node_idx as int, e2));
                            assert(i == node_idx);
                            assert(prev.deep_in_edge(node_idx as int, e2, d));
                            assert(e != e2);
                        }
                        assert(prev.has_in_edge(i, e));
                        assert(prev.edges@[e as int].end == i);
                        assert(self.edges@[e as int].begin < self.edges@[e as int].end);
                        self.lemma_depth_frame(&prev, self.begin_of(e), d);
                        assert(self.deep_in_edge(i, e, d));
                    }
                }
                if !changed {
                    assert(prev == g0);
                }
                assert((changed || step_changed) <==> exists|i: int, e1: usize, e2: usize| 0 <= i < node_idx + 1 && e1 != e2
                    && #[trigger] g0.deep_in_edge(i, e1, d) && #[trigger] g0.deep_in_edge(i, e2, d)) by {
                    if step_changed && !changed {
                        let (e1, e2) = choose|e1: usize, e2: usize| e1 != e2 && #[trigger] prev.deep_in_edge(node_idx as int, e1, d)
                            && #[trigger] prev.deep_in_edge(node_idx as int, e2, d);
                        assert(g0.deep_in_edge(node_idx as int, e1, d) && g0.deep_in_edge(node_idx as int, e2, d));
                    }
                    if !changed && exists|i: int, e1: usize, e2: usize| 0 <= i < node_idx + 1 && e1 != e2
                        && #[trigger] g0.deep_in_edge(i, e1, d) && #[trigger] g0.deep_in_edge(i, e2, d) {
                        let (i, e1, e2) = choose|i: int, e1: usize, e2: usize| 0 <= i < node_idx + 1 && e1 != e2
                            && #[trigger] g0.deep_in_edge(i, e1, d) && #[trigger] g0.deep_in_edge(i, e2, d);
                        assert(i == node_idx);
                        assert(prev.deep_in_edge(node_idx as int, e1, d) && prev.deep_in_edge(node_idx as int, e2, d));
                    }
                }
                if !(changed || step_changed) {
                    assert(*self == prev);
                }
                let new_order = order + step_order;
                assert forall|k: int| 0 <= k < step_order.len() implies g0.end_of(#[trigger] step_order[k]) == node_idx by {
                    assert(step_order.contains(step_order[k]));
                    assert(prev.has_in_edge(node_idx as int, step_order[k]));
                }
                assert forall|k: int| 0 <= k < new_order.len() implies g0.end_of(#[trigger] new_order[k]) < node_idx + 1 by {
                    if k < order.len() {
                        assert(new_order[k] == order[k]);
                    } else {
                        assert(new_order[k] == step_order[k - order.len()]);
                    }
                }
                assert forall|a: int, b: int| 0 <= a < b < new_order.len() implies g0.end_of(#[trigger] new_order[a])
                    <= g0.end_of(#[trigger] new_order[b]) by {
                    if b < order.len() {
                        assert(new_order[a] == order[a] && new_order[b] == order[b]);
                    } else if a < order.len() {
                        assert(new_order[a] == order[a]);
                        assert(new_order[b] == step_order[b - order.len()]);
                    } else {
                        assert(new_order[a] == step_order[a - order.len()]);
                        assert(new_order[b] == step_order[b - order.len()]);
                    }
                }
                assert forall|e: usize| #[trigger] new_order.contains(e) <==> self.edge_was_cut(&g0, e) by {
                    if new_order.contains(e) {
                        let w = choose|w: int| 0 <= w < new_order.len() && new_order[w] == e;
                        if w < order.len() {
                            assert(order.contains(e));
                        } else {
                            assert(step_order[w - order.len()] == e);
                            assert(step_order.contains(e));
                        }
                    }
                    if order.contains(e) {
                        let w = choose|w: int| 0 <= w < order.len() && order[w] == e;
                        assert(new_order[w] == e);
                    }
                    if step_order.contains(e) {
                        let w = choose|w: int| 0 <= w < step_order.len() && step_order[w] == e;
                        assert(new_order[order.len() + w] == e);
                    }
                }
                assert(new_order.no_duplicates()) by {
                    assert forall|a: int, b: int| 0 <= a < b < new_order.len() implies new_order[a] != new_order[b] by {
                        if b >= order.len() && a < order.len() {
                            assert(order.contains(new_order[a]));
                            assert(step_order.contains(new_order[b]));
                            assert(prev.edge_was_cut(&g0, new_order[a]));
                            assert(self.was_cut(&prev, node_idx as int, new_order[b]));
                        } else if a >= order.len() {
                            assert(step_order[a - order.len()] == new_order[a]);
                            assert(step_order[b - order.len()] == new_order[b]);
                        } else {
                            assert(order[a] == new_order[a]);
                            assert(order[b] == new_order[b]);
                        }
                    }
                }
                let f = |e: usize| g0.edges@[e as int].begin;
                assert(new_order.map_values(f) =~= order.map_values(f) + step_order.map_values(f));
                assert(prev.edges@ == g0.edges@);
                assert(self.roots_extended_by(&g0, new_order)) by {
                    assert(step_order.map_values(|e: usize| prev.edges@[e as int].begin) =~= step_order.map_values(f));
                    assert(prev.roots@ == g0.roots@ + order.map_values(f));
                    assert(self.roots@ == prev.roots@ + step_order.map_values(f));
                    assert(self.roots@ =~= g0.roots@ + new_order.map_values(f));
                }
                order = new_order;
                if step_changed {
                    let e = choose|e: usize| #[trigger] self.was_cut(&prev, node_idx as int, e);
                    assert(self.edge_was_cut(&g0, e));
                }
                if changed {
                    let e = choose|e: usize| #[trigger] prev.edge_was_cut(&g0, e);
                    assert(self.edge_was_cut(&g0, e));
                }
                if exists|e: usize| #[trigger] self.edge_was_cut(&g0, e) {
                    let e = choose|e: usize| #[trigger] self.edge_was_cut(&g0, e);
                    if !prev.edge_was_cut(&g0, e) {
                        assert(self.was_cut(&prev, node_idx as int, e));
                    }
                }
            }
            changed = changed || step_changed;
            node_idx += 1;
        }
        proof {
            assert forall|i: int, e1: usize, e2: usize|
                #[trigger] self.deep_in_edge(i, e1, d) && #[trigger] self.deep_in_edge(i, e2, d) implies e1 == e2 by {
                assert(0 <= i < n);
            }
            if g0.tidy() {
                self.lemma_tidy_after_cuts(&g0, order);
            }
        }
        changed
    }

    /// Node `x` still has its out-edge (edge `x`).
    pub open spec fn has_out_edge(&self, x: int) -> bool {
        0 <= x < self.edge_count() && self.present(x as usize)
    }

    /// The shape of the graphs built from an arborescence whose edges all lead
    /// to a later node: edge `e` starts at node `e` and ends at a later node,
    /// and the roots are exactly the nodes without an out-edge, each once.
    pub closed spec fn tidy(&self) -> bool {
        &&& forall|e: int| 0 <= e < self.edges@.len() ==> (#[trigger] self.edges@[e]).begin == e && e < self.edges@[e].end
        &&& self.roots@.no_duplicates()
        &&& forall|x: usize| (x as int) < self.nodes@.len() ==> (#[trigger] self.roots@.contains(x) <==> !self.has_out_edge(x as int))
    }

    /// Cutting edges keeps a graph tidy when the starts of exactly the cut
    /// edges become roots.
    proof fn lemma_tidy_after_cuts(&self, before: &Self, order: Seq<usize>)
        requires
            before.wf(),
            self.wf(),
            before.tidy(),
            self.cut_from(before),
            order.no_duplicates(),
            forall|e: usize| #[trigger] order.contains(e) <==> self.edge_was_cut(before, e),
            self.roots_extended_by(before, order),
        ensures
            self.tidy(),
    {
        let f = |e: usize| before.edges@[e as int].begin;
        assert forall|k: int| 0 <= k < order.len() implies #[trigger] order.map_values(f)[k] == order[k] by {
            assert(order.contains(order[k]));
        }
        assert(order.map_values(f) =~= order);
        assert(self.roots@ =~= before.roots@ + order);
        assert forall|x: usize| (x as int) < self.nodes@.len() implies (#[trigger] self.roots@.contains(x) <==> !self.has_out_edge(x as int)) by {
            if self.roots@.contains(x) {
                let w = choose|w: int| 0 <= w < self.roots@.len() && self.roots@[w] == x;
                if w < before.roots@.len() {
                    assert(before.roots@.contains(x));
                } else {
                    assert(order[w - before.roots@.len()] == x);
                    assert(order.contains(x));
                }
            }
            if !self.has_out_edge(x as int) {
                if before.has_out_edge(x as int) {
                    assert(self.edge_was_cut(before, x));
                    assert(order.contains(x));
                    let w = choose|w: int| 0 <= w < order.len() && order[w] == x;
                    assert(self.roots@[before.roots@.len() + w] == x);
                } else {
                    assert(before.roots@.contains(x));
                    let w = choose|w: int| 0 <= w < before.roots@.len() && before.roots@[w] == x;
                    assert(self.roots@[w] == x);
                }
            }
        }
        assert(self.roots@.no_duplicates()) by {
            assert forall|a: int, b: int| 0 <= a < b < self.roots@.len() implies self.roots@[a] != self.roots@[b] by {
                let lb = before.roots@.len();
                if a < lb && b >= lb {
                    let x = self.roots@[b];
                    assert(order[b - lb] == x);
                    assert(order.contains(x));
                    assert(before.has_out_edge(x as int));
                    assert(before.roots@.contains(before.roots@[a]));
                    assert(before.roots@[a] < before.nodes@.len());
                } else if a >= lb {
                    assert(order[a - lb] == self.roots@[a]);
                    assert(order[b - lb] == self.roots@[b]);
                } else {
                    assert(before.roots@[a] == self.roots@[a]);
                    assert(before.roots@[b] == self.roots@[b]);
                }
            }
        }
    }

    /// The node reached from `x` by following out-edges for as long as there
    /// is one.
    spec fn top(&self, x: int) -> int
        decreases self.nodes@.len() - x,
    {
        if 0 <= x < self.edges@.len() && self.present(x as usize) && x < self.edges@[x].end < self.nodes@.len() {
            self.top(self.edges@[x].end as int)
        } else {
            x
        }
    }

    proof fn lemma_top_facts(&self, x: int)
        requires
            self.wf(),
            self.tidy(),
            0 <= x < self.node_count(),
        ensures
            0 <= self.top(x) < self.node_count(),
            !self.has_out_edge(self.top(x)),
            self.connected(self.top(x), x),
        decreases self.node_count() - x,
    {
        if self.has_out_edge(x) {
            let y = self.edges@[x].end as int;
            assert(x < y < self.nodes@.len());
            self.lemma_top_facts(y);
            let k = choose|k: nat| #[trigger] self.reach(self.top(y), y, k);
            assert(self.linked(y, x));
            assert(self.reach(self.top(y), x, k + 1));
        } else {
            assert(self.reach(x, x, 0));
        }
    }

    proof fn lemma_reach_same_top(&self, root: int, y: int, k: nat)
        requires
            self.wf(),
            self.tidy(),
            self.reach(root, y, k),
        ensures
            self.top(root) == self.top(y),
        decreases k,
    {
        if k > 0 {
            if self.reach(root, y, (k - 1) as nat) {
                self.lemma_reach_same_top(root, y, (k - 1) as nat);
            } else {
                let x = choose|x: int| self.reach(root, x, (k - 1) as nat) && #[trigger] self.linked(x, y);
                self.lemma_reach_same_top(root, x, (k - 1) as nat);
                let e = choose|e: usize|
                    #[trigger] self.present(e) && ((self.begin_of(e) == x && self.end_of(e) == y) || (self.begin_of(e)
                        == y && self.end_of(e) == x));
                assert(self.edges@[e as int].begin == e);
                assert(self.top(e as int) == self.top(self.edges@[e as int].end as int));
            }
        }
    }

    /// Law: in a tidy graph the sub-trees of the roots partition the nodes:
    /// every node lies in the sub-tree of exactly one root.
    pub proof fn lemma_subtrees_partition(&self, trees: Seq<Seq<usize>>)
        requires
            self.wf(),
            self.tidy(),
            trees.len() == self.root_list().len(),
            forall|r: int, y: usize|
                0 <= r < trees.len() ==> (#[trigger] trees[r].contains(y) <==> ((y as int) < self.node_count()
                    && self.connected(self.root_list()[r] as int, y as int))),
        ensures
            forall|y: usize| (y as int) < self.node_count() ==> #[trigger] in_some_tree(trees, y),
            forall|r1: int, r2: int, y: usize|
                0 <= r1 < trees.len() && 0 <= r2 < trees.len() && #[trigger] trees[r1].contains(y) && #[trigger] trees[r2].contains(y)
                    ==> r1 == r2,
    {
        assert forall|y: usize| (y as int) < self.node_count() implies #[trigger] in_some_tree(trees, y) by {
            self.lemma_top_facts(y as int);
            let t = self.top(y as int);
            assert(self.nodes@.len() == self.nodes.len());
            let tu = t as usize;
            assert(tu as int == t);
            assert(self.roots@.contains(tu) <==> !self.has_out_edge(tu as int));
            assert(self.roots@.contains(t as usize));
            let r = choose|r: int| 0 <= r < self.roots@.len() && self.roots@[r] == t as usize;
            assert(self.root_list()[r] as int == t);
            assert(trees[r].contains(y));
        }
        assert forall|r1: int, r2: int, y: usize|
            0 <= r1 < trees.len() && 0 <= r2 < trees.len() && #[trigger] trees[r1].contains(y) && #[trigger] trees[r2].contains(y)
                implies r1 == r2 by {
            let a = self.roots@[r1];
            let b = self.roots@[r2];
            let k1 = choose|k: nat| #[trigger] self.reach(a as int, y as int, k);
            let k2 = choose|k: nat| #[trigger] self.reach(b as int, y as int, k);
            self.lemma_reach_same_top(a as int, y as int, k1);
            self.lemma_reach_same_top(b as int, y as int, k2);
            assert(self.roots@.contains(a));
            assert(self.roots@.contains(b));
            assert(a < self.nodes@.len() && b < self.nodes@.len());
            assert(!self.has_out_edge(a as int));
            assert(!self.has_out_edge(b as int));
            assert(a == b);
        }
    }

    /// One step up from `x` along its out-edge, or `x` itself at a node
    /// without one.
    spec fn step_up(&self, x: int) -> int {
        if self.has_out_edge(x) {
            self.end_of(x as usize)
        } else {
            x
        }
    }

    /// The node `k` steps up from `x`.
    spec fn up(&self, x: int, k: nat) -> int
        decreases k,
    {
        if k == 0 {
            x
        } else {
            self.up(self.step_up(x), (k - 1) as nat)
        }
    }

    /// Node `c` lies on the way up from `x`: `x` hangs below `c`.
    spec fn below(&self, x: int, c: int) -> bool {
        exists|k: nat| #[trigger] self.up(x, k) == c
    }

    proof fn lemma_up_ge(&self, x: int, k: nat)
        requires
            self.tidy(),
        ensures
            self.up(x, k) >= x,
        decreases k,
    {
        if k > 0 {
            if self.has_out_edge(x) {
                assert(self.edges@[x].begin == x && x < self.edges@[x].end);
            }
            self.lemma_up_ge(self.step_up(x), (k - 1) as nat);
        }
    }

    proof fn lemma_up_add(&self, x: int, i: nat, j: nat)
        ensures
            self.up(x, i + j) == self.up(self.up(x, i), j),
        decreases i,
    {
        if i > 0 {
            self.lemma_up_add(self.step_up(x), (i - 1) as nat, j);
            assert((i + j - 1) as nat == (i - 1) as nat + j);
        }
    }

    /// The only edge leaving the nodes below `c` is the out-edge of `c`.
    proof fn lemma_only_exit(&self, x: int, b: int, c: int)
        requires
            self.wf(),
            self.tidy(),
            self.below(x, c),
            !self.below(b, c),
            self.linked(x, b),
        ensures
            x == c,
            self.has_out_edge(c),
            b == self.end_of(c as usize),
    {
        let e = choose|e: usize|
            #[trigger] self.present(e) && ((self.begin_of(e) == x && self.end_of(e) == b) || (self.begin_of(e) == b
                && self.end_of(e) == x));
        assert(self.edges@[e as int].begin == e);
        let k = choose|k: nat| #[trigger] self.up(x, k) == c;
        if self.begin_of(e) == b && self.end_of(e) == x {
            assert(self.has_out_edge(b));
            assert(self.step_up(b) == x);
            assert(self.up(b, k + 1) == c);
            assert(false);
        } else {
            assert(self.has_out_edge(x));
            assert(self.step_up(x) == b);
            if x != c {
                assert(k >= 1);
                assert(self.up(b, (k - 1) as nat) == c);
                assert(false);
            }
        }
    }

    /// A walk from outside the nodes below `c` into them passes the node
    /// above `c` one step earlier.
    proof fn lemma_enter(&self, u: int, b: int, c: int, k: nat)
        requires
            self.wf(),
            self.tidy(),
            self.reach(u, b, k),
            !self.below(u, c),
            self.below(b, c),
        ensures
            k >= 1,
            self.has_out_edge(c),
            self.reach(u, self.end_of(c as usize), (k - 1) as nat),
        decreases k,
    {
        if k == 0 {
            assert(false);
        } else if self.reach(u, b, (k - 1) as nat) {
            self.lemma_enter(u, b, c, (k - 1) as nat);
            self.lemma_reach_monotone(u, self.end_of(c as usize), (k - 2) as nat, (k - 1) as nat);
        } else {
            let x = choose|x: int| self.reach(u, x, (k - 1) as nat) && #[trigger] self.linked(x, b);
            if self.below(x, c) {
                self.lemma_enter(u, x, c, (k - 1) as nat);
                self.lemma_reach_monotone(u, self.end_of(c as usize), (k - 2) as nat, (k - 1) as nat);
            } else {
                assert(self.linked(b, x));
                self.lemma_only_exit(b, x, c);
            }
        }
    }

    /// A walk from below `c` to a node outside passes the node above `c`, one
    /// step earlier unless it ends there.
    proof fn lemma_exit(&self, u: int, b: int, c: int, k: nat)
        requires
            self.wf(),
            self.tidy(),
            self.reach(u, b, k),
            self.below(u, c),
            !self.below(b, c),
        ensures
            self.has_out_edge(c),
            b != self.end_of(c as usize) ==> k >= 1 && self.reach(u, self.end_of(c as usize), (k - 1) as nat),
        decreases k,
    {
        if k == 0 {
            assert(false);
        } else if self.reach(u, b, (k - 1) as nat) {
            self.lemma_exit(u, b, c, (k - 1) as nat);
            if b != self.end_of(c as usize) {
                self.lemma_reach_monotone(u, self.end_of(c as usize), (k - 2) as nat, (k - 1) as nat);
            }
        } else {
            let x = choose|x: int| self.reach(u, x, (k - 1) as nat) && #[trigger] self.linked(x, b);
            if self.below(x, c) {
                self.lemma_only_exit(x, b, c);
            } else {
                self.lemma_exit(u, x, c, (k - 1) as nat);
                if x != self.end_of(c as usize) {
                    self.lemma_reach_monotone(u, self.end_of(c as usize), (k - 2) as nat, (k - 1) as nat);
                }
            }
        }
    }

    /// A node hangs below at most one child of any node.
    proof fn lemma_one_child_above(&self, u: int, c1: int, c2: int)
        requires
            self.tidy(),
            self.below(u, c1),
            self.below(u, c2),
            self.has_out_edge(c1),
            self.has_out_edge(c2),
            self.end_of(c1 as usize) == self.end_of(c2 as usize),
        ensures
            c1 == c2,
    {
        let i = choose|k: nat| #[trigger] self.up(u, k) == c1;
        let j = choose|k: nat| #[trigger] self.up(u, k) == c2;
        let y = self.end_of(c1 as usize);
        assert(self.edges@[c1].begin == c1 && c1 < self.edges@[c1].end);
        assert(self.edges@[c2].begin == c2 && c2 < self.edges@[c2].end);
        if i < j {
            self.lemma_up_add(u, i, 1);
            assert(self.up(c1, 1) == self.up(self.step_up(c1), 0));
            self.lemma_up_add(u, i + 1, (j - i - 1) as nat);
            assert(i + 1 + (j - i - 1) as nat == j);
            self.lemma_up_ge(y, (j - i - 1) as nat);
            assert(false);
        } else if j < i {
            self.lemma_up_add(u, j, 1);
            assert(self.up(c2, 1) == self.up(self.step_up(c2), 0));
            self.lemma_up_add(u, j + 1, (i - j - 1) as nat);
            assert(j + 1 + (i - j - 1) as nat == i);
            self.lemma_up_ge(y, (i - j - 1) as nat);
            assert(false);
        }
    }

    /// Edge `e` is present and joins `y` to `x`.
    spec fn joins(&self, e: usize, y: int, x: int) -> bool {
        self.present(e) && ((self.begin_of(e) == y && self.end_of(e) == x) || (self.begin_of(e) == x && self.end_of(e) == y))
    }

    /// In a tidy graph a node at distance `d >= 1` from `u` has exactly one
    /// edge to a node at distance `d - 1`.
    proof fn lemma_one_edge_nearer(&self, u: int, y: int, d: nat, e1: usize, x1: int, e2: usize, x2: int)
        requires
            self.wf(),
            self.tidy(),
            0 <= u < self.node_count(),
            d >= 1,
            self.at_level(u, y, d),
            self.at_level(u, x1, (d - 1) as nat),
            self.at_level(u, x2, (d - 1) as nat),
            self.joins(e1, y, x1),
            self.joins(e2, y, x2),
        ensures
            e1 == e2,
    {
        assert(self.edges@[e1 as int].begin == e1 && e1 < self.edges@[e1 as int].end);
        assert(self.edges@[e2 as int].begin == e2 && e2 < self.edges@[e2 as int].end);
        // A nearer child of `y` has `u` below it.
        assert forall|c: int| #[trigger] self.has_out_edge(c) && self.end_of(c as usize) == y && self.at_level(u, c, (d - 1) as nat)
            implies self.below(u, c) by {
            if !self.below(u, c) {
                assert(self.up(c, 0) == c);
                self.lemma_enter(u, c, c, (d - 1) as nat);
                self.lemma_reach_monotone(u, y, (d - 2) as nat, (d - 1) as nat);
            }
        }
        let child1 = self.begin_of(e1) == x1;
        let child2 = self.begin_of(e2) == x2;
        if child1 {
            assert(self.has_out_edge(x1));
            assert(self.below(u, x1));
        }
        if child2 {
            assert(self.has_out_edge(x2));
            assert(self.below(u, x2));
        }
        if child1 && child2 {
            self.lemma_one_child_above(u, x1, x2);
        } else if child1 && !child2 {
            // `x2` lies above `y`, so not below `x1`.
            assert(e2 as int == y);
            if self.below(x2, x1) {
                let k = choose|k: nat| #[trigger] self.up(x2, k) == x1;
                self.lemma_up_ge(x2, k);
                assert(false);
            }
            self.lemma_exit(u, x2, x1, (d - 1) as nat);
            self.lemma_reach_monotone(u, y, (d - 2) as nat, (d - 1) as nat);
        } else if !child1 && child2 {
            assert(e1 as int == y);
            if self.below(x1, x2) {
                let k = choose|k: nat| #[trigger] self.up(x1, k) == x2;
                self.lemma_up_ge(x1, k);
                assert(false);
            }
            self.lemma_exit(u, x1, x2, (d - 1) as nat);
            self.lemma_reach_monotone(u, y, (d - 2) as nat, (d - 1) as nat);
        }
    }

    /// The nodes at distance 1 to `depth` from `node`.
    pub open spec fn near_nodes(&self, node: int, depth: nat) -> Set<usize> {
        Set::new(|y: usize| exists|d: nat| 1 <= d <= depth && #[trigger] self.at_level(node, y as int, d))
    }

    /// The end of edge `e` farther from `node`.
    spec fn far_from(&self, node: int, e: usize) -> usize {
        if self.dist(node, self.begin_of(e)) > self.dist(node, self.end_of(e)) {
            self.edges@[e as int].begin
        } else {
            self.edges@[e as int].end
        }
    }

    /// In a tidy graph the edges joining consecutive levels around `node`, up
    /// to `depth`, are as many as the nodes at distance 1 to `depth`.
    proof fn lemma_walk_counts_nodes(&self, node: int, depth: nat, w: Set<usize>)
        requires
            self.wf(),
            self.tidy(),
            0 <= node < self.node_count(),
            w.finite(),
            forall|e: usize| #[trigger] w.contains(e) <==> self.walked(node, e, depth),
        ensures
            w.len() == self.near_nodes(node, depth).len(),
    {
        let f = |e: usize| self.far_from(node, e);
        let nn = self.near_nodes(node, depth);
        // A walked edge joins levels d - 1 and d; `f` picks its end at level d.
        assert forall|e: usize, d: nat| #[trigger] self.edge_at_level(node, e, d) implies
            self.at_level(node, f(e) as int, d) && self.joins(e, f(e) as int,
                if f(e) as int == self.begin_of(e) { self.end_of(e) } else { self.begin_of(e) })
                && self.at_level(node, if f(e) as int == self.begin_of(e) { self.end_of(e) } else { self.begin_of(e) }, (d - 1) as nat) by {
            let b = self.begin_of(e);
            let en = self.end_of(e);
            assert(self.edges@[e as int].begin < self.nodes@.len());
            self.lemma_dist(node, b, if self.at_level(node, b, d) { d } else { (d - 1) as nat });
            self.lemma_dist(node, en, if self.at_level(node, en, d) { d } else { (d - 1) as nat });
            if self.at_level(node, b, d) {
                self.lemma_level_unique(node, b, d, self.dist(node, b));
                self.lemma_level_unique(node, en, (d - 1) as nat, self.dist(node, en));
            } else {
                self.lemma_level_unique(node, en, d, self.dist(node, en));
                self.lemma_level_unique(node, b, (d - 1) as nat, self.dist(node, b));
            }
        }
        assert(injective_on(f, w)) by {
            assert forall|e1: usize, e2: usize| w.contains(e1) && w.contains(e2) && #[trigger] f(e1) == #[trigger] f(e2) implies e1 == e2 by {
                let d1 = choose|d: nat| 1 <= d <= depth && #[trigger] self.edge_at_level(node, e1, d);
                let d2 = choose|d: nat| 1 <= d <= depth && #[trigger] self.edge_at_level(node, e2, d);
                let y = f(e1) as int;
                self.lemma_level_unique(node, y, d1, d2);
                let x1 = if y == self.begin_of(e1) { self.end_of(e1) } else { self.begin_of(e1) };
                let x2 = if y == self.begin_of(e2) { self.end_of(e2) } else { self.begin_of(e2) };
                self.lemma_one_edge_nearer(node, y, d1, e1, x1, e2, x2);
            }
        }
        assert(w.map(f) =~= nn) by {
            assert forall|y: usize| #[trigger] w.map(f).contains(y) implies nn.contains(y) by {
                let e = choose|e: usize| w.contains(e) && f(e) == y;
                let d = choose|d: nat| 1 <= d <= depth && #[trigger] self.edge_at_level(node, e, d);
                assert(self.at_level(node, y as int, d));
            }
            assert forall|y: usize| nn.contains(y) implies #[trigger] w.map(f).contains(y) by {
                let d = choose|d: nat| 1 <= d <= depth && #[trigger] self.at_level(node, y as int, d);
                self.lemma_next_level(node, y as int, (d - 1) as nat);
                assert((d - 1) as nat + 1 == d);
                let x = choose|x: int| self.at_level(node, x, (d - 1) as nat) && #[trigger] self.linked(x, y as int);
                let e = choose|e: usize|
                    #[trigger] self.present(e) && ((self.begin_of(e) == x && self.end_of(e) == y as int) || (self.begin_of(e)
                        == y as int && self.end_of(e) == x));
                assert(self.edge_at_level(node, e, d));
                assert(w.contains(e));
                assert(self.at_level(node, f(e) as int, d));
                if f(e) != y {
                    // Then `f(e)` is `x`, which lies at distance d - 1.
                    self.lemma_level_unique(node, x, (d - 1) as nat, d);
                }
                assert(w.contains(e) && f(e) == y);
            }
        }
        lemma_map_size(w, nn, f);
    }

    /// Nodes `x` and `y` are joined by an edge of the graph, in either direction.
    pub closed spec fn linked(&self, x: int, y: int) -> bool {
        exists|e: usize|
            #[trigger] self.present(e) && ((self.begin_of(e) == x && self.end_of(e) == y) || (self.begin_of(e)
                == y && self.end_of(e) == x))
    }

    /// Node `y` can be reached from `root` in at most `k` steps along edges,
    /// ignoring their direction.
    pub closed spec fn reach(&self, root: int, y: int, k: nat) -> bool
        decreases k,
    {
        if k == 0 {
            y == root
        } else {
            self.reach(root, y, (k - 1) as nat) || exists|x: int|
                self.reach(root, x, (k - 1) as nat) && #[trigger] self.linked(x, y)
        }
    }

    /// Node `y` lies in the same undirected component as `root`.
    pub open spec fn connected(&self, root: int, y: int) -> bool {
        exists|k: nat| #[trigger] self.reach(root, y, k)
    }

    proof fn lemma_closed_set_holds_component(&self, root: int, s: Set<usize>, y: int, k: nat)
        requires
            self.wf(),
            0 <= root < self.node_count(),
            s.contains(root as usize),
            forall|x: usize, z: int| s.contains(x) && #[trigger] self.linked(x as int, z) ==> 0 <= z < self.node_count() && s.contains(z as usize),
            self.reach(root, y, k),
        ensures
            0 <= y < self.node_count(),
            s.contains(y as usize),
        decreases k,
    {
        if k > 0 {
            if self.reach(root, y, (k - 1) as nat) {
                self.lemma_closed_set_holds_component(root, s, y, (k - 1) as nat);
            } else {
                let x = choose|x: int| self.reach(root, x, (k - 1) as nat) && #[trigger] self.linked(x, y);
                self.lemma_closed_set_holds_component(root, s, x, (k - 1) as nat);
                assert(self.linked(x as usize as int, y));
            }
        }
    }

    /// One neighbour met during a walk from `root`: a node not seen yet joins
    /// the sub-tree, the seen set and the back of the queue.
    fn visit(
        &self,
        y: usize,
        visited: &mut FxHashSet<usize>,
        queue: &mut VecDeque<usize>,
        subtree: &mut Vec<usize>,
    )
        requires
            self.wf(),
            y < self.node_count(),
        ensures
            final(visited)@ == old(visited)@.insert(y),
            old(visited)@.contains(y) ==> final(queue)@ == old(queue)@ && final(subtree)@ == old(subtree)@,
            !old(visited)@.contains(y) ==> final(queue)@ == old(queue)@.push(y) && final(subtree)@ == old(subtree)@.push(y),
    {
        if !set_contains(visited, &y) {
            subtree.push(self.nodes[y].index);
            set_insert(visited, y);
            queue.push_back(y);
        }
    }

    /// Meets every node listed in `neighbors` during a walk from `root`.
    fn visit_all(
        &self,
        neighbors: &Vec<usize>,
        visited: &mut FxHashSet<usize>,
        queue: &mut VecDeque<usize>,
        subtree: &mut Vec<usize>,
        Ghost(root): Ghost<int>,
    )
        requires
            self.wf(),
            0 <= root < self.node_count(),
            forall|j: int| 0 <= j < neighbors@.len() ==> (#[trigger] neighbors@[j] as int) < self.node_count(),
            forall|j: int| 0 <= j < neighbors@.len() ==> self.connected(root, #[trigger] neighbors@[j] as int),
            old(subtree)@.no_duplicates(),
            old(subtree)@.to_set() == old(visited)@,
            forall|k: int| 0 <= k < old(subtree)@.len() ==> (#[trigger] old(subtree)@[k] as int) < self.node_count(),
            forall|k: int| 0 <= k < old(subtree)@.len() ==> self.connected(root, #[trigger] old(subtree)@[k] as int),
            forall|k: int| 0 <= k < old(queue)@.len() ==> old(visited)@.contains(#[trigger] old(queue)@[k]),
        ensures
            final(subtree)@.no_duplicates(),
            final(subtree)@.to_set() == final(visited)@,
            forall|k: int| 0 <= k < final(subtree)@.len() ==> (#[trigger] final(subtree)@[k] as int) < self.node_count(),
            forall|k: int| 0 <= k < final(subtree)@.len() ==> self.connected(root, #[trigger] final(subtree)@[k] as int),
            forall|k: int| 0 <= k < final(queue)@.len() ==> final(visited)@.contains(#[trigger] final(queue)@[k]),
            old(visited)@.subset_of(final(visited)@),
            forall|j: int| 0 <= j < neighbors@.len() ==> final(visited)@.contains(#[trigger] neighbors@[j]),
            forall|w: usize| #[trigger] final(queue)@.contains(w) ==> old(queue)@.contains(w) || !old(visited)@.contains(w),
            forall|w: usize| #[trigger] final(visited)@.contains(w) && !old(visited)@.contains(w) ==> final(queue)@.contains(w),
            forall|w: usize| #[trigger] old(queue)@.contains(w) ==> final(queue)@.contains(w),
            final(subtree)@.len() - old(subtree)@.len() == final(queue)@.len() - old(queue)@.len(),
            final(subtree)@.len() >= old(subtree)@.len(),
            old(subtree)@.len() >= 1 ==> final(subtree)@[0] == old(subtree)@[0],
            final(queue)@.len() >= old(queue)@.len(),
            final(queue)@.take(old(queue)@.len() as int) == old(queue)@,
            final(subtree)@ == old(subtree)@ + final(queue)@.skip(old(queue)@.len() as int),
            forall|k: int| old(queue)@.len() <= k < final(queue)@.len() ==> !old(visited)@.contains(#[trigger] final(queue)@[k])
                && neighbors@.contains(final(queue)@[k]),
    {
        let mut i: usize = 0;
        while i < neighbors.len()
            invariant
                self.wf(),
                0 <= root < self.node_count(),
                forall|j: int| 0 <= j < neighbors@.len() ==> (#[trigger] neighbors@[j] as int) < self.node_count(),
                forall|j: int| 0 <= j < neighbors@.len() ==> self.connected(root, #[trigger] neighbors@[j] as int),
                i <= neighbors@.len(),
                subtree@.no_duplicates(),
                subtree@.to_set() == visited@,
                forall|k: int| 0 <= k < subtree@.len() ==> (#[trigger] subtree@[k] as int) < self.node_count(),
                forall|k: int| 0 <= k < subtree@.len() ==> self.connected(root, #[trigger] subtree@[k] as int),
                forall|k: int| 0 <= k < queue@.len() ==> visited@.contains(#[trigger] queue@[k]),
                old(visited)@.subset_of(visited@),
                forall|j: int| 0 <= j < i ==> visited@.contains(#[trigger] neighbors@[j]),
                forall|w: usize| #[trigger] queue@.contains(w) ==> old(queue)@.contains(w) || !old(visited)@.contains(w),
                forall|w: usize| #[trigger] visited@.contains(w) && !old(visited)@.contains(w) ==> queue@.contains(w),
                forall|w: usize| #[trigger] old(queue)@.contains(w) ==> queue@.contains(w),
                subtree@.len() - old(subtree)@.len() == queue@.len() - old(queue)@.len(),
                subtree@.len() >= old(subtree)@.len(),
                old(subtree)@.len() >= 1 ==> subtree@[0] == old(subtree)@[0],
                queue@.len() >= old(queue)@.len(),
                queue@.take(old(queue)@.len() as int) == old(queue)@,
                subtree@ == old(subtree)@ + queue@.skip(old(queue)@.len() as int),
                forall|k: int| old(queue)@.len() <= k < queue@.len() ==> !old(visited)@.contains(#[trigger] queue@[k])
                    && neighbors@.take(i as int).contains(queue@[k]),
            decreases neighbors@.len() - i,
        {
            let y = neighbors[i];
            let ghost v0 = visited@;
            let ghost s0 = subtree@;
            let ghost q0 = queue@;
            self.visit(y, visited, queue, subtree);
            proof {
                if !v0.contains(y) {
                    assert(!s0.contains(y)) by {
                        if s0.contains(y) {
                            assert(s0.to_set().contains(y));
                        }
                    }
                    s0.lemma_push_to_set_commute(y);
                    assert forall|a: int, c: int| 0 <= a < c < subtree@.len() implies subtree@[a] != subtree@[c] by {
                        if c == s0.len() {
                            assert(s0.contains(s0[a]));
                        }
                    }
                    assert forall|w: usize| #[trigger] q0.contains(w) implies queue@.contains(w) by {
                        let m = choose|m: int| 0 <= m < q0.len() && q0[m] == w;
                        assert(queue@[m] == w);
                    }
                    assert(queue@[q0.len() as int] == y);
                    assert forall|w: usize| #[trigger] queue@.contains(w) implies q0.contains(w) || w == y by {
                        let m = choose|m: int| 0 <= m < queue@.len() && queue@[m] == w;
                        if m < q0.len() {
                            assert(q0[m] == w);
                        }
                    }
                    assert forall|k: int| 0 <= k < queue@.len() implies visited@.contains(#[trigger] queue@[k]) by {
                        if k < q0.len() {
                            assert(v0.contains(q0[k]));
                        }
                    }
                    assert forall|k: int| 0 <= k < subtree@.len() implies self.connected(root, #[trigger] subtree@[k] as int) by {
                        if k < s0.len() {
                            assert(self.connected(root, s0[k] as int));
                        }
                    }
                    let ol = old(queue)@.len() as int;
                    assert(queue@.take(ol) =~= q0.take(ol));
                    assert(subtree@ =~= old(subtree)@ + queue@.skip(ol)) by {
                        assert(queue@.skip(ol) =~= q0.skip(ol).push(y));
                    }
                }
                lemma_take_next(neighbors@, i as int);
                assert forall|k: int| old(queue)@.len() <= k < queue@.len() implies !old(visited)@.contains(#[trigger] queue@[k])
                    && neighbors@.take(i as int + 1).contains(queue@[k]) by {
                    if k < q0.len() {
                        assert(queue@[k] == q0[k]);
                    } else {
                        assert(queue@[k] == y);
                        assert(neighbors@[i as int] == y);
                    }
                }
            }
            i += 1;
        }
        proof {
            assert(neighbors@.take(neighbors@.len() as int) =~= neighbors@);
        }
    }

    /// Every edge listed in `list`, mapped to the node at the chosen end.
    fn far_ends(&self, list: &Vec<usize>, take_begin: bool) -> (ends: Vec<usize>)
        requires
            self.wf(),
            forall|j: int| 0 <= j < list@.len() ==> (#[trigger] list@[j] as int) < self.edge_count(),
        ensures
            ends@.len() == list@.len(),
            forall|j: int| 0 <= j < list@.len() ==> #[trigger] ends@[j] as int == (if take_begin {
                self.begin_of(list@[j])
            } else {
                self.end_of(list@[j])
            }),
    {
        let mut ends: Vec<usize> = Vec::new();
        let mut i: usize = 0;
        while i < list.len()
            invariant
                self.wf(),
                forall|j: int| 0 <= j < list@.len() ==> (#[trigger] list@[j] as int) < self.edge_count(),
                i <= list@.len(),
                ends@.len() == i,
                forall|j: int| 0 <= j < i ==> #[trigger] ends@[j] as int == (if take_begin {
                    self.begin_of(list@[j])
                } else {
                    self.end_of(list@[j])
                }),
            decreases list@.len() - i,
        {
            let e = list[i];
            if take_begin {
                ends.push(self.edges[e].begin);
            } else {
                ends.push(self.edges[e].end);
            }
            i += 1;
        }
        ends
    }

    proof fn lemma_distinct_below(s: Seq<usize>, n: nat)
        requires
            s.no_duplicates(),
            forall|k: int| 0 <= k < s.len() ==> (#[trigger] s[k] as int) < n,
            n <= usize::MAX,
        ensures
            s.len() <= n,
    {
        s.unique_seq_to_set();
        assert(s.to_set().subset_of(Set::<usize>::range(0, n as usize)));
        vstd::set_lib::range_set_properties::<usize>(0, n as usize);
        vstd::set_lib::lemma_len_subset(s.to_set(), Set::<usize>::range(0, n as usize));
    }

    /// `t` lists nodes in breadth-first order from `root`: their distances
    /// from `root` never decrease along `t`.
    pub open spec fn layered(&self, root: int, t: Seq<usize>) -> bool {
        forall|a: int, b: int, da: nat, db: nat|
            0 <= a < b < t.len() && #[trigger] self.at_level(root, t[a] as int, da) && #[trigger] self.at_level(
                root,
                t[b] as int,
                db,
            ) ==> da <= db
    }

    /// The distance from `root` to `y`, edges taken in either direction
    /// (meaningful when `y` is connected to `root`).
    spec fn dist(&self, root: int, y: int) -> nat {
        choose|d: nat| self.at_level(root, y, d)
    }

    proof fn lemma_dist(&self, root: int, y: int, k: nat)
        requires
            self.reach(root, y, k),
        ensures
            self.at_level(root, y, self.dist(root, y)),
            self.dist(root, y) <= k,
        decreases k,
    {
        if k > 0 && self.reach(root, y, (k - 1) as nat) {
            self.lemma_dist(root, y, (k - 1) as nat);
        } else {
            assert(self.at_level(root, y, k));
            let d = self.dist(root, y);
            self.lemma_level_unique(root, y, d, k);
        }
    }

    /// During the breadth-first walk from `root`, with `s` the nodes met so far
    /// and `s[p]` the next node to take from the queue, every node no farther
    /// than `s[p]` has already been met.
    proof fn lemma_bfs_nearer_seen(
        &self,
        root: int,
        s: Seq<usize>,
        p: int,
        v: Set<usize>,
        q: Seq<usize>,
        z: int,
        dz: nat,
    )
        requires
            self.wf(),
            0 <= root < self.node_count(),
            s.len() >= 1,
            s[0] == root,
            s.no_duplicates(),
            s.to_set() == v,
            0 <= p < s.len(),
            q == s.skip(p),
            forall|x: usize, w: int| v.contains(x) && !q.contains(x) && #[trigger] self.linked(x as int, w) ==> v.contains(w as usize),
            forall|a: int, b: int| 0 <= a < b < s.len() ==> self.dist(root, #[trigger] s[a] as int) <= self.dist(root, #[trigger] s[b] as int),
            forall|k: int| 0 <= k < s.len() ==> self.at_level(root, #[trigger] s[k] as int, self.dist(root, s[k] as int)),
            self.at_level(root, z, dz),
            dz <= self.dist(root, s[p] as int),
        ensures
            0 <= z < self.node_count(),
            v.contains(z as usize),
        decreases dz,
    {
        self.lemma_reach_in_graph(root, z, dz);
        if dz == 0 {
            assert(v.contains(s[0])) by {
                assert(s.to_set().contains(s[0]));
            }
        } else {
            self.lemma_next_level(root, z, (dz - 1) as nat);
            let w = choose|w: int| self.at_level(root, w, (dz - 1) as nat) && #[trigger] self.linked(w, z);
            self.lemma_bfs_nearer_seen(root, s, p, v, q, w, (dz - 1) as nat);
            let wu = w as usize;
            assert(s.to_set().contains(wu));
            let i = choose|i: int| 0 <= i < s.len() && s[i] == wu;
            self.lemma_level_unique(root, w, (dz - 1) as nat, self.dist(root, s[i] as int));
            if i >= p {
                if i > p {
                    assert(self.dist(root, s[p] as int) <= self.dist(root, s[i] as int));
                }
                assert(false);
            }
            assert(!q.contains(wu)) by {
                if q.contains(wu) {
                    let j = choose|j: int| 0 <= j < q.len() && q[j] == wu;
                    assert(s[p + j] == wu);
                }
            }
            assert(self.linked(wu as int, z));
        }
    }

    /// The nodes reachable from `root` along the remaining edges, ignoring
    /// their direction, in breadth-first order starting with `root`.
    fn subtree_from(&self, root: usize) -> (subtree: Vec<usize>)
        requires
            self.wf(),
            root < self.node_count(),
        ensures
            subtree@.len() >= 1,
            subtree@[0] == root,
            subtree@.no_duplicates(),
            forall|y: usize| #[trigger] subtree@.contains(y) <==> ((y as int) < self.node_count() && self.connected(root as int, y as int)),
            forall|k: int| 0 <= k < subtree@.len() ==> self.at_level(root as int, #[trigger] subtree@[k] as int, self.dist(root as int, subtree@[k] as int)),
            self.layered(root as int, subtree@),
    {
        let ghost n = self.nodes@.len();
        let ghost mut p: int = 0;
        let mut visited: FxHashSet<usize> = FxHashSet::default();
        let mut queue: VecDeque<usize> = VecDeque::new();
        let mut subtree: Vec<usize> = Vec::new();
        set_insert(&mut visited, root);
        queue.push_front(root);
        subtree.push(self.nodes[root].index);
        proof {
            assert(self.nodes@.len() == self.nodes.len());
            assert(self.reach(root as int, root as int, 0));
            assert(subtree@.to_set() =~= visited@) by {
                assert(subtree@[0] == root);
            }
            assert(queue@[0] == root);
            self.lemma_dist(root as int, root as int, 0);
            assert(queue@ =~= subtree@.skip(0));
        }
        while queue.len() > 0
            invariant
                self.wf(),
                n == self.nodes@.len(),
                n <= usize::MAX,
                root < n,
                subtree@.len() >= 1,
                subtree@[0] == root,
                subtree@.no_duplicates(),
                subtree@.to_set() == visited@,
                forall|k: int| 0 <= k < subtree@.len() ==> (#[trigger] subtree@[k] as int) < n,
                forall|k: int| 0 <= k < subtree@.len() ==> self.connected(root as int, #[trigger] subtree@[k] as int),
                forall|k: int| 0 <= k < queue@.len() ==> visited@.contains(#[trigger] queue@[k]),
                forall|x: usize, z: int|
                    visited@.contains(x) && !queue@.contains(x) && #[trigger] self.linked(x as int, z) ==> visited@.contains(z as usize),
                0 <= p <= subtree@.len(),
                queue@ == subtree@.skip(p),
                forall|k: int| 0 <= k < subtree@.len() ==> self.at_level(root as int, #[trigger] subtree@[k] as int, self.dist(root as int, subtree@[k] as int)),
                forall|a: int, b: int| 0 <= a < b < subtree@.len() ==> self.dist(root as int, #[trigger] subtree@[a] as int)
                    <= self.dist(root as int, #[trigger] subtree@[b] as int),
                p < subtree@.len() ==> forall|k: int| p <= k < subtree@.len() ==> self.dist(root as int, #[trigger] subtree@[k] as int)
                    <= self.dist(root as int, subtree@[p] as int) + 1,
            decreases 2 * (n - subtree@.len()) + queue@.len(),
        {
            proof {
                Self::lemma_distinct_below(subtree@, n);
            }
            let ghost q0 = queue@;
            let ghost s0 = subtree@;
            let ghost v0 = visited@;
            if let Some(x) = queue.pop_front() {
                proof {
                    assert(q0[0] == x);
                    assert(visited@.contains(x));
                    assert(subtree@.to_set().contains(x));
                    let k = choose|k: int| 0 <= k < subtree@.len() && subtree@[k] == x;
                    assert(self.connected(root as int, x as int));
                    assert((x as int) < n);
                }
                let in_list = set_items(&self.nodes[x].in_edges);
                proof {
                    assert forall|j: int| 0 <= j < in_list@.len() implies (#[trigger] in_list@[j] as int) < self.edge_count() by {
                        assert(in_list@.to_set().contains(in_list@[j]));
                    }
                }
                let begins = self.far_ends(&in_list, true);
                proof {
                    let kx = choose|k: nat| #[trigger] self.reach(root as int, x as int, k);
                    assert forall|j: int| 0 <= j < begins@.len() implies self.connected(root as int, #[trigger] begins@[j] as int) by {
                        let e = in_list@[j];
                        assert(in_list@.to_set().contains(e));
                        assert(self.present(e));
                        assert(self.linked(x as int, begins@[j] as int));
                        assert(self.reach(root as int, begins@[j] as int, kx + 1));
                    }
                    assert forall|j: int| 0 <= j < begins@.len() implies (#[trigger] begins@[j] as int) < self.node_count() by {
                        assert((in_list@[j] as int) < self.edge_count());
                    }
                }
                let ghost v1 = visited@;
                let ghost q1 = queue@;
                let ghost s1 = subtree@;
                self.visit_all(&begins, &mut visited, &mut queue, &mut subtree, Ghost(root as int));
                let out_list = set_items(&self.nodes[x].out_edges);
                proof {
                    assert forall|j: int| 0 <= j < out_list@.len() implies (#[trigger] out_list@[j] as int) < self.edge_count() by {
                        assert(out_list@.to_set().contains(out_list@[j]));
                    }
                }
                let ends = self.far_ends(&out_list, false);
                proof {
                    let kx = choose|k: nat| #[trigger] self.reach(root as int, x as int, k);
                    assert forall|j: int| 0 <= j < ends@.len() implies self.connected(root as int, #[trigger] ends@[j] as int) by {
                        let e = out_list@[j];
                        assert(out_list@.to_set().contains(e));
                        assert(self.nodes@[x as int].out_edges@.contains(e));
                        assert(self.present(e));
                        assert(self.linked(x as int, ends@[j] as int));
                        assert(self.reach(root as int, ends@[j] as int, kx + 1));
                    }
                    assert forall|j: int| 0 <= j < ends@.len() implies (#[trigger] ends@[j] as int) < self.node_count() by {
                        assert((out_list@[j] as int) < self.edge_count());
                    }
                }
                let ghost v2 = visited@;
                let ghost q2 = queue@;
                let ghost s2 = subtree@;
                self.visit_all(&ends, &mut visited, &mut queue, &mut subtree, Ghost(root as int));
                proof {
                    // Every neighbour of `x` has been met.
                    assert forall|z: int| #[trigger] self.linked(x as int, z) implies visited@.contains(z as usize) by {
                        let e = choose|e: usize|
                            #[trigger] self.present(e) && ((self.begin_of(e) == x && self.end_of(e) == z) || (self.begin_of(e)
                                == z && self.end_of(e) == x));
                        if self.end_of(e) == x && self.begin_of(e) == z {
                            assert(self.nodes@[x as int].in_edges@.contains(e));
                            assert(in_list@.to_set().contains(e));
                            let j = choose|j: int| 0 <= j < in_list@.len() && in_list@[j] == e;
                            assert(begins@[j] as int == z);
                            assert(v2.contains(begins@[j]));
                        } else {
                            assert(self.nodes@[x as int].out_edges@.contains(e));
                            assert(out_list@.to_set().contains(e));
                            let j = choose|j: int| 0 <= j < out_list@.len() && out_list@[j] == e;
                            assert(ends@[j] as int == z);
                        }
                    }
                    // Nodes that left the queue earlier stay closed.
                    assert forall|w: usize, z: int|
                        visited@.contains(w) && !queue@.contains(w) && #[trigger] self.linked(w as int, z)
                            implies visited@.contains(z as usize) by {
                        if w != x {
                            if v0.contains(w) {
                                if !q0.contains(w) {
                                    assert(v0.contains(z as usize));
                                } else {
                                    let m = choose|m: int| 0 <= m < q0.len() && q0[m] == w;
                                    assert(m != 0);
                                    assert(q1[m - 1] == w);
                                    assert(q1.contains(w));
                                    assert(q2.contains(w));
                                    assert(queue@.contains(w));
                                }
                            } else if v2.contains(w) {
                                assert(q2.contains(w));
                                assert(queue@.contains(w));
                            } else {
                                assert(queue@.contains(w));
                            }
                        }
                    }
                    Self::lemma_distinct_below(subtree@, n);
                    // Breadth-first layering: the nodes met from `x` lie one step farther than `x`.
                    let ghost r = root as int;
                    let lx = self.dist(r, x as int);
                    assert(s0[p] == x) by {
                        assert(q0 == s0.skip(p));
                    }
                    assert(s1 == s0);
                    assert(v1 == v0);
                    assert(q1 =~= s0.skip(p + 1)) by {
                        assert(q0 =~= s0.skip(p));
                    }
                    assert(self.at_level(r, x as int, lx));
                    assert forall|k: int| s0.len() <= k < subtree@.len() implies !v0.contains(#[trigger] subtree@[k])
                        && self.linked(x as int, subtree@[k] as int) by {
                        if k < s2.len() {
                            let kk = q1.len() + k - s0.len();
                            assert(subtree@[k] == s2[k]);
                            assert(s2[k] == q2[kk]);
                            assert(begins@.contains(q2[kk]));
                            let j = choose|j: int| 0 <= j < begins@.len() && begins@[j] == q2[kk];
                            let e = in_list@[j];
                            assert(in_list@.to_set().contains(e));
                            assert(self.present(e));
                            assert(self.linked(x as int, begins@[j] as int));
                        } else {
                            let kk = q2.len() + k - s2.len();
                            assert(subtree@[k] == queue@[kk]);
                            assert(ends@.contains(queue@[kk]));
                            assert(!v2.contains(queue@[kk]));
                            let j = choose|j: int| 0 <= j < ends@.len() && ends@[j] == queue@[kk];
                            let e = out_list@[j];
                            assert(out_list@.to_set().contains(e));
                            assert(self.nodes@[x as int].out_edges@.contains(e));
                            assert(self.present(e));
                            assert(self.linked(x as int, ends@[j] as int));
                        }
                    }
                    assert forall|k: int| s0.len() <= k < subtree@.len() implies self.dist(r, #[trigger] subtree@[k] as int) == lx + 1
                        && self.at_level(r, subtree@[k] as int, self.dist(r, subtree@[k] as int)) by {
                        let z = subtree@[k] as int;
                        assert(!v0.contains(subtree@[k]) && self.linked(x as int, z));
                        assert(self.reach(r, x as int, lx));
                        assert(self.reach(r, z, lx + 1));
                        self.lemma_dist(r, z, lx + 1);
                        if self.dist(r, z) <= lx {
                            self.lemma_bfs_nearer_seen(r, s0, p, v0, q0, z, self.dist(r, z));
                            assert(subtree@[k] as int == z);
                        }
                    }
                    assert forall|k: int| 0 <= k < subtree@.len() implies self.at_level(r, #[trigger] subtree@[k] as int, self.dist(r, subtree@[k] as int)) by {
                        if k < s0.len() {
                            assert(subtree@[k] == s0[k]);
                        }
                    }
                    assert forall|a: int, b: int| 0 <= a < b < subtree@.len() implies self.dist(r, #[trigger] subtree@[a] as int)
                        <= self.dist(r, #[trigger] subtree@[b] as int) by {
                        if b < s0.len() {
                            assert(subtree@[a] == s0[a] && subtree@[b] == s0[b]);
                        } else if a < s0.len() {
                            assert(subtree@[a] == s0[a]);
                            if a < p {
                                assert(self.dist(r, s0[a] as int) <= self.dist(r, s0[p] as int));
                            } else if a > p {
                                assert(self.dist(r, s0[a] as int) <= self.dist(r, s0[p] as int) + 1);
                            }
                        }
                    }
                    assert(subtree@.skip(p + 1) =~= queue@) by {
                        assert forall|k: int| 0 <= k < queue@.len() implies subtree@.skip(p + 1)[k] == queue@[k] by {
                            if k < q2.len() {
                                assert(queue@[k] == q2[k]);
                                if k < q1.len() {
                                    assert(q2[k] == q1[k]);
                                    assert(q1[k] == s0[p + 1 + k]);
                                    assert(subtree@[p + 1 + k] == s0[p + 1 + k]);
                                } else {
                                    assert(s2[p + 1 + k] == q2[k]);
                                    assert(subtree@[p + 1 + k] == s2[p + 1 + k]);
                                }
                            } else {
                                assert(subtree@[p + 1 + k] == queue@[k]);
                            }
                        }
                    }
                    if p + 1 < subtree@.len() {
                        assert forall|k: int| p + 1 <= k < subtree@.len() implies self.dist(r, #[trigger] subtree@[k] as int)
                            <= self.dist(r, subtree@[p + 1] as int) + 1 by {
                            assert(self.dist(r, subtree@[p] as int) <= self.dist(r, subtree@[p + 1] as int));
                            assert(subtree@[p] == x);
                            if k < s0.len() {
                                assert(subtree@[k] == s0[k]);
                            }
                        }
                    }
                    p = p + 1;
                }
            } else {
                proof {
                    assert(false);
                }
            }
        }
        proof {
            assert forall|y: usize| #[trigger] subtree@.contains(y) <==> ((y as int) < self.node_count() && self.connected(root as int, y as int)) by {
                if subtree@.contains(y) {
                    let k = choose|k: int| 0 <= k < subtree@.len() && subtree@[k] == y;
                }
                if (y as int) < self.node_count() && self.connected(root as int, y as int) {
                    let k = choose|k: nat| #[trigger] self.reach(root as int, y as int, k);
                    assert(visited@.contains(root)) by {
                        assert(subtree@.to_set().contains(subtree@[0]));
                    }
                    self.lemma_closed_set_holds_component(root as int, visited@, y as int, k);
                    assert(subtree@.to_set().contains(y));
                }
            }
            assert forall|a: int, b: int, da: nat, db: nat|
                0 <= a < b < subtree@.len() && #[trigger] self.at_level(root as int, subtree@[a] as int, da)
                    && #[trigger] self.at_level(root as int, subtree@[b] as int, db) implies da <= db by {
                self.lemma_level_unique(root as int, subtree@[a] as int, da, self.dist(root as int, subtree@[a] as int));
                self.lemma_level_unique(root as int, subtree@[b] as int, db, self.dist(root as int, subtree@[b] as int));
            }
        }
        subtree
    }

    /// Number of nodes.
    pub fn len(&self) -> (n: usize)
        ensures
            n == self.node_count(),
    {
        self.nodes.len()
    }

    /// The in-edges of `node`, each once, in the order in which its edge set
    /// is walked.
    pub fn in_edge_list(&self, node: usize) -> (list: Vec<usize>)
        requires
            self.wf(),
            node < self.node_count(),
        ensures
            list@.no_duplicates(),
            forall|e: usize| #[trigger] list@.contains(e) <==> self.has_in_edge(node as int, e),
    {
        let list = set_items(&self.nodes[node].in_edges);
        proof {
            assert forall|e: usize| #[trigger] list@.contains(e) <==> self.has_in_edge(node as int, e) by {
                if list@.contains(e) {
                    assert(list@.to_set().contains(e));
                }
                if self.has_in_edge(node as int, e) {
                    assert(list@.to_set().contains(e));
                }
            }
        }
        list
    }

    /// The sub-trees of the graph: for every root, in the order the roots were
    /// recorded, the nodes joined to it by the remaining edges (ignoring their
    /// direction), starting with the root itself and in breadth-first order
    /// (distances from the root never decrease along a sub-tree). In a tidy
    /// graph the sub-trees partition the nodes.
    pub fn subtrees(&self) -> (trees: Vec<Vec<usize>>)
        requires
            self.wf(),
        ensures
            trees@.len() == self.root_list().len(),
            forall|r: int| 0 <= r < trees@.len() ==> {
                &&& (#[trigger] trees@[r])@.len() >= 1
                &&& trees@[r]@[0] == self.root_list()[r]
                &&& trees@[r]@.no_duplicates()
                &&& forall|y: usize| #[trigger] trees@[r]@.contains(y) <==> ((y as int) < self.node_count()
                    && self.connected(self.root_list()[r] as int, y as int))
                &&& self.layered(self.root_list()[r] as int, trees@[r]@)
            },
            self.tidy() ==> forall|y: usize| (y as int) < self.node_count()
                ==> #[trigger] in_some_tree(tree_seqs(trees@), y),
            self.tidy() ==> forall|r1: int, r2: int, y: usize|
                0 <= r1 < trees@.len() && 0 <= r2 < trees@.len() && #[trigger] trees@[r1]@.contains(y)
                    && #[trigger] trees@[r2]@.contains(y) ==> r1 == r2,
    {
        let mut trees: Vec<Vec<usize>> = Vec::new();
        let mut r: usize = 0;
        while r < self.roots.len()
            invariant
                self.wf(),
                r <= self.roots@.len(),
                trees@.len() == r,
                forall|q: int| 0 <= q < r ==> {
                    &&& (#[trigger] trees@[q])@.len() >= 1
                    &&& trees@[q]@[0] == self.root_list()[q]
                    &&& trees@[q]@.no_duplicates()
                    &&& forall|y: usize| #[trigger] trees@[q]@.contains(y) <==> ((y as int) < self.node_count()
                        && self.connected(self.root_list()[q] as int, y as int))
                    &&& self.layered(self.root_list()[q] as int, trees@[q]@)
                },
            decreases self.roots@.len() - r,
        {
            let root = self.roots[r];
            let tree = self.subtree_from(root);
            trees.push(tree);
            r += 1;
        }
        proof {
            if self.tidy() {
                let ts = tree_seqs(trees@);
                assert forall|q: int, y: usize| 0 <= q < ts.len() implies (#[trigger] ts[q].contains(y) <==> ((y as int)
                    < self.node_count() && self.connected(self.root_list()[q] as int, y as int))) by {
                    assert(ts[q] == trees@[q]@);
                }
                self.lemma_subtrees_partition(ts);
                assert forall|r1: int, r2: int, y: usize|
                    0 <= r1 < trees@.len() && 0 <= r2 < trees@.len() && #[trigger] trees@[r1]@.contains(y)
                        && #[trigger] trees@[r2]@.contains(y) implies r1 == r2 by {
                    assert(ts[r1] == trees@[r1]@);
                    assert(ts[r2] == trees@[r2]@);
                }
            }
        }
        trees
    }

    proof fn lemma_reach_monotone(&self, root: int, y: int, k: nat, k2: nat)
        requires
            self.reach(root, y, k),
            k <= k2,
        ensures
            self.reach(root, y, k2),
        decreases k2 - k,
    {
        if k < k2 {
            self.lemma_reach_monotone(root, y, k, (k2 - 1) as nat);
        }
    }

    /// Node `y` lies at distance exactly `d` from `node`, edges taken in either
    /// direction.
    pub open spec fn at_level(&self, node: int, y: int, d: nat) -> bool {
        self.reach(node, y, d) && (d == 0 || !self.reach(node, y, (d - 1) as nat))
    }

    /// Edge `e` joins a node at distance `d - 1` from `node` to a node at
    /// distance `d`.
    pub open spec fn edge_at_level(&self, node: int, e: usize, d: nat) -> bool {
        &&& d >= 1
        &&& self.present(e)
        &&& ((self.at_level(node, self.begin_of(e), (d - 1) as nat) && self.at_level(node, self.end_of(e), d))
            || (self.at_level(node, self.end_of(e), (d - 1) as nat) && self.at_level(node, self.begin_of(e), d)))
    }

    /// Edge `e` joins two consecutive levels among the first `depth` levels
    /// around `node`.
    pub open spec fn walked(&self, node: int, e: usize, depth: nat) -> bool {
        exists|d: nat| 1 <= d <= depth && #[trigger] self.edge_at_level(node, e, d)
    }

    /// The end of edge `e` away from the node walked: its start for an
    /// in-edge, its end for an out-edge.
    spec fn far_end(&self, e: usize, into: bool) -> usize {
        if into {
            self.edges@[e as int].begin
        } else {
            self.edges@[e as int].end
        }
    }

    /// Edge `e` is present, touches `x`, and leads from `x` to a node outside `done`.
    spec fn listed_from(&self, x: int, e: usize, done: Set<usize>) -> bool {
        &&& self.present(e)
        &&& ((self.end_of(e) == x && !done.contains(self.begin_of(e) as usize)) || (self.begin_of(e) == x
            && !done.contains(self.end_of(e) as usize)))
    }

    proof fn lemma_reach_in_graph(&self, root: int, y: int, k: nat)
        requires
            self.wf(),
            0 <= root < self.node_count(),
            self.reach(root, y, k),
        ensures
            0 <= y < self.node_count(),
        decreases k,
    {
        if k > 0 {
            if self.reach(root, y, (k - 1) as nat) {
                self.lemma_reach_in_graph(root, y, (k - 1) as nat);
            } else {
                let x = choose|x: int| self.reach(root, x, (k - 1) as nat) && #[trigger] self.linked(x, y);
                let e = choose|e: usize|
                    #[trigger] self.present(e) && ((self.begin_of(e) == x && self.end_of(e) == y) || (self.begin_of(e)
                        == y && self.end_of(e) == x));
                assert(self.edges@[e as int].begin < self.nodes@.len());
            }
        }
    }

    proof fn lemma_level_unique(&self, node: int, y: int, a: nat, b: nat)
        requires
            self.at_level(node, y, a),
            self.at_level(node, y, b),
        ensures
            a == b,
    {
        if a < b {
            self.lemma_reach_monotone(node, y, a, (b - 1) as nat);
        }
        if b < a {
            self.lemma_reach_monotone(node, y, b, (a - 1) as nat);
        }
    }

    /// The nodes at distance `d + 1` are those farther than `d` that are
    /// linked to a node at distance `d`.
    proof fn lemma_next_level(&self, node: int, y: int, d: nat)
        ensures
            self.at_level(node, y, d + 1) <==> (!self.reach(node, y, d) && exists|x: int|
                self.at_level(node, x, d) && #[trigger] self.linked(x, y)),
    {
        assert(self.reach(node, y, d + 1) == (self.reach(node, y, d) || exists|x: int|
            self.reach(node, x, d) && #[trigger] self.linked(x, y)));
        if self.at_level(node, y, d + 1) {
            let x = choose|x: int| self.reach(node, x, d) && #[trigger] self.linked(x, y);
            if d > 0 && self.reach(node, x, (d - 1) as nat) {
                assert(self.reach(node, y, d));
            }
            assert(self.at_level(node, x, d));
        }
        if !self.reach(node, y, d) && exists|x: int| self.at_level(node, x, d) && #[trigger] self.linked(x, y) {
            let x = choose|x: int| self.at_level(node, x, d) && #[trigger] self.linked(x, y);
            assert(self.reach(node, y, d + 1));
        }
    }

    /// An edge listed from a node at distance `d`, with `done` the nodes within
    /// `d`, joins level `d` to level `d + 1`.
    proof fn lemma_listed_is_next_level(&self, node: int, x: int, e: usize, d: nat, done: Set<usize>)
        requires
            self.at_level(node, x, d),
            forall|y: usize| #[trigger] done.contains(y) <==> self.reach(node, y as int, d),
            self.listed_from(x, e, done),
            0 <= self.begin_of(e),
            0 <= self.end_of(e),
        ensures
            self.edge_at_level(node, e, d + 1),
    {
        if self.end_of(e) == x && !done.contains(self.begin_of(e) as usize) {
            let y = self.begin_of(e);
            assert(self.linked(x, y));
            self.lemma_next_level(node, y, d);
        } else {
            let y = self.end_of(e);
            assert(self.linked(x, y));
            self.lemma_next_level(node, y, d);
        }
    }

    /// Walks the edges of `list`, all touching one node: every edge whose far
    /// end lies outside `done` is listed, and its far end is met.
    fn walk_list(
        &self,
        list: &Vec<usize>,
        into: bool,
        done: &FxHashSet<usize>,
        next: &mut Vec<usize>,
        next_set: &mut FxHashSet<usize>,
        counted: &mut Vec<usize>,
    )
        requires
            self.wf(),
            list@.no_duplicates(),
            forall|j: int| 0 <= j < list@.len() ==> (#[trigger] list@[j] as int) < self.edge_count(),
            old(next)@.no_duplicates(),
            old(next)@.to_set() == old(next_set)@,
            old(counted)@.no_duplicates(),
            forall|e: usize| #[trigger] list@.contains(e) && !done@.contains(self.far_end(e, into)) ==> !old(counted)@.contains(e),
        ensures
            final(next)@.no_duplicates(),
            final(next)@.to_set() == final(next_set)@,
            forall|y: usize| #[trigger] final(next_set)@.contains(y) <==> (old(next_set)@.contains(y) || (!done@.contains(y)
                && exists|e: usize| #[trigger] list@.contains(e) && self.far_end(e, into) == y)),
            final(counted)@.no_duplicates(),
            forall|e: usize| #[trigger] final(counted)@.contains(e) <==> (old(counted)@.contains(e) || (list@.contains(e)
                && !done@.contains(self.far_end(e, into)))),
    {
        let ghost n0 = next_set@;
        let ghost c0 = counted@;
        let mut i: usize = 0;
        while i < list.len()
            invariant
                self.wf(),
                list@.no_duplicates(),
                forall|j: int| 0 <= j < list@.len() ==> (#[trigger] list@[j] as int) < self.edge_count(),
                forall|e: usize| #[trigger] list@.contains(e) && !done@.contains(self.far_end(e, into)) ==> !c0.contains(e),
                i <= list@.len(),
                next@.no_duplicates(),
                next@.to_set() == next_set@,
                forall|y: usize| #[trigger] next_set@.contains(y) <==> (n0.contains(y) || (!done@.contains(y)
                    && exists|e: usize| #[trigger] list@.take(i as int).contains(e) && self.far_end(e, into) == y)),
                counted@.no_duplicates(),
                forall|e: usize| #[trigger] counted@.contains(e) <==> (c0.contains(e) || (list@.take(i as int).contains(e)
                    && !done@.contains(self.far_end(e, into)))),
            decreases list@.len() - i,
        {
            let e = list[i];
            let y = if into {
                self.edges[e].begin
            } else {
                self.edges[e].end
            };
            let ghost nx0 = next@;
            let ghost ns0 = next_set@;
            let ghost ct0 = counted@;
            proof {
                lemma_take_next(list@, i as int);
                assert(list@.contains(e));
                assert(!list@.take(i as int).contains(e)) by {
                    if list@.take(i as int).contains(e) {
                        let w = choose|w: int| 0 <= w < i && #[trigger] list@.take(i as int)[w] == e;
                        assert(list@[w] == list@[i as int]);
                    }
                }
            }
            if !set_contains(done, &y) {
                counted.push(e);
                proof {
                    assert(!ct0.contains(e));
                    assert forall|a: int, b: int| 0 <= a < b < counted@.len() implies counted@[a] != counted@[b] by {
                        if b == ct0.len() {
                            assert(ct0.contains(counted@[a]));
                        }
                    }
                    assert forall|f: usize| #[trigger] counted@.contains(f) <==> (ct0.contains(f) || f == e) by {
                        if counted@.contains(f) {
                            let w = choose|w: int| 0 <= w < counted@.len() && counted@[w] == f;
                            if w < ct0.len() {
                                assert(ct0[w] == f);
                            }
                        }
                        if ct0.contains(f) {
                            let w = choose|w: int| 0 <= w < ct0.len() && ct0[w] == f;
                            assert(counted@[w] == f);
                        }
                        if f == e {
                            assert(counted@[ct0.len() as int] == f);
                        }
                    }
                }
                if !set_contains(next_set, &y) {
                    set_insert(next_set, y);
                    next.push(y);
                    proof {
                        assert(!nx0.contains(y)) by {
                            if nx0.contains(y) {
                                assert(nx0.to_set().contains(y));
                            }
                        }
                        nx0.lemma_push_to_set_commute(y);
                        assert forall|a: int, b: int| 0 <= a < b < next@.len() implies next@[a] != next@[b] by {
                            if b == nx0.len() {
                                assert(nx0.contains(next@[a]));
                            }
                        }
                    }
                }
            }
            proof {
                assert forall|f: usize| #[trigger] list@.take(i as int + 1).contains(f) <==> (list@.take(i as int).contains(f)
                    || f == e) by {}
                assert forall|z: usize| #[trigger] next_set@.contains(z) <==> (n0.contains(z) || (!done@.contains(z)
                    && exists|f: usize| #[trigger] list@.take(i as int + 1).contains(f) && self.far_end(f, into) == z)) by {
                    if next_set@.contains(z) && !n0.contains(z) {
                        if z == y && !ns0.contains(z) {
                            assert(list@.take(i as int + 1).contains(e));
                        } else {
                            let f = choose|f: usize| #[trigger] list@.take(i as int).contains(f) && self.far_end(f, into) == z;
                            assert(list@.take(i as int + 1).contains(f));
                        }
                    }
                    if !n0.contains(z) && !done@.contains(z) && exists|f: usize|
                        #[trigger] list@.take(i as int + 1).contains(f) && self.far_end(f, into) == z {
                        let f = choose|f: usize| #[trigger] list@.take(i as int + 1).contains(f) && self.far_end(f, into) == z;
                        if f != e {
                            assert(list@.take(i as int).contains(f));
                        }
                    }
                }
            }
            i += 1;
        }
        proof {
            assert(list@.take(list@.len() as int) =~= list@);
        }
    }

    /// Walks every edge at node `x`, in-edges first: each edge leading to a
    /// node outside `done` is listed, and that node is met.
    fn walk_node(
        &self,
        x: usize,
        done: &FxHashSet<usize>,
        next: &mut Vec<usize>,
        next_set: &mut FxHashSet<usize>,
        counted: &mut Vec<usize>,
    )
        requires
            self.wf(),
            x < self.node_count(),
            done@.contains(x),
            old(next)@.no_duplicates(),
            old(next)@.to_set() == old(next_set)@,
            old(counted)@.no_duplicates(),
            forall|e: usize| #[trigger] self.listed_from(x as int, e, done@) ==> !old(counted)@.contains(e),
        ensures
            final(next)@.no_duplicates(),
            final(next)@.to_set() == final(next_set)@,
            forall|y: usize| #[trigger] final(next_set)@.contains(y) <==> (old(next_set)@.contains(y) || (!done@.contains(y)
                && self.linked(x as int, y as int))),
            final(counted)@.no_duplicates(),
            forall|e: usize| #[trigger] final(counted)@.contains(e) <==> (old(counted)@.contains(e) || self.listed_from(
                x as int,
                e,
                done@,
            )),
    {
        let ghost n0 = next_set@;
        let ghost c0 = counted@;
        let ins = set_items(&self.nodes[x].in_edges);
        proof {
            assert forall|e: usize| #[trigger] ins@.contains(e) <==> (self.present(e) && self.end_of(e) == x) by {
                if ins@.contains(e) {
                    assert(ins@.to_set().contains(e));
                }
                if self.present(e) && self.end_of(e) == x {
                    assert(ins@.to_set().contains(e));
                }
            }
            assert forall|j: int| 0 <= j < ins@.len() implies (#[trigger] ins@[j] as int) < self.edge_count() by {
                assert(ins@.contains(ins@[j]));
            }
            assert forall|e: usize| #[trigger] ins@.contains(e) && !done@.contains(self.far_end(e, true)) implies !c0.contains(e) by {
                assert(self.listed_from(x as int, e, done@));
            }
        }
        self.walk_list(&ins, true, done, next, next_set, counted);
        let ghost n1 = next_set@;
        let ghost c1 = counted@;
        let outs = set_items(&self.nodes[x].out_edges);
        proof {
            assert forall|e: usize| #[trigger] outs@.contains(e) <==> (self.present(e) && self.begin_of(e) == x) by {
                if outs@.contains(e) {
                    assert(outs@.to_set().contains(e));
                    assert(self.nodes@[x as int].out_edges@.contains(e));
                    assert(self.edges@[e as int].begin == x);
                    assert(self.nodes@[self.edges@[e as int].begin as int].out_edges@.contains(e));
                }
                if self.present(e) && self.begin_of(e) == x {
                    assert(self.nodes@[self.edges@[e as int].end as int].in_edges@.contains(e));
                    assert(outs@.to_set().contains(e));
                }
            }
            assert forall|j: int| 0 <= j < outs@.len() implies (#[trigger] outs@[j] as int) < self.edge_count() by {
                assert(outs@.contains(outs@[j]));
            }
            assert forall|e: usize| #[trigger] outs@.contains(e) && !done@.contains(self.far_end(e, false)) implies !c1.contains(e) by {
                assert(self.listed_from(x as int, e, done@));
                if ins@.contains(e) {
                    assert(self.end_of(e) == x);
                }
            }
        }
        self.walk_list(&outs, false, done, next, next_set, counted);
        proof {
            assert forall|e: usize| #[trigger] counted@.contains(e) <==> (c0.contains(e) || self.listed_from(x as int, e, done@)) by {
                if self.listed_from(x as int, e, done@) {
                    if self.end_of(e) == x && !done@.contains(self.begin_of(e) as usize) {
                        assert(ins@.contains(e));
                    } else {
                        assert(outs@.contains(e));
                    }
                }
            }
            assert forall|y: usize| #[trigger] next_set@.contains(y) <==> (n0.contains(y) || (!done@.contains(y)
                && self.linked(x as int, y as int))) by {
                if next_set@.contains(y) && !n0.contains(y) {
                    if n1.contains(y) {
                        let e = choose|e: usize| #[trigger] ins@.contains(e) && self.far_end(e, true) == y;
                        assert(self.present(e));
                    } else {
                        let e = choose|e: usize| #[trigger] outs@.contains(e) && self.far_end(e, false) == y;
                        assert(self.present(e));
                    }
                }
                if !n0.contains(y) && !done@.contains(y) && self.linked(x as int, y as int) {
                    let e = choose|e: usize|
                        #[trigger] self.present(e) && ((self.begin_of(e) == x && self.end_of(e) == y) || (self.begin_of(e)
                            == y && self.end_of(e) == x));
                    if self.end_of(e) == x && self.begin_of(e) == y {
                        assert(ins@.contains(e));
                        assert(n1.contains(y));
                    } else {
                        assert(outs@.contains(e));
                    }
                }
            }
        }
    }

    /// The edges met by a breadth-first walk of four levels from `node`,
    /// ignoring edge direction. Level by level, every edge from a node of the
    /// current level to a node farther than the current level is listed, in
    /// the order in which the nodes were met and, at each node, in-edges before
    /// out-edges. The walk gives the neighbour count and the summed edge
    /// lengths around `node`.
    ///
    /// The listed edges are exactly the edges joining a node at distance
    /// `d - 1` from `node` to a node at distance `d`, for `d` from 1 to 4, each
    /// once. In a tidy graph they are as many as the nodes at distance 1 to 4.
    pub fn edges_to_depth4(&self, node: usize) -> (counted: Vec<usize>)
        requires
            self.wf(),
            node < self.node_count(),
        ensures
            counted@.no_duplicates(),
            forall|e: usize| #[trigger] counted@.contains(e) <==> self.walked(node as int, e, 4),
            self.tidy() ==> counted@.len() == self.near_nodes(node as int, 4).len(),
    {
        let ghost nd = node as int;
        let mut counted: Vec<usize> = Vec::new();
        let mut done: FxHashSet<usize> = FxHashSet::default();
        set_insert(&mut done, node);
        let mut frontier: Vec<usize> = Vec::new();
        frontier.push(node);
        let mut depth: usize = 0;
        proof {
            assert forall|y: usize| #[trigger] frontier@.contains(y) <==> self.at_level(nd, y as int, 0) by {
                if y == node {
                    assert(frontier@[0] == y);
                }
            }
            assert forall|e: usize| #[trigger] counted@.contains(e) <==> self.walked(nd, e, 0) by {}
        }
        while depth < 4
            invariant
                self.wf(),
                nd == node as int,
                node < self.node_count(),
                depth <= 4,
                frontier@.no_duplicates(),
                forall|y: usize| #[trigger] frontier@.contains(y) <==> self.at_level(nd, y as int, depth as nat),
                forall|y: usize| #[trigger] done@.contains(y) <==> self.reach(nd, y as int, depth as nat),
                counted@.no_duplicates(),
                forall|e: usize| #[trigger] counted@.contains(e) <==> self.walked(nd, e, depth as nat),
            decreases 4 - depth,
        {
            let ghost d = depth as nat;
            let ghost c0 = counted@;
            let mut next: Vec<usize> = Vec::new();
            let mut next_set: FxHashSet<usize> = FxHashSet::default();
            let mut k: usize = 0;
            while k < frontier.len()
                invariant
                    self.wf(),
                    nd == node as int,
                    node < self.node_count(),
                    d == depth as nat,
                    depth < 4,
                    frontier@.no_duplicates(),
                    forall|y: usize| #[trigger] frontier@.contains(y) <==> self.at_level(nd, y as int, d),
                    forall|y: usize| #[trigger] done@.contains(y) <==> self.reach(nd, y as int, d),
                    forall|e: usize| #[trigger] c0.contains(e) <==> self.walked(nd, e, d),
                    k <= frontier@.len(),
                    next@.no_duplicates(),
                    next@.to_set() == next_set@,
                    forall|y: usize| #[trigger] next_set@.contains(y) <==> (!done@.contains(y) && exists|k2: int|
                        0 <= k2 < k && #[trigger] self.linked(frontier@[k2] as int, y as int)),
                    counted@.no_duplicates(),
                    forall|e: usize| #[trigger] counted@.contains(e) <==> (c0.contains(e) || exists|k2: int|
                        0 <= k2 < k && #[trigger] self.listed_from(frontier@[k2] as int, e, done@)),
                decreases frontier@.len() - k,
            {
                let x = frontier[k];
                proof {
                    assert(frontier@.contains(x));
                    assert(self.at_level(nd, x as int, d));
                    assert(done@.contains(x));
                    self.lemma_reach_in_graph(nd, x as int, d);
                    assert forall|e: usize| #[trigger] self.listed_from(x as int, e, done@) implies !counted@.contains(e) by {
                        if counted@.contains(e) {
                            assert(self.edges@[e as int].begin < self.nodes@.len());
                            self.lemma_listed_is_next_level(nd, x as int, e, d, done@);
                            if c0.contains(e) {
                                let j = choose|j: nat| 1 <= j <= d && #[trigger] self.edge_at_level(nd, e, j);
                                let b = self.begin_of(e);
                                let en = self.end_of(e);
                                if self.at_level(nd, b, (j - 1) as nat) && self.at_level(nd, en, j) {
                                    if self.at_level(nd, b, d + 1) {
                                        self.lemma_level_unique(nd, b, (j - 1) as nat, d + 1);
                                    } else {
                                        self.lemma_level_unique(nd, en, j, d + 1);
                                    }
                                } else {
                                    if self.at_level(nd, en, d + 1) {
                                        self.lemma_level_unique(nd, en, (j - 1) as nat, d + 1);
                                    } else {
                                        self.lemma_level_unique(nd, b, j, d + 1);
                                    }
                                }
                            } else {
                                let k2 = choose|k2: int| 0 <= k2 < k && #[trigger] self.listed_from(frontier@[k2] as int, e, done@);
                                let x2 = frontier@[k2];
                                assert(x2 != x);
                                assert(frontier@.contains(x2));
                                assert(done@.contains(x2));
                            }
                        }
                    }
                }
                let ghost ns0 = next_set@;
                let ghost ct0 = counted@;
                self.walk_node(x, &done, &mut next, &mut next_set, &mut counted);
                proof {
                    assert(frontier@[k as int] == x);
                    assert forall|y: usize| #[trigger] next_set@.contains(y) <==> (!done@.contains(y) && exists|k2: int|
                        0 <= k2 < k + 1 && #[trigger] self.linked(frontier@[k2] as int, y as int)) by {
                        if !done@.contains(y) && exists|k2: int| 0 <= k2 < k + 1 && #[trigger] self.linked(frontier@[k2] as int, y as int) {
                            let k2 = choose|k2: int| 0 <= k2 < k + 1 && #[trigger] self.linked(frontier@[k2] as int, y as int);
                            if k2 < k {
                                assert(ns0.contains(y));
                            }
                        }
                    }
                    assert forall|e: usize| #[trigger] counted@.contains(e) <==> (c0.contains(e) || exists|k2: int|
                        0 <= k2 < k + 1 && #[trigger] self.listed_from(frontier@[k2] as int, e, done@)) by {
                        if exists|k2: int| 0 <= k2 < k + 1 && #[trigger] self.listed_from(frontier@[k2] as int, e, done@) {
                            let k2 = choose|k2: int| 0 <= k2 < k + 1 && #[trigger] self.listed_from(frontier@[k2] as int, e, done@);
                            if k2 < k {
                                assert(ct0.contains(e));
                            }
                        }
                    }
                }
                k += 1;
            }
            proof {
                assert forall|y: usize| #[trigger] next_set@.contains(y) <==> self.at_level(nd, y as int, d + 1) by {
                    self.lemma_next_level(nd, y as int, d);
                    if next_set@.contains(y) {
                        let k2 = choose|k2: int| 0 <= k2 < frontier@.len() && #[trigger] self.linked(frontier@[k2] as int, y as int);
                        assert(frontier@.contains(frontier@[k2]));
                    }
                    if self.at_level(nd, y as int, d + 1) {
                        let x = choose|x: int| self.at_level(nd, x, d) && #[trigger] self.linked(x, y as int);
                        self.lemma_reach_in_graph(nd, x, d);
                        assert(frontier@.contains(x as usize));
                        let k2 = choose|k2: int| 0 <= k2 < frontier@.len() && frontier@[k2] == x as usize;
                        assert(self.linked(frontier@[k2] as int, y as int));
                    }
                }
                assert forall|e: usize| #[trigger] counted@.contains(e) <==> self.walked(nd, e, d + 1) by {
                    if counted@.contains(e) && !c0.contains(e) {
                        let k2 = choose|k2: int| 0 <= k2 < frontier@.len() && #[trigger] self.listed_from(frontier@[k2] as int, e, done@);
                        let x = frontier@[k2];
                        assert(frontier@.contains(x));
                        assert(self.edges@[e as int].begin < self.nodes@.len());
                        self.lemma_listed_is_next_level(nd, x as int, e, d, done@);
                        assert(self.walked(nd, e, d + 1));
                    }
                    if self.walked(nd, e, d + 1) && !c0.contains(e) {
                        let j = choose|j: nat| 1 <= j <= d + 1 && #[trigger] self.edge_at_level(nd, e, j);
                        if j <= d {
                            assert(self.walked(nd, e, d));
                        } else {
                            assert(j == d + 1);
                            let b = self.begin_of(e);
                            let en = self.end_of(e);
                            assert(self.edges@[e as int].begin < self.nodes@.len());
                            if self.at_level(nd, b, d) && self.at_level(nd, en, d + 1) {
                                assert(frontier@.contains(b as usize));
                                let k2 = choose|k2: int| 0 <= k2 < frontier@.len() && frontier@[k2] == b as usize;
                                assert(!done@.contains(en as usize));
                                assert(self.listed_from(frontier@[k2] as int, e, done@));
                            } else {
                                assert(frontier@.contains(en as usize));
                                let k2 = choose|k2: int| 0 <= k2 < frontier@.len() && frontier@[k2] == en as usize;
                                assert(!done@.contains(b as usize));
                                assert(self.listed_from(frontier@[k2] as int, e, done@));
                            }
                        }
                    }
                    if self.walked(nd, e, d) {
                        let j = choose|j: nat| 1 <= j <= d && #[trigger] self.edge_at_level(nd, e, j);
                        assert(1 <= j <= d + 1);
                    }
                }
            }
            let ghost done0 = done@;
            let mut m: usize = 0;
            while m < next.len()
                invariant
                    m <= next@.len(),
                    forall|y: usize| #[trigger] done@.contains(y) <==> (done0.contains(y) || next@.take(m as int).contains(y)),
                decreases next@.len() - m,
            {
                proof {
                    lemma_take_next(next@, m as int);
                }
                set_insert(&mut done, next[m]);
                m += 1;
            }
            proof {
                assert(next@.take(next@.len() as int) =~= next@);
                assert forall|y: usize| #[trigger] done@.contains(y) <==> self.reach(nd, y as int, d + 1) by {
                    if next@.contains(y) {
                        assert(next@.to_set().contains(y));
                    }
                    if next_set@.contains(y) {
                        assert(next@.to_set().contains(y));
                    }
                    if self.reach(nd, y as int, d + 1) && !self.reach(nd, y as int, d) {
                        assert(self.at_level(nd, y as int, d + 1));
                    }
                    if self.reach(nd, y as int, d) {
                        self.lemma_reach_monotone(nd, y as int, d, d + 1);
                    }
                }
                assert forall|y: usize| #[trigger] next@.contains(y) <==> self.at_level(nd, y as int, d + 1) by {
                    if next@.contains(y) {
                        assert(next@.to_set().contains(y));
                    }
                    if next_set@.contains(y) {
                        assert(next@.to_set().contains(y));
                    }
                }
            }
            frontier = next;
            depth += 1;
        }
        proof {
            if self.tidy() {
                counted@.unique_seq_to_set();
                assert forall|e: usize| #[trigger] counted@.to_set().contains(e) <==> self.walked(nd, e, 4) by {}
                self.lemma_walk_counts_nodes(nd, 4, counted@.to_set());
            }
        }
        counted
    }

    /// Builds the graph of a cluster from its arborescence: node `i` stands for
    /// the point `graph_points[i]`, and for every node `i` but the last,
    /// `targets[i]` gives the node its edge leads to and the rank of that
    /// edge's length. The last node is the first root.
    pub fn from_arborescence(graph_points: &Vec<usize>, targets: &Vec<(usize, Option<u64>)>) -> (g: Self)
        requires
            graph_points@.len() >= 1,
            targets@.len() + 1 == graph_points@.len(),
            forall|i: int| 0 <= i < targets@.len() ==> i <= (#[trigger] targets@[i]).0 < graph_points@.len(),
        ensures
            g.wf(),
            g.node_count() == graph_points@.len(),
            forall|i: int| 0 <= i < graph_points@.len() ==> #[trigger] g.row_of(i) == graph_points@[i],
            g.edge_count() == targets@.len(),
            forall|e: usize| (e as int) < targets@.len() ==> {
                &&& #[trigger] g.begin_of(e) == e
                &&& g.end_of(e) == targets@[e as int].0
                &&& g.rank_of(e) == targets@[e as int].1
                &&& g.present(e)
            },
            g.root_list() == seq![(graph_points@.len() - 1) as usize],
            (forall|i: int| 0 <= i < targets@.len() ==> i < (#[trigger] targets@[i]).0) ==> g.tidy(),
    {
        let n = graph_points.len();
        let mut nodes: Vec<Node> = Vec::new();
        let mut i: usize = 0;
        while i < n
            invariant
                n == graph_points@.len(),
                i <= n,
                nodes@.len() == i,
                forall|j: int| 0 <= j < i ==> (#[trigger] nodes@[j]).index == j && nodes@[j].row == graph_points@[j]
                    && nodes@[j].in_edges@ == Set::<usize>::empty() && nodes@[j].out_edges@ == Set::<usize>::empty(),
            decreases n - i,
        {
            nodes.push(Node { index: i, row: graph_points[i], in_edges: FxHashSet::default(), out_edges: FxHashSet::default() });
            i += 1;
        }
        let mut edges: Vec<Edge> = Vec::new();
        let mut k: usize = 0;
        while k < targets.len()
            invariant
                n == graph_points@.len(),
                targets@.len() + 1 == n,
                forall|i: int| 0 <= i < targets@.len() ==> i <= (#[trigger] targets@[i]).0 < n,
                k <= targets@.len(),
                nodes@.len() == n,
                edges@.len() == k,
                forall|e: int| 0 <= e < k ==> (#[trigger] edges@[e]).begin == e && edges@[e].end == targets@[e].0
                    && edges@[e].rank == targets@[e].1,
                forall|j: int| 0 <= j < n ==> (#[trigger] nodes@[j]).index == j && nodes@[j].row == graph_points@[j],
                forall|j: int| 0 <= j < n ==> (#[trigger] nodes@[j]).in_edges@ == Set::new(
                    |e: usize| e < k && targets@[e as int].0 == j,
                ),
                forall|j: int| 0 <= j < n ==> (#[trigger] nodes@[j]).out_edges@ == Set::new(
                    |e: usize| e < k && e == j,
                ),
            decreases targets@.len() - k,
        {
            let target = targets[k].0;
            edges.push(Edge { begin: k, end: target, rank: targets[k].1 });
            let ghost before = nodes@;
            set_insert(&mut nodes[k].out_edges, k);
            let ghost middle = nodes@;
            set_insert(&mut nodes[target].in_edges, k);
            proof {
                assert forall|j: int| 0 <= j < n implies (#[trigger] nodes@[j]).in_edges@ == Set::new(
                    |e: usize| e < k + 1 && targets@[e as int].0 == j,
                ) by {
                    assert(before[j].in_edges@ == Set::new(|e: usize| e < k && targets@[e as int].0 == j));
                    assert(nodes@[j].in_edges@ =~= Set::new(|e: usize| e < k + 1 && targets@[e as int].0 == j));
                }
                assert forall|j: int| 0 <= j < n implies (#[trigger] nodes@[j]).out_edges@ == Set::new(
                    |e: usize| e < k + 1 && e == j,
                ) by {
                    assert(before[j].out_edges@ == Set::new(|e: usize| e < k && e == j));
                    assert(nodes@[j].out_edges@ =~= Set::new(|e: usize| e < k + 1 && e == j));
                }
                assert forall|j: int| 0 <= j < n implies (#[trigger] nodes@[j]).index == j && nodes@[j].row == graph_points@[j] by {
                    assert(before[j].index == j);
                }
            }
            k += 1;
        }
        let mut roots: Vec<usize> = Vec::new();
        roots.push(n - 1);
        let g = DiGraph { edges, nodes, roots };
        proof {
            assert(g.roots@ =~= seq![(n - 1) as usize]);
            assert forall|e: usize| (e as int) < targets@.len() implies g.present(e) by {
                assert(g.nodes@[targets@[e as int].0 as int].in_edges@.contains(e));
            }
            if forall|i: int| 0 <= i < targets@.len() ==> i < (#[trigger] targets@[i]).0 {
                assert forall|x: usize| (x as int) < g.nodes@.len() implies (#[trigger] g.roots@.contains(x)
                    <==> !g.has_out_edge(x as int)) by {
                    if g.roots@.contains(x) {
                        assert(g.roots@[0] == x);
                    }
                    if !g.has_out_edge(x as int) {
                        assert(x == n - 1);
                        assert(g.roots@[0] == x);
                    }
                }
                assert(g.tidy());
            }
        }
        g
    }
}

} // verus!
