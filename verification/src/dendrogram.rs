//! The merge history of a hierarchical clustering, and the cluster labels it
//! induces on the clustered observations.
//!
//! A clustering of `n` observations is a list of merge steps. Step `j` joins
//! the clusters labelled `cluster1` and `cluster2` into a new cluster labelled
//! `n + j`; a label below `n` is the single observation of that index.
use vstd::prelude::*;

verus! {

/// One merge of two clusters.
#[derive(Debug, Clone, Copy, PartialEq, Eq, Structural)]
pub struct MergeStep {
    /// Label of the first merged cluster (the smaller label).
    pub cluster1: usize,
    /// Label of the second merged cluster.
    pub cluster2: usize,
    /// Number of observations in the merged cluster.
    pub size: usize,
}

/// The merge steps of a hierarchical clustering of `observations` items.
#[derive(Debug, Clone)]
pub struct Dendrogram {
    pub observations: usize,
    pub steps: Vec<MergeStep>,
}

/// Number of observations in the cluster with the given label.
pub open spec fn size_of_cluster(observations: int, steps: Seq<MergeStep>, label: int) -> int {
    if label < observations {
        1
    } else {
        steps[label - observations].size as int
    }
}

impl Dendrogram {
    /// Number of observations in the cluster with the given label: one for an
    /// observation, the recorded size for a merged cluster.
    pub fn cluster_size(&self, label: usize) -> (size: usize)
        requires
            label < self.observations + self.steps@.len(),
        ensures
            size == size_of_cluster(self.observations as int, self.steps@, label as int),
            label < self.observations ==> size == 1,
            label >= self.observations ==> size == self.steps@[label - self.observations].size,
    {
        if label < self.observations {
            1
        } else {
            self.steps[label - self.observations].size
        }
    }
}

/// Law: a single observation is a cluster of one, and the cluster made by
/// merge step `j` holds the number of observations recorded by that step.
/// When the step records the sizes of its two children added up, that is the
/// number of observations the two merged clusters hold.
pub proof fn lemma_cluster_size_is_recorded(observations: int, steps: Seq<MergeStep>, j: int)
    requires
        0 <= j < steps.len(),
        0 <= observations,
    ensures
        forall|t: int| 0 <= t < observations ==> #[trigger] size_of_cluster(observations, steps, t) == 1,
        size_of_cluster(observations, steps, observations + j) == steps[j].size,
        ({
            let c1 = steps[j].cluster1 as int;
            let c2 = steps[j].cluster2 as int;
            let held1 = if c1 < observations { 1 } else { steps[c1 - observations].size as int };
            let held2 = if c2 < observations { 1 } else { steps[c2 - observations].size as int };
            steps[j].size == held1 + held2 ==> size_of_cluster(observations, steps, observations + j) == size_of_cluster(
                observations,
                steps,
                c1,
            ) + size_of_cluster(observations, steps, c2)
                && size_of_cluster(observations, steps, observations + j) == held1 + held2
        }),
{
}

/// Replaces every occurrence of `from` (and of `also`) by `to`.
pub open spec fn relabel(labels: Seq<i32>, from: i32, also: i32, to: i32) -> Seq<i32> {
    Seq::new(labels.len(), |i: int| if labels[i] == from || labels[i] == also { to } else { labels[i] })
}

/// The labels after one more merge step, which creates the cluster `label`.
///
/// Observations merged directly take the new label; so do the members of a
/// merged cluster, which carry that cluster's label.
pub open spec fn apply_merge(labels: Seq<i32>, n: int, step: MergeStep, label: i32) -> Seq<i32> {
    let c1 = step.cluster1 as int;
    let c2 = step.cluster2 as int;
    if c1 < n && c2 < n {
        labels.update(c1, label).update(c2, label)
    } else if c1 < n {
        relabel(labels.update(c1, label), step.cluster2 as i32, step.cluster2 as i32, label)
    } else {
        relabel(labels, step.cluster1 as i32, step.cluster2 as i32, label)
    }
}

/// Labels of `n` observations after the first `k` merge steps, where the
/// cluster made by step `j` is labelled `base + j` and observations not merged
/// yet are labelled `-1`.
pub open spec fn labels_after(n: int, steps: Seq<MergeStep>, base: int, k: int) -> Seq<i32>
    decreases k,
{
    if k <= 0 {
        Seq::new(n as nat, |i: int| -1i32)
    } else {
        apply_merge(labels_after(n, steps, base, k - 1), n, steps[k - 1], (base + k - 1) as i32)
    }
}

/// The labels after any number of merge steps cover all `n` observations.
pub proof fn lemma_labels_after_len(n: int, steps: Seq<MergeStep>, base: int, k: int)
    requires
        n >= 0,
    ensures
        labels_after(n, steps, base, k).len() == n,
    decreases k,
{
    if k > 0 {
        lemma_labels_after_len(n, steps, base, k - 1);
    }
}

/// The merge steps form a proper merge history of `n` observations: each step
/// joins two distinct clusters that already exist, the smaller label first,
/// and no cluster is merged twice.
pub open spec fn merges_well_formed(n: int, steps: Seq<MergeStep>) -> bool {
    &&& forall|j: int| 0 <= j < steps.len() ==> {
        &&& #[trigger] steps[j].cluster1 < steps[j].cluster2
        &&& steps[j].cluster2 < n + j
    }
    &&& forall|i: int, j: int| 0 <= i < j < steps.len() ==> {
        &&& #[trigger] steps[j].cluster1 != #[trigger] steps[i].cluster1
        &&& steps[j].cluster1 != steps[i].cluster2
        &&& steps[j].cluster2 != steps[i].cluster1
        &&& steps[j].cluster2 != steps[i].cluster2
    }
}

/// The label of the cluster that holds observation `t` after `k` merge steps:
/// `t` itself until it is merged, then the label `n + j` of the latest step `j`
/// that merged its cluster.
pub open spec fn current_cluster(n: int, steps: Seq<MergeStep>, k: int, t: int) -> int
    decreases k,
{
    if k <= 0 {
        t
    } else {
        let prev = current_cluster(n, steps, k - 1, t);
        if prev == steps[k - 1].cluster1 || prev == steps[k - 1].cluster2 {
            n + k - 1
        } else {
            prev
        }
    }
}

/// The label that the merge history gives an observation: `-1` while it is
/// alone, else the label of the cluster that holds it.
pub open spec fn cluster_label(n: int, steps: Seq<MergeStep>, k: int, t: int) -> int {
    let c = current_cluster(n, steps, k, t);
    if c == t {
        -1
    } else {
        c
    }
}

proof fn lemma_current_cluster_facts(n: int, steps: Seq<MergeStep>, k: int, t: int)
    requires
        merges_well_formed(n, steps),
        0 <= k <= steps.len(),
        0 <= t < n,
    ensures
        current_cluster(n, steps, k, t) < n ==> current_cluster(n, steps, k, t) == t,
        current_cluster(n, steps, k, t) < n + k,
        current_cluster(n, steps, k, t) >= 0,
        (forall|i: int| 0 <= i < k ==> steps[i].cluster1 != t && steps[i].cluster2 != t)
            ==> current_cluster(n, steps, k, t) == t,
    decreases k,
{
    if k > 0 {
        lemma_current_cluster_facts(n, steps, k - 1, t);
    }
}

/// Law: on a proper merge history, the labels after `k` steps name, for every
/// observation, the cluster that holds it — the latest merged cluster
/// containing it — and `-1` for an observation not merged yet, when the
/// cluster made by step `j` is labelled `n + j`.
pub proof fn lemma_labels_name_current_clusters(n: int, steps: Seq<MergeStep>, k: int)
    requires
        n >= 0,
        merges_well_formed(n, steps),
        0 <= k <= steps.len(),
        n + k <= i32::MAX,
    ensures
        labels_after(n, steps, n, k).len() == n,
        forall|t: int| 0 <= t < n ==> labels_after(n, steps, n, k)[t] as int == cluster_label(n, steps, k, t),
    decreases k,
{
    lemma_labels_after_len(n, steps, n, k);
    if k > 0 {
        lemma_labels_name_current_clusters(n, steps, k - 1);
        let prev = labels_after(n, steps, n, k - 1);
        let step = steps[k - 1];
        let label = (n + k - 1) as i32;
        assert forall|t: int| 0 <= t < n implies labels_after(n, steps, n, k)[t] as int == cluster_label(n, steps, k, t) by {
            lemma_current_cluster_facts(n, steps, k - 1, t);
            lemma_current_cluster_facts(n, steps, k, t);
            let c1 = step.cluster1 as int;
            let c2 = step.cluster2 as int;
            if c1 < n {
                assert forall|i: int| 0 <= i < k - 1 implies steps[i].cluster1 != c1 && steps[i].cluster2 != c1 by {
                    assert(steps[k - 1].cluster1 != steps[i].cluster1);
                }
                lemma_current_cluster_facts(n, steps, k - 1, c1);
            }
            if c2 < n {
                assert forall|i: int| 0 <= i < k - 1 implies steps[i].cluster1 != c2 && steps[i].cluster2 != c2 by {
                    assert(steps[k - 1].cluster1 != steps[i].cluster1);
                }
                lemma_current_cluster_facts(n, steps, k - 1, c2);
            }
            assert(labels_after(n, steps, n, k) == apply_merge(prev, n, step, label));
            assert(prev[t] as int == cluster_label(n, steps, k - 1, t));
            assert(label as int == n + k - 1);
            assert(c2 < n + k - 1);
            if c1 < n && c2 < n {
                assert(apply_merge(prev, n, step, label) == prev.update(c1, label).update(c2, label));
            } else if c1 < n {
                assert(step.cluster2 as i32 as int == c2);
                let mid = prev.update(c1, label);
                assert(apply_merge(prev, n, step, label) == relabel(mid, step.cluster2 as i32, step.cluster2 as i32, label));
                assert(relabel(mid, step.cluster2 as i32, step.cluster2 as i32, label)[t]
                    == (if mid[t] == step.cluster2 as i32 { label } else { mid[t] }));
            } else {
                assert(step.cluster1 as i32 as int == c1);
                assert(step.cluster2 as i32 as int == c2);
                assert(apply_merge(prev, n, step, label) == relabel(prev, step.cluster1 as i32, step.cluster2 as i32, label));
                assert(relabel(prev, step.cluster1 as i32, step.cluster2 as i32, label)[t]
                    == (if prev[t] == step.cluster1 as i32 || prev[t] == step.cluster2 as i32 { label } else { prev[t] }));
            }
        }
    }
}

/// Every label after `k` merge steps is noise or the label of one of those steps.
pub proof fn lemma_labels_after_range(n: int, steps: Seq<MergeStep>, base: int, k: int)
    requires
        n >= 0,
        base >= 0,
        k >= 0,
        base + k <= i32::MAX,
    ensures
        forall|t: int|
            0 <= t < n ==> #[trigger] labels_after(n, steps, base, k)[t] == -1 || (base
                <= labels_after(n, steps, base, k)[t] < base + k),
    decreases k,
{
    lemma_labels_after_len(n, steps, base, k);
    if k > 0 {
        lemma_labels_after_range(n, steps, base, k - 1);
        lemma_labels_after_len(n, steps, base, k - 1);
        let prev = labels_after(n, steps, base, k - 1);
        let step = steps[k - 1];
        let label = (base + k - 1) as i32;
        assert forall|t: int| 0 <= t < n implies #[trigger] labels_after(n, steps, base, k)[t] == -1 || (base
                <= labels_after(n, steps, base, k)[t] < base + k) by {
            assert(labels_after(n, steps, base, k) == apply_merge(prev, n, step, label));
        }
    }
}

fn relabel_in_place(labels: &mut Vec<i32>, from: i32, also: i32, to: i32)
    ensures
        final(labels)@ == relabel(old(labels)@, from, also, to),
{
    let n = labels.len();
    let mut i: usize = 0;
    while i < n
        invariant
            n == labels@.len(),
            n == old(labels)@.len(),
            i <= n,
            forall|j: int| 0 <= j < i ==> labels@[j] == relabel(old(labels)@, from, also, to)[j],
            forall|j: int| i <= j < n ==> labels@[j] == old(labels)@[j],
        decreases n - i,
    {
        if labels[i] == from || labels[i] == also {
            labels.set(i, to);
        }
        i += 1;
    }
    assert(labels@ =~= relabel(old(labels)@, from, also, to));
}

/// Labels the triplets by the clusters formed in the first `stop_index` merge
/// steps: every triplet takes the label of the last merged cluster containing
/// it, and a triplet never merged keeps the label `-1`. The cluster created by
/// step `j` carries the label `observations + j`. On a proper merge history of
/// the triplets, each triplet is labelled by the cluster that holds it after
/// those merges, or `-1` when it was not merged.
pub fn compute_triplet_labels(n_triplets: usize, dendrogram: &Dendrogram, stop_index: usize) -> (labels: Vec<i32>)
    requires
        stop_index <= dendrogram.steps@.len(),
        dendrogram.observations + stop_index <= i32::MAX,
    ensures
        labels@ == labels_after(
            n_triplets as int,
            dendrogram.steps@,
            dendrogram.observations as int,
            stop_index as int,
        ),
        dendrogram.observations == n_triplets && merges_well_formed(n_triplets as int, dendrogram.steps@) ==> forall|t: int|
            0 <= t < n_triplets ==> #[trigger] labels@[t] as int == cluster_label(
                n_triplets as int,
                dendrogram.steps@,
                stop_index as int,
                t,
            ),
{
    let mut triplet_labels: Vec<i32> = Vec::new();
    let mut t: usize = 0;
    while t < n_triplets
        invariant
            t <= n_triplets,
            triplet_labels@.len() == t,
            forall|j: int| 0 <= j < t ==> triplet_labels@[j] == -1i32,
        decreases n_triplets - t,
    {
        triplet_labels.push(-1);
        t += 1;
    }
    assert(triplet_labels@ =~= labels_after(
        n_triplets as int,
        dendrogram.steps@,
        dendrogram.observations as int,
        0,
    ));
    let cluster_base = dendrogram.observations as i32;
    let mut idx: usize = 0;
    while idx < stop_index
        invariant
            idx <= stop_index,
            stop_index <= dendrogram.steps@.len(),
            dendrogram.observations + stop_index <= i32::MAX,
            cluster_base == dendrogram.observations,
            triplet_labels@.len() == n_triplets,
            triplet_labels@ == labels_after(
                n_triplets as int,
                dendrogram.steps@,
                dendrogram.observations as int,
                idx as int,
            ),
        decreases stop_index - idx,
    {
        let step = dendrogram.steps[idx];
        let cluster_label = idx as i32 + cluster_base;
        let ghost before = triplet_labels@;
        if step.cluster1 < n_triplets && step.cluster2 < n_triplets {
            triplet_labels.set(step.cluster1, cluster_label);
            triplet_labels.set(step.cluster2, cluster_label);
        } else if step.cluster1 < n_triplets {
            triplet_labels.set(step.cluster1, cluster_label);
            relabel_in_place(&mut triplet_labels, step.cluster2 as i32, step.cluster2 as i32, cluster_label);
        } else {
            relabel_in_place(&mut triplet_labels, step.cluster1 as i32, step.cluster2 as i32, cluster_label);
        }
        proof {
            assert(triplet_labels@ == apply_merge(
                before,
                n_triplets as int,
                step,
                (dendrogram.observations + idx) as i32,
            ));
        }
        idx += 1;
    }
    proof {
        if dendrogram.observations == n_triplets && merges_well_formed(n_triplets as int, dendrogram.steps@) {
            lemma_labels_name_current_clusters(n_triplets as int, dendrogram.steps@, stop_index as int);
        }
    }
    triplet_labels
}

} // verus!
