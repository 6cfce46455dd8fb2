//! From merge history to point labels: cluster-size pruning, per-point label
//! votes, collapse to the most frequent label, and renumbering.
use crate::dendrogram::{
    compute_triplet_labels, labels_after, lemma_labels_after_len, lemma_labels_after_range,
    size_of_cluster, Dendrogram,
};
use crate::fxcollections::{map_entries, map_get, map_insert, set_insert, set_items};
use crate::error::{ClusterError, TriplclustError};
use crate::triplet::Triplet;
use rustc_hash::{FxHashMap, FxHashSet};
use vstd::prelude::*;

verus! {

broadcast use vstd::std_specs::hash::group_hash_axioms;

/// A cluster label that pruning removes: a real cluster smaller than the minimum size.
pub open spec fn is_small_cluster(d: Dendrogram, min_cluster_size: usize, label: i32) -> bool {
    label != -1 && size_of_cluster(d.observations as int, d.steps@, label as int) < min_cluster_size
}

/// The label after pruning: small clusters become noise (`-1`).
pub open spec fn pruned_label(d: Dendrogram, min_cluster_size: usize, label: i32) -> i32 {
    if is_small_cluster(d, min_cluster_size, label) {
        -1i32
    } else {
        label
    }
}

/// Law: pruning removes exactly the real clusters with fewer observations
/// than the minimum: a single observation counts one, the cluster made by
/// merge step `j` counts the size that step records.
pub proof fn lemma_small_cluster_by_recorded_size(d: Dendrogram, min_cluster_size: usize, label: i32)
    requires
        label == -1 || 0 <= label < d.observations + d.steps@.len(),
    ensures
        is_small_cluster(d, min_cluster_size, label) <==> (label != -1 && (if (label as int) < d.observations {
            1 < min_cluster_size
        } else {
            d.steps@[label - d.observations].size < min_cluster_size
        })),
        pruned_label(d, min_cluster_size, label) == (if label != -1 && (if (label as int) < d.observations {
            1 < min_cluster_size
        } else {
            d.steps@[label - d.observations].size < min_cluster_size
        }) {
            -1i32
        } else {
            label
        }),
{
}

/// One more vote for `label` in a tally of votes: the tally of a label seen
/// before goes up by one; a label seen for the first time is entered at zero.
pub open spec fn bump(tally: Map<i32, i32>, label: i32) -> Map<i32, i32> {
    if tally.contains_key(label) {
        tally.insert(label, (tally[label] + 1) as i32)
    } else {
        tally.insert(label, 0i32)
    }
}

/// Number of votes that point `p` receives for `label` from the first `k`
/// triplets: one per position (a, b or c) of a triplet labelled `label` that
/// holds `p`.
pub open spec fn votes<F>(triplets: Seq<Triplet<F>>, labels: Seq<i32>, k: int, p: int, label: i32) -> nat
    decreases k,
{
    if k <= 0 {
        0
    } else {
        let t = triplets[k - 1];
        let hit = labels[k - 1] == label;
        votes(triplets, labels, k - 1, p, label)
            + (if hit && t.index_a == p { 1nat } else { 0nat })
            + (if hit && t.index_b == p { 1nat } else { 0nat })
            + (if hit && t.index_c == p { 1nat } else { 0nat })
    }
}

/// The tally kept for point `p` after the first `k` triplets.
pub open spec fn tally<F>(triplets: Seq<Triplet<F>>, labels: Seq<i32>, k: int, p: int) -> Map<i32, i32>
    decreases k,
{
    if k <= 0 {
        Map::empty()
    } else {
        let t = triplets[k - 1];
        let l = labels[k - 1];
        let m0 = tally(triplets, labels, k - 1, p);
        let m1 = if t.index_a == p { bump(m0, l) } else { m0 };
        let m2 = if t.index_b == p { bump(m1, l) } else { m1 };
        if t.index_c == p { bump(m2, l) } else { m2 }
    }
}

proof fn lemma_tally_counts_votes<F>(triplets: Seq<Triplet<F>>, labels: Seq<i32>, k: int, p: int)
    requires
        0 <= k <= triplets.len(),
        k <= labels.len(),
        3 * triplets.len() < i32::MAX,
    ensures
        forall|l: i32| #[trigger] tally(triplets, labels, k, p).contains_key(l) <==> votes(triplets, labels, k, p, l) > 0,
        forall|l: i32| #[trigger] tally(triplets, labels, k, p).contains_key(l) ==> tally(triplets, labels, k, p)[l] == votes(triplets, labels, k, p, l) - 1,
        forall|l: i32| #[trigger] votes(triplets, labels, k, p, l) <= 3 * k,
    decreases k,
{
    if k > 0 {
        lemma_tally_counts_votes(triplets, labels, k - 1, p);
        let t = triplets[k - 1];
        let lk = labels[k - 1];
        let m0 = tally(triplets, labels, k - 1, p);
        let m1 = if t.index_a == p { bump(m0, lk) } else { m0 };
        let m2 = if t.index_b == p { bump(m1, lk) } else { m1 };
        let m3 = if t.index_c == p { bump(m2, lk) } else { m2 };
        assert(tally(triplets, labels, k, p) == m3);
        assert forall|l: i32| l != lk implies #[trigger] m3.contains_key(l) == m0.contains_key(l)
            && (m0.contains_key(l) ==> m3[l] == m0[l]) by {}
        assert(votes(triplets, labels, k - 1, p, lk) <= 3 * (k - 1));
        assert forall|l: i32| #[trigger] votes(triplets, labels, k, p, l) <= 3 * k by {
            assert(votes(triplets, labels, k - 1, p, l) <= 3 * (k - 1));
        }
    }
}

/// Every point takes a label voted for it most often, or noise (`-1`) when no
/// triplet holds it.
pub open spec fn collapsed_by_votes<F>(raw: Seq<i32>, triplets: Seq<Triplet<F>>, labels: Seq<i32>, n: int) -> bool {
    &&& raw.len() == n
    &&& forall|p: int| 0 <= p < n ==> {
        &&& (forall|l: i32| votes(triplets, labels, triplets.len() as int, p, l) == 0) ==> #[trigger] raw[p] == -1
        &&& (exists|l: i32| votes(triplets, labels, triplets.len() as int, p, l) > 0) ==> {
            &&& votes(triplets, labels, triplets.len() as int, p, raw[p]) > 0
            &&& forall|l: i32| #[trigger] votes(triplets, labels, triplets.len() as int, p, l)
                <= votes(triplets, labels, triplets.len() as int, p, raw[p])
        }
    }
}

/// Number of distinct real (non-noise) labels.
pub open spec fn cluster_count(raw: Seq<i32>) -> nat {
    raw.to_set().filter(|l: i32| l != -1).len()
}

/// `out` renumbers the labels `raw`: noise stays noise, two entries share a
/// label in `out` exactly when they share one in `raw`, and the real labels
/// become exactly `0, 1, ..., k - 1` for `k` distinct real labels in `raw`.
pub open spec fn renumbered(raw: Seq<i32>, out: Seq<i32>) -> bool {
    &&& out.len() == raw.len()
    &&& forall|i: int| 0 <= i < raw.len() ==> (#[trigger] raw[i] == -1 <==> out[i] == -1)
    &&& forall|i: int, j: int|
        0 <= i < raw.len() && 0 <= j < raw.len() ==> (#[trigger] raw[i] == #[trigger] raw[j]
            <==> out[i] == out[j])
    &&& forall|i: int| 0 <= i < raw.len() ==> -1 <= #[trigger] out[i] < cluster_count(raw)
    &&& forall|c: int| 0 <= c < cluster_count(raw) ==> #[trigger] label_used(out, c)
}

/// Some entry of `out` carries the label `c`.
pub open spec fn label_used(out: Seq<i32>, c: int) -> bool {
    exists|i: int| 0 <= i < out.len() && #[trigger] out[i] == c
}

fn assign_label(map: &mut Vec<FxHashMap<i32, i32>>, point: usize, label: i32)
    requires
        point < old(map)@.len(),
        old(map)@[point as int]@.contains_key(label) ==> old(map)@[point as int]@[label] < i32::MAX,
    ensures
        final(map)@.len() == old(map)@.len(),
        forall|q: int| 0 <= q < old(map)@.len() && q != point ==> #[trigger] final(map)@[q] == old(map)@[q],
        final(map)@[point as int]@ == bump(old(map)@[point as int]@, label),
{
    match map_get(&map[point], &label) {
        Some(count) => map_insert(&mut map[point], label, count + 1),
        None => map_insert(&mut map[point], label, 0),
    }
}

/// `label` has a largest tally in `t`, or is noise (`-1`) when `t` is empty.
pub open spec fn is_top_label(t: Map<i32, i32>, label: i32) -> bool {
    if forall|x: i32| !#[trigger] t.contains_key(x) {
        label == -1
    } else {
        &&& t.contains_key(label)
        &&& forall|x: i32| #[trigger] t.contains_key(x) ==> t[x] <= t[label]
    }
}

/// For every point, a label with the largest tally (the last one met when
/// several tie), or noise (`-1`) for a point without any tally.
pub fn collapse_by_max(map: Vec<FxHashMap<i32, i32>>) -> (point_labels: Vec<i32>)
    ensures
        point_labels@.len() == map@.len(),
        forall|p: int| 0 <= p < map@.len() ==> #[trigger] is_top_label(map@[p]@, point_labels@[p]),
{
    let mut point_labels: Vec<i32> = Vec::new();
    let mut idx: usize = 0;
    while idx < map.len()
        invariant
            idx <= map@.len(),
            point_labels@.len() == idx,
            forall|p: int| 0 <= p < idx ==> #[trigger] is_top_label(map@[p]@, point_labels@[p]),
        decreases map@.len() - idx,
    {
        let entries = map_entries(&map[idx]);
        let ghost t = map@[idx as int]@;
        let ghost keys = entries@.map_values(|e: (i32, i32)| e.0);
        assert forall|i: int| 0 <= i < entries@.len() implies t.contains_key(#[trigger] entries@[i].0) by {
            assert(keys[i] == entries@[i].0);
            assert(keys.contains(entries@[i].0));
            assert(keys.to_set().contains(entries@[i].0));
        }
        if entries.len() == 0 {
            assert forall|x: i32| !#[trigger] t.contains_key(x) by {
                if t.contains_key(x) {
                    assert(keys.to_set().contains(x));
                }
            }
            point_labels.push(-1);
        } else {
            let mut best = entries[0];
            let mut e: usize = 1;
            if entries.len() == 1 {
                // A single label is the top label.
            } else {
                while e < entries.len()
                    invariant
                        1 <= e <= entries@.len(),
                        t.contains_key(best.0),
                        t[best.0] == best.1,
                        forall|m: int| 0 <= m < e ==> #[trigger] entries@[m].1 <= best.1,
                        forall|i: int| 0 <= i < entries@.len() ==> t.contains_key(#[trigger] entries@[i].0),
                        forall|i: int| 0 <= i < entries@.len() ==> t[#[trigger] entries@[i].0] == entries@[i].1,
                    decreases entries@.len() - e,
                {
                    if entries[e].1 >= best.1 {
                        best = entries[e];
                    }
                    e += 1;
                }
            }
            assert forall|x: i32| #[trigger] t.contains_key(x) implies t[x] <= t[best.0] by {
                assert(keys.to_set().contains(x));
                let i = choose|i: int| 0 <= i < keys.len() && keys[i] == x;
                assert(entries@[i].0 == x);
                if entries@.len() == 1 {
                    assert(i == 0);
                }
            }
            assert(t.contains_key(entries@[0].0));
            point_labels.push(best.0);
        }
        idx += 1;
    }
    point_labels
}

/// The distinct values of `values`, each once, in the order in which an
/// `FxHashSet` of them is walked.
pub fn distinct_values(values: &Vec<i32>) -> (items: Vec<i32>)
    ensures
        items@.to_set() == values@.to_set(),
        items@.no_duplicates(),
        items@.len() <= values@.len(),
{
    let mut uniques: FxHashSet<i32> = FxHashSet::default();
    let mut i: usize = 0;
    while i < values.len()
        invariant
            i <= values@.len(),
            uniques@ == values@.take(i as int).to_set(),
        decreases values@.len() - i,
    {
        set_insert(&mut uniques, values[i]);
        proof {
            assert(values@.take(i as int + 1) =~= values@.take(i as int).push(values@[i as int]));
            values@.take(i as int).lemma_push_to_set_commute(values@[i as int]);
        }
        i += 1;
    }
    assert(values@.take(values@.len() as int) =~= values@);
    let items = set_items(&uniques);
    proof {
        items@.unique_seq_to_set();
        values@.lemma_cardinality_of_set();
    }
    items
}

/// Some real label is numbered `c` by the map.
pub open spec fn number_taken(numbering: Map<i32, i32>, c: int) -> bool {
    exists|x: i32| x != -1 && numbering.contains_key(x) && #[trigger] numbering[x] == c
}

/// Renumbers the real labels `0, 1, ..., k - 1` in the order in which the set
/// of distinct labels is walked; noise (`-1`) stays noise.
pub fn normalize(raw_labels: Vec<i32>) -> (output: Vec<i32>)
    requires
        raw_labels@.len() < i32::MAX,
    ensures
        renumbered(raw_labels@, output@),
{
    let ghost raw = raw_labels@;
    let uniques = distinct_values(&raw_labels);
    let ghost nz = |l: i32| l != -1;
    let mut uni_map: FxHashMap<i32, i32> = FxHashMap::default();
    map_insert(&mut uni_map, -1, -1);
    let mut cluster_val: i32 = 0;
    let mut j: usize = 0;
    while j < uniques.len()
        invariant
            nz == (|l: i32| l != -1),
            uniques@.to_set() == raw.to_set(),
            uniques@.no_duplicates(),
            uniques@.len() <= raw.len(),
            raw.len() < i32::MAX,
            j <= uniques@.len(),
            uni_map@.contains_key(-1i32),
            uni_map@[-1i32] == -1,
            forall|x: i32| x != -1 ==> (#[trigger] uni_map@.contains_key(x) <==> uniques@.take(j as int).contains(x)),
            forall|x: i32| x != -1 && #[trigger] uni_map@.contains_key(x) ==> 0 <= uni_map@[x] < cluster_val,
            forall|x: i32, y: i32|
                x != -1 && y != -1 && x != y && #[trigger] uni_map@.contains_key(x) && #[trigger] uni_map@.contains_key(y)
                    ==> uni_map@[x] != uni_map@[y],
            forall|c: int| 0 <= c < cluster_val ==> #[trigger] number_taken(uni_map@, c),
            cluster_val == uniques@.take(j as int).filter(nz).len(),
            0 <= cluster_val <= j,
        decreases uniques@.len() - j,
    {
        let uni = uniques[j];
        proof {
            assert(uniques@.take(j as int + 1) =~= uniques@.take(j as int).push(uni));
            uniques@.take(j as int).lemma_filter_push(uni, nz);
            assert(!uniques@.take(j as int).contains(uni)) by {
                if uniques@.take(j as int).contains(uni) {
                    let m = choose|m: int| 0 <= m < j && #[trigger] uniques@.take(j as int)[m] == uni;
                    assert(uniques@[m] == uniques@[j as int]);
                }
            }
        }
        if uni == -1 {
            assert forall|x: i32| x != -1 implies (#[trigger] uni_map@.contains_key(x) <==> uniques@.take(j as int + 1).contains(x)) by {
                if uniques@.take(j as int + 1).contains(x) {
                    let m = choose|m: int| 0 <= m < j + 1 && #[trigger] uniques@.take(j as int + 1)[m] == x;
                    assert(uniques@.take(j as int)[m] == x);
                }
                if uniques@.take(j as int).contains(x) {
                    let m = choose|m: int| 0 <= m < j && #[trigger] uniques@.take(j as int)[m] == x;
                    assert(uniques@.take(j as int + 1)[m] == x);
                }
            }
        } else {
            let ghost before = uni_map@;
            map_insert(&mut uni_map, uni, cluster_val);
            assert forall|x: i32| x != -1 implies (#[trigger] uni_map@.contains_key(x) <==> uniques@.take(j as int + 1).contains(x)) by {
                if uniques@.take(j as int + 1).contains(x) && x != uni {
                    let m = choose|m: int| 0 <= m < j + 1 && #[trigger] uniques@.take(j as int + 1)[m] == x;
                    assert(uniques@.take(j as int)[m] == x);
                }
                if uniques@.take(j as int).contains(x) {
                    let m = choose|m: int| 0 <= m < j && #[trigger] uniques@.take(j as int)[m] == x;
                    assert(uniques@.take(j as int + 1)[m] == x);
                }
                assert(uniques@.take(j as int + 1)[j as int] == uni);
            }
            assert forall|c: int| 0 <= c < cluster_val + 1 implies #[trigger] number_taken(uni_map@, c) by {
                if c == cluster_val {
                    assert(uni_map@[uni] == c);
                } else {
                    assert(number_taken(before, c));
                    let x = choose|x: i32| x != -1 && before.contains_key(x) && #[trigger] before[x] == c;
                    assert(uni_map@[x] == c);
                }
            }
            cluster_val += 1;
        }
        j += 1;
    }
    proof {
        assert(uniques@.take(uniques@.len() as int) =~= uniques@);
        lemma_distinct_filter_count(uniques@, nz);
        assert(uniques@.to_set().filter(nz) == raw.to_set().filter(|l: i32| l != -1));
    }
    assert forall|k: int| 0 <= k < raw.len() implies uni_map@.contains_key(#[trigger] raw[k]) by {
        assert(raw.to_set().contains(raw[k]));
        assert(uniques@.to_set().contains(raw[k]));
    }
    let mut output: Vec<i32> = Vec::new();
    let mut idx: usize = 0;
    while idx < raw_labels.len()
        invariant
            raw == raw_labels@,
            idx <= raw.len(),
            output@.len() == idx,
            uniques@.to_set() == raw.to_set(),
            uni_map@.contains_key(-1i32),
            uni_map@[-1i32] == -1,
            forall|x: i32| x != -1 ==> (#[trigger] uni_map@.contains_key(x) <==> uniques@.contains(x)),
            forall|k: int| 0 <= k < idx ==> #[trigger] output@[k] == uni_map@[raw[k]],
            forall|k: int| 0 <= k < raw.len() ==> uni_map@.contains_key(#[trigger] raw[k]),
        decreases raw.len() - idx,
    {
        proof {
            assert(raw.to_set().contains(raw[idx as int]));
            assert(uniques@.to_set().contains(raw[idx as int]));
            assert(uni_map@.contains_key(raw[idx as int]));
        }
        let found = map_get(&uni_map, &raw_labels[idx]);
        let value = found.unwrap();
        let ghost prev_output = output@;
        output.push(value);
        assert(output@[idx as int] == uni_map@[raw[idx as int]]);
        assert forall|k: int| 0 <= k < idx + 1 implies #[trigger] output@[k] == uni_map@[raw[k]] by {
            if k < idx {
                assert(prev_output[k] == output@[k]);
            }
        }
        idx += 1;
    }
    proof {
        let k = cluster_count(raw);
        assert(cluster_val == k);
        assert forall|i: int| 0 <= i < raw.len() implies -1 <= #[trigger] output@[i] < k by {}
        assert forall|i: int| 0 <= i < raw.len() implies (#[trigger] raw[i] == -1 <==> output@[i] == -1) by {}
        assert forall|i: int, j2: int|
            0 <= i < raw.len() && 0 <= j2 < raw.len() implies (#[trigger] raw[i] == #[trigger] raw[j2]
                <==> output@[i] == output@[j2]) by {}
        assert forall|c: int| 0 <= c < k implies #[trigger] label_used(output@, c) by {
            assert(number_taken(uni_map@, c));
            let x = choose|x: i32| x != -1 && uni_map@.contains_key(x) && #[trigger] uni_map@[x] == c;
            assert(uniques@.contains(x));
            assert(uniques@.to_set().contains(x));
            assert(raw.to_set().contains(x));
            let i = choose|i: int| 0 <= i < raw.len() && raw[i] == x;
            assert(output@[i] == c);
        }
    }
    output
}

/// Point labels of a clustering.
pub struct ClusterResult<F> {
    /// Every label of `labels`, once each.
    pub unique_labels: Vec<i32>,
    /// The label of each point; `-1` is noise.
    pub labels: Vec<i32>,
    /// Number of clusters removed for being too small.
    pub n_clusters_removed: usize,
    /// The cluster distance threshold used.
    pub optimal_cdt: F,
}

impl<F> ClusterResult<F> {
    /// Turns triplet labels into point labels. Each point takes the label that
    /// the triplets holding it give most often (noise when no triplet holds
    /// it); the labels are then renumbered `0, 1, ...`, noise staying `-1`.
    pub fn new(
        cloud_size: usize,
        triplet_labels: Vec<i32>,
        triplets: &Vec<Triplet<F>>,
        n_clusters_removed: usize,
        optimal_cdt: F,
    ) -> (r: Self)
        requires
            triplet_labels@.len() == triplets@.len(),
            forall|i: int|
                0 <= i < triplets@.len() ==> (#[trigger] triplets@[i]).index_a < cloud_size
                    && triplets@[i].index_b < cloud_size && triplets@[i].index_c < cloud_size,
            3 * triplets@.len() < i32::MAX,
            cloud_size < i32::MAX,
        ensures
            r.labels@.len() == cloud_size,
            exists|raw: Seq<i32>|
                collapsed_by_votes(raw, triplets@, triplet_labels@, cloud_size as int)
                    && #[trigger] renumbered(raw, r.labels@),
            r.unique_labels@.no_duplicates(),
            r.unique_labels@.to_set() == r.labels@.to_set(),
            r.n_clusters_removed == n_clusters_removed,
            r.optimal_cdt == optimal_cdt,
    {
        let ghost trips = triplets@;
        let ghost tl = triplet_labels@;
        let mut label_map: Vec<FxHashMap<i32, i32>> = Vec::new();
        let mut p: usize = 0;
        while p < cloud_size
            invariant
                p <= cloud_size,
                label_map@.len() == p,
                forall|q: int| 0 <= q < p ==> (#[trigger] label_map@[q])@ == Map::<i32, i32>::empty(),
            decreases cloud_size - p,
        {
            label_map.push(FxHashMap::default());
            p += 1;
        }
        let mut i: usize = 0;
        while i < triplets.len()
            invariant
                trips == triplets@,
                tl == triplet_labels@,
                tl.len() == trips.len(),
                3 * trips.len() < i32::MAX,
                i <= trips.len(),
                label_map@.len() == cloud_size,
                forall|j: int|
                    0 <= j < trips.len() ==> (#[trigger] trips[j]).index_a < cloud_size
                        && trips[j].index_b < cloud_size && trips[j].index_c < cloud_size,
                forall|q: int| 0 <= q < cloud_size ==> (#[trigger] label_map@[q])@ == tally(trips, tl, i as int, q),
                forall|q: int, l: i32|
                    0 <= q < cloud_size && #[trigger] label_map@[q]@.contains_key(l) ==> label_map@[q]@[l] <= 3 * i,
            decreases trips.len() - i,
        {
            let triplet = &triplets[i];
            let label = triplet_labels[i];
            let ghost m_before = label_map@;
            assign_label(&mut label_map, triplet.index_a, label);
            let ghost m_a = label_map@;
            assign_label(&mut label_map, triplet.index_b, label);
            let ghost m_b = label_map@;
            assign_label(&mut label_map, triplet.index_c, label);
            proof {
                assert forall|q: int| 0 <= q < cloud_size implies (#[trigger] label_map@[q])@ == tally(trips, tl, i + 1, q) by {
                    assert(m_before[q]@ == tally(trips, tl, i as int, q));
                }
                assert forall|q: int, l: i32|
                    0 <= q < cloud_size && #[trigger] label_map@[q]@.contains_key(l) implies label_map@[q]@[l] <= 3 * (i + 1) by {
                    if m_before[q]@.contains_key(l) {
                        assert(m_before[q]@[l] <= 3 * i);
                    }
                }
            }
            i += 1;
        }
        let ghost final_map = label_map@;
        let raw_labels = collapse_by_max(label_map);
        let ghost raw = raw_labels@;
        proof {
            assert forall|q: int| 0 <= q < cloud_size implies {
                &&& (forall|l: i32| votes(trips, tl, trips.len() as int, q, l) == 0) ==> #[trigger] raw[q] == -1
                &&& (exists|l: i32| votes(trips, tl, trips.len() as int, q, l) > 0) ==> {
                    &&& votes(trips, tl, trips.len() as int, q, raw[q]) > 0
                    &&& forall|l: i32| #[trigger] votes(trips, tl, trips.len() as int, q, l)
                        <= votes(trips, tl, trips.len() as int, q, raw[q])
                }
            } by {
                lemma_tally_counts_votes(trips, tl, trips.len() as int, q);
                let t = tally(trips, tl, trips.len() as int, q);
                assert(final_map[q]@ == t);
                assert(is_top_label(final_map[q]@, raw[q]));
                if forall|l: i32| votes(trips, tl, trips.len() as int, q, l) == 0 {
                    assert forall|x: i32| !#[trigger] t.contains_key(x) by {
                        assert(votes(trips, tl, trips.len() as int, q, x) == 0);
                    }
                }
                if exists|l: i32| votes(trips, tl, trips.len() as int, q, l) > 0 {
                    let l0 = choose|l: i32| votes(trips, tl, trips.len() as int, q, l) > 0;
                    assert(t.contains_key(l0));
                    assert forall|l: i32| #[trigger] votes(trips, tl, trips.len() as int, q, l)
                        <= votes(trips, tl, trips.len() as int, q, raw[q]) by {
                        if t.contains_key(l) {
                            assert(t[l] <= t[raw[q]]);
                        }
                    }
                }
            }
            assert(collapsed_by_votes(raw, trips, tl, cloud_size as int));
        }
        let labels = normalize(raw_labels);
        let unique_labels = distinct_values(&labels);
        proof {
            assert(renumbered(raw, labels@));
        }
        ClusterResult { unique_labels, labels, n_clusters_removed, optimal_cdt }
    }
}

/// Checks that there are triplets to cluster: an empty list is refused with
/// [`ClusterError::EmptyTriplets`].
pub fn check_triplets<F>(triplets: &Vec<Triplet<F>>) -> (r: Result<(), TriplclustError>)
    ensures
        triplets@.len() == 0 ==> r == Err::<(), TriplclustError>(TriplclustError::Cluster(ClusterError::EmptyTriplets)),
        triplets@.len() > 0 ==> r == Ok::<(), TriplclustError>(()),
{
    if triplets.len() == 0 {
        Err(TriplclustError::Cluster(ClusterError::EmptyTriplets))
    } else {
        Ok(())
    }
}

/// Labels the points of a cloud of `cloud_size` points from the merge history
/// of its triplets: the triplets are labelled by the clusters formed in the
/// first `stop_index` merges, clusters smaller than `min_cluster_size` become
/// noise, and the triplet labels are collapsed onto the points.
pub fn label_points<F>(
    cloud_size: usize,
    triplets: &Vec<Triplet<F>>,
    dendrogram: &Dendrogram,
    stop_index: usize,
    min_cluster_size: usize,
    optimal_cdt: F,
) -> (r: ClusterResult<F>)
    requires
        dendrogram.observations == triplets@.len(),
        stop_index <= dendrogram.steps@.len(),
        dendrogram.observations + stop_index <= i32::MAX,
        forall|i: int|
            0 <= i < triplets@.len() ==> (#[trigger] triplets@[i]).index_a < cloud_size
                && triplets@[i].index_b < cloud_size && triplets@[i].index_c < cloud_size,
        3 * triplets@.len() < i32::MAX,
        cloud_size < i32::MAX,
    ensures
        r.labels@.len() == cloud_size,
        exists|raw: Seq<i32>|
            collapsed_by_votes(
                raw,
                triplets@,
                labels_after(
                    triplets@.len() as int,
                    dendrogram.steps@,
                    dendrogram.observations as int,
                    stop_index as int,
                ).map_values(|l: i32| pruned_label(*dendrogram, min_cluster_size, l)),
                cloud_size as int,
            ) && #[trigger] renumbered(raw, r.labels@),
        r.unique_labels@.no_duplicates(),
        r.unique_labels@.to_set() == r.labels@.to_set(),
        r.n_clusters_removed == labels_after(
            triplets@.len() as int,
            dendrogram.steps@,
            dendrogram.observations as int,
            stop_index as int,
        ).to_set().filter(|l: i32| is_small_cluster(*dendrogram, min_cluster_size, l)).len(),
        r.optimal_cdt == optimal_cdt,
{
    let mut triplet_labels = compute_triplet_labels(triplets.len(), dendrogram, stop_index);
    proof {
        let n = triplets@.len() as int;
        lemma_labels_after_len(n, dendrogram.steps@, dendrogram.observations as int, stop_index as int);
        lemma_labels_after_range(n, dendrogram.steps@, dendrogram.observations as int, stop_index as int);
    }
    let n_removed = apply_min_cluster_size(&mut triplet_labels, dendrogram, min_cluster_size);
    ClusterResult::new(cloud_size, triplet_labels, triplets, n_removed, optimal_cdt)
}

proof fn lemma_distinct_filter_count(s: Seq<i32>, p: spec_fn(i32) -> bool)
    requires
        s.no_duplicates(),
    ensures
        s.filter(p).len() == s.to_set().filter(p).len(),
        s.to_set().filter(p).finite(),
    decreases s.len(),
{
    broadcast use vstd::set::group_set_axioms, vstd::seq_lib::seq_to_set_is_finite;
    if s.len() == 0 {
        assert(s.to_set().filter(p) =~= Set::empty());
        reveal(Seq::filter);
    } else {
        let rest = s.drop_last();
        let x = s.last();
        assert(rest.push(x) =~= s);
        assert(rest.no_duplicates());
        lemma_distinct_filter_count(rest, p);
        rest.lemma_filter_push(x, p);
        rest.lemma_push_to_set_commute(x);
        assert(!rest.contains(x)) by {
            if rest.contains(x) {
                let i = choose|i: int| 0 <= i < rest.len() && rest[i] == x;
                assert(s[i] == s[s.len() - 1]);
            }
        }
        assert(!rest.to_set().contains(x));
        if p(x) {
            assert(s.to_set().filter(p) =~= rest.to_set().filter(p).insert(x));
        } else {
            assert(s.to_set().filter(p) =~= rest.to_set().filter(p));
        }
    }
}

/// Removes clusters smaller than `min_cluster_size`: every triplet labelled by
/// such a cluster becomes noise (`-1`). Returns the number of distinct
/// clusters removed.
pub fn apply_min_cluster_size(
    triplet_labels: &mut Vec<i32>,
    dendrogram: &Dendrogram,
    min_cluster_size: usize,
) -> (removed: usize)
    requires
        forall|i: int|
            0 <= i < old(triplet_labels)@.len() ==> #[trigger] old(triplet_labels)@[i] == -1 || (0
                <= old(triplet_labels)@[i] < dendrogram.observations + dendrogram.steps@.len()),
    ensures
        final(triplet_labels)@ == old(triplet_labels)@.map_values(
            |l: i32| pruned_label(*dendrogram, min_cluster_size, l),
        ),
        removed == old(triplet_labels)@.to_set().filter(
            |l: i32| is_small_cluster(*dendrogram, min_cluster_size, l),
        ).len(),
        forall|i: int| 0 <= i < old(triplet_labels)@.len() ==> #[trigger] final(triplet_labels)@[i] == (if old(
            triplet_labels,
        )@[i] != -1 && (if (old(triplet_labels)@[i] as int) < dendrogram.observations {
            1 < min_cluster_size
        } else {
            dendrogram.steps@[old(triplet_labels)@[i] - dendrogram.observations].size < min_cluster_size
        }) {
            -1i32
        } else {
            old(triplet_labels)@[i]
        }),
{
    let ghost original = triplet_labels@;
    let ghost small = |l: i32| is_small_cluster(*dendrogram, min_cluster_size, l);
    let n = triplet_labels.len();
    let mut uniques: FxHashSet<i32> = FxHashSet::default();
    let mut i: usize = 0;
    while i < n
        invariant
            n == triplet_labels@.len(),
            triplet_labels@ == original,
            i <= n,
            uniques@ == original.take(i as int).to_set(),
        decreases n - i,
    {
        set_insert(&mut uniques, triplet_labels[i]);
        proof {
            assert(original.take(i as int + 1) =~= original.take(i as int).push(original[i as int]));
            original.take(i as int).lemma_push_to_set_commute(original[i as int]);
        }
        i += 1;
    }
    assert(original.take(n as int) =~= original);
    let items = set_items(&uniques);
    let mut removed: usize = 0;
    let mut j: usize = 0;
    while j < items.len()
        invariant
            items@.to_set() == original.to_set(),
            items@.no_duplicates(),
            n == original.len(),
            small == (|l: i32| is_small_cluster(*dendrogram, min_cluster_size, l)),
            j <= items@.len(),
            triplet_labels@.len() == original.len(),
            removed == items@.take(j as int).filter(small).len(),
            removed <= j,
            forall|k: int|
                0 <= k < original.len() ==> #[trigger] triplet_labels@[k] == (if items@.take(
                    j as int,
                ).contains(original[k]) {
                    pruned_label(*dendrogram, min_cluster_size, original[k])
                } else {
                    original[k]
                }),
            forall|k: int|
                0 <= k < original.len() ==> #[trigger] original[k] == -1 || (0 <= original[k]
                    < dendrogram.observations + dendrogram.steps@.len()),
        decreases items@.len() - j,
    {
        let uni = items[j];
        let ghost before = triplet_labels@;
        proof {
            assert(items@.take(j as int + 1) =~= items@.take(j as int).push(uni));
            items@.take(j as int).lemma_filter_push(uni, small);
            assert(items@.to_set().contains(uni));
            assert(original.contains(uni));
            let k0 = choose|k0: int| 0 <= k0 < original.len() && original[k0] == uni;
            assert(original[k0] == -1 || 0 <= original[k0]);
        }
        if uni == -1 {
            assert(triplet_labels@ == before);
        } else if dendrogram.cluster_size(uni as usize) < min_cluster_size {
            assert(uni as usize as int == uni as int);
            assert(size_of_cluster(dendrogram.observations as int, dendrogram.steps@, uni as int) < min_cluster_size);
            assert(is_small_cluster(*dendrogram, min_cluster_size, uni));
            assert(small(uni));
            removed += 1;
            let mut k: usize = 0;
            while k < n
                invariant
                    n == triplet_labels@.len(),
                    n == before.len(),
                    k <= n,
                    forall|m: int| 0 <= m < k ==> #[trigger] triplet_labels@[m] == (if before[m] == uni {
                        -1i32
                    } else {
                        before[m]
                    }),
                    forall|m: int| k <= m < n ==> #[trigger] triplet_labels@[m] == before[m],
                decreases n - k,
            {
                if triplet_labels[k] == uni {
                    triplet_labels.set(k, -1);
                }
                k += 1;
            }
        } else {
            assert(uni as usize as int == uni as int);
            assert(!small(uni));
            assert(triplet_labels@ == before);
        }
        assert(forall|m: int| 0 <= m < n ==> #[trigger] triplet_labels@[m] == (if before[m] == uni && small(uni) {
            -1i32
        } else {
            before[m]
        }));
        proof {
            assert forall|k: int| 0 <= k < original.len() implies #[trigger] triplet_labels@[k] == (
            if items@.take(j as int + 1).contains(original[k]) {
                pruned_label(*dendrogram, min_cluster_size, original[k])
            } else {
                original[k]
            }) by {
                if original[k] == uni {
                    assert(items@.take(j as int + 1)[j as int] == uni);
                    if items@.take(j as int).contains(uni) {
                        let m = choose|m: int| 0 <= m < j && #[trigger] items@.take(j as int)[m] == uni;
                        assert(items@[m] == items@[j as int]);
                    }
                } else {
                    if items@.take(j as int + 1).contains(original[k]) {
                        let m = choose|m: int| 0 <= m < j + 1 && #[trigger] items@.take(j as int + 1)[m] == original[k];
                        assert(m != j);
                        assert(items@.take(j as int)[m] == original[k]);
                    }
                    if items@.take(j as int).contains(original[k]) {
                        let m = choose|m: int| 0 <= m < j && #[trigger] items@.take(j as int)[m] == original[k];
                        assert(items@.take(j as int + 1)[m] == original[k]);
                    }
                }
            }
        }
        j += 1;
    }
    proof {
        assert(items@.take(items@.len() as int) =~= items@);
        assert forall|k: int| 0 <= k < original.len() implies items@.contains(#[trigger] original[k]) by {
            assert(original.to_set().contains(original[k]));
        }
        assert(triplet_labels@ =~= original.map_values(
            |l: i32| pruned_label(*dendrogram, min_cluster_size, l),
        ));
        lemma_distinct_filter_count(items@, small);
        assert forall|i: int| 0 <= i < original.len() implies #[trigger] triplet_labels@[i] == (if original[i] != -1
            && (if (original[i] as int) < dendrogram.observations {
            1 < min_cluster_size
        } else {
            dendrogram.steps@[original[i] - dendrogram.observations].size < min_cluster_size
        }) {
            -1i32
        } else {
            original[i]
        }) by {
            lemma_small_cluster_by_recorded_size(*dendrogram, min_cluster_size, original[i]);
        }
    }
    removed
}

} // verus!
