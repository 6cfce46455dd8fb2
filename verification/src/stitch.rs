//! Label bookkeeping for splitting clusters into sub-clusters: finding the
//! points of a cluster, joining sub-clusters, and numbering the pieces.
use crate::digraph::lemma_take_next;
use vstd::prelude::*;

verus! {

broadcast use vstd::seq_lib::group_seq_properties, vstd::multiset::group_multiset_axioms;

/// The largest label, or `None` for no labels at all.
pub fn max_label(labels: &Vec<i32>) -> (m: Option<i32>)
    ensures
        labels@.len() == 0 <==> m is None,
        m matches Some(v) ==> labels@.contains(v) && forall|i: int| 0 <= i < labels@.len() ==> #[trigger] labels@[i] <= v,
{
    if labels.len() == 0 {
        return None;
    }
    let mut best = labels[0];
    let mut i: usize = 1;
    while i < labels.len()
        invariant
            1 <= i <= labels@.len(),
            labels@.contains(best),
            forall|j: int| 0 <= j < i ==> #[trigger] labels@[j] <= best,
        decreases labels@.len() - i,
    {
        if labels[i] > best {
            best = labels[i];
        }
        i += 1;
    }
    Some(best)
}

/// The positions of the points labelled `cluster`, in increasing order.
pub fn points_with_label(labels: &Vec<i32>, cluster: i32) -> (points: Vec<usize>)
    ensures
        forall|a: int, b: int| 0 <= a < b < points@.len() ==> #[trigger] points@[a] < #[trigger] points@[b],
        forall|k: int| 0 <= k < points@.len() ==> (#[trigger] points@[k] as int) < labels@.len() && labels@[points@[k] as int] == cluster,
        forall|i: usize| (i as int) < labels@.len() && labels@[i as int] == cluster ==> #[trigger] points@.contains(i),
{
    let mut points: Vec<usize> = Vec::new();
    let mut idx: usize = 0;
    while idx < labels.len()
        invariant
            idx <= labels@.len(),
            forall|a: int, b: int| 0 <= a < b < points@.len() ==> #[trigger] points@[a] < #[trigger] points@[b],
            forall|k: int| 0 <= k < points@.len() ==> (#[trigger] points@[k] as int) < idx && labels@[points@[k] as int] == cluster,
            forall|i: usize| (i as int) < idx && labels@[i as int] == cluster ==> #[trigger] points@.contains(i),
        decreases labels@.len() - idx,
    {
        if labels[idx] == cluster {
            let ghost before = points@;
            points.push(idx);
            proof {
                assert forall|i: usize| (i as int) < idx + 1 && labels@[i as int] == cluster implies #[trigger] points@.contains(i) by {
                    if i == idx {
                        assert(points@[before.len() as int] == i);
                    } else {
                        assert(before.contains(i));
                        let w = choose|w: int| 0 <= w < before.len() && before[w] == i;
                        assert(points@[w] == i);
                    }
                }
            }
        }
        idx += 1;
    }
    points
}

/// The label of point `i` after numbering the first `q` sub-clusters: the
/// label `base + k` of the last sub-cluster `k - 1 < q` that holds the point,
/// or `current` when none does.
pub open spec fn piece_label(subs: Seq<Seq<usize>>, q: int, base: int, current: int, i: int) -> int
    decreases q,
{
    if q <= 0 {
        current
    } else if subs[q - 1].contains(i as usize) {
        base + q
    } else {
        piece_label(subs, q - 1, base, current, i)
    }
}

/// Labels the `n` points of a cluster split into sub-clusters: sub-cluster
/// `k` (counting from zero) takes the label `max_id + k + 1`; a point in no
/// sub-cluster keeps `current_id`; a point in several takes the last one's.
pub fn label_subclusters(n: usize, current_id: i32, max_id: i32, sub_clusters: &Vec<Vec<usize>>) -> (labels: Vec<i32>)
    requires
        max_id + sub_clusters@.len() <= i32::MAX,
        forall|q: int, k: int|
            0 <= q < sub_clusters@.len() && 0 <= k < sub_clusters@[q]@.len() ==> (#[trigger] sub_clusters@[q]@[k] as int) < n,
    ensures
        labels@.len() == n,
        forall|i: int| 0 <= i < n ==> #[trigger] labels@[i] as int == piece_label(
            sub_clusters@.map_values(|c: Vec<usize>| c@),
            sub_clusters@.len() as int,
            max_id as int,
            current_id as int,
            i,
        ),
{
    let ghost subs = sub_clusters@.map_values(|c: Vec<usize>| c@);
    let mut labels: Vec<i32> = Vec::new();
    let mut i: usize = 0;
    while i < n
        invariant
            i <= n,
            labels@.len() == i,
            forall|j: int| 0 <= j < i ==> #[trigger] labels@[j] == current_id,
        decreases n - i,
    {
        labels.push(current_id);
        i += 1;
    }
    let mut next_id = max_id;
    let mut q: usize = 0;
    while q < sub_clusters.len()
        invariant
            subs == sub_clusters@.map_values(|c: Vec<usize>| c@),
            max_id + sub_clusters@.len() <= i32::MAX,
            forall|q2: int, k: int|
                0 <= q2 < sub_clusters@.len() && 0 <= k < sub_clusters@[q2]@.len() ==> (#[trigger] sub_clusters@[q2]@[k] as int) < n,
            q <= sub_clusters@.len(),
            next_id == max_id + q,
            labels@.len() == n,
            forall|j: int| 0 <= j < n ==> #[trigger] labels@[j] as int == piece_label(subs, q as int, max_id as int, current_id as int, j),
        decreases sub_clusters@.len() - q,
    {
        next_id += 1;
        let cluster = &sub_clusters[q];
        let ghost before = labels@;
        let mut k: usize = 0;
        while k < cluster.len()
            invariant
                cluster@ == subs[q as int],
                forall|k2: int| 0 <= k2 < cluster@.len() ==> (#[trigger] cluster@[k2] as int) < n,
                k <= cluster@.len(),
                labels@.len() == n,
                forall|j: int| 0 <= j < n ==> #[trigger] labels@[j] == (if cluster@.take(k as int).contains(j as usize) {
                    next_id
                } else {
                    before[j]
                }),
            decreases cluster@.len() - k,
        {
            let idx = cluster[k];
            labels.set(idx, next_id);
            proof {
                assert forall|j: int| 0 <= j < n implies #[trigger] labels@[j] == (if cluster@.take(k as int + 1).contains(j as usize) {
                    next_id
                } else {
                    before[j]
                }) by {
                    lemma_take_next(cluster@, k as int);
                    assert(cluster@.take(k as int + 1).contains(j as usize) <==> (cluster@.take(k as int).contains(j as usize) || j as usize == idx));
                }
            }
            k += 1;
        }
        proof {
            assert(cluster@.take(cluster@.len() as int) =~= cluster@);
            assert forall|j: int| 0 <= j < n implies #[trigger] labels@[j] as int == piece_label(subs, q + 1, max_id as int, current_id as int, j) by {
                assert(subs[q as int] == cluster@);
            }
        }
        q += 1;
    }
    labels
}

/// Law: the labels given to sub-clusters are fresh and tell the pieces apart.
/// When the current label is not above `base` (the largest label in use), a
/// point keeps the current label exactly when no sub-cluster holds it, and
/// takes `base + k + 1` exactly when sub-cluster `k` is the last one holding it.
pub proof fn lemma_piece_labels_are_fresh(subs: Seq<Seq<usize>>, q: int, base: int, current: int, i: int)
    requires
        0 <= q <= subs.len(),
        current <= base,
    ensures
        piece_label(subs, q, base, current, i) == current || base < piece_label(subs, q, base, current, i)
            <= base + q,
        piece_label(subs, q, base, current, i) == current <==> forall|k: int| 0 <= k < q ==> !(#[trigger] subs[k].contains(i as usize)),
        forall|k: int|
            0 <= k < q ==> (piece_label(subs, q, base, current, i) == base + k + 1 <==> (#[trigger] subs[k].contains(i as usize)
                && forall|k2: int| k < k2 < q ==> !(#[trigger] subs[k2].contains(i as usize)))),
    decreases q,
{
    if q > 0 {
        lemma_piece_labels_are_fresh(subs, q - 1, base, current, i);
    }
}

/// The value at position `i` after writing `values[k]` to `positions[k]` for
/// every `k < q` in order: the last write to `i` wins.
pub open spec fn scattered(labels: Seq<i32>, positions: Seq<usize>, values: Seq<i32>, q: int, i: int) -> i32
    decreases q,
{
    if q <= 0 {
        labels[i]
    } else if positions[q - 1] == i {
        values[q - 1]
    } else {
        scattered(labels, positions, values, q - 1, i)
    }
}

/// Law: whatever the labels, a point in no sub-cluster keeps the current
/// label, and a point whose last sub-cluster is `k` takes `base + k + 1`.
pub proof fn lemma_piece_label_exact(subs: Seq<Seq<usize>>, q: int, base: int, current: int, i: int)
    requires
        0 <= q <= subs.len(),
    ensures
        (forall|k: int| 0 <= k < q ==> !(#[trigger] subs[k].contains(i as usize))) ==> piece_label(subs, q, base, current, i)
            == current,
        forall|k: int|
            0 <= k < q && #[trigger] subs[k].contains(i as usize) && (forall|k2: int|
                k < k2 < q ==> !(#[trigger] subs[k2].contains(i as usize))) ==> piece_label(subs, q, base, current, i)
                == base + k + 1,
    decreases q,
{
    if q > 0 {
        lemma_piece_label_exact(subs, q - 1, base, current, i);
        assert forall|k: int|
            0 <= k < q && #[trigger] subs[k].contains(i as usize) && (forall|k2: int|
                k < k2 < q ==> !(#[trigger] subs[k2].contains(i as usize))) implies piece_label(subs, q, base, current, i)
                == base + k + 1 by {
            if k < q - 1 {
                assert(!subs[q - 1].contains(i as usize));
            }
        }
    }
}

/// Law: a position written by write `k` and by none of the later writes
/// among the first `q` holds the value of write `k`.
pub proof fn lemma_scatter_last_write(labels: Seq<i32>, positions: Seq<usize>, values: Seq<i32>, q: int, k: int)
    requires
        0 <= k < q <= positions.len(),
        forall|k2: int| k < k2 < q ==> #[trigger] positions[k2] != positions[k],
    ensures
        scattered(labels, positions, values, q, positions[k] as int) == values[k],
    decreases q,
{
    if q - 1 > k {
        lemma_scatter_last_write(labels, positions, values, q - 1, k);
    }
}

/// Law: a position that none of the first `q` writes targets keeps its value.
pub proof fn lemma_scatter_keeps_unwritten(labels: Seq<i32>, positions: Seq<usize>, values: Seq<i32>, q: int, i: int)
    requires
        0 <= q <= positions.len(),
        forall|k: int| 0 <= k < q ==> #[trigger] positions[k] as int != i,
    ensures
        scattered(labels, positions, values, q, i) == labels[i],
    decreases q,
{
    if q > 0 {
        lemma_scatter_keeps_unwritten(labels, positions, values, q - 1, i);
    }
}

/// Writes `values[k]` to position `positions[k]` of `labels`, for every `k` in order.
pub fn scatter_labels(labels: &mut Vec<i32>, positions: &Vec<usize>, values: &Vec<i32>)
    requires
        positions@.len() == values@.len(),
        forall|k: int| 0 <= k < positions@.len() ==> (#[trigger] positions@[k] as int) < old(labels)@.len(),
    ensures
        final(labels)@.len() == old(labels)@.len(),
        forall|i: int| 0 <= i < old(labels)@.len() ==> #[trigger] final(labels)@[i] == scattered(
            old(labels)@,
            positions@,
            values@,
            positions@.len() as int,
            i,
        ),
        forall|k: int|
            0 <= k < positions@.len() && (forall|k2: int| k < k2 < positions@.len() ==> #[trigger] positions@[k2] != positions@[k])
                ==> final(labels)@[positions@[k] as int] == #[trigger] values@[k],
        forall|i: int|
            0 <= i < old(labels)@.len() && (forall|k: int| 0 <= k < positions@.len() ==> #[trigger] positions@[k] as int != i)
                ==> #[trigger] final(labels)@[i] == old(labels)@[i],
        positions@.no_duplicates() ==> forall|k: int| 0 <= k < positions@.len() ==> final(labels)@[#[trigger] positions@[k] as int] == values@[k],
{
    let ghost start = labels@;
    let mut k: usize = 0;
    while k < positions.len()
        invariant
            positions@.len() == values@.len(),
            forall|k2: int| 0 <= k2 < positions@.len() ==> (#[trigger] positions@[k2] as int) < start.len(),
            k <= positions@.len(),
            labels@.len() == start.len(),
            forall|i: int| 0 <= i < start.len() ==> #[trigger] labels@[i] == scattered(start, positions@, values@, k as int, i),
        decreases positions@.len() - k,
    {
        labels.set(positions[k], values[k]);
        k += 1;
    }
    proof {
        let n = positions@.len() as int;
        assert forall|k: int|
            0 <= k < n && (forall|k2: int| k < k2 < n ==> #[trigger] positions@[k2] != positions@[k]) implies labels@[positions@[k] as int]
                == #[trigger] values@[k] by {
            lemma_scatter_last_write(start, positions@, values@, n, k);
        }
        assert forall|i: int| 0 <= i < start.len() && (forall|k: int| 0 <= k < n ==> #[trigger] positions@[k] as int != i)
            implies #[trigger] labels@[i] == start[i] by {
            lemma_scatter_keeps_unwritten(start, positions@, values@, n, i);
        }
        if positions@.no_duplicates() {
            assert forall|k: int| 0 <= k < n implies labels@[#[trigger] positions@[k] as int] == values@[k] by {
                assert forall|k2: int| k < k2 < n implies #[trigger] positions@[k2] != positions@[k] by {}
                lemma_scatter_last_write(start, positions@, values@, n, k);
            }
        }
    }
}

/// Records the split of one cluster: the points at `positions` take the
/// labels `updated`, in order, and the result is the largest of those labels,
/// the largest label in use from then on.
pub fn record_split(labels: &mut Vec<i32>, positions: &Vec<usize>, updated: &Vec<i32>) -> (max_id: i32)
    requires
        positions@.len() == updated@.len(),
        updated@.len() >= 1,
        forall|k: int| 0 <= k < positions@.len() ==> (#[trigger] positions@[k] as int) < old(labels)@.len(),
    ensures
        final(labels)@.len() == old(labels)@.len(),
        forall|i: int| 0 <= i < old(labels)@.len() ==> #[trigger] final(labels)@[i] == scattered(
            old(labels)@,
            positions@,
            updated@,
            positions@.len() as int,
            i,
        ),
        updated@.contains(max_id),
        forall|k: int| 0 <= k < updated@.len() ==> #[trigger] updated@[k] <= max_id,
        forall|k: int|
            0 <= k < positions@.len() && (forall|k2: int| k < k2 < positions@.len() ==> #[trigger] positions@[k2] != positions@[k])
                ==> final(labels)@[positions@[k] as int] == #[trigger] updated@[k],
        forall|i: int|
            0 <= i < old(labels)@.len() && (forall|k: int| 0 <= k < positions@.len() ==> #[trigger] positions@[k] as int != i)
                ==> #[trigger] final(labels)@[i] == old(labels)@[i],
        positions@.no_duplicates() ==> forall|k: int| 0 <= k < positions@.len() ==> final(labels)@[#[trigger] positions@[k] as int] == updated@[k],
{
    let m = max_label(updated);
    scatter_labels(labels, positions, updated);
    match m {
        Some(v) => v,
        None => updated[0],
    }
}

/// Sub-clusters that may be joined into sub-cluster `orig`, in increasing
/// order: every other sub-cluster whose first point comes at most `tolerance`
/// after the last point of `orig`.
pub fn join_candidates(sub_clusters: &Vec<Vec<usize>>, orig: usize, tolerance: usize) -> (candidates: Vec<usize>)
    requires
        orig < sub_clusters@.len(),
        forall|q: int| 0 <= q < sub_clusters@.len() ==> (#[trigger] sub_clusters@[q])@.len() > 0,
        sub_clusters@[orig as int]@.last() + tolerance <= usize::MAX,
    ensures
        forall|a: int, b: int| 0 <= a < b < candidates@.len() ==> #[trigger] candidates@[a] < #[trigger] candidates@[b],
        forall|q: usize| #[trigger] candidates@.contains(q) <==> ((q as int) < sub_clusters@.len() && q != orig
            && sub_clusters@[q as int]@[0] <= sub_clusters@[orig as int]@.last() + tolerance),
{
    let cluster = &sub_clusters[orig];
    let last = cluster[cluster.len() - 1];
    let mut candidates: Vec<usize> = Vec::new();
    let mut comp_idx: usize = 0;
    while comp_idx < sub_clusters.len()
        invariant
            orig < sub_clusters@.len(),
            cluster@ == sub_clusters@[orig as int]@,
            cluster@.len() > 0,
            last == cluster@.last(),
            last + tolerance <= usize::MAX,
            forall|q: int| 0 <= q < sub_clusters@.len() ==> (#[trigger] sub_clusters@[q])@.len() > 0,
            comp_idx <= sub_clusters@.len(),
            forall|a: int, b: int| 0 <= a < b < candidates@.len() ==> #[trigger] candidates@[a] < #[trigger] candidates@[b],
            forall|k: int| 0 <= k < candidates@.len() ==> #[trigger] candidates@[k] < comp_idx,
            forall|q: usize| #[trigger] candidates@.contains(q) <==> ((q as int) < comp_idx && q != orig
                && sub_clusters@[q as int]@[0] <= last + tolerance),
        decreases sub_clusters@.len() - comp_idx,
    {
        let comp_cluster = &sub_clusters[comp_idx];
        let ghost before = candidates@;
        if comp_idx == orig || (last + tolerance) < comp_cluster[0] {
        } else {
            candidates.push(comp_idx);
        }
        proof {
            assert forall|q: usize| #[trigger] candidates@.contains(q) <==> ((q as int) < comp_idx + 1 && q != orig
                && sub_clusters@[q as int]@[0] <= last + tolerance) by {
                if candidates@.contains(q) {
                    let w = choose|w: int| 0 <= w < candidates@.len() && candidates@[w] == q;
                    if w < before.len() {
                        assert(before[w] == q);
                        assert(before.contains(q));
                    }
                }
                if (q as int) < comp_idx && q != orig && sub_clusters@[q as int]@[0] <= last + tolerance {
                    assert(before.contains(q));
                    let w = choose|w: int| 0 <= w < before.len() && before[w] == q;
                    assert(candidates@[w] == q);
                }
                if q == comp_idx && q != orig && sub_clusters@[q as int]@[0] <= last + tolerance {
                    assert(candidates@[before.len() as int] == q);
                }
            }
        }
        comp_idx += 1;
    }
    candidates
}

/// `s` is in increasing order (ties allowed).
pub open spec fn sorted(s: Seq<usize>) -> bool {
    forall|a: int, b: int| 0 <= a < b < s.len() ==> #[trigger] s[a] <= #[trigger] s[b]
}

/// Sorts `v` in increasing order.
pub fn sort_indices(v: &mut Vec<usize>)
    ensures
        sorted(final(v)@),
        final(v)@.to_multiset() == old(v)@.to_multiset(),
{
    let input = v.clone();
    let mut out: Vec<usize> = Vec::new();
    let mut i: usize = 0;
    proof {
        assert(input@ == old(v)@);
        assert(input@.take(0) =~= Seq::<usize>::empty());
    }
    while i < input.len()
        invariant
            i <= input@.len(),
            sorted(out@),
            out@.to_multiset() == input@.take(i as int).to_multiset(),
        decreases input@.len() - i,
    {
        let x = input[i];
        let mut pos: usize = 0;
        while pos < out.len() && out[pos] <= x
            invariant
                pos <= out@.len(),
                forall|a: int| 0 <= a < pos ==> #[trigger] out@[a] <= x,
            decreases out@.len() - pos,
        {
            pos += 1;
        }
        let ghost before = out@;
        out.insert(pos, x);
        proof {
            assert(out@ == before.insert(pos as int, x));
            before.insert_ensures(pos as int, x);
            assert(out@.remove(pos as int) =~= before);
            out@.to_multiset_ensures();
            assert(out@.to_multiset().remove(x) =~= before.to_multiset());
            assert(out@.contains(x)) by {
                assert(out@[pos as int] == x);
            }
            assert(out@.to_multiset() =~= before.to_multiset().insert(x));
            assert(input@.take(i as int + 1) =~= input@.take(i as int).push(x));
            input@.take(i as int).to_multiset_ensures();
            assert forall|a: int, b: int| 0 <= a < b < out@.len() implies #[trigger] out@[a] <= #[trigger] out@[b] by {
                if b < pos {
                    assert(out@[a] == before[a] && out@[b] == before[b]);
                } else if b == pos {
                    assert(out@[a] == before[a]);
                } else if a == pos {
                    assert(out@[b] == before[b - 1]);
                    if pos < before.len() {
                        assert(before[pos as int] > x);
                        assert(before[pos as int] <= before[b - 1]);
                    }
                } else if a < pos {
                    assert(out@[a] == before[a] && out@[b] == before[b - 1]);
                } else {
                    assert(out@[a] == before[a - 1] && out@[b] == before[b - 1]);
                }
            }
        }
        i += 1;
    }
    proof {
        assert(input@.take(input@.len() as int) =~= input@);
    }
    *v = out;
}

/// Joins sub-cluster `join` into sub-cluster `origin`: `origin` takes the
/// points of both, sorted, and `join` is removed from the list.
pub fn join_subclusters(sub_clusters: &mut Vec<Vec<usize>>, origin: usize, join: usize)
    requires
        origin < old(sub_clusters)@.len(),
        join < old(sub_clusters)@.len(),
        origin != join,
    ensures
        final(sub_clusters)@.len() == old(sub_clusters)@.len() - 1,
        forall|q: int|
            0 <= q < old(sub_clusters)@.len() && q != origin && q != join ==> #[trigger] old(sub_clusters)@[q]@
                == final(sub_clusters)@[if q < join { q } else { q - 1 }]@,
        ({
            let merged = final(sub_clusters)@[if origin < join { origin as int } else { origin - 1 }]@;
            &&& sorted(merged)
            &&& merged.to_multiset() == (old(sub_clusters)@[origin as int]@ + old(sub_clusters)@[join as int]@).to_multiset()
        }),
{
    let mut joiner = sub_clusters[join].clone();
    let mut merged = sub_clusters[origin].clone();
    let ghost parts = merged@ + joiner@;
    merged.append(&mut joiner);
    sort_indices(&mut merged);
    let ghost before = sub_clusters@;
    sub_clusters.set(origin, merged);
    let ghost mid = sub_clusters@;
    sub_clusters.remove(join);
    proof {
        assert forall|q: int|
            0 <= q < before.len() && q != origin && q != join implies #[trigger] before[q]@
                == sub_clusters@[if q < join { q } else { q - 1 }]@ by {
            assert(mid[q] == before[q]);
        }
    }
}

} // verus!
