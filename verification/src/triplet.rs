//! Triplets: three points of the cloud aligned along a common direction, and
//! the order in which candidate triplets are formed around a point.
use vstd::prelude::*;
use vstd::std_specs::cmp::PartialEqSpec;

verus! {

/// Three points of the cloud aligned along a common direction. The geometric
/// fields are carried as `F`.
#[derive(Debug, Clone)]
pub struct Triplet<F> {
    /// Index of point a in the point cloud.
    pub index_a: usize,
    /// Index of point b in the point cloud.
    pub index_b: usize,
    /// Index of point c in the point cloud.
    pub index_c: usize,
    /// The centroid of the three points.
    pub centroid: [F; 3],
    /// The direction of the triplet.
    pub direction: [F; 3],
    /// The error, `1 - cos(alpha)`.
    pub error: F,
}

impl<F> PartialEq for Triplet<F> {
    /// Triplets are equal when they hold the same points in the same order.
    fn eq(&self, other: &Self) -> (r: bool)
        ensures
            r == (self.index_a == other.index_a && self.index_b == other.index_b && self.index_c == other.index_c),
    {
        self.index_a == other.index_a && self.index_b == other.index_b && self.index_c == other.index_c
    }
}

impl<F> vstd::std_specs::cmp::PartialEqSpecImpl for Triplet<F> {
    open spec fn obeys_eq_spec() -> bool {
        true
    }

    open spec fn eq_spec(&self, other: &Self) -> bool {
        self.index_a == other.index_a && self.index_b == other.index_b && self.index_c == other.index_c
    }
}

/// Law: two triplets compare equal exactly when they hold the same three
/// points in the same order; equality is reflexive and symmetric.
pub proof fn lemma_triplet_equality<F>(x: Triplet<F>, y: Triplet<F>)
    ensures
        x.eq_spec(&y) <==> (x.index_a == y.index_a && x.index_b == y.index_b && x.index_c == y.index_c),
        x.index_c != y.index_c ==> !x.eq_spec(&y),
        x.eq_spec(&x),
        x.eq_spec(&y) == y.eq_spec(&x),
{
}

/// Candidate pairs among the first `k` neighbours, in the order they are formed:
/// the pairs `(a, c)` with `1 <= a < c < k` whose neighbours are both apart
/// from the core point, ordered by `a`, then by `c`.
pub open spec fn pairs_before(apart: Seq<bool>, k: int) -> Seq<(usize, usize)>
    decreases k,
{
    if k <= 1 {
        Seq::empty()
    } else {
        pairs_before(apart, k - 1) + (if apart[k - 1] {
            pairs_with(apart, k - 1, apart.len() as int)
        } else {
            Seq::empty()
        })
    }
}

/// Pairs `(a, c)` for one first neighbour `a` and every later neighbour
/// `c < end` apart from the core point, in increasing `c`.
pub open spec fn pairs_with(apart: Seq<bool>, a: int, end: int) -> Seq<(usize, usize)>
    decreases end - a,
{
    if end <= a + 1 {
        Seq::empty()
    } else {
        pairs_with(apart, a, end - 1) + (if apart[end - 1] {
            seq![(a as usize, (end - 1) as usize)]
        } else {
            Seq::empty()
        })
    }
}

proof fn lemma_pairs_with_members(apart: Seq<bool>, a: int, end: int)
    requires
        0 <= a,
        end <= apart.len(),
        apart.len() <= usize::MAX,
    ensures
        forall|x: usize, y: usize| #[trigger] pairs_with(apart, a, end).contains((x, y)) <==> (x == a && a < y < end && apart[y as int]),
        pairs_with(apart, a, end).no_duplicates(),
        forall|k: int| 0 <= k < pairs_with(apart, a, end).len() ==> (#[trigger] pairs_with(apart, a, end)[k]).0 == a,
    decreases end - a,
{
    if end > a + 1 {
        lemma_pairs_with_members(apart, a, end - 1);
        let prev = pairs_with(apart, a, end - 1);
        let cur = pairs_with(apart, a, end);
        if apart[end - 1] {
            let p = ((a as usize), (end - 1) as usize);
            assert(cur == prev.push(p));
            assert(!prev.contains(p));
            assert forall|x: usize, y: usize| #[trigger] cur.contains((x, y)) <==> (x == a && a < y < end && apart[y as int]) by {
                if cur.contains((x, y)) && (x, y) != p {
                    let w = choose|w: int| 0 <= w < cur.len() && cur[w] == (x, y);
                    assert(prev[w] == (x, y));
                }
                if prev.contains((x, y)) {
                    let w = choose|w: int| 0 <= w < prev.len() && prev[w] == (x, y);
                    assert(cur[w] == (x, y));
                }
                if x == a && y == end - 1 && apart[y as int] {
                    assert(cur[prev.len() as int] == (x, y));
                }
            }
        } else {
            assert(cur =~= prev);
        }
    }
}

/// Law: the candidate pairs around a core point are exactly the pairs of
/// neighbours `(a, c)` with `1 <= a < c` that both lie apart from the core
/// point, each pair once.
pub proof fn lemma_candidate_pairs_exact(apart: Seq<bool>)
    requires
        apart.len() <= usize::MAX,
    ensures
        pairs_before(apart, apart.len() as int).no_duplicates(),
        forall|x: usize, y: usize|
            #[trigger] pairs_before(apart, apart.len() as int).contains((x, y)) <==> (1 <= x < y < apart.len()
                && apart[x as int] && apart[y as int]),
{
    lemma_pairs_before_members(apart, apart.len() as int);
}

proof fn lemma_pairs_before_members(apart: Seq<bool>, k: int)
    requires
        k <= apart.len(),
        apart.len() <= usize::MAX,
    ensures
        pairs_before(apart, k).no_duplicates(),
        forall|x: usize, y: usize|
            #[trigger] pairs_before(apart, k).contains((x, y)) <==> (1 <= x < k && x < y < apart.len()
                && apart[x as int] && apart[y as int]),
    decreases k,
{
    if k > 1 {
        lemma_pairs_before_members(apart, k - 1);
        let prev = pairs_before(apart, k - 1);
        let cur = pairs_before(apart, k);
        if apart[k - 1] {
            let row = pairs_with(apart, k - 1, apart.len() as int);
            lemma_pairs_with_members(apart, k - 1, apart.len() as int);
            assert(cur == prev + row);
            assert forall|x: usize, y: usize|
                #[trigger] cur.contains((x, y)) <==> (1 <= x < k && x < y < apart.len() && apart[x as int] && apart[y as int]) by {
                if cur.contains((x, y)) {
                    let w = choose|w: int| 0 <= w < cur.len() && cur[w] == (x, y);
                    if w < prev.len() {
                        assert(prev[w] == (x, y));
                        assert(prev.contains((x, y)));
                    } else {
                        assert(row[w - prev.len()] == (x, y));
                        assert(row.contains((x, y)));
                    }
                }
                if 1 <= x < k && x < y < apart.len() && apart[x as int] && apart[y as int] {
                    if x < k - 1 {
                        assert(prev.contains((x, y)));
                        let w = choose|w: int| 0 <= w < prev.len() && prev[w] == (x, y);
                        assert(cur[w] == (x, y));
                    } else {
                        assert(row.contains((x, y)));
                        let w = choose|w: int| 0 <= w < row.len() && row[w] == (x, y);
                        assert(cur[prev.len() + w] == (x, y));
                    }
                }
            }
            assert forall|i: int, j: int| 0 <= i < j < cur.len() implies cur[i] != cur[j] by {
                if i < prev.len() && j >= prev.len() {
                    assert(prev[i] == cur[i]);
                    assert(prev.contains((cur[i].0, cur[i].1)));
                    assert(row[j - prev.len()].0 == k - 1);
                    assert(cur[i].0 < k - 1);
                } else if i >= prev.len() {
                    assert(row[i - prev.len()] == cur[i]);
                    assert(row[j - prev.len()] == cur[j]);
                }
            }
        } else {
            assert(cur =~= prev);
        }
    }
}

/// The pairs of neighbours that are tried as the outer points of a triplet
/// around a core point, given for each neighbour (nearest first, the core
/// point itself at position 0) whether it lies apart from the core point.
/// Position 0 is never used; a neighbour at distance zero is skipped.
pub fn candidate_pairs(apart: &Vec<bool>) -> (pairs: Vec<(usize, usize)>)
    ensures
        pairs@ == pairs_before(apart@, apart@.len() as int),
{
    let n = apart.len();
    let mut pairs: Vec<(usize, usize)> = Vec::new();
    let mut nindex_a: usize = 1;
    if n == 0 {
        return pairs;
    }
    while nindex_a < n
        invariant
            n == apart@.len(),
            1 <= nindex_a <= n,
            pairs@ == pairs_before(apart@, nindex_a as int),
        decreases n - nindex_a,
    {
        let ghost before = pairs@;
        if apart[nindex_a] {
            let mut nindex_c: usize = nindex_a + 1;
            while nindex_c < n
                invariant
                    n == apart@.len(),
                    1 <= nindex_a < n,
                    nindex_a + 1 <= nindex_c <= n,
                    pairs@ == before + pairs_with(apart@, nindex_a as int, nindex_c as int),
                decreases n - nindex_c,
            {
                if apart[nindex_c] {
                    pairs.push((nindex_a, nindex_c));
                }
                proof {
                    assert(pairs_with(apart@, nindex_a as int, nindex_c as int + 1) == pairs_with(
                        apart@,
                        nindex_a as int,
                        nindex_c as int,
                    ) + (if apart@[nindex_c as int] {
                        seq![(nindex_a, nindex_c)]
                    } else {
                        Seq::empty()
                    }));
                }
                nindex_c += 1;
            }
        }
        proof {
            assert(pairs@ =~= pairs_before(apart@, nindex_a as int + 1));
        }
        nindex_a += 1;
    }
    pairs
}

} // verus!
