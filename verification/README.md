# triplclust_rs

TriplClust finds curves in 3D point clouds: points are smoothed, grouped into
triplets of aligned points, the triplets are clustered hierarchically, and the
clusters are labelled onto the points and optionally split into sub-clusters.

## Layout

- `src/` — the verified library (Verus). It holds the discrete logic of every
  stage, each function with a contract:
  - `params`, `error`, `pyerror`, `text`: parameter validation and the error
    messages of every stage;
  - `dendrogram`, `cluster`: triplet labels from a merge history, pruning of
    small clusters, per-point label votes, renumbering;
  - `triplet`: the order in which candidate triplets are tried;
  - `digraph`, `stitch`: the cluster graph, its splitting by depth, its
    sub-trees, and the bookkeeping of sub-cluster labels;
  - `fxcollections`: the `rustc_hash` collections, behind trusted wrappers.
- `app/` — the floating-point geometry (k-d tree searches, distances, the
  hierarchical clustering itself, principal axes) and the Python bindings.
  It feeds the library with plain values.
- `tests/` — tests of the library on concrete values.
