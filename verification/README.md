# histogram

Histograms with quantized buckets, verified with Verus: a dense histogram
with one counter per bucket, an atomic one for concurrent recording, a sparse
one that stores only the nonzero buckets, and a read-only cumulative one for
fast rank queries. Each comes with `u64` counters and a `*32` sibling with
`u32` counters.

## Layout

- `src/` is the verified library.
  - `geometry.rs` defines the bucket layout mathematically and proves its
    properties; `config.rs` implements it (`Config`).
  - `count.rs` abstracts the counter width (`Count`, `AtomicCount`).
  - `standard.rs`, `atomic.rs`, `sparse.rs` and `cumulative.rs` hold the
    four histogram families; `conversions.rs` widens and narrows counters.
  - `sums.rs` holds the rank search shared by the dense and sparse forms.
  - `laws.rs` states and proves how the operations relate: merging and
    unmerging, conversions between the forms, downsampling, and agreement of
    rank queries across the forms.
- `tests/` exercises the library on concrete values.
- `app/` holds what the library leaves out: quantile queries over
  floating-point quantiles (turned into ranks there and answered by the
  library), the deprecated percentile queries, and serializable records of
  the histogram types with serde and schemars derives.
