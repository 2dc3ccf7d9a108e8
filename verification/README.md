# marline

Similarity-based deduplication building blocks, verified with Verus.

- `src/sketch` — fixed-size sorted sketches of super-features and their
  intersection.
- `src/index` — a tiered inverted index from super-features to chunk
  hashes: storage backends (`IndexStorage`, `MockStore`) and the
  `PalantirIndex` that ranks stored hashes by shared super-features.
- `src/palantir` — super-feature types, the three-level `Index`, the
  scrubber's bookkeeping and the zstd-compressed sizes it compares, the
  gdelta encoder with its instruction format,
  an in-memory key-value store, and benchmark configurations.
- `src/clusterer` — the graph clusterer (nearest root within a distance,
  over a flat union-find forest) and the equality clusterer's statistics.
- `src/hasher` — the Odess hasher: content-defined sampling, features and
  super-features.
- `app/` — the benchmark driver: chunkfs file systems, the chunkfs
  database view of the key-value store, CSV output, dataset download, and
  the floating-point parts (Jaccard similarity, the adaptive delta
  threshold).
- `tests/` — tests of the library's public API.
