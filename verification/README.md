# crab_antiagiota_performance

A fraud scorer for card transactions: a transaction becomes 14 features,
quantized to int16, and its fraud score is the share of fraud labels among its
five nearest reference transactions. An IVF index (k-means cells with CSR
inverted lists) narrows the search to the cells nearest the query.

- `src/` is the library, verified with Verus: the nearest-five selection and
  its tie-breaking, the fraud vote and the approval threshold, the counting
  sort that builds the inverted lists, the coarse search over cells, the IVF
  query path, the on-disk index format and its round trip, the reference
  dataset blob, the evaluation counts, the merchant risk table, and the laws
  that tie them together (full probes are exact, more probes never lose recall
  or scan less).
- `app/` is the service around it: HTTP over a Unix socket, files, JSON, and
  everything computed in `f32` (feature extraction, quantization, k-means
  training, centroid distances). It hands the library the ordering keys of the
  `f32` distances.
- `tests/` runs the library on concrete values.
