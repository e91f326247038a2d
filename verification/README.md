# tachiom

Tachiom is an IVF index for late-interaction multi-vector retrieval: token vectors are
clustered with token-aware clustering (TAC), documents are listed under the coarse
centroids their tokens fall into, and a query is answered in three stages (centroid
probing, candidate selection with alpha pruning, re-ranking with optional early exit).

The library under `src/` holds the index's integer and byte-level logic with Verus
contracts and proofs:

- `tac/` — the damped-spread centroid budget: splitting token groups into micro, small
  and active groups, bounding each active group's share, and reconciling the shares
  with the budget (round-robin surplus and deficit passes).
- `tachiom.rs` — the inverted lists built from per-token centroid assignments, the
  postings of a centroid, and the best score per document of one query token.
- `search.rs` — candidate selection, alpha pruning and top-k selection with early exit,
  over scores given by their bit patterns.
- `ranking.rs` — what the rankings return as scores: a higher pruning threshold never
  ranks higher, and early exit with a large enough `beta` returns the full ranking's
  scores.
- `npy.rs` — parsing of `.npy` headers and decoding of the integer arrays the tools read.
- `layout.rs` — per-document token counts and starts, little-endian encodings, and the
  assembly of per-document encoded blocks.
- `timing.rs` — the switch that turns timing reports on or off.
- `doc_sets.rs` — the `rustc-hash` collections the index uses, with their contracts.

`app/` holds what runs around the library: file I/O, the floating-point statistics of
the allocation, the vector search itself, and the command-line tools.
