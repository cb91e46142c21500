# opencut

Editor-core data for OpenCut, and transcript-driven discovery of social clips,
verified with Verus.

## Layout

- `src/` — the verified library.
  - `rational.rs`: exact rational times in lowest terms, with overflow-checked arithmetic.
  - `ids.rs`, `clips.rs`: identifiers, clip kinds and validated clip timing.
  - `timelines/`: tracks and timelines (flow tracks position clips by prefix sums,
    fixed tracks keep clips sorted and non-overlapping, one main track that cannot be removed).
  - `clip_finder/`: transcript validation, candidate windows on segment boundaries,
    greedy batching, and the ordering and overlap filter of scored candidates.
  - `discovery/`: the session workflow around an external scorer (limits, requests,
    batches, atomic submissions, progress, finalization order).
  - `review.rs`: the human review queue that adds accepted suggestions to a timeline.
- `app/` — the MCP server over stdio: tool protocol, file input and output,
  floating-point scores and weights, and the review package format.
- `tests/` — tests of the library.
