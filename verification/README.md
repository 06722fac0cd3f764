# spill

Memory tiering primitives for LLM inference backends, written in Verus.

Buffers are placed across three tiers (VRAM, host memory, storage); access
trackers and predictors decide what is hot; a prefetch step promotes the
predicted buffers into VRAM; profiles record hot keys and tier assignments
as JSON.

## Layout

- `src/` — the verified library.
  - `tier/` — `TierManager` and `SimulatedStore`, with an abstract model
    (`model.rs`) that every operation is proved against, and the laws of the
    tier operations (`laws.rs`).
  - `tracker/` — frequency and recency trackers with integer scores.
  - `predictor/` — locality and Markov predictors; a confidence is the exact
    ratio `weight / total` of two 16-bit counts.
  - `prefetch/` — the prefetch decision loop over eligible predictions.
  - `profile/` — JSON text of a profile and its parser, with the round-trip
    law (`laws.rs`).
  - `maplib.rs` — finite sums over maps and sorting with ordering proofs.
- `tests/` — tests run against the compiled library.
- `app/` — the parts that stay outside verification: floating-point scores,
  the combined tracker, the prefetch controller's confidence threshold,
  profile files, and the standard error traits.
