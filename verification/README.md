# ringstore

Bounded temporal memory. A store keeps several resolutions of the same signal in a
footprint that follows from its declaration and never changes, consolidates
observations as they age, and answers reads only at the resolutions that a reader was
granted. Nothing reads a clock: times are given by the caller.

## Layout

- `src/` is the library. Its code is verified with Verus; there is nothing in it that
  is taken on trust.
  - `welford`, `categorical`, `vector`, `clusters`: the accumulators.
  - `slot`, `ring`, `ladder`: one bucket, a ring of them, and the archives that
    consolidate into one another.
  - `decl`, `kind`, `grant`, `reading`, `channel`, `store`, `step`: the declaration,
    what a reader may see and gets, one signal, the store, and a buffer for one step.
  - `arith`, `fixed`, `exact`: the numbers. Every formula is written over the
    operations of `Arith`, so the contracts say which operations are carried out and in
    which order. `Fixed` is fixed point, to compute with. `Exact` is the real numbers,
    to reason with.
  - `laws`: what holds of the library as a whole, proved.
- `tests/` runs the library, over doubles and in fixed point.
- `app/` is the store and the accumulators over doubles, which test what the library
  asks for before they call it. Floating point is outside of what is proved.

## What is proved

Every public function has a contract that fixes its result. Beyond that, `laws` states
among others:

- Merging accumulators gives what one pass over the samples of both gives, in exact
  arithmetic, so a slot anywhere up the ladder is the summary of the observations
  beneath it (`scalars`, `classes`, `vectors`, `consolidation`, `signals`).
- In an arithmetic that rounds by at most a unit in some range, as `Fixed` does, merging
  and compacting keep counts and extremes, and the rest up to a stated number of units
  (`rounding`, `rounded_scalars`, `rounded_vectors`, `rounded_clusters`).
- A codebook holds what fits and otherwise as many centroids as it may, and its total
  does not depend on how they were paired (`clusters`, `embeddings`).
- Once its retention has passed, nothing of what an archive held is in it (`rings`,
  `ladders`).
- Every archive closes a slot exactly when the steps that it spans have passed, whether
  or not they carry data (`ladders`).
- Steps without an observation are unknown, and reach the reader as absence (`ladders`,
  `signals`, `readings`).
- A reading depends on nothing that is withheld (`readings`).
- The footprint never moves, signals are independent, and refusals are told apart
  (`stores`).
