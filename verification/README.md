# topology

A verified hypercube router for a STARK trace. A hop flips exactly one bit of a node ID.
The row layout and the routing AIR take the number of dimensions as a const generic; the
host-side hop check and the library's own hypercube use `DIM = 10` dimensions (1024 nodes),
and the syscall chip proves routes in `TOPOLOGY_DIM = 40` dimensions.

- `src/field.rs` — arithmetic in the BabyBear field on canonical `u32` representatives.
- `src/cols.rs` — the row layout (`TopologyCols`) and its flat view.
- `src/bits.rs` — bits of node IDs, differing dimensions, and the host-side hop check.
- `src/air.rs` — the routing AIR: constraint evaluation and what the constraints enforce.
- `src/event.rs` — the routing syscall: the event and the syscall record it leaves.
- `src/chip.rs` — trace height, trace generation, inclusion, and the syscall interaction a row receives.
- `src/laws.rs` — properties that tie the pieces together.
- `src/benchmark.rs` — the standalone two-row benchmark AIR and its random-walk trace.
- `app/` — the benchmark binary, the panicking host syscall, and the serde/deepsize copy of
  the event.

## What is modelled, and what is left out

- A trace is a flat `Vec<Fe>` laid out row after row, in place of a row-major matrix type of
  a STARK library; the AIR is evaluated as the list of its constraint values on a row.
- No STARK prover is part of this build: the prover configuration (FRI, hashing, challenger)
  and the proving step of the benchmark are left out: the prover crates they need are not
  among this project's dependencies. The benchmark binary generates the trace and reports its size; what
  the trace satisfies is proved in `src/benchmark.rs`, not checked at run time.
