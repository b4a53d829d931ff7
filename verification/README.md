# ivc-checkpoints

A verified model of an epoch ledger whose state is checkpointed by a folded validity
proof. The library (`src/`) is written in Verus; every executable function carries a
contract that Verus proves.

Layout of `src/`:

- `field.rs` — BN254 scalar-field elements as four limbs with their value in `[0, r)`.
- `poseidon.rs` — Poseidon hashing (the circom parameter set) behind trusted wrappers.
- `imt.rs` — the incremental Merkle tree of accounts; paths open to the root, writes
  along a path give the new root.
- `ops.rs`, `circuit.rs` — operation witnesses and the exact per-step transition that
  the step circuit enforces (inclusion, 96-bit solvency, replay, conservation,
  accumulation), evaluated on concrete values.
- `ledger.rs`, `native.rs` — the executor that registers accounts, applies loads,
  spends and withdraws, and emits witnesses the step accepts.
- `newline/` — the same executor on the newer folding line, a sparse Merkle tree with
  modifying proofs, Schnorr signatures over Grumpkin, and the hash fixture.
- `workload.rs`, `prover.rs` — synthetic epoch workloads, batching, and the
  artifacts of an epoch proof.

`app/` holds the command-line driver, the R1CS gadgets and the folding back end, which
are ordinary Rust. `tests/` exercises the library on concrete values.
