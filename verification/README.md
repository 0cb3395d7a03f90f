# heap_circuit

Verified BabyBear circuit plumbing: the canonical heap tree (an indexed
Merkle tree over a sorted, linked leaf chain, at one-felt and eight-felt
width), IVC hash chains, 4-ary Merkle membership witnesses, and byte-level
decoders for the circuit descriptors the Lean toolchain emits.

Layout:

- `src/` — the library, verified with Verus.
  - `field.rs`, `poseidon2.rs` — the field, the Poseidon2 absorb and the eight-felt sponge; the
    permutation itself is the one trusted call into `p3-baby-bear`.
  - `merkle.rs` — the generic sparse Merkle fold and its lemmas.
  - `heap_leaf.rs`, `heap_tree.rs`, `heap_laws.rs` — the heap chain, the
    trees and their witnesses, and the laws tying them together.
  - `ivc.rs` — accumulated-hash chains and turn receipts.
  - `membership_descriptor_*.rs`, `merkle_types.rs`, `merkle_air.rs` —
    membership roots, witnesses, traces and row gates.
  - `lean_descriptor_air.rs` (+ `json`, `effect_vm`, `refusals`) — the
    descriptor ASTs, the grammar as spec functions, the decoders proved
    exact against it, and what the strict decoders let through.
  - `mina_fixture_emit.rs` — JSON array encoders.
- `tests/` — runtime tests.
- `app/` — serde forms, `Display`, and command-line reading.
