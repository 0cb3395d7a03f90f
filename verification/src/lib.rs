//! Sorted Poseidon2 Merkle commitments over BabyBear: the canonical heap
//! tree (an indexed Merkle tree), IVC hash chains, Merkle membership paths,
//! and the decoders for Lean-emitted circuit descriptors.
pub mod field;
pub mod poseidon2;
pub mod merkle;
pub mod heap_leaf;
pub mod heap_tree;
pub mod heap_laws;
pub mod ivc;
pub mod text;
pub mod membership_descriptor_general;
pub mod membership_descriptor_4ary;
pub mod merkle_types;
pub mod merkle_air;
pub mod lean_descriptor_air;
pub mod mina_fixture_emit;
