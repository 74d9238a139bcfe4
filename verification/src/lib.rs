//! Arithmetic circuits lowered to rank-1 constraint systems.
//!
//! A [`circuit::Circuit`] is built from typed gates (addition,
//! multiplication, keyed hash-combine) over indexed inputs, lowers itself
//! into an [`r1cs::R1CS`] constraint list, and reduces to a single
//! satisfaction byte. A [`merkle::MerkleTree`] builds a binary hash tree
//! over leaf values and hands out per-leaf authentication paths that a
//! circuit can check with the same combiner.

pub mod bigint;
pub mod circuit;
pub mod hash_function;
pub mod merkle;
pub mod r1cs;
