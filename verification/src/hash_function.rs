//! Pluggable hash combiners.
//!
//! A combiner folds two integers into one, purely and deterministically; a
//! Merkle tree and any circuit verifying one of its paths must share one
//! combiner, or path verification spuriously fails. A circuit may also be
//! configured with no combiner, in which case the effective combining
//! function is plain integer addition.

use vstd::prelude::*;
use crate::bigint::Int;

verus! {

/// A pure, deterministic two-argument combining function, standing in for a
/// cryptographic hash. Implementors state the mathematical function they
/// compute as `spec_hash` and prove that `hash` computes it.
pub trait HashFunction: Sized {
    /// The mathematical function this combiner computes.
    spec fn spec_hash(&self, a: int, b: int) -> int;

    /// Combine two values into one.
    fn hash(&self, a: &Int, b: &Int) -> (r: Int)
        ensures
            r@ == self.spec_hash(a@, b@),
    ;
}

/// The combining function effective for an optionally configured combiner:
/// the combiner's own function, or integer addition when none is configured.
pub open spec fn combine_fn<H: HashFunction>(hasher: Option<&H>) -> spec_fn(int, int) -> int {
    match hasher {
        Some(h) => (|a: int, b: int| h.spec_hash(a, b)),
        None => (|a: int, b: int| a + b),
    }
}

/// Combine two values with the given combiner, or add them when none is
/// configured.
pub fn combine<H: HashFunction>(hasher: Option<&H>, a: &Int, b: &Int) -> (r: Int)
    ensures
        r@ == combine_fn(hasher)(a@, b@),
{
    match hasher {
        Some(h) => h.hash(a, b),
        None => a.add_value(b),
    }
}

/// The combiner that plainly adds its two operands: the same function a
/// circuit falls back to when no combiner is configured, made explicit so it
/// can be handed to a Merkle tree.
#[derive(Clone, Copy)]
pub struct AdditionHash;

impl HashFunction for AdditionHash {
    open spec fn spec_hash(&self, a: int, b: int) -> int {
        a + b
    }

    fn hash(&self, a: &Int, b: &Int) -> (r: Int) {
        a.add_value(b)
    }
}

/// A sample keyed combiner: `2 * a + 3 * b`. Deliberately not commutative,
/// so that swapping the operands of a combine step is observable.
#[derive(Clone, Copy)]
pub struct CustomHash;

impl HashFunction for CustomHash {
    open spec fn spec_hash(&self, a: int, b: int) -> int {
        2 * a + 3 * b
    }

    fn hash(&self, a: &Int, b: &Int) -> (r: Int) {
        let two = Int::from_u32(2);
        let three = Int::from_u32(3);
        let ta = two.mul_value(a);
        let tb = three.mul_value(b);
        ta.add_value(&tb)
    }
}

} // verus!
