//! Proof generation: the capability the full forest has and the root-only
//! accumulator deliberately lacks.

use vstd::prelude::*;
use crate::hash::leaf_hash_of;

verus! {

/// Trait for generating inclusion proofs of a value in a merkle forest.
pub trait Prover {
    /// Whether the prover's state is internally consistent.
    spec fn prover_inv(&self) -> bool;

    /// Whether the prover holds the given leaf hash.
    spec fn holds_leaf(&self, leaf: Seq<u8>) -> bool;

    /// Returns proof of a leaf value in merkle forest: one is produced
    /// exactly when the value's leaf hash is held, and it attests to that
    /// leaf hash.
    fn prove(&self, value: &[u8]) -> (r: Option<crate::proofs::Proof>)
        requires
            self.prover_inv(),
        ensures
            r.is_some() == self.holds_leaf(leaf_hash_of(value@)),
            r.is_some() ==> r.unwrap().leaf() == leaf_hash_of(value@),
    ;
}

} // verus!
