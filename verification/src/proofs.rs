//! Inclusion proofs of a value in a merkle forest.
//!
//! A proof carries a path, the leaf hash and the sibling hashes along the
//! path from bottom to top. Verification is stateless: it recomputes the root
//! from the leaf by combining in each sibling on the side its path bit names,
//! and compares the result to the root it is checked against.

use vstd::prelude::*;
use crate::hash::node_hash_of;

verus! {

/// The root recomputed from `leaf` by climbing the path: at level `k`, when
/// `bits[k]` is set the leaf lies in the right subtree, so the sibling is
/// combined on the left, and otherwise on the right.
pub open spec fn fold_root(leaf: Seq<u8>, bits: Seq<bool>, sibs: Seq<Seq<u8>>) -> Seq<u8>
    decreases bits.len(),
{
    if bits.len() == 0 {
        leaf
    } else {
        let next = if bits[0] {
            node_hash_of(sibs[0], leaf)
        } else {
            node_hash_of(leaf, sibs[0])
        };
        fold_root(next, bits.drop_first(), sibs.drop_first())
    }
}

/// Peels the topmost level off a climb: folding over one more level combines
/// the extra sibling with the root of the levels below it.
pub proof fn lemma_fold_root_snoc(
    leaf: Seq<u8>,
    bits: Seq<bool>,
    sibs: Seq<Seq<u8>>,
    bit: bool,
    sib: Seq<u8>,
)
    requires
        bits.len() == sibs.len(),
    ensures
        fold_root(leaf, bits.push(bit), sibs.push(sib)) == (if bit {
            node_hash_of(sib, fold_root(leaf, bits, sibs))
        } else {
            node_hash_of(fold_root(leaf, bits, sibs), sib)
        }),
    decreases bits.len(),
{
    if bits.len() == 0 {
        let b1 = bits.push(bit);
        let s1 = sibs.push(sib);
        assert(b1[0] == bit);
        assert(s1[0] == sib);
        assert(b1.drop_first() =~= Seq::<bool>::empty());
        assert(s1.drop_first() =~= Seq::<Seq<u8>>::empty());
        let next = if b1[0] {
            node_hash_of(s1[0], leaf)
        } else {
            node_hash_of(leaf, s1[0])
        };
        assert(fold_root(leaf, b1, s1) == fold_root(next, b1.drop_first(), s1.drop_first()));
        assert(fold_root(next, Seq::<bool>::empty(), Seq::<Seq<u8>>::empty()) == next);
    } else {
        let next = if bits[0] {
            node_hash_of(sibs[0], leaf)
        } else {
            node_hash_of(leaf, sibs[0])
        };
        assert(bits.push(bit).drop_first() =~= bits.drop_first().push(bit));
        assert(sibs.push(sib).drop_first() =~= sibs.drop_first().push(sib));
        assert(bits.push(bit)[0] == bits[0]);
        assert(sibs.push(sib)[0] == sibs[0]);
        lemma_fold_root_snoc(next, bits.drop_first(), sibs.drop_first(), bit, sib);
    }
}

/// What it means for a proof with the given parts to verify against `root`:
/// the sibling count matches the path height and the recomputed root equals
/// `root`.
pub open spec fn proof_verifies(
    bits: Seq<bool>,
    leaf: Seq<u8>,
    sibs: Seq<Seq<u8>>,
    root: Seq<u8>,
) -> bool {
    sibs.len() == bits.len() && fold_root(leaf, bits, sibs) == root
}

/// Inclusion proof of a value in a merkle forest.
#[derive(Debug, Clone, PartialEq, Eq)]
pub struct Proof {
    /// Path is from leaf to root node.
    pub path: crate::path::Path,
    /// Leaf hash.
    pub leaf_hash: crate::hash::Hash,
    /// Sibling hashes are from bottom to top.
    pub sibling_hashes: Vec<crate::hash::Hash>,
}

impl Proof {
    /// The path bits, from leaf to root.
    pub open spec fn bits(&self) -> Seq<bool> {
        self.path@
    }

    /// The leaf hash the proof attests to.
    pub open spec fn leaf(&self) -> Seq<u8> {
        self.leaf_hash@
    }

    /// The sibling hashes, from bottom to top.
    pub open spec fn sibs(&self) -> Seq<Seq<u8>> {
        self.sibling_hashes@.map_values(|h: crate::hash::Hash| h@)
    }

    /// Verifies current proof with given root hash.
    pub fn verify(&self, root_hash: crate::hash::Hash) -> (r: bool)
        ensures
            r == proof_verifies(self.bits(), self.leaf(), self.sibs(), root_hash@),
    {
        let height = self.path.height();

        // If height of path in proof and number of sibling hashes does not
        // match, the proof is malformed.
        if self.sibling_hashes.len() != height {
            return false;
        }
        let mut hash = self.leaf_hash;
        let mut k: usize = 0;
        while k < height
            invariant
                k <= height,
                height == self.bits().len(),
                self.sibling_hashes@.len() == height,
                hash@ == fold_root(self.leaf(), self.bits().take(k as int), self.sibs().take(k as int)),
            decreases height - k,
        {
            let sib = self.sibling_hashes[k];
            let next = if self.path.bit(k) {
                crate::hash::hash_intermediate(&sib, &hash)
            } else {
                crate::hash::hash_intermediate(&hash, &sib)
            };
            proof {
                lemma_fold_root_snoc(
                    self.leaf(),
                    self.bits().take(k as int),
                    self.sibs().take(k as int),
                    self.bits()[k as int],
                    self.sibs()[k as int],
                );
                assert(self.bits().take(k as int).push(self.bits()[k as int]) =~= self.bits().take(
                    k + 1 as int,
                ));
                assert(self.sibs().take(k as int).push(self.sibs()[k as int]) =~= self.sibs().take(
                    k + 1 as int,
                ));
            }
            hash = next;
            k += 1;
        }
        proof {
            assert(self.bits().take(height as int) =~= self.bits());
            assert(self.sibs().take(height as int) =~= self.sibs());
        }
        crate::hash::hash_eq(&hash, &root_hash)
    }
}

} // verus!
