//! Hash based in-memory accumulator: the root-only form of the forest.
//!
//! A slot per height holds at most one root hash; inserting carries a new
//! leaf hash upward, combining it with each occupied slot on the way exactly
//! as the forest merges trees, and deleting rebuilds the lower slots from a
//! proof's sibling hashes.

use vstd::prelude::*;
use crate::hash::leaf_hash_of;
use crate::hash::node_hash_of;
use crate::proofs::proof_verifies;

verus! {

/// The views of a sequence of optional hash values.
pub open spec fn hash_options_of(v: Seq<Option<crate::hash::Hash>>) -> Seq<Option<Seq<u8>>> {
    v.map_values(
        |o: Option<crate::hash::Hash>|
            match o {
                Some(h) => Some(h@),
                None => None,
            },
    )
}

/// The roots after carrying `x` upward from height `h`: it lands in the
/// first empty slot at or above `h`, absorbing each occupied slot on the way
/// as the right child of a new intermediate hash.
pub open spec fn roots_insert_from(roots: Seq<Option<Seq<u8>>>, x: Seq<u8>, h: nat) -> Seq<
    Option<Seq<u8>>,
>
    decreases roots.len() - h,
{
    if h >= roots.len() {
        roots.push(Some(x))
    } else if roots[h as int].is_none() {
        roots.update(h as int, Some(x))
    } else {
        roots_insert_from(
            roots.update(h as int, None),
            node_hash_of(roots[h as int].unwrap(), x),
            h + 1,
        )
    }
}

/// The roots after inserting the leaf hash `x`.
pub open spec fn roots_after_insert(roots: Seq<Option<Seq<u8>>>, x: Seq<u8>) -> Seq<
    Option<Seq<u8>>,
> {
    roots_insert_from(roots, x, 0)
}

/// The roots after deleting along sibling hashes `sibs`, where levels below
/// `k` are already handled and `carry` holds the partly rebuilt subtree:
/// each sibling either fills an empty slot, or joins the carry as the left
/// child of a new intermediate hash. The carry, possibly empty, lands in the
/// slot at the proof's height.
pub open spec fn roots_delete_from(
    roots: Seq<Option<Seq<u8>>>,
    sibs: Seq<Seq<u8>>,
    carry: Option<Seq<u8>>,
    k: nat,
) -> Seq<Option<Seq<u8>>>
    recommends
        sibs.len() < roots.len(),
    decreases sibs.len() - k,
{
    if k >= sibs.len() {
        roots.update(k as int, carry)
    } else if carry.is_some() {
        roots_delete_from(roots, sibs, Some(node_hash_of(sibs[k as int], carry.unwrap())), k + 1)
    } else if roots[k as int].is_none() {
        roots_delete_from(roots.update(k as int, Some(sibs[k as int])), sibs, None, k + 1)
    } else {
        roots_delete_from(
            roots.update(k as int, None),
            sibs,
            Some(node_hash_of(sibs[k as int], roots[k as int].unwrap())),
            k + 1,
        )
    }
}

/// The roots after applying a proof's sibling hashes as a deletion.
pub open spec fn roots_after_delete(roots: Seq<Option<Seq<u8>>>, sibs: Seq<Seq<u8>>) -> Seq<
    Option<Seq<u8>>,
> {
    roots_delete_from(roots, sibs, None, 0)
}

/// Whether a proof with the given parts verifies against the roots: the
/// slot at the path's height is occupied and the proof verifies against it.
pub open spec fn roots_accept(
    roots: Seq<Option<Seq<u8>>>,
    bits: Seq<bool>,
    leaf: Seq<u8>,
    sibs: Seq<Seq<u8>>,
) -> bool {
    &&& bits.len() < roots.len()
    &&& roots[bits.len() as int].is_some()
    &&& proof_verifies(bits, leaf, sibs, roots[bits.len() as int].unwrap())
}

/// Hash based in-memory accumulator.
#[derive(Debug, Clone, PartialEq, Eq)]
pub struct MemoryAccumulator(Vec<Option<crate::hash::Hash>>);

impl Default for MemoryAccumulator {
    fn default() -> (r: Self)
        ensures
            r.roots_model() == Seq::<Option<Seq<u8>>>::empty(),
    {
        let r = MemoryAccumulator(Vec::new());
        proof {
            assert(r.roots_model() =~= Seq::<Option<Seq<u8>>>::empty());
        }
        r
    }
}

impl MemoryAccumulator {
    /// The per-height root hashes, an empty slot being `None`.
    pub closed spec fn roots_model(self) -> Seq<Option<Seq<u8>>> {
        hash_options_of(self.0@)
    }

    /// Creates a new instance of memory accumulator.
    pub fn new() -> (r: Self)
        ensures
            r.roots_model() == Seq::<Option<Seq<u8>>>::empty(),
    {
        Self::default()
    }

    /// Returns the root hashes of all the merkle trees in forest.
    pub fn root_hashes(&self) -> (r: &[Option<crate::hash::Hash>])
        ensures
            hash_options_of(r@) == self.roots_model(),
    {
        self.0.as_slice()
    }

    /// Verifies inclusion proof of a value in accumulator.
    pub fn verify(&self, proof: &crate::proofs::Proof) -> (r: bool)
        ensures
            r == roots_accept(self.roots_model(), proof.bits(), proof.leaf(), proof.sibs()),
    {
        let height = proof.path.height();

        if self.0.len() <= height {
            return false;
        }
        let slot = self.0[height];
        match slot {
            Some(root_hash) => proof.verify(root_hash),
            None => false,
        }
    }

    /// Inserts a new value in accumulator: its leaf hash is carried upward
    /// from height zero.
    pub fn insert(&mut self, value: &[u8])
        ensures
            final(self).roots_model() == roots_after_insert(
                old(self).roots_model(),
                leaf_hash_of(value@),
            ),
    {
        let ghost om = old(self).roots_model();
        let mut new_hash = crate::hash::hash_leaf(value);
        let len = self.0.len();
        let mut i: usize = 0;
        while i < len
            invariant
                i <= len,
                self.0@.len() == len,
                om == old(self).roots_model(),
                roots_after_insert(om, leaf_hash_of(value@)) == roots_insert_from(
                    self.roots_model(),
                    new_hash@,
                    i as nat,
                ),
            decreases len - i,
        {
            let slot = self.0[i];
            match slot {
                Some(old_hash) => {
                    let ghost before = self.roots_model();
                    new_hash = crate::hash::hash_intermediate(&old_hash, &new_hash);
                    self.0.set(i, None);
                    proof {
                        assert(self.roots_model() =~= before.update(i as int, None));
                    }
                },
                None => {
                    let ghost before = self.roots_model();
                    self.0.set(i, Some(new_hash));
                    proof {
                        assert(self.roots_model() =~= before.update(
                            i as int,
                            Some(new_hash@),
                        ));
                    }
                    return ;
                },
            }
            i += 1;
        }
        let ghost before = self.roots_model();
        self.0.push(Some(new_hash));
        proof {
            assert(self.roots_model() =~= before.push(Some(new_hash@)));
        }
    }

    /// Verifies and deletes value corresponding to given proof from
    /// accumulator. Returns true if the value was successfully verified and
    /// deleted, false otherwise.
    pub fn delete(&mut self, proof: &crate::proofs::Proof) -> (r: bool)
        ensures
            r == roots_accept(old(self).roots_model(), proof.bits(), proof.leaf(), proof.sibs()),
            r ==> final(self).roots_model() == roots_after_delete(
                old(self).roots_model(),
                proof.sibs(),
            ),
            !r ==> *final(self) == *old(self),
    {
        let ghost om = old(self).roots_model();
        let ghost sibs = proof.sibs();

        // Proof should be valid to delete a value from accumulator.
        if !self.verify(proof) {
            return false;
        }
        let height = proof.path.height();
        let mut new_hash: Option<crate::hash::Hash> = None;
        let mut k: usize = 0;
        while k < height
            invariant
                k <= height,
                height < self.0@.len(),
                sibs.len() == height,
                sibs == proof.sibs(),
                proof.sibling_hashes@.len() == height,
                roots_after_delete(om, sibs) == roots_delete_from(
                    self.roots_model(),
                    sibs,
                    match new_hash {
                        Some(h) => Some(h@),
                        None => None,
                    },
                    k as nat,
                ),
            decreases height - k,
        {
            let sibling_hash = proof.sibling_hashes[k];
            match new_hash {
                Some(h) => {
                    new_hash = Some(crate::hash::hash_intermediate(&sibling_hash, &h));
                },
                None => {
                    let slot = self.0[k];
                    match slot {
                        None => {
                            let ghost before = self.roots_model();
                            self.0.set(k, Some(sibling_hash));
                            proof {
                                assert(self.roots_model() =~= before.update(
                                    k as int,
                                    Some(sibling_hash@),
                                ));
                            }
                        },
                        Some(old_root) => {
                            let ghost before = self.roots_model();
                            new_hash = Some(
                                crate::hash::hash_intermediate(&sibling_hash, &old_root),
                            );
                            self.0.set(k, None);
                            proof {
                                assert(self.roots_model() =~= before.update(k as int, None));
                            }
                        },
                    }
                },
            }
            k += 1;
        }
        let ghost before = self.roots_model();
        self.0.set(height, new_hash);
        proof {
            assert(self.roots_model() =~= before.update(
                height as int,
                match new_hash {
                    Some(h) => Some(h@),
                    None => None,
                },
            ));
        }
        true
    }
}

impl crate::utreexo::Utreexo for MemoryAccumulator {
    open spec fn roots_model(&self) -> Seq<Option<Seq<u8>>> {
        MemoryAccumulator::roots_model(*self)
    }

    open spec fn inv(&self) -> bool {
        true
    }

    open spec fn insert_absorbed(&self, leaf: Seq<u8>) -> bool {
        false
    }

    open spec fn insert_permitted(&self) -> bool {
        true
    }

    open spec fn delete_accepted(&self, bits: Seq<bool>, leaf: Seq<u8>, sibs: Seq<Seq<u8>>) -> bool {
        roots_accept(MemoryAccumulator::roots_model(*self), bits, leaf, sibs)
    }

    proof fn accepted_verifies(&self, bits: Seq<bool>, leaf: Seq<u8>, sibs: Seq<Seq<u8>>) {
    }

    fn insert(&mut self, value: &[u8]) {
        self.insert(value);
    }

    fn delete(&mut self, proof: &crate::proofs::Proof) -> (r: bool) {
        self.delete(proof)
    }
}

} // verus!
