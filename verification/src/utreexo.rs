//! The operation surface shared by every Utreexo state-holder.

use vstd::prelude::*;
use crate::accumulator::roots_accept;
use crate::accumulator::roots_after_delete;
use crate::accumulator::roots_after_insert;
use crate::hash::leaf_hash_of;

verus! {

/// Trait for all the operations of Utreexo accumulator.
///
/// An implementor presents one optional root hash per height, and its
/// operations move those roots by fixed carry rules: an inserted leaf hash
/// climbs from height zero, absorbing each occupied slot as the right child
/// of a new intermediate hash, and an accepted deletion rebuilds the lower
/// slots from the proof's sibling hashes. Both the full forest and the
/// root-only accumulator obey these contracts, which is what keeps their
/// roots in lock-step under a shared operation sequence.
pub trait Utreexo {
    /// The per-height root hashes the state presents.
    spec fn roots_model(&self) -> Seq<Option<Seq<u8>>>;

    /// Whether the state is internally consistent.
    spec fn inv(&self) -> bool;

    /// Whether inserting this leaf hash is absorbed without a change: a
    /// forest absorbs a hash it already holds, a root-only accumulator
    /// absorbs nothing.
    spec fn insert_absorbed(&self, leaf: Seq<u8>) -> bool;

    /// Whether the state has room for one more leaf.
    spec fn insert_permitted(&self) -> bool;

    /// Whether the state accepts a proof with these parts for deletion.
    spec fn delete_accepted(&self, bits: Seq<bool>, leaf: Seq<u8>, sibs: Seq<Seq<u8>>) -> bool;

    /// A proof the state accepts for deletion verifies against its roots.
    proof fn accepted_verifies(&self, bits: Seq<bool>, leaf: Seq<u8>, sibs: Seq<Seq<u8>>)
        requires
            self.inv(),
            self.delete_accepted(bits, leaf, sibs),
        ensures
            roots_accept(self.roots_model(), bits, leaf, sibs),
    ;

    /// Inserts a new value in accumulator.
    fn insert(&mut self, value: &[u8])
        requires
            old(self).inv(),
            old(self).insert_permitted(),
        ensures
            final (self).inv(),
            !old(self).insert_absorbed(leaf_hash_of(value@)) ==> final (self).roots_model()
                == roots_after_insert(old(self).roots_model(), leaf_hash_of(value@)),
            old(self).insert_absorbed(leaf_hash_of(value@)) ==> final (self).roots_model() == old(
                self,
            ).roots_model(),
    ;

    /// Verifies and deletes value corresponding to given proof from
    /// accumulator. Returns true if the value was successfully verified and
    /// deleted, false otherwise.
    fn delete(&mut self, proof: &crate::proofs::Proof) -> (r: bool)
        requires
            old(self).inv(),
        ensures
            final (self).inv(),
            r == old(self).delete_accepted(proof.bits(), proof.leaf(), proof.sibs()),
            r ==> final (self).roots_model() == roots_after_delete(
                old(self).roots_model(),
                proof.sibs(),
            ),
            !r ==> final (self).roots_model() == old(self).roots_model(),
    ;
}


/// One operation of the shared surface, given by the data that determines
/// it: the leaf hash inserted, or the parts of the proof a deletion
/// consumes.
pub enum Operation {
    /// Insert the value with this leaf hash.
    Insert(Seq<u8>),
    /// Delete along this path, leaf hash and sibling hashes.
    Delete(Seq<bool>, Seq<u8>, Seq<Seq<u8>>),
}

/// The forest's slots after one operation: a duplicate insert and a
/// rejected proof change nothing.
pub open spec fn forest_step(
    slots: Seq<Option<Seq<Seq<u8>>>>,
    op: Operation,
) -> Seq<Option<Seq<Seq<u8>>>> {
    match op {
        Operation::Insert(leaf) => if crate::forest::slots_contain(slots, leaf) {
            slots
        } else {
            crate::forest::slots_after_insert(slots, leaf)
        },
        Operation::Delete(bits, leaf, sibs) => if crate::forest::slots_accept(
            slots,
            bits,
            leaf,
            sibs,
        ) {
            crate::forest::slots_after_delete(slots, bits)
        } else {
            slots
        },
    }
}

/// The forest's slots after a whole operation sequence.
pub open spec fn forest_run(
    slots: Seq<Option<Seq<Seq<u8>>>>,
    ops: Seq<Operation>,
) -> Seq<Option<Seq<Seq<u8>>>>
    decreases ops.len(),
{
    if ops.len() == 0 {
        slots
    } else {
        forest_run(forest_step(slots, ops[0]), ops.drop_first())
    }
}

/// The accumulator's roots after one operation: every insert lands, and a
/// proof that verifies is applied.
pub open spec fn roots_step(roots: Seq<Option<Seq<u8>>>, op: Operation) -> Seq<Option<Seq<u8>>> {
    match op {
        Operation::Insert(leaf) => roots_after_insert(roots, leaf),
        Operation::Delete(bits, leaf, sibs) => if roots_accept(roots, bits, leaf, sibs) {
            roots_after_delete(roots, sibs)
        } else {
            roots
        },
    }
}

/// The accumulator's roots after a whole operation sequence.
pub open spec fn roots_run(roots: Seq<Option<Seq<u8>>>, ops: Seq<Operation>) -> Seq<
    Option<Seq<u8>>,
>
    decreases ops.len(),
{
    if ops.len() == 0 {
        roots
    } else {
        roots_run(roots_step(roots, ops[0]), ops.drop_first())
    }
}

/// Whether an operation sequence replays benignly on the forest: each
/// insert is of a hash not present at that point (the forest absorbs a
/// duplicate where the root-only accumulator cannot), and each delete whose
/// proof verifies against the roots is structurally accepted by the forest.
/// Proofs produced by `prove` on the forest itself satisfy both.
pub open spec fn ops_admissible(slots: Seq<Option<Seq<Seq<u8>>>>, ops: Seq<Operation>) -> bool
    decreases ops.len(),
{
    ops.len() == 0 || ({
        &&& (match ops[0] {
            Operation::Insert(leaf) => !crate::forest::slots_contain(slots, leaf),
            Operation::Delete(bits, leaf, sibs) => crate::forest::slots_accept(
                slots,
                bits,
                leaf,
                sibs,
            ) || !roots_accept(crate::forest::roots_of(slots), bits, leaf, sibs),
        })
        &&& ops_admissible(forest_step(slots, ops[0]), ops.drop_first())
    })
}

/// Root agreement over whole runs: a well-formed forest and a root-only
/// accumulator driven by the same admissible operation sequence agree,
/// slot for slot, on their roots at every height — and, both runs being
/// pure functions of the initial state and the sequence, replaying the
/// sequence reproduces the same states.
pub proof fn lemma_run_agreement(slots: Seq<Option<Seq<Seq<u8>>>>, ops: Seq<Operation>)
    requires
        crate::forest::forest_ok(slots),
        ops_admissible(slots, ops),
    ensures
        crate::forest::forest_ok(forest_run(slots, ops)),
        crate::forest::roots_of(forest_run(slots, ops)) == roots_run(
            crate::forest::roots_of(slots),
            ops,
        ),
    decreases ops.len(),
{
    if ops.len() > 0 {
        let next = forest_step(slots, ops[0]);
        assert(crate::forest::slot_sizes_ok(slots)) by {
            assert forall|h: int|
                0 <= h < slots.len() && slots[h].is_some() implies (
            #[trigger] slots[h].unwrap()).len() == vstd::arithmetic::power2::pow2(h as nat) by {}
        }
        match ops[0] {
            Operation::Insert(leaf) => {
                crate::forest::lemma_insert_preserves(slots, leaf);
                crate::forest::lemma_insert_root_agreement(slots, leaf);
            },
            Operation::Delete(bits, leaf, sibs) => {
                if crate::forest::slots_accept(slots, bits, leaf, sibs) {
                    let ls = slots[bits.len() as int].unwrap();
                    crate::tree::lemma_fold_by_bits(ls, bits, sibs);
                    assert(crate::forest::roots_of(slots)[bits.len() as int] == Some(
                        crate::tree::merkle_root(ls),
                    ));
                    assert(roots_accept(crate::forest::roots_of(slots), bits, leaf, sibs));
                    crate::forest::lemma_delete_preserves(slots, bits, leaf, sibs);
                    crate::forest::lemma_delete_root_agreement(slots, bits, leaf, sibs);
                    assert(crate::forest::distinct_content(next)) by {
                        broadcast use vstd::multiset::group_multiset_axioms;

                        assert forall|x: Seq<u8>|
                            #[trigger] crate::forest::slots_content(next).count(x) <= 1 by {
                            assert(crate::forest::slots_content(next).insert(leaf).count(x)
                                == crate::forest::slots_content(slots).count(x));
                        }
                    }
                }
            },
        }
        lemma_run_agreement(next, ops.drop_first());
    }
}

} // verus!
