//! Merkle forest: an ordered collection of perfect merkle trees.
//!
//! Slot `h` is either empty or holds a tree of `2^h` leaves, so the occupied
//! slots spell out the binary representation of the leaf count. Insertion
//! carries a single-leaf tree upward, merging it with each occupied slot on
//! the way; deletion splits the containing tree along the proof's path and
//! redistributes the sibling subtrees into the lower slots.

use vstd::prelude::*;
use vstd::multiset::Multiset;
use vstd::arithmetic::power2::pow2;
use crate::hash::leaf_hash_of;
use crate::tree::lg;
use crate::tree::merkle_root;
use crate::tree::selected_leaf;
use crate::tree::sibling_subtrees;
use crate::tree::subtrees_content;
use crate::tree::Tree;
use crate::accumulator::roots_accept;

verus! {

/// The leaf sequences a sequence of tree slots holds.
pub open spec fn opt_tree_model(o: Option<Tree>) -> Option<Seq<Seq<u8>>> {
    match o {
        Some(t) => Some(t.leaves_model()),
        None => None,
    }
}

/// The root hash of each slot, empty slots staying empty.
pub open spec fn roots_of(slots: Seq<Option<Seq<Seq<u8>>>>) -> Seq<Option<Seq<u8>>> {
    slots.map_values(
        |o: Option<Seq<Seq<u8>>>|
            match o {
                Some(t) => Some(merkle_root(t)),
                None => None,
            },
    )
}

/// The leaves one slot holds, as a multiset.
pub open spec fn opt_content(o: Option<Seq<Seq<u8>>>) -> Multiset<Seq<u8>> {
    match o {
        Some(t) => t.to_multiset(),
        None => Multiset::<Seq<u8>>::empty(),
    }
}

/// All leaves the slots hold, as a multiset.
pub open spec fn slots_content(slots: Seq<Option<Seq<Seq<u8>>>>) -> Multiset<Seq<u8>>
    decreases slots.len(),
{
    if slots.len() == 0 {
        Multiset::<Seq<u8>>::empty()
    } else {
        opt_content(slots.last()).add(slots_content(slots.drop_last()))
    }
}

/// Whether the slots hold the given leaf hash.
pub open spec fn slots_contain(slots: Seq<Option<Seq<Seq<u8>>>>, x: Seq<u8>) -> bool {
    slots_content(slots).count(x) > 0
}

/// The number of leaves the slots hold.
pub open spec fn slots_leaf_count(slots: Seq<Option<Seq<Seq<u8>>>>) -> nat {
    slots_content(slots).len()
}

/// Each occupied slot holds a duplicate-free tree of exactly `2^h` leaves.
pub open spec fn slot_shape_ok(slots: Seq<Option<Seq<Seq<u8>>>>) -> bool {
    forall|h: int|
        0 <= h < slots.len() && slots[h].is_some() ==> (#[trigger] slots[h].unwrap()).len()
            == pow2(h as nat) && slots[h].unwrap().no_duplicates()
}

/// No leaf hash occurs twice anywhere in the slots.
pub open spec fn distinct_content(slots: Seq<Option<Seq<Seq<u8>>>>) -> bool {
    forall|x: Seq<u8>| #[trigger] slots_content(slots).count(x) <= 1
}

/// A well-formed forest: per-slot shape and global distinctness.
pub open spec fn forest_ok(slots: Seq<Option<Seq<Seq<u8>>>>) -> bool {
    slot_shape_ok(slots) && distinct_content(slots)
}

/// The slots after carrying a tree upward from height `h`: it lands in the
/// first empty slot at or above `h`, absorbing each occupied slot on the way
/// as the right half of a merged tree.
pub open spec fn slots_insert_from(
    slots: Seq<Option<Seq<Seq<u8>>>>,
    t: Seq<Seq<u8>>,
    h: nat,
) -> Seq<Option<Seq<Seq<u8>>>>
    decreases slots.len() - h,
{
    if h >= slots.len() {
        slots.push(Some(t))
    } else if slots[h as int].is_none() {
        slots.update(h as int, Some(t))
    } else {
        slots_insert_from(slots.update(h as int, None), slots[h as int].unwrap() + t, h + 1)
    }
}

/// The slots after inserting a new leaf hash.
pub open spec fn slots_after_insert(slots: Seq<Option<Seq<Seq<u8>>>>, leaf: Seq<u8>) -> Seq<
    Option<Seq<Seq<u8>>>,
> {
    slots_insert_from(slots, seq![leaf], 0)
}

/// The slots after redistributing the sibling subtrees `sts` below the
/// deletion height: levels below `k` are already handled and `carry` holds
/// the partly rebuilt tree. Each sibling fills an empty slot or joins the
/// carry as the left half of a merged tree; the carry, possibly empty, lands
/// in the slot at the deletion height.
pub open spec fn slots_delete_from(
    slots: Seq<Option<Seq<Seq<u8>>>>,
    sts: Seq<Seq<Seq<u8>>>,
    carry: Option<Seq<Seq<u8>>>,
    k: nat,
) -> Seq<Option<Seq<Seq<u8>>>>
    recommends
        sts.len() < slots.len(),
    decreases sts.len() - k,
{
    if k >= sts.len() {
        slots.update(k as int, carry)
    } else if carry.is_some() {
        slots_delete_from(slots, sts, Some(sts[k as int] + carry.unwrap()), k + 1)
    } else if slots[k as int].is_none() {
        slots_delete_from(slots.update(k as int, Some(sts[k as int])), sts, None, k + 1)
    } else {
        slots_delete_from(
            slots.update(k as int, None),
            sts,
            Some(sts[k as int] + slots[k as int].unwrap()),
            k + 1,
        )
    }
}

/// The slots after deleting along the given path bits: the tree at the
/// path's height is taken out, split along the path, and its sibling
/// subtrees are redistributed.
pub open spec fn slots_after_delete(slots: Seq<Option<Seq<Seq<u8>>>>, bits: Seq<bool>) -> Seq<
    Option<Seq<Seq<u8>>>,
> {
    let h = bits.len() as int;
    let ls = slots[h].unwrap();
    slots_delete_from(slots.update(h, None), sibling_subtrees(ls, bits), None, 0)
}

/// Whether the forest accepts a proof for deletion: the slot at the path's
/// height holds a tree whose sibling subtrees' roots match the proof's
/// sibling hashes level by level, and whose selected leaf is the proof's
/// leaf hash. Acceptance implies that the proof verifies against the slot's
/// root.
pub open spec fn slots_accept(
    slots: Seq<Option<Seq<Seq<u8>>>>,
    bits: Seq<bool>,
    leaf: Seq<u8>,
    sibs: Seq<Seq<u8>>,
) -> bool {
    &&& bits.len() < slots.len()
    &&& slots[bits.len() as int].is_some()
    &&& sibs.len() == bits.len()
    &&& (forall|k: int|
        0 <= k < bits.len() ==> #[trigger] sibs[k] == merkle_root(
            sibling_subtrees(slots[bits.len() as int].unwrap(), bits)[k],
        ))
    &&& selected_leaf(slots[bits.len() as int].unwrap(), bits) == leaf
}

/// Replacing one slot exchanges its content within the total.
pub proof fn lemma_slots_content_update(
    slots: Seq<Option<Seq<Seq<u8>>>>,
    i: int,
    v: Option<Seq<Seq<u8>>>,
)
    requires
        0 <= i < slots.len(),
    ensures
        slots_content(slots.update(i, v)).add(opt_content(slots[i])) == slots_content(slots).add(
            opt_content(v),
        ),
    decreases slots.len(),
{
    broadcast use vstd::multiset::group_multiset_axioms;

    let upd = slots.update(i, v);
    if i == slots.len() - 1 {
        assert(upd.drop_last() =~= slots.drop_last());
        assert(upd.last() == v);
        let a = opt_content(v);
        let b = slots_content(slots.drop_last());
        let c = opt_content(slots[i]);
        assert(slots_content(upd) == a.add(b));
        assert(slots_content(slots) == c.add(b));
        assert(a.add(b).add(c) =~= c.add(b).add(a));
        assert(slots_content(upd).add(opt_content(slots[i])) == slots_content(slots).add(
            opt_content(v),
        ));
    } else {
        assert(upd.drop_last() =~= slots.drop_last().update(i, v));
        assert(upd.last() == slots.last());
        lemma_slots_content_update(slots.drop_last(), i, v);
        let a = opt_content(slots.last());
        let b = slots_content(slots.drop_last().update(i, v));
        let c = opt_content(slots[i]);
        let d = slots_content(slots.drop_last());
        assert(slots.drop_last()[i] == slots[i]);
        assert(slots_content(upd) == a.add(b));
        assert(slots_content(slots) == a.add(d));
        assert(b.add(c) == d.add(opt_content(v)));
        assert forall|x: Seq<u8>|
            a.add(b).add(c).count(x) == a.add(d).add(opt_content(v)).count(x) by {
            assert(b.add(c).count(x) == d.add(opt_content(v)).count(x));
        }
        assert(a.add(b).add(c) =~= a.add(d).add(opt_content(v)));
        assert(slots_content(upd).add(opt_content(slots[i])) == slots_content(slots).add(
            opt_content(v),
        ));
    }
}

/// Appending one slot adds its content to the total.
pub proof fn lemma_slots_content_push(slots: Seq<Option<Seq<Seq<u8>>>>, v: Option<Seq<Seq<u8>>>)
    ensures
        slots_content(slots.push(v)) == slots_content(slots).add(opt_content(v)),
    decreases slots.len(),
{
    broadcast use vstd::multiset::group_multiset_axioms;

    assert(slots.push(v).drop_last() =~= slots);
    assert(slots.push(v).last() == v);
    assert(slots_content(slots.push(v)) =~= slots_content(slots).add(opt_content(v)));
}

/// One slot's content is at most the total, both count-wise and in size.
pub proof fn lemma_slots_content_bound(slots: Seq<Option<Seq<Seq<u8>>>>, i: int)
    requires
        0 <= i < slots.len(),
    ensures
        forall|x: Seq<u8>|
            #[trigger] opt_content(slots[i]).count(x) <= slots_content(slots).count(x),
        opt_content(slots[i]).len() <= slots_content(slots).len(),
    decreases slots.len(),
{
    broadcast use vstd::multiset::group_multiset_axioms;

    if i == slots.len() - 1 {
        assert(slots.last() == slots[i]);
    } else {
        lemma_slots_content_bound(slots.drop_last(), i);
        assert(slots.drop_last()[i] == slots[i]);
    }
}

/// The slots hold a leaf hash exactly when some occupied slot's tree holds
/// it.
pub proof fn lemma_content_contains(slots: Seq<Option<Seq<Seq<u8>>>>, x: Seq<u8>)
    ensures
        slots_contain(slots, x) <==> exists|h: int|
            0 <= h < slots.len() && slots[h].is_some() && (#[trigger] slots[h].unwrap()).contains(
                x,
            ),
    decreases slots.len(),
{
    broadcast use vstd::multiset::group_multiset_axioms;
    broadcast use vstd::seq_lib::group_to_multiset_ensures;

    if slots.len() > 0 {
        lemma_content_contains(slots.drop_last(), x);
        let last = slots.len() - 1;
        if slots_contain(slots, x) {
            if opt_content(slots.last()).count(x) > 0 {
                assert(slots[last].is_some() && slots[last].unwrap().contains(x));
            } else {
                let h = choose|h: int|
                    0 <= h < slots.drop_last().len() && slots.drop_last()[h].is_some() && (
                    #[trigger] slots.drop_last()[h].unwrap()).contains(x);
                assert(slots[h].is_some() && slots[h].unwrap().contains(x));
            }
        }
        if exists|h: int|
            0 <= h < slots.len() && slots[h].is_some() && (#[trigger] slots[h].unwrap()).contains(
                x,
            ) {
            let h = choose|h: int|
                0 <= h < slots.len() && slots[h].is_some() && (
                #[trigger] slots[h].unwrap()).contains(x);
            if h == last {
                assert(opt_content(slots.last()).count(x) > 0);
            } else {
                assert(slots.drop_last()[h].is_some() && slots.drop_last()[h].unwrap().contains(
                    x,
                ));
            }
        }
    }
}

/// Merkle forest.
#[derive(Debug, Clone, PartialEq, Eq)]
pub struct MemoryForest(Vec<Option<Tree>>);

impl Default for MemoryForest {
    fn default() -> (r: Self)
        ensures
            r.slots_model() == Seq::<Option<Seq<Seq<u8>>>>::empty(),
            r.wf(),
    {
        let r = MemoryForest(Vec::new());
        proof {
            broadcast use vstd::multiset::group_multiset_axioms;

            assert(r.slots_model() =~= Seq::<Option<Seq<Seq<u8>>>>::empty());
        }
        r
    }
}

impl MemoryForest {
    /// The leaf sequence of each slot's tree, an empty slot being `None`.
    pub closed spec fn slots_model(self) -> Seq<Option<Seq<Seq<u8>>>> {
        self.0@.map_values(|o: Option<Tree>| opt_tree_model(o))
    }

    /// Every tree held in a slot is internally well formed.
    pub closed spec fn trees_wf(self) -> bool {
        forall|i: int|
            0 <= i < self.0@.len() && self.0@[i].is_some() ==> (
            #[trigger] self.0@[i].unwrap()).wf()
    }

    /// A well-formed forest.
    pub open spec fn wf(self) -> bool {
        self.trees_wf() && forest_ok(self.slots_model())
    }

    /// The root hashes of the slots.
    pub open spec fn spec_roots(self) -> Seq<Option<Seq<u8>>> {
        roots_of(self.slots_model())
    }

    /// Creates a new instance of memory forest.
    pub fn new() -> (r: Self)
        ensures
            r.slots_model() == Seq::<Option<Seq<Seq<u8>>>>::empty(),
            r.wf(),
    {
        Self::default()
    }

    /// Returns all the trees in merkle forest.
    pub fn trees(&self) -> (r: &[Option<Tree>])
        ensures
            r@.len() == self.slots_model().len(),
            forall|i: int|
                0 <= i < r@.len() ==> #[trigger] opt_tree_model(r@[i]) == self.slots_model()[i],
            self.wf() ==> forall|i: int|
                0 <= i < r@.len() && r@[i].is_some() ==> (#[trigger] r@[i].unwrap()).wf(),
    {
        self.0.as_slice()
    }

    /// Verifies inclusion proof of a value in forest.
    pub fn verify(&self, proof: &crate::proofs::Proof) -> (r: bool)
        requires
            self.wf(),
        ensures
            r == roots_accept(self.spec_roots(), proof.bits(), proof.leaf(), proof.sibs()),
    {
        let height = proof.path.height();

        if self.0.len() <= height {
            return false;
        }
        match &self.0[height] {
            Some(tree) => {
                let root = *tree.root_hash();
                proof {
                    assert(self.spec_roots()[height as int] == Some(tree.spec_root()));
                }
                proof.verify(root)
            },
            None => {
                proof {
                    assert(self.spec_roots()[height as int].is_none());
                }
                false
            },
        }
    }

    /// Returns proof of a leaf value in merkle forest, if present.
    pub fn prove(&self, value: &[u8]) -> (r: Option<crate::proofs::Proof>)
        requires
            self.wf(),
        ensures
            r.is_some() == slots_contain(self.slots_model(), leaf_hash_of(value@)),
            r.is_some() ==> ({
                let p = r.unwrap();
                let hgt = p.bits().len() as int;
                let m = self.slots_model();
                &&& 0 <= hgt < m.len()
                &&& m[hgt].is_some()
                &&& p.leaf() == leaf_hash_of(value@)
                &&& roots_accept(self.spec_roots(), p.bits(), p.leaf(), p.sibs())
                &&& exists|i: int|
                    0 <= i < m[hgt].unwrap().len() && (#[trigger] m[hgt].unwrap()[i]) == p.leaf()
                        && p.bits() == crate::path::path_bits(lg(m[hgt].unwrap().len()), i as nat)
                        && p.sibs() == crate::tree::leaf_siblings(m[hgt].unwrap(), i)
            }),
    {
        let leaf_hash = crate::hash::hash_leaf(value);
        let ghost m = self.slots_model();
        let len = self.0.len();
        let mut h: usize = 0;
        while h < len
            invariant
                h <= len,
                len == self.0@.len(),
                m == self.slots_model(),
                self.wf(),
                leaf_hash@ == leaf_hash_of(value@),
                forall|k: int|
                    0 <= k < h && m[k].is_some() ==> !(#[trigger] m[k].unwrap()).contains(
                        leaf_hash@,
                    ),
            decreases len - h,
        {
            match &self.0[h] {
                Some(tree) => {
                    let p = tree.prove(&leaf_hash);
                    if p.is_some() {
                        proof {
                            lemma_content_contains(m, leaf_hash@);
                            crate::tree::lemma_lg_pow2(h as nat);
                            assert(m[h as int].unwrap() == tree.leaves_model());
                            assert(tree.spec_height() == h as nat);
                            assert(self.spec_roots()[h as int] == Some(tree.spec_root()));
                        }
                        return p;
                    }
                },
                None => {},
            }
            h += 1;
        }
        proof {
            lemma_content_contains(m, leaf_hash@);
        }
        None
    }
}


impl MemoryForest {
    /// Inserts a new value in forest: its leaf hash becomes a single-leaf
    /// tree carried upward from height zero, merging with each occupied slot
    /// on the way. Re-inserting a value whose leaf hash is already present
    /// leaves the forest unchanged: the forest is a set, not a multiset.
    pub fn insert(&mut self, value: &[u8])
        requires
            old(self).wf(),
            slots_leaf_count(old(self).slots_model()) < usize::MAX / 4,
        ensures
            final(self).wf(),
            slots_contain(old(self).slots_model(), leaf_hash_of(value@)) ==> *final(self)
                == *old(self),
            !slots_contain(old(self).slots_model(), leaf_hash_of(value@))
                ==> final(self).slots_model() == slots_after_insert(
                old(self).slots_model(),
                leaf_hash_of(value@),
            )
                && slots_content(final(self).slots_model()) == slots_content(
                old(self).slots_model(),
            ).insert(leaf_hash_of(value@)),
    {
        broadcast use vstd::multiset::group_multiset_axioms;
        broadcast use vstd::seq_lib::group_to_multiset_ensures;

        let ghost om = old(self).slots_model();
        let ghost leaf = leaf_hash_of(value@);
        let leaf_hash = crate::hash::hash_leaf(value);
        let len = self.0.len();

        // The forest is a set: a leaf hash already present is not inserted
        // again.
        let mut h: usize = 0;
        while h < len
            invariant
                h <= len,
                len == self.0@.len(),
                om == old(self).slots_model(),
                *self == *old(self),
                self.wf(),
                leaf_hash@ == leaf,
                leaf == leaf_hash_of(value@),
                forall|k: int|
                    0 <= k < h && om[k].is_some() ==> !(#[trigger] om[k].unwrap()).contains(leaf),
            decreases len - h,
        {
            match &self.0[h] {
                Some(tree) => {
                    if tree.contains(&leaf_hash) {
                        proof {
                            assert(om[h as int].is_some() && om[h as int].unwrap().contains(leaf));
                            lemma_content_contains(om, leaf);
                        }
                        return ;
                    }
                },
                None => {},
            }
            h += 1;
        }
        proof {
            lemma_content_contains(om, leaf);
            assert(!slots_contain(om, leaf));
        }

        let mut new_tree = Tree::new(leaf_hash);
        proof {
            vstd::arithmetic::power2::lemma2_to64();
            assert(new_tree.leaves_model() == seq![leaf]);
            assert(seq![leaf] =~= Seq::<Seq<u8>>::empty().push(leaf));
            assert(new_tree.leaves_model().to_multiset() =~= Multiset::<Seq<u8>>::empty().insert(
                leaf,
            ));
            assert forall|x: Seq<u8>|
                #[trigger] slots_content(self.slots_model()).add(
                    new_tree.leaves_model().to_multiset(),
                ).count(x) <= 1 by {
                assert(slots_content(om).count(x) <= 1);
                assert(Multiset::<Seq<u8>>::empty().insert(leaf).count(x) <= 1) by {
                    if x != leaf {
                        assert(Multiset::<Seq<u8>>::empty().insert(leaf).count(x) == 0);
                    }
                }
                if slots_content(om).count(x) >= 1 && new_tree.leaves_model().to_multiset().count(
                    x,
                ) >= 1 {
                    assert(x == leaf && slots_contain(om, leaf));
                }
            }
            assert(slots_content(self.slots_model()).add(new_tree.leaves_model().to_multiset())
                =~= slots_content(om).insert(leaf));
        }
        let mut i: usize = 0;
        while i < len
            invariant
                i <= len,
                len == self.0@.len(),
                om == old(self).slots_model(),
                leaf == leaf_hash_of(value@),
                !slots_contain(om, leaf),
                self.trees_wf(),
                slot_shape_ok(self.slots_model()),
                new_tree.wf(),
                new_tree.leaves_model().len() == pow2(i as nat),
                forall|k: int| i <= k < len ==> #[trigger] self.slots_model()[k] == om[k],
                forall|k: int| 0 <= k < i ==> (#[trigger] self.slots_model()[k]).is_none(),
                slots_after_insert(om, leaf) == slots_insert_from(
                    self.slots_model(),
                    new_tree.leaves_model(),
                    i as nat,
                ),
                slots_content(self.slots_model()).add(new_tree.leaves_model().to_multiset())
                    == slots_content(om).insert(leaf),
                forall|x: Seq<u8>|
                    #[trigger] slots_content(self.slots_model()).add(
                        new_tree.leaves_model().to_multiset(),
                    ).count(x) <= 1,
                slots_leaf_count(om) < usize::MAX / 4,
            decreases len - i,
        {
            let ghost cur = self.slots_model();
            let ghost nt = new_tree.leaves_model();
            proof {
                broadcast use vstd::multiset::group_multiset_axioms;
                broadcast use vstd::seq_lib::group_to_multiset_ensures;
                assert(slots_content(cur).add(nt.to_multiset()).len() == slots_content(cur).len()
                    + nt.to_multiset().len());
                assert(slots_content(om).insert(leaf).len() == slots_leaf_count(om) + 1);
            }
            let merged_opt = match &self.0[i] {
                Some(old_tree) => {
                    proof {
                        broadcast use vstd::multiset::group_multiset_axioms;
                        broadcast use vstd::seq_lib::group_to_multiset_ensures;

                        assert(cur[i as int] == Some(old_tree.leaves_model()));
                        lemma_slots_content_bound(cur, i as int);
                        crate::tree::lemma_lg_pow2(i as nat);
                        assert(old_tree.leaves_model().len() == pow2(i as nat));
                        assert(old_tree.spec_height() == i as nat && new_tree.spec_height()
                            == i as nat);
                        assert forall|x: Seq<u8>| old_tree.leaves_model().contains(x)
                            implies !new_tree.leaves_model().contains(x) by {
                            assert(slots_content(cur).add(nt.to_multiset()).count(x) <= 1);
                            assert(opt_content(cur[i as int]).count(x) <= slots_content(
                                cur,
                            ).count(x));
                        }
                        assert(old_tree.leaves_model().to_multiset().len()
                            == old_tree.leaves_model().len());
                        assert(opt_content(cur[i as int]).len() <= slots_content(cur).len());
                        assert(2 * (old_tree.leaves_model().len() + nt.len()) - 1 <= usize::MAX);
                    }
                    Some(crate::tree::merge(old_tree, &new_tree))
                },
                None => None,
            };
            match merged_opt {
                Some(m) => {
                    self.0.set(i, None);
                    proof {
                        broadcast use vstd::multiset::group_multiset_axioms;
                        broadcast use vstd::seq_lib::group_to_multiset_ensures;

                        assert(self.slots_model() =~= cur.update(i as int, None));
                        lemma_slots_content_update(cur, i as int, None);
                        let cur2 = self.slots_model();
                        assert(m.leaves_model() == cur[i as int].unwrap() + nt);
                        vstd::seq_lib::lemma_multiset_commutative(cur[i as int].unwrap(), nt);
                        assert forall|x: Seq<u8>|
                            #[trigger] slots_content(cur2).add(
                                m.leaves_model().to_multiset(),
                            ).count(x) == slots_content(cur).add(nt.to_multiset()).count(x) by {
                            assert(slots_content(cur2).add(opt_content(cur[i as int])).count(x)
                                == slots_content(cur).add(opt_content(
                                None::<Seq<Seq<u8>>>,
                            )).count(x));
                            assert(m.leaves_model().to_multiset().count(x) == cur[
                                i as int
                            ].unwrap().to_multiset().count(x) + nt.to_multiset().count(x));
                        }
                        assert(slots_content(cur2).add(m.leaves_model().to_multiset())
                            =~= slots_content(cur).add(nt.to_multiset()));
                        assert(slots_insert_from(cur, nt, i as nat) == slots_insert_from(
                            cur2,
                            m.leaves_model(),
                            i as nat + 1,
                        ));
                        crate::tree::lemma_pow2_double(pow2(i as nat));
                        vstd::arithmetic::power2::lemma_pow2_unfold(i as nat + 1);
                        assert forall|k: int| 0 <= k < i + 1 implies (
                        #[trigger] cur2[k]).is_none() by {
                            if k < i {
                                assert(cur[k].is_none());
                            }
                        }
                    }
                    new_tree = m;
                    i += 1;
                },
                None => {
                    let ghost cur = self.slots_model();
                    proof {
                        assert(cur[i as int].is_none());
                    }
                    self.0.set(i, Some(new_tree));
                    proof {
                        broadcast use vstd::multiset::group_multiset_axioms;
                        broadcast use vstd::seq_lib::group_to_multiset_ensures;

                        assert(self.slots_model() =~= cur.update(i as int, Some(nt)));
                        lemma_slots_content_update(cur, i as int, Some(nt));
                        let fin = self.slots_model();
                        assert forall|x: Seq<u8>| #[trigger] slots_content(fin).count(x)
                            == slots_content(cur).add(nt.to_multiset()).count(x) by {
                            assert(slots_content(fin).add(opt_content(cur[i as int])).count(x)
                                == slots_content(cur).add(opt_content(Some(nt))).count(x));
                        }
                        assert(slots_content(fin) =~= slots_content(cur).add(nt.to_multiset()));
                        assert(fin == slots_insert_from(cur, nt, i as nat));
                        assert forall|k: int|
                            0 <= k < fin.len() && fin[k].is_some() implies (
                        #[trigger] fin[k].unwrap()).len() == pow2(k as nat)
                            && fin[k].unwrap().no_duplicates() by {
                            if k != i {
                                assert(fin[k] == cur[k]);
                            }
                        }
                        assert(self.trees_wf());
                        assert(distinct_content(fin)) by {
                            assert forall|x: Seq<u8>| #[trigger] slots_content(fin).count(x)
                                <= 1 by {
                                assert(slots_content(cur).add(nt.to_multiset()).count(x) <= 1);
                            }
                        }
                    }
                    return ;
                },
            }
        }
        let ghost cur = self.slots_model();
        let ghost nt = new_tree.leaves_model();
        self.0.push(Some(new_tree));
        proof {
            assert(self.slots_model() =~= cur.push(Some(nt)));
            lemma_slots_content_push(cur, Some(nt));
            let fin = self.slots_model();
            assert(fin == slots_insert_from(cur, nt, i as nat));
            assert forall|k: int|
                0 <= k < fin.len() && fin[k].is_some() implies (#[trigger] fin[k].unwrap()).len()
                == pow2(k as nat) && fin[k].unwrap().no_duplicates() by {
                if k < len {
                    assert(fin[k] == cur[k]);
                } else {
                    assert(fin[k] == Some(nt));
                }
            }
            assert(self.trees_wf());
            assert(distinct_content(fin));
        }
    }
}

/// The leaf model of an optional carry tree.
pub open spec fn opt_carry_model(o: Option<Tree>) -> Option<Seq<Seq<u8>>> {
    match o {
        Some(t) => Some(t.leaves_model()),
        None => None,
    }
}

/// Splits `tree` along the lowest `k` levels of the proof's path, checking
/// each sibling subtree's root against the proof's sibling hash at that
/// level and, at the bottom, the remaining leaf against the proof's leaf
/// hash. Returns the sibling subtrees bottom to top, or `None` as soon as a
/// check fails.
fn split_siblings(tree: Tree, pf: &crate::proofs::Proof, k: usize) -> (r: Option<Vec<Tree>>)
    requires
        tree.wf(),
        k <= pf.bits().len(),
        k <= pf.sibling_hashes@.len(),
        tree.leaves_model().len() == pow2(k as nat),
    ensures
        r.is_some() == ({
            &&& (forall|j: int|
                0 <= j < k ==> #[trigger] pf.sibs()[j] == merkle_root(
                    sibling_subtrees(tree.leaves_model(), pf.bits().take(k as int))[j],
                ))
            &&& selected_leaf(tree.leaves_model(), pf.bits().take(k as int)) == pf.leaf()
        }),
        r.is_some() ==> r.unwrap()@.len() == k,
        r.is_some() ==> forall|j: int|
            0 <= j < k ==> (#[trigger] r.unwrap()@[j]).wf() && r.unwrap()@[j].leaves_model()
                == sibling_subtrees(tree.leaves_model(), pf.bits().take(k as int))[j],
    decreases k,
{
    let ghost ls = tree.leaves_model();
    let ghost bts = pf.bits().take(k as int);
    proof {
        crate::tree::lemma_sibling_subtrees_shape(ls, bts);
    }
    if k == 0 {
        let root = *tree.root_hash();
        proof {
            assert(bts =~= Seq::<bool>::empty());
            assert(ls.len() == 1);
            assert(crate::tree::descend(ls, bts) == ls);
            assert(merkle_root(ls) == ls[0]);
        }
        if crate::hash::hash_eq(&root, &pf.leaf_hash) {
            let r: Vec<Tree> = Vec::new();
            Some(r)
        } else {
            None
        }
    } else {
        proof {
            vstd::arithmetic::power2::lemma_pow2_unfold(k as nat);
            vstd::arithmetic::power2::lemma_pow2_pos((k - 1) as nat);
            assert(ls.len() >= 2);
        }
        let bit = pf.path.bit(k - 1);
        let ghost inner_bts = pf.bits().take(k - 1 as int);
        proof {
            assert(bts.last() == pf.bits()[k - 1 as int]);
            assert(bts.last() == bit);
            assert(bts.drop_last() =~= inner_bts);
        }
        let (left, right_opt) = tree.split();
        let right = match right_opt {
            Some(rt) => rt,
            None => {
                proof {
                    assert(false);
                }
                Tree::new(pf.leaf_hash)
            },
        };
        let (sib, next) = if bit {
            (left, right)
        } else {
            (right, left)
        };
        let ghost half = ls.len() as int / 2;
        let ghost next_model = next.leaves_model();
        proof {
            assert(sibling_subtrees(ls, bts) == sibling_subtrees(next_model, inner_bts).push(
                sib.leaves_model(),
            ));
            assert(crate::tree::descend(ls, bts) == crate::tree::descend(next_model, inner_bts));
            crate::tree::lemma_sibling_subtrees_shape(next_model, inner_bts);
            assert(sibling_subtrees(ls, bts)[k - 1 as int] == sib.leaves_model());
        }
        let sib_root = *sib.root_hash();
        let expected = pf.sibling_hashes[k - 1];
        if !crate::hash::hash_eq(&sib_root, &expected) {
            proof {
                assert(pf.sibs()[k - 1 as int] == expected@);
                assert(pf.sibs()[k - 1 as int] != merkle_root(
                    sibling_subtrees(ls, bts)[k - 1 as int],
                ));
            }
            return None;
        }
        match split_siblings(next, pf, k - 1) {
            None => {
                proof {
                    if (forall|j: int|
                        0 <= j < k ==> #[trigger] pf.sibs()[j] == merkle_root(
                            sibling_subtrees(ls, bts)[j],
                        )) && selected_leaf(ls, bts) == pf.leaf() {
                        assert forall|j: int| 0 <= j < k - 1 implies #[trigger] pf.sibs()[j]
                            == merkle_root(sibling_subtrees(next_model, inner_bts)[j]) by {
                            assert(pf.sibs()[j] == merkle_root(sibling_subtrees(ls, bts)[j]));
                            assert(sibling_subtrees(ls, bts)[j] == sibling_subtrees(
                                next_model,
                                inner_bts,
                            )[j]);
                        }
                        assert(false);
                    }
                }
                None
            },
            Some(v) => {
                let mut v = v;
                proof {
                    assert forall|j: int| 0 <= j < k implies #[trigger] pf.sibs()[j]
                        == merkle_root(sibling_subtrees(ls, bts)[j]) by {
                        if j < k - 1 {
                            assert(pf.sibs()[j] == merkle_root(
                                sibling_subtrees(next_model, inner_bts)[j],
                            ));
                            assert(sibling_subtrees(ls, bts)[j] == sibling_subtrees(
                                next_model,
                                inner_bts,
                            )[j]);
                        } else {
                            assert(expected@ == sib_root@);
                            assert(pf.sibs()[k - 1 as int] == expected@);
                        }
                    }
                    assert(selected_leaf(ls, bts) == pf.leaf());
                }
                let ghost v_old = v@;
                v.push(sib);
                proof {
                    assert forall|j: int|
                        0 <= j < k implies (#[trigger] v@[j]).wf() && v@[j].leaves_model()
                        == sibling_subtrees(ls, bts)[j] by {
                        if j < k - 1 {
                            assert(v@[j] == v_old[j]);
                            assert(sibling_subtrees(ls, bts)[j] == sibling_subtrees(
                                next_model,
                                inner_bts,
                            )[j]);
                        } else {
                            assert(v@[j] == sib);
                        }
                    }
                }
                Some(v)
            },
        }
    }
}

impl MemoryForest {
    /// Verifies and deletes the value corresponding to the given proof from
    /// the forest. Returns true if the value was successfully verified and
    /// deleted, false otherwise; a rejected proof leaves the forest
    /// untouched.
    pub fn delete(&mut self, proof: &crate::proofs::Proof) -> (r: bool)
        requires
            old(self).wf(),
        ensures
            final(self).wf(),
            r == slots_accept(old(self).slots_model(), proof.bits(), proof.leaf(), proof.sibs()),
            r ==> final(self).slots_model() == slots_after_delete(
                old(self).slots_model(),
                proof.bits(),
            ),
            r ==> slots_content(final(self).slots_model()).insert(proof.leaf()) == slots_content(
                old(self).slots_model(),
            ),
            !r ==> *final(self) == *old(self),
    {
        broadcast use vstd::multiset::group_multiset_axioms;
        broadcast use vstd::seq_lib::group_to_multiset_ensures;

        let ghost om = old(self).slots_model();
        let ghost bits = proof.bits();
        let ghost sibs = proof.sibs();
        let ghost leaf = proof.leaf();

        // Proof should be valid to delete a value from forest.
        if !self.verify(proof) {
            proof {
                if slots_accept(om, bits, leaf, sibs) {
                    let lsa = om[bits.len() as int].unwrap();
                    crate::tree::lemma_fold_by_bits(lsa, bits, sibs);
                    assert(self.spec_roots()[bits.len() as int] == Some(merkle_root(lsa)));
                }
            }
            return false;
        }
        let height = proof.path.height();
        let ghost ls = om[height as int].unwrap();
        let tree = match &self.0[height] {
            Some(t) => t.clone(),
            None => {
                proof {
                    assert(false);
                }
                Tree::new(proof.leaf_hash)
            },
        };
        proof {
            assert(om[height as int] == Some(tree.leaves_model()));
            assert(tree.wf());
            tree.lemma_size_bound();
            assert(bits.take(height as int) =~= bits);
        }
        let ghost tree_cap = tree.leaves_model().len();
        match split_siblings(tree, proof, height) {
            None => {
                proof {
                    assert(!slots_accept(om, bits, leaf, sibs));
                }
                false
            },
            Some(sib_trees) => {
                let mut sib_trees = sib_trees;
                let ghost st = sibling_subtrees(ls, bits);
                proof {
                    assert(slots_accept(om, bits, leaf, sibs));
                    crate::tree::lemma_sibling_subtrees_shape(ls, bits);
                    crate::tree::lemma_descent_partition(ls, bits);
                }
                let ghost base = om.update(height as int, None);
                self.0.set(height, None);
                proof {
                    assert(self.slots_model() =~= base);
                    lemma_slots_content_update(om, height as int, None);
                    assert forall|x: Seq<u8>|
                        #[trigger] slots_content(base).add(
                            opt_content(opt_carry_model(None::<Tree>)),
                        ).add(subtrees_content(st.skip(0))).insert(leaf).count(x)
                        == slots_content(om).count(x) by {
                        assert(st.skip(0) =~= st);
                        assert(slots_content(base).add(opt_content(om[height as int])).count(x)
                            == slots_content(om).add(opt_content(None::<Seq<Seq<u8>>>)).count(x));
                        assert(opt_content(om[height as int]).count(x) == ls.to_multiset().count(
                            x,
                        ));
                        assert(ls.to_multiset().count(x) == subtrees_content(st).insert(
                            selected_leaf(ls, bits),
                        ).count(x));
                    }
                    assert(slots_content(base).add(opt_content(opt_carry_model(None::<Tree>))).add(
                        subtrees_content(st.skip(0)),
                    ).insert(leaf) =~= slots_content(om));
                }
                let mut carry: Option<Tree> = None;
                let mut k: usize = 0;
                while k < height
                    invariant
                        k <= height,
                        height < self.0@.len(),
                        self.0@.len() == om.len(),
                        om == old(self).slots_model(),
                        bits == proof.bits(),
                        sibs == proof.sibs(),
                        leaf == proof.leaf(),
                        slots_accept(om, bits, leaf, sibs),
                        bits.len() == height,
                        ls == om[height as int].unwrap(),
                        st == sibling_subtrees(ls, bits),
                        st.len() == height,
                        base == om.update(height as int, None),
                        tree_cap == ls.len(),
                        ls.len() == pow2(height as nat),
                        2 * tree_cap - 1 <= usize::MAX,
                        forall|j: int|
                            0 <= j < height ==> (#[trigger] st[j]).len() == pow2(j as nat),
                        sib_trees@.len() == height - k,
                        forall|j: int|
                            0 <= j < height - k ==> (#[trigger] sib_trees@[j]).wf()
                                && sib_trees@[j].leaves_model() == st[k + j],
                        self.trees_wf(),
                        slot_shape_ok(self.slots_model()),
                        forall|j: int|
                            k <= j < om.len() ==> #[trigger] self.slots_model()[j] == base[j],
                        carry.is_some() ==> carry.unwrap().wf()
                            && carry.unwrap().leaves_model().len() == pow2(k as nat),
                        slots_delete_from(base, st, None, 0) == slots_delete_from(
                            self.slots_model(),
                            st,
                            opt_carry_model(carry),
                            k as nat,
                        ),
                        slots_content(self.slots_model()).add(
                            opt_content(opt_carry_model(carry)),
                        ).add(subtrees_content(st.skip(k as int))).insert(leaf) == slots_content(
                            om,
                        ),
                        distinct_content(om),
                    decreases height - k,
                {
                    broadcast use vstd::multiset::group_multiset_axioms;
                    broadcast use vstd::seq_lib::group_to_multiset_ensures;

                    let ghost cur = self.slots_model();
                    let ghost carrym = opt_carry_model(carry);
                    let ghost combined = slots_content(cur).add(opt_content(carrym)).add(
                        subtrees_content(st.skip(k as int)),
                    );
                    let sib_tree = sib_trees.remove(0);
                    proof {
                        assert(sib_tree.leaves_model() == st[k as int]);
                        assert(sib_tree.wf());
                        assert(st.skip(k as int).drop_first() =~= st.skip(k + 1 as int));
                        assert(st.skip(k as int)[0] == st[k as int]);
                        assert(subtrees_content(st.skip(k as int)) == st[
                            k as int
                        ].to_multiset().add(subtrees_content(st.skip(k + 1 as int))));
                        // Every part of the combined content has count at most one:
                        // together with the deleted leaf it is the old content.
                        assert forall|x: Seq<u8>| #[trigger] combined.count(x) <= 1 by {
                            assert(combined.insert(leaf).count(x) == slots_content(om).count(x));
                        }
                        if k as nat + 2 < height as nat + 1 {
                            vstd::arithmetic::power2::lemma_pow2_strictly_increases(
                                k as nat + 2,
                                height as nat + 1,
                            );
                        }
                        vstd::arithmetic::power2::lemma_pow2_unfold(height as nat + 1);
                        vstd::arithmetic::power2::lemma_pow2_unfold(k as nat + 2);
                        vstd::arithmetic::power2::lemma_pow2_unfold(k as nat + 1);
                        crate::tree::lemma_lg_pow2(k as nat);
                        assert(pow2(k as nat + 2) <= pow2(height as nat + 1));
                        assert(2 * (pow2(k as nat) + pow2(k as nat)) - 1 <= usize::MAX);
                    }
                    match &carry {
                        Some(c) => {
                            proof {
                                assert forall|x: Seq<u8>| sib_tree.leaves_model().contains(x)
                                    implies !c.leaves_model().contains(x) by {
                                    assert(combined.count(x) <= 1);
                                    assert(subtrees_content(st.skip(k as int)).count(x) >= st[
                                        k as int
                                    ].to_multiset().count(x));
                                }
                            }
                            let merged = crate::tree::merge(&sib_tree, c);
                            proof {
                                vstd::seq_lib::lemma_multiset_commutative(
                                    st[k as int],
                                    c.leaves_model(),
                                );
                                assert forall|x: Seq<u8>|
                                    #[trigger] slots_content(cur).add(
                                        opt_content(opt_carry_model(Some(merged))),
                                    ).add(subtrees_content(st.skip(k + 1 as int))).count(x)
                                    == combined.count(x) by {
                                    assert(merged.leaves_model().to_multiset().count(x) == st[
                                        k as int
                                    ].to_multiset().count(x)
                                        + c.leaves_model().to_multiset().count(x));
                                }
                                assert(slots_content(cur).add(
                                    opt_content(opt_carry_model(Some(merged))),
                                ).add(subtrees_content(st.skip(k + 1 as int))).insert(leaf)
                                    =~= combined.insert(leaf));
                            }
                            carry = Some(merged);
                        },
                        None => {
                            let filled = match &self.0[k] {
                                Some(slot_tree) => {
                                    proof {
                                        assert(cur[k as int] == Some(slot_tree.leaves_model()));
                                        lemma_slots_content_bound(cur, k as int);
                                        assert forall|x: Seq<u8>|
                                            sib_tree.leaves_model().contains(x)
                                            implies !slot_tree.leaves_model().contains(x) by {
                                            assert(combined.count(x) <= 1);
                                            assert(subtrees_content(st.skip(k as int)).count(x)
                                                >= st[k as int].to_multiset().count(x));
                                            assert(opt_content(cur[k as int]).count(x)
                                                <= slots_content(cur).count(x));
                                        }
                                    }
                                    Some(crate::tree::merge(&sib_tree, slot_tree))
                                },
                                None => None,
                            };
                            match filled {
                                Some(merged) => {
                                    self.0.set(k, None);
                                    proof {
                                        assert(self.slots_model() =~= cur.update(k as int, None));
                                        lemma_slots_content_update(cur, k as int, None);
                                        let cur2 = self.slots_model();
                                        vstd::seq_lib::lemma_multiset_commutative(
                                            st[k as int],
                                            cur[k as int].unwrap(),
                                        );
                                        assert forall|x: Seq<u8>|
                                            #[trigger] slots_content(cur2).add(
                                                opt_content(opt_carry_model(Some(merged))),
                                            ).add(
                                                subtrees_content(st.skip(k + 1 as int)),
                                            ).count(x) == combined.count(x) by {
                                            assert(slots_content(cur2).add(
                                                opt_content(cur[k as int]),
                                            ).count(x) == slots_content(cur).add(
                                                opt_content(None::<Seq<Seq<u8>>>),
                                            ).count(x));
                                            assert(merged.leaves_model().to_multiset().count(x)
                                                == st[k as int].to_multiset().count(x) + cur[
                                                k as int
                                            ].unwrap().to_multiset().count(x));
                                        }
                                        assert(slots_content(cur2).add(
                                            opt_content(opt_carry_model(Some(merged))),
                                        ).add(subtrees_content(st.skip(k + 1 as int))).insert(
                                            leaf,
                                        ) =~= combined.insert(leaf));
                                        assert forall|j: int|
                                            k + 1 <= j < om.len() implies #[trigger] self.slots_model()[j]
                                            == base[j] by {
                                            assert(cur[j] == base[j]);
                                        }
                                    }
                                    carry = Some(merged);
                                },
                                None => {
                                    let ghost sibm = sib_tree.leaves_model();
                                    self.0.set(k, Some(sib_tree));
                                    proof {
                                        assert(self.slots_model() =~= cur.update(
                                            k as int,
                                            Some(sibm),
                                        ));
                                        lemma_slots_content_update(cur, k as int, Some(sibm));
                                        let cur2 = self.slots_model();
                                        assert forall|x: Seq<u8>|
                                            #[trigger] slots_content(cur2).add(
                                                opt_content(opt_carry_model(None::<Tree>)),
                                            ).add(
                                                subtrees_content(st.skip(k + 1 as int)),
                                            ).count(x) == combined.count(x) by {
                                            assert(slots_content(cur2).add(
                                                opt_content(cur[k as int]),
                                            ).count(x) == slots_content(cur).add(
                                                opt_content(Some(sibm)),
                                            ).count(x));
                                        }
                                        assert(slots_content(cur2).add(
                                            opt_content(opt_carry_model(None::<Tree>)),
                                        ).add(subtrees_content(st.skip(k + 1 as int))).insert(
                                            leaf,
                                        ) =~= combined.insert(leaf));
                                        assert forall|j: int|
                                            0 <= j < cur2.len() && cur2[j].is_some() implies (
                                        #[trigger] cur2[j].unwrap()).len() == pow2(j as nat)
                                            && cur2[j].unwrap().no_duplicates() by {
                                            if j != k {
                                                assert(cur2[j] == cur[j]);
                                            }
                                        }
                                        assert forall|j: int|
                                            k + 1 <= j < om.len() implies #[trigger] self.slots_model()[j]
                                            == base[j] by {
                                            assert(cur[j] == base[j]);
                                        }
                                    }
                                },
                            }
                        },
                    }
                    k += 1;
                }
                let ghost cur = self.slots_model();
                let ghost carrym = opt_carry_model(carry);
                let ghost fin_model = cur.update(height as int, carrym);
                match carry {
                    Some(carry_tree) => {
                        self.0.set(height, Some(carry_tree));
                    },
                    None => {
                        self.0.set(height, None);
                    },
                }
                proof {
                    assert(self.slots_model() =~= fin_model);
                    lemma_slots_content_update(cur, height as int, carrym);
                    let fin = self.slots_model();
                    assert(fin == slots_after_delete(om, bits));
                    assert(st.skip(height as int) =~= Seq::<Seq<Seq<u8>>>::empty());
                    assert(cur[height as int] == base[height as int]);
                    assert(cur[height as int].is_none());
                    assert forall|x: Seq<u8>| #[trigger] slots_content(fin).count(x)
                        == slots_content(cur).add(opt_content(carrym)).count(x) by {
                        assert(slots_content(fin).add(opt_content(cur[height as int])).count(x)
                            == slots_content(cur).add(opt_content(carrym)).count(x));
                    }
                    assert forall|x: Seq<u8>| #[trigger] slots_content(fin).insert(leaf).count(x)
                        == slots_content(om).count(x) by {
                        assert(slots_content(cur).add(opt_content(carrym)).add(
                            subtrees_content(st.skip(height as int)),
                        ).insert(leaf).count(x) == slots_content(om).count(x));
                    }
                    assert(slots_content(fin).insert(leaf) =~= slots_content(om));
                    assert forall|j: int|
                        0 <= j < fin.len() && fin[j].is_some() implies (
                    #[trigger] fin[j].unwrap()).len() == pow2(j as nat)
                        && fin[j].unwrap().no_duplicates() by {
                        if j != height {
                            assert(fin[j] == cur[j]);
                        }
                    }
                    assert(self.trees_wf());
                    assert(distinct_content(fin)) by {
                        assert forall|x: Seq<u8>| #[trigger] slots_content(fin).count(x) <= 1 by {
                            assert(slots_content(fin).insert(leaf).count(x) == slots_content(
                                om,
                            ).count(x));
                        }
                    }
                }
                true
            },
        }
    }
}

/// Each occupied slot holds a tree of exactly `2^h` leaves.
pub open spec fn slot_sizes_ok(slots: Seq<Option<Seq<Seq<u8>>>>) -> bool {
    forall|h: int|
        0 <= h < slots.len() && slots[h].is_some() ==> (#[trigger] slots[h].unwrap()).len()
            == pow2(h as nat)
}

/// The root of an optional subtree.
pub open spec fn opt_root(o: Option<Seq<Seq<u8>>>) -> Option<Seq<u8>> {
    match o {
        Some(t) => Some(merkle_root(t)),
        None => None,
    }
}

/// Root agreement under insertion: carrying a tree upward through the slots
/// moves the roots exactly as carrying its root hash through a root-only
/// accumulator.
pub proof fn lemma_roots_insert_agree(slots: Seq<Option<Seq<Seq<u8>>>>, t: Seq<Seq<u8>>, h: nat)
    requires
        slot_sizes_ok(slots),
        t.len() == pow2(h),
    ensures
        roots_of(slots_insert_from(slots, t, h)) == crate::accumulator::roots_insert_from(
            roots_of(slots),
            merkle_root(t),
            h,
        ),
    decreases slots.len() - h,
{
    vstd::arithmetic::power2::lemma_pow2_pos(h);
    let rts = roots_of(slots);
    if h >= slots.len() {
        assert(roots_of(slots.push(Some(t))) =~= rts.push(Some(merkle_root(t))));
    } else if slots[h as int].is_none() {
        assert(rts[h as int].is_none());
        assert(roots_of(slots.update(h as int, Some(t))) =~= rts.update(
            h as int,
            Some(merkle_root(t)),
        ));
    } else {
        let old_t = slots[h as int].unwrap();
        assert(old_t.len() == pow2(h));
        crate::tree::lemma_merkle_root_concat(old_t, t);
        let cleared = slots.update(h as int, None);
        assert(roots_of(cleared) =~= rts.update(h as int, None));
        assert forall|j: int|
            0 <= j < cleared.len() && cleared[j].is_some() implies (
        #[trigger] cleared[j].unwrap()).len() == pow2(j as nat) by {
            if j != h {
                assert(cleared[j] == slots[j]);
            }
        }
        vstd::arithmetic::power2::lemma_pow2_unfold(h + 1);
        lemma_roots_insert_agree(cleared, old_t + t, h + 1);
        assert(rts[h as int] == Some(merkle_root(old_t)));
    }
}

/// Root agreement (insert): inserting a value into the forest and into the
/// root-only accumulator yields, slot for slot, the same root hashes.
pub proof fn lemma_insert_root_agreement(slots: Seq<Option<Seq<Seq<u8>>>>, leaf: Seq<u8>)
    requires
        slot_sizes_ok(slots),
    ensures
        roots_of(slots_after_insert(slots, leaf)) == crate::accumulator::roots_after_insert(
            roots_of(slots),
            leaf,
        ),
{
    vstd::arithmetic::power2::lemma2_to64();
    assert(seq![leaf].len() == pow2(0));
    assert(merkle_root(seq![leaf]) == leaf);
    lemma_roots_insert_agree(slots, seq![leaf], 0);
}

/// Slots above the deletion height other than the one rebuilt do not change
/// the outcome of a root-only deletion; the rebuilt slot is overwritten.
proof fn lemma_roots_delete_ignores_high(
    r1: Seq<Option<Seq<u8>>>,
    r2: Seq<Option<Seq<u8>>>,
    sibs: Seq<Seq<u8>>,
    carry: Option<Seq<u8>>,
    k: nat,
)
    requires
        r1.len() == r2.len(),
        sibs.len() < r1.len(),
        k <= sibs.len(),
        forall|j: int| 0 <= j < r1.len() && j != sibs.len() ==> r1[j] == r2[j],
    ensures
        crate::accumulator::roots_delete_from(r1, sibs, carry, k)
            == crate::accumulator::roots_delete_from(r2, sibs, carry, k),
    decreases sibs.len() - k,
{
    if k >= sibs.len() {
        assert(r1.update(k as int, carry) =~= r2.update(k as int, carry));
    } else if carry.is_some() {
        lemma_roots_delete_ignores_high(
            r1,
            r2,
            sibs,
            Some(crate::hash::node_hash_of(sibs[k as int], carry.unwrap())),
            k + 1,
        );
    } else if r1[k as int].is_none() {
        lemma_roots_delete_ignores_high(
            r1.update(k as int, Some(sibs[k as int])),
            r2.update(k as int, Some(sibs[k as int])),
            sibs,
            None,
            k + 1,
        );
    } else {
        lemma_roots_delete_ignores_high(
            r1.update(k as int, None),
            r2.update(k as int, None),
            sibs,
            Some(crate::hash::node_hash_of(sibs[k as int], r1[k as int].unwrap())),
            k + 1,
        );
    }
}

/// Root agreement under deletion: redistributing sibling subtrees through
/// the slots moves the roots exactly as redistributing their root hashes
/// through a root-only accumulator.
proof fn lemma_roots_delete_agree(
    slots: Seq<Option<Seq<Seq<u8>>>>,
    sts: Seq<Seq<Seq<u8>>>,
    sibs: Seq<Seq<u8>>,
    carry: Option<Seq<Seq<u8>>>,
    k: nat,
)
    requires
        slot_sizes_ok(slots),
        sts.len() < slots.len(),
        sibs.len() == sts.len(),
        forall|j: int| 0 <= j < sts.len() ==> (#[trigger] sts[j]).len() == pow2(j as nat),
        forall|j: int| 0 <= j < sts.len() ==> #[trigger] sibs[j] == merkle_root(sts[j]),
        carry.is_some() ==> carry.unwrap().len() == pow2(k),
        k <= sts.len(),
    ensures
        roots_of(slots_delete_from(slots, sts, carry, k))
            == crate::accumulator::roots_delete_from(roots_of(slots), sibs, opt_root(carry), k),
    decreases sts.len() - k,
{
    vstd::arithmetic::power2::lemma_pow2_pos(k);
    let rts = roots_of(slots);
    if k >= sts.len() {
        assert(roots_of(slots.update(k as int, carry)) =~= rts.update(k as int, opt_root(carry)));
    } else if carry.is_some() {
        crate::tree::lemma_merkle_root_concat(sts[k as int], carry.unwrap());
        vstd::arithmetic::power2::lemma_pow2_unfold(k + 1);
        lemma_roots_delete_agree(slots, sts, sibs, Some(sts[k as int] + carry.unwrap()), k + 1);
    } else if slots[k as int].is_none() {
        assert(rts[k as int].is_none());
        let upd = slots.update(k as int, Some(sts[k as int]));
        assert(roots_of(upd) =~= rts.update(k as int, Some(sibs[k as int])));
        assert forall|j: int|
            0 <= j < upd.len() && upd[j].is_some() implies (#[trigger] upd[j].unwrap()).len()
            == pow2(j as nat) by {
            if j != k {
                assert(upd[j] == slots[j]);
            }
        }
        lemma_roots_delete_agree(upd, sts, sibs, None, k + 1);
    } else {
        let old_t = slots[k as int].unwrap();
        assert(old_t.len() == pow2(k));
        crate::tree::lemma_merkle_root_concat(sts[k as int], old_t);
        vstd::arithmetic::power2::lemma_pow2_unfold(k + 1);
        let upd = slots.update(k as int, None);
        assert(roots_of(upd) =~= rts.update(k as int, None));
        assert forall|j: int|
            0 <= j < upd.len() && upd[j].is_some() implies (#[trigger] upd[j].unwrap()).len()
            == pow2(j as nat) by {
            if j != k {
                assert(upd[j] == slots[j]);
            }
        }
        assert(rts[k as int] == Some(merkle_root(old_t)));
        lemma_roots_delete_agree(upd, sts, sibs, Some(sts[k as int] + old_t), k + 1);
    }
}

/// Root agreement (delete): a proof the forest accepts rebuilds the
/// forest's roots exactly as applying its sibling hashes to the root-only
/// accumulator does.
pub proof fn lemma_delete_root_agreement(
    slots: Seq<Option<Seq<Seq<u8>>>>,
    bits: Seq<bool>,
    leaf: Seq<u8>,
    sibs: Seq<Seq<u8>>,
)
    requires
        forest_ok(slots),
        slots_accept(slots, bits, leaf, sibs),
    ensures
        roots_of(slots_after_delete(slots, bits)) == crate::accumulator::roots_after_delete(
            roots_of(slots),
            sibs,
        ),
{
    let h = bits.len() as int;
    let ls = slots[h].unwrap();
    crate::tree::lemma_sibling_subtrees_shape(ls, bits);
    let st = sibling_subtrees(ls, bits);
    let base = slots.update(h, None);
    assert forall|j: int|
        0 <= j < base.len() && base[j].is_some() implies (#[trigger] base[j].unwrap()).len()
        == pow2(j as nat) by {
        if j != h {
            assert(base[j] == slots[j]);
        }
    }
    lemma_roots_delete_agree(base, st, sibs, None, 0);
    assert(roots_of(base) =~= roots_of(slots).update(h, None));
    lemma_roots_delete_ignores_high(roots_of(base), roots_of(slots), sibs, None, 0);
}

impl crate::utreexo::Utreexo for MemoryForest {
    open spec fn roots_model(&self) -> Seq<Option<Seq<u8>>> {
        self.spec_roots()
    }

    open spec fn inv(&self) -> bool {
        self.wf()
    }

    open spec fn insert_absorbed(&self, leaf: Seq<u8>) -> bool {
        slots_contain(self.slots_model(), leaf)
    }

    open spec fn insert_permitted(&self) -> bool {
        slots_leaf_count(self.slots_model()) < usize::MAX / 4
    }

    open spec fn delete_accepted(&self, bits: Seq<bool>, leaf: Seq<u8>, sibs: Seq<Seq<u8>>) -> bool {
        slots_accept(self.slots_model(), bits, leaf, sibs)
    }

    proof fn accepted_verifies(&self, bits: Seq<bool>, leaf: Seq<u8>, sibs: Seq<Seq<u8>>) {
        let m = self.slots_model();
        let ls = m[bits.len() as int].unwrap();
        crate::tree::lemma_fold_by_bits(ls, bits, sibs);
        assert(self.spec_roots()[bits.len() as int] == Some(merkle_root(ls)));
    }

    fn insert(&mut self, value: &[u8]) {
        let ghost om = self.slots_model();
        self.insert(value);
        proof {
            if !slots_contain(om, leaf_hash_of(value@)) {
                assert forall|h: int|
                    0 <= h < om.len() && om[h].is_some() implies (#[trigger] om[h].unwrap()).len()
                    == pow2(h as nat) by {}
                lemma_insert_root_agreement(om, leaf_hash_of(value@));
            }
        }
    }

    fn delete(&mut self, proof: &crate::proofs::Proof) -> (r: bool) {
        let ghost om = self.slots_model();
        let r = self.delete(proof);
        proof {
            if r {
                lemma_delete_root_agreement(om, proof.bits(), proof.leaf(), proof.sibs());
            }
        }
        r
    }
}

impl crate::prover::Prover for MemoryForest {
    open spec fn prover_inv(&self) -> bool {
        self.wf()
    }

    open spec fn holds_leaf(&self, leaf: Seq<u8>) -> bool {
        slots_contain(self.slots_model(), leaf)
    }

    fn prove(&self, value: &[u8]) -> (r: Option<crate::proofs::Proof>) {
        self.prove(value)
    }
}

/// The number of leaves one slot holds.
pub open spec fn opt_len(o: Option<Seq<Seq<u8>>>) -> nat {
    match o {
        Some(t) => t.len(),
        None => 0,
    }
}

/// The number of leaves held at heights `h` and above.
pub open spec fn slots_size_from(slots: Seq<Option<Seq<Seq<u8>>>>, h: nat) -> nat
    decreases slots.len() - h,
{
    if h >= slots.len() {
        0
    } else {
        opt_len(slots[h as int]) + slots_size_from(slots, h + 1)
    }
}

/// The total leaf count is the count taken from height zero.
proof fn lemma_size_from_total(slots: Seq<Option<Seq<Seq<u8>>>>, h: nat)
    requires
        h <= slots.len(),
    ensures
        slots_size_from(slots, h) == slots_content(slots.skip(h as int)).len(),
    decreases slots.len() - h,
{
    broadcast use vstd::multiset::group_multiset_axioms;
    broadcast use vstd::seq_lib::group_to_multiset_ensures;

    let tail = slots.skip(h as int);
    if h == slots.len() {
        assert(tail =~= Seq::<Option<Seq<Seq<u8>>>>::empty());
    } else {
        lemma_size_from_total(slots, h + 1);
        lemma_slots_content_drop_first(tail);
        assert(tail.drop_first() =~= slots.skip(h as int + 1));
        assert(tail[0] == slots[h as int]);
    }
}

/// The content of a slot sequence splits off its first slot.
proof fn lemma_slots_content_drop_first(slots: Seq<Option<Seq<Seq<u8>>>>)
    requires
        slots.len() >= 1,
    ensures
        slots_content(slots).len() == opt_len(slots[0]) + slots_content(slots.drop_first()).len(),
    decreases slots.len(),
{
    broadcast use vstd::multiset::group_multiset_axioms;
    broadcast use vstd::seq_lib::group_to_multiset_ensures;

    if slots.len() == 1 {
        assert(slots.drop_last() =~= Seq::<Option<Seq<Seq<u8>>>>::empty());
        assert(slots.drop_first() =~= Seq::<Option<Seq<Seq<u8>>>>::empty());
        assert(slots.last() == slots[0]);
        match slots[0] {
            Some(t) => {
                assert(opt_content(slots[0]).len() == t.len());
            },
            None => {},
        }
    } else {
        lemma_slots_content_drop_first(slots.drop_last());
        assert(slots.drop_last()[0] == slots[0]);
        assert(slots.drop_first().drop_last() =~= slots.drop_last().drop_first());
        assert(slots.drop_first().last() == slots.last());
        match slots.last() {
            Some(t) => {
                assert(opt_content(slots.last()).len() == t.len());
            },
            None => {},
        }
    }
}

/// The count from height `h` is a multiple of `2^h`, and its bit at height
/// `h` says whether slot `h` is occupied.
proof fn lemma_size_from_bits(slots: Seq<Option<Seq<Seq<u8>>>>, h: nat)
    requires
        slot_sizes_ok(slots),
        h <= slots.len(),
    ensures
        slots_size_from(slots, h) % pow2(h) == 0,
        h < slots.len() ==> slots_size_from(slots, h) / pow2(h) % 2 == (if slots[h as int].is_some() {
            1nat
        } else {
            0nat
        }),
    decreases slots.len() - h,
{
    vstd::arithmetic::power2::lemma_pow2_pos(h);
    let p = pow2(h) as int;
    if h == slots.len() {
        vstd::arithmetic::div_mod::lemma_mod_self_0(p);
        assert(0nat % pow2(h) == 0) by {
            vstd::arithmetic::div_mod::lemma_small_mod(0, pow2(h));
        }
    } else {
        lemma_size_from_bits(slots, h + 1);
        vstd::arithmetic::power2::lemma_pow2_pos(h + 1);
        vstd::arithmetic::power2::lemma_pow2_unfold(h + 1);
        let rest = slots_size_from(slots, h + 1) as int;
        let q2 = pow2(h + 1) as int;
        let m = rest / q2;
        vstd::arithmetic::div_mod::lemma_fundamental_div_mod(rest, q2);
        assert(rest == q2 * m);
        let s = opt_len(slots[h as int]) as int;
        let total = slots_size_from(slots, h) as int;
        assert(total == s + rest);
        let bit: int = if slots[h as int].is_some() {
            1
        } else {
            0
        };
        assert(s == bit * p);
        assert(total == (bit + 2 * m) * p) by (nonlinear_arith)
            requires
                total == s + rest,
                s == bit * p,
                rest == q2 * m,
                q2 == 2 * p,
        ;
        vstd::arithmetic::div_mod::lemma_fundamental_div_mod_converse(total, p, bit + 2 * m, 0);
        assert(total % p == 0);
        assert(total / p == bit + 2 * m);
        vstd::arithmetic::div_mod::lemma_mod_multiples_vanish(m, bit, 2);
        assert((2 * m + bit) % 2 == bit % 2);
        vstd::arithmetic::div_mod::lemma_small_mod(bit as nat, 2);
    }
}

/// The leaves below height `h` number fewer than `2^h`.
proof fn lemma_size_upto_small(slots: Seq<Option<Seq<Seq<u8>>>>, h: nat)
    requires
        slot_sizes_ok(slots),
        h <= slots.len(),
    ensures
        slots_size_from(slots, 0) - slots_size_from(slots, h) < pow2(h),
        slots_size_from(slots, h) <= slots_size_from(slots, 0),
    decreases h,
{
    vstd::arithmetic::power2::lemma_pow2_pos(h);
    if h == 0 {
    } else {
        lemma_size_upto_small(slots, (h - 1) as nat);
        vstd::arithmetic::power2::lemma_pow2_unfold(h);
        vstd::arithmetic::power2::lemma_pow2_pos((h - 1) as nat);
        assert(slots_size_from(slots, (h - 1) as nat) == opt_len(slots[h - 1]) + slots_size_from(
            slots,
            h,
        ));
        assert(opt_len(slots[h - 1]) <= pow2((h - 1) as nat));
    }
}

/// Slot–count bijection: in a forest whose slot at height `h` holds `2^h`
/// leaves, the occupied slots are exactly the set bits of the total leaf
/// count.
pub proof fn lemma_slot_count_bijection(slots: Seq<Option<Seq<Seq<u8>>>>, h: int)
    requires
        slot_sizes_ok(slots),
        0 <= h < slots.len(),
    ensures
        slots[h].is_some() <==> slots_leaf_count(slots) / pow2(h as nat) % 2 == 1,
{
    let n = slots_size_from(slots, 0);
    assert(slots.skip(0) =~= slots);
    lemma_size_from_total(slots, 0);
    assert(n == slots_leaf_count(slots));
    lemma_size_from_bits(slots, h as nat);
    lemma_size_upto_small(slots, h as nat);
    let p = pow2(h as nat) as int;
    vstd::arithmetic::power2::lemma_pow2_pos(h as nat);
    let s_h = slots_size_from(slots, h as nat) as int;
    let low = n as int - s_h;
    vstd::arithmetic::div_mod::lemma_fundamental_div_mod(s_h, p);
    let q = s_h / p;
    assert(s_h == p * q);
    assert(n as int == p * q + low);
    vstd::arithmetic::div_mod::lemma_div_multiples_vanish_fancy(q, low, p);
    assert((p * q + low) / p == q);
    assert(n as int / p == s_h / p);
}

/// Prove–delete–re-prove: a successful delete removes its leaf hash from a
/// duplicate-free forest, so the hash is no longer held anywhere and
/// `prove` returns none for it.
pub proof fn lemma_delete_removes(
    before: Seq<Option<Seq<Seq<u8>>>>,
    after: Seq<Option<Seq<Seq<u8>>>>,
    leaf: Seq<u8>,
)
    requires
        distinct_content(before),
        slots_content(after).insert(leaf) == slots_content(before),
    ensures
        !slots_contain(after, leaf),
{
    broadcast use vstd::multiset::group_multiset_axioms;

    assert(slots_content(after).insert(leaf).count(leaf) == slots_content(after).count(leaf) + 1);
    assert(slots_content(before).count(leaf) <= 1);
}

/// A sequence whose multiset counts stay at one has no duplicates.
proof fn lemma_counts_give_no_dup(t: Seq<Seq<u8>>, bound: Multiset<Seq<u8>>)
    requires
        forall|x: Seq<u8>| t.to_multiset().count(x) <= #[trigger] bound.count(x),
        forall|x: Seq<u8>| #[trigger] bound.count(x) <= 1,
    ensures
        t.no_duplicates(),
{
    broadcast use vstd::multiset::group_multiset_axioms;
    broadcast use vstd::seq_lib::group_to_multiset_ensures;

    assert forall|x: Seq<u8>| t.to_multiset().contains(x) implies t.to_multiset().count(x)
        == 1 by {
        assert(t.to_multiset().count(x) <= bound.count(x));
    }
    t.lemma_multiset_has_no_duplicates_conv();
}

/// Carrying a tree upward through the slots preserves the per-slot shape
/// and adds exactly the tree's leaves to the content.
proof fn lemma_insert_from_preserves(slots: Seq<Option<Seq<Seq<u8>>>>, t: Seq<Seq<u8>>, h: nat)
    requires
        slot_shape_ok(slots),
        h <= slots.len(),
        t.len() == pow2(h),
        forall|x: Seq<u8>| #[trigger] slots_content(slots).add(t.to_multiset()).count(x) <= 1,
    ensures
        slot_shape_ok(slots_insert_from(slots, t, h)),
        slots_content(slots_insert_from(slots, t, h)) == slots_content(slots).add(
            t.to_multiset(),
        ),
    decreases slots.len() - h,
{
    broadcast use vstd::multiset::group_multiset_axioms;
    broadcast use vstd::seq_lib::group_to_multiset_ensures;

    vstd::arithmetic::power2::lemma_pow2_pos(h);
    let combined = slots_content(slots).add(t.to_multiset());
    assert forall|x: Seq<u8>| t.to_multiset().count(x) <= #[trigger] combined.count(x) by {}
    lemma_counts_give_no_dup(t, combined);
    let res = slots_insert_from(slots, t, h);
    if h >= slots.len() {
        lemma_slots_content_push(slots, Some(t));
        assert forall|j: int|
            0 <= j < res.len() && res[j].is_some() implies (#[trigger] res[j].unwrap()).len()
            == pow2(j as nat) && res[j].unwrap().no_duplicates() by {
            if j < slots.len() {
                assert(res[j] == slots[j]);
            } else {
                assert(res[j] == Some(t));
            }
        }
    } else if slots[h as int].is_none() {
        lemma_slots_content_update(slots, h as int, Some(t));
        assert forall|x: Seq<u8>| #[trigger] slots_content(res).count(x)
            == combined.count(x) by {
            assert(slots_content(res).add(opt_content(slots[h as int])).count(x)
                == slots_content(slots).add(opt_content(Some(t))).count(x));
        }
        assert(slots_content(res) =~= combined);
        assert forall|j: int|
            0 <= j < res.len() && res[j].is_some() implies (#[trigger] res[j].unwrap()).len()
            == pow2(j as nat) && res[j].unwrap().no_duplicates() by {
            if j != h {
                assert(res[j] == slots[j]);
            }
        }
    } else {
        let old_t = slots[h as int].unwrap();
        let merged = old_t + t;
        lemma_slots_content_bound(slots, h as int);
        assert forall|x: Seq<u8>| old_t.contains(x) implies !t.contains(x) by {
            assert(combined.count(x) <= 1);
            assert(opt_content(slots[h as int]).count(x) <= slots_content(slots).count(x));
        }
        crate::tree::lemma_no_dup_concat(old_t, t);
        vstd::seq_lib::lemma_multiset_commutative(old_t, t);
        let upd = slots.update(h as int, None);
        lemma_slots_content_update(slots, h as int, None);
        assert forall|x: Seq<u8>|
            #[trigger] slots_content(upd).add(merged.to_multiset()).count(x)
            == combined.count(x) by {
            assert(slots_content(upd).add(opt_content(slots[h as int])).count(x)
                == slots_content(slots).add(opt_content(None::<Seq<Seq<u8>>>)).count(x));
            assert(merged.to_multiset().count(x) == old_t.to_multiset().count(x)
                + t.to_multiset().count(x));
        }
        assert forall|j: int|
            0 <= j < upd.len() && upd[j].is_some() implies (#[trigger] upd[j].unwrap()).len()
            == pow2(j as nat) && upd[j].unwrap().no_duplicates() by {
            if j != h {
                assert(upd[j] == slots[j]);
            }
        }
        vstd::arithmetic::power2::lemma_pow2_unfold(h + 1);
        lemma_insert_from_preserves(upd, merged, h + 1);
        assert forall|x: Seq<u8>| #[trigger] slots_content(res).count(x)
            == combined.count(x) by {
            assert(slots_content(res).count(x) == slots_content(upd).add(
                merged.to_multiset(),
            ).count(x));
        }
        assert(slots_content(res) =~= combined);
    }
}

/// Inserting an absent leaf hash preserves the forest invariant and adds
/// exactly that hash to the content.
pub proof fn lemma_insert_preserves(slots: Seq<Option<Seq<Seq<u8>>>>, leaf: Seq<u8>)
    requires
        forest_ok(slots),
        !slots_contain(slots, leaf),
    ensures
        forest_ok(slots_after_insert(slots, leaf)),
        slots_content(slots_after_insert(slots, leaf)) == slots_content(slots).insert(leaf),
{
    broadcast use vstd::multiset::group_multiset_axioms;
    broadcast use vstd::seq_lib::group_to_multiset_ensures;

    vstd::arithmetic::power2::lemma2_to64();
    let t = seq![leaf];
    assert(t =~= Seq::<Seq<u8>>::empty().push(leaf));
    assert(t.to_multiset() =~= Multiset::<Seq<u8>>::empty().insert(leaf));
    assert forall|x: Seq<u8>|
        #[trigger] slots_content(slots).add(t.to_multiset()).count(x) <= 1 by {
        if x != leaf {
            assert(Multiset::<Seq<u8>>::empty().insert(leaf).count(x) == 0);
        }
    }
    lemma_insert_from_preserves(slots, t, 0);
    assert(slots_content(slots).add(t.to_multiset()) =~= slots_content(slots).insert(leaf));
    assert(distinct_content(slots_after_insert(slots, leaf))) by {
        assert forall|x: Seq<u8>|
            #[trigger] slots_content(slots_after_insert(slots, leaf)).count(x) <= 1 by {
            assert(slots_content(slots).add(t.to_multiset()).count(x) <= 1);
        }
    }
}

/// Redistributing sibling subtrees through the slots preserves the
/// per-slot shape and lands exactly their leaves, plus the carry, in the
/// content.
proof fn lemma_delete_from_preserves(
    slots: Seq<Option<Seq<Seq<u8>>>>,
    sts: Seq<Seq<Seq<u8>>>,
    carry: Option<Seq<Seq<u8>>>,
    k: nat,
)
    requires
        slot_shape_ok(slots),
        sts.len() < slots.len(),
        k <= sts.len(),
        slots[sts.len() as int].is_none(),
        forall|j: int| k <= j < sts.len() ==> (#[trigger] sts[j]).len() == pow2(j as nat),
        carry.is_some() ==> carry.unwrap().len() == pow2(k),
        forall|x: Seq<u8>|
            #[trigger] slots_content(slots).add(opt_content(carry)).add(
                subtrees_content(sts.skip(k as int)),
            ).count(x) <= 1,
    ensures
        slot_shape_ok(slots_delete_from(slots, sts, carry, k)),
        slots_content(slots_delete_from(slots, sts, carry, k)) == slots_content(slots).add(
            opt_content(carry),
        ).add(subtrees_content(sts.skip(k as int))),
    decreases sts.len() - k,
{
    broadcast use vstd::multiset::group_multiset_axioms;
    broadcast use vstd::seq_lib::group_to_multiset_ensures;

    vstd::arithmetic::power2::lemma_pow2_pos(k);
    let combined = slots_content(slots).add(opt_content(carry)).add(
        subtrees_content(sts.skip(k as int)),
    );
    let res = slots_delete_from(slots, sts, carry, k);
    if k >= sts.len() {
        assert(sts.skip(k as int) =~= Seq::<Seq<Seq<u8>>>::empty());
        if carry.is_some() {
            assert forall|x: Seq<u8>| carry.unwrap().to_multiset().count(x) <= #[trigger] combined.count(x) by {}
            lemma_counts_give_no_dup(carry.unwrap(), combined);
        }
        lemma_slots_content_update(slots, k as int, carry);
        assert forall|x: Seq<u8>| #[trigger] slots_content(res).count(x)
            == combined.count(x) by {
            assert(slots_content(res).add(opt_content(slots[k as int])).count(x)
                == slots_content(slots).add(opt_content(carry)).count(x));
        }
        assert(slots_content(res) =~= combined);
        assert forall|j: int|
            0 <= j < res.len() && res[j].is_some() implies (#[trigger] res[j].unwrap()).len()
            == pow2(j as nat) && res[j].unwrap().no_duplicates() by {
            if j != k {
                assert(res[j] == slots[j]);
            }
        }
    } else {
        assert(sts.skip(k as int).drop_first() =~= sts.skip(k + 1 as int));
        assert(sts.skip(k as int)[0] == sts[k as int]);
        assert(subtrees_content(sts.skip(k as int)) == sts[k as int].to_multiset().add(
            subtrees_content(sts.skip(k + 1 as int)),
        ));
        vstd::arithmetic::power2::lemma_pow2_unfold(k + 1);
        if carry.is_some() {
            let merged = sts[k as int] + carry.unwrap();
            vstd::seq_lib::lemma_multiset_commutative(sts[k as int], carry.unwrap());
            assert forall|x: Seq<u8>|
                #[trigger] slots_content(slots).add(opt_content(Some(merged))).add(
                    subtrees_content(sts.skip(k + 1 as int)),
                ).count(x) == combined.count(x) by {
                assert(merged.to_multiset().count(x) == sts[k as int].to_multiset().count(x)
                    + carry.unwrap().to_multiset().count(x));
            }
            lemma_delete_from_preserves(slots, sts, Some(merged), k + 1);
            assert forall|x: Seq<u8>| #[trigger] slots_content(res).count(x)
                == combined.count(x) by {
                assert(slots_content(res).count(x) == slots_content(slots).add(
                    opt_content(Some(merged)),
                ).add(subtrees_content(sts.skip(k + 1 as int))).count(x));
            }
            assert(slots_content(res) =~= combined);
        } else if slots[k as int].is_none() {
            assert forall|x: Seq<u8>| sts[k as int].to_multiset().count(x) <= #[trigger] combined.count(x) by {
                assert(subtrees_content(sts.skip(k as int)).count(x) >= sts[
                    k as int
                ].to_multiset().count(x));
            }
            lemma_counts_give_no_dup(sts[k as int], combined);
            let upd = slots.update(k as int, Some(sts[k as int]));
            lemma_slots_content_update(slots, k as int, Some(sts[k as int]));
            assert forall|j: int|
                0 <= j < upd.len() && upd[j].is_some() implies (#[trigger] upd[j].unwrap()).len()
                == pow2(j as nat) && upd[j].unwrap().no_duplicates() by {
                if j != k {
                    assert(upd[j] == slots[j]);
                }
            }
            assert forall|x: Seq<u8>|
                #[trigger] slots_content(upd).add(opt_content(None::<Seq<Seq<u8>>>)).add(
                    subtrees_content(sts.skip(k + 1 as int)),
                ).count(x) == combined.count(x) by {
                assert(slots_content(upd).add(opt_content(slots[k as int])).count(x)
                    == slots_content(slots).add(opt_content(Some(sts[k as int]))).count(x));
            }
            assert(upd[sts.len() as int].is_none());
            lemma_delete_from_preserves(upd, sts, None, k + 1);
            assert forall|x: Seq<u8>| #[trigger] slots_content(res).count(x)
                == combined.count(x) by {
                assert(slots_content(res).count(x) == slots_content(upd).add(
                    opt_content(None::<Seq<Seq<u8>>>),
                ).add(subtrees_content(sts.skip(k + 1 as int))).count(x));
            }
            assert(slots_content(res) =~= combined);
        } else {
            let old_t = slots[k as int].unwrap();
            let merged = sts[k as int] + old_t;
            lemma_slots_content_bound(slots, k as int);
            assert forall|x: Seq<u8>| sts[k as int].contains(x) implies !old_t.contains(x) by {
                assert(combined.count(x) <= 1);
                assert(subtrees_content(sts.skip(k as int)).count(x) >= sts[
                    k as int
                ].to_multiset().count(x));
                assert(opt_content(slots[k as int]).count(x) <= slots_content(slots).count(x));
            }
            vstd::seq_lib::lemma_multiset_commutative(sts[k as int], old_t);
            let upd = slots.update(k as int, None);
            lemma_slots_content_update(slots, k as int, None);
            assert forall|j: int|
                0 <= j < upd.len() && upd[j].is_some() implies (#[trigger] upd[j].unwrap()).len()
                == pow2(j as nat) && upd[j].unwrap().no_duplicates() by {
                if j != k {
                    assert(upd[j] == slots[j]);
                }
            }
            assert forall|x: Seq<u8>|
                #[trigger] slots_content(upd).add(opt_content(Some(merged))).add(
                    subtrees_content(sts.skip(k + 1 as int)),
                ).count(x) == combined.count(x) by {
                assert(slots_content(upd).add(opt_content(slots[k as int])).count(x)
                    == slots_content(slots).add(opt_content(None::<Seq<Seq<u8>>>)).count(x));
                assert(merged.to_multiset().count(x) == sts[k as int].to_multiset().count(x)
                    + old_t.to_multiset().count(x));
            }
            assert(upd[sts.len() as int].is_none());
            lemma_delete_from_preserves(upd, sts, Some(merged), k + 1);
            assert forall|x: Seq<u8>| #[trigger] slots_content(res).count(x)
                == combined.count(x) by {
                assert(slots_content(res).count(x) == slots_content(upd).add(
                    opt_content(Some(merged)),
                ).add(subtrees_content(sts.skip(k + 1 as int))).count(x));
            }
            assert(slots_content(res) =~= combined);
        }
    }
}

/// An accepted deletion preserves the forest invariant and removes exactly
/// the selected leaf hash from the content.
pub proof fn lemma_delete_preserves(
    slots: Seq<Option<Seq<Seq<u8>>>>,
    bits: Seq<bool>,
    leaf: Seq<u8>,
    sibs: Seq<Seq<u8>>,
)
    requires
        forest_ok(slots),
        slots_accept(slots, bits, leaf, sibs),
    ensures
        forest_ok(slots_after_delete(slots, bits)),
        slots_content(slots_after_delete(slots, bits)).insert(leaf) == slots_content(slots),
{
    broadcast use vstd::multiset::group_multiset_axioms;
    broadcast use vstd::seq_lib::group_to_multiset_ensures;

    let h = bits.len() as int;
    let ls = slots[h].unwrap();
    let st = sibling_subtrees(ls, bits);
    crate::tree::lemma_sibling_subtrees_shape(ls, bits);
    crate::tree::lemma_descent_partition(ls, bits);
    let base = slots.update(h, None);
    lemma_slots_content_update(slots, h, None);
    assert forall|j: int|
        0 <= j < base.len() && base[j].is_some() implies (#[trigger] base[j].unwrap()).len()
        == pow2(j as nat) && base[j].unwrap().no_duplicates() by {
        if j != h {
            assert(base[j] == slots[j]);
        }
    }
    assert(st.skip(0) =~= st);
    assert forall|x: Seq<u8>|
        #[trigger] slots_content(base).add(opt_content(None::<Seq<Seq<u8>>>)).add(
            subtrees_content(st.skip(0)),
        ).insert(leaf).count(x) == slots_content(slots).count(x) by {
        assert(slots_content(base).add(opt_content(slots[h])).count(x) == slots_content(
            slots,
        ).add(opt_content(None::<Seq<Seq<u8>>>)).count(x));
        assert(opt_content(slots[h]).count(x) == ls.to_multiset().count(x));
        assert(ls.to_multiset().count(x) == subtrees_content(st).insert(
            selected_leaf(ls, bits),
        ).count(x));
    }
    assert forall|x: Seq<u8>|
        #[trigger] slots_content(base).add(opt_content(None::<Seq<Seq<u8>>>)).add(
            subtrees_content(st.skip(0)),
        ).count(x) <= 1 by {
        assert(slots_content(base).add(opt_content(None::<Seq<Seq<u8>>>)).add(
            subtrees_content(st.skip(0)),
        ).insert(leaf).count(x) == slots_content(slots).count(x));
    }
    lemma_delete_from_preserves(base, st, None, 0);
    let fin = slots_after_delete(slots, bits);
    assert(slots_content(fin) == slots_content(base).add(opt_content(None::<Seq<Seq<u8>>>)).add(
        subtrees_content(st.skip(0)),
    ));
    assert(slots_content(fin).insert(leaf) =~= slots_content(slots));
    assert(distinct_content(fin)) by {
        assert forall|x: Seq<u8>| #[trigger] slots_content(fin).count(x) <= 1 by {
            assert(slots_content(fin).insert(leaf).count(x) == slots_content(slots).count(x));
        }
    }
}

/// A proof the forest itself produced is accepted for deletion: `prove`
/// returns the canonical path and sibling hashes of a leaf actually stored
/// at the proof's height, and those always pass `delete`'s structural
/// checks. Together with `delete`'s contract this closes the
/// insert–prove–delete round trip.
pub proof fn lemma_own_proof_accepted(slots: Seq<Option<Seq<Seq<u8>>>>, h: int, i: int)
    requires
        0 <= h < slots.len(),
        slots[h].is_some(),
        slots[h].unwrap().len() == pow2(h as nat),
        0 <= i < slots[h].unwrap().len(),
    ensures
        slots_accept(
            slots,
            crate::path::path_bits(h as nat, i as nat),
            slots[h].unwrap()[i],
            crate::tree::leaf_siblings(slots[h].unwrap(), i),
        ),
{
    let ls = slots[h].unwrap();
    crate::tree::lemma_lg_pow2(h as nat);
    crate::tree::lemma_canonical_path(ls, i);
    crate::tree::lemma_siblings_fold(ls, i);
    assert(crate::path::path_bits(h as nat, i as nat).len() == h);
    assert forall|k: int|
        0 <= k < h implies #[trigger] crate::tree::leaf_siblings(ls, i)[k] == merkle_root(
        sibling_subtrees(ls, crate::path::path_bits(h as nat, i as nat))[k],
    ) by {
        assert(merkle_root(
            sibling_subtrees(ls, crate::path::path_bits(lg(ls.len()), i as nat))[k],
        ) == crate::tree::leaf_siblings(ls, i)[k]);
    }
}

} // verus!

