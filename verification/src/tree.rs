//! Perfect Merkle trees.
//!
//! A tree with `2^h` leaves stores its `2·2^h − 1` node hashes in a vector
//! laid out recursively: the left subtree's nodes first, then the right
//! subtree's, then the root, so splitting is slicing and merging is an append
//! plus one intermediate hash. Beside the nodes the tree keeps an
//! insertion-ordered set of its leaf hashes, which makes proving a lookup
//! followed by a walk down the layout.

use vstd::prelude::*;
use vstd::arithmetic::power2::pow2;
use vstd::multiset::Multiset;
use crate::hash::node_hash_of;
use crate::path::path_bits;
use crate::proofs::fold_root;
use crate::proofs::lemma_fold_root_snoc;

verus! {

/// `indexmap`'s insertion-ordered set, declared so that it can stand in
/// fields; its values are read only through the wrappers below.
#[verifier::external_type_specification]
#[verifier::external_body]
#[verifier::reject_recursive_types(T)]
#[verifier::reject_recursive_types(S)]
pub struct ExIndexSet<T, S>(indexmap::IndexSet<T, S>);

/// The items an `IndexSet` of leaf hashes holds, in insertion order.
pub uninterp spec fn leaf_set_items(
    s: indexmap::IndexSet<[u8; 32], std::hash::RandomState>,
) -> Seq<Seq<u8>>;

/// Relies on `IndexSet::new`: a fresh set holds nothing.
#[verifier::external_body]
fn leaf_set_new() -> (r: indexmap::IndexSet<[u8; 32], std::hash::RandomState>)
    ensures
        leaf_set_items(r) == Seq::<Seq<u8>>::empty(),
{
    indexmap::IndexSet::new()
}

/// Relies on `IndexSet::insert`: appends the value at the back unless an
/// equal one is already present, in which case nothing changes; returns
/// whether the value was added.
#[verifier::external_body]
fn leaf_set_insert(
    s: &mut indexmap::IndexSet<[u8; 32], std::hash::RandomState>,
    h: [u8; 32],
) -> (added: bool)
    ensures
        added == !leaf_set_items(*old(s)).contains(h@),
        added ==> leaf_set_items(*final(s)) == leaf_set_items(*old(s)).push(h@),
        !added ==> leaf_set_items(*final(s)) == leaf_set_items(*old(s)),
{
    s.insert(h)
}

/// Relies on `IndexSet::len`: the number of items held.
#[verifier::external_body]
fn leaf_set_len(s: &indexmap::IndexSet<[u8; 32], std::hash::RandomState>) -> (r: usize)
    ensures
        r == leaf_set_items(*s).len(),
{
    s.len()
}

/// Relies on `IndexSet::get_index_of`: the position of a value in insertion
/// order, or `None` when no equal value is present.
#[verifier::external_body]
fn leaf_set_index_of(
    s: &indexmap::IndexSet<[u8; 32], std::hash::RandomState>,
    h: &[u8; 32],
) -> (r: Option<usize>)
    ensures
        r.is_some() == leaf_set_items(*s).contains(h@),
        r.is_some() ==> r.unwrap() < leaf_set_items(*s).len() && leaf_set_items(*s)[r.unwrap() as int]
            == h@,
{
    s.get_index_of(h)
}

/// Relies on `IndexSet::get_index`: the item at a position in insertion
/// order. `get_index` returns `None` only past the end, which the caller
/// rules out.
#[verifier::external_body]
fn leaf_set_get(s: &indexmap::IndexSet<[u8; 32], std::hash::RandomState>, i: usize) -> (r: [u8; 32])
    requires
        i < leaf_set_items(*s).len(),
    ensures
        r@ == leaf_set_items(*s)[i as int],
{
    *s.get_index(i).expect("index is within bounds")
}

/// Relies on `IndexSet`'s `Clone` impl: the copy holds equal items in the
/// same order.
#[verifier::external_body]
fn leaf_set_clone(s: &indexmap::IndexSet<[u8; 32], std::hash::RandomState>) -> (r: indexmap::IndexSet<
    [u8; 32],
    std::hash::RandomState,
>)
    ensures
        leaf_set_items(r) == leaf_set_items(*s),
{
    s.clone()
}

/// The views of a sequence of hash values.
pub open spec fn hashes_of(v: Seq<crate::hash::Hash>) -> Seq<Seq<u8>> {
    v.map_values(|h: crate::hash::Hash| h@)
}

/// The base-two logarithm, rounded down.
pub open spec fn lg(n: nat) -> nat
    decreases n,
{
    if n <= 1 {
        0
    } else {
        1 + lg(n / 2)
    }
}

/// Whether `n` is a power of two.
pub open spec fn is_pow2(n: nat) -> bool {
    n == pow2(lg(n))
}

/// A power of two at least 2 halves into two equal powers of two.
pub proof fn lemma_pow2_shape(n: nat)
    requires
        is_pow2(n),
        n >= 2,
    ensures
        n % 2 == 0,
        n == 2 * (n / 2),
        n / 2 >= 1,
        is_pow2(n / 2),
        lg(n) == lg(n / 2) + 1,
{
    vstd::arithmetic::power2::lemma_pow2_unfold(lg(n));
}

/// Doubling a power of two gives the next power of two.
pub proof fn lemma_pow2_double(n: nat)
    requires
        is_pow2(n),
        n >= 1,
    ensures
        is_pow2(2 * n),
        lg(2 * n) == lg(n) + 1,
{
    assert(lg(2 * n) == 1 + lg((2 * n) / 2));
    assert((2 * n) / 2 == n);
    vstd::arithmetic::power2::lemma_pow2_unfold(lg(n) + 1);
}

/// `lg` inverts `pow2`.
pub proof fn lemma_lg_pow2(h: nat)
    ensures
        lg(pow2(h)) == h,
        is_pow2(pow2(h)),
        pow2(h) >= 1,
    decreases h,
{
    vstd::arithmetic::power2::lemma2_to64();
    vstd::arithmetic::power2::lemma_pow2_pos(h);
    if h > 0 {
        lemma_lg_pow2((h - 1) as nat);
        vstd::arithmetic::power2::lemma_pow2_pos((h - 1) as nat);
        vstd::arithmetic::power2::lemma_pow2_unfold(h);
        assert(pow2(h) / 2 == pow2((h - 1) as nat));
        assert(pow2(h) >= 2);
        assert(lg(pow2(h)) == 1 + lg(pow2(h) / 2));
    }
}

/// The root hash of a perfect tree over the given leaf hashes: a single leaf
/// is its own root, and a larger tree hashes the roots of its two halves.
pub open spec fn merkle_root(ls: Seq<Seq<u8>>) -> Seq<u8>
    decreases ls.len(),
{
    if ls.len() <= 1 {
        if ls.len() == 1 {
            ls[0]
        } else {
            Seq::<u8>::empty()
        }
    } else {
        let half = ls.len() as int / 2;
        node_hash_of(merkle_root(ls.take(half)), merkle_root(ls.skip(half)))
    }
}

/// The root of two equal-sized trees side by side is the intermediate hash
/// of their roots.
pub proof fn lemma_merkle_root_concat(a: Seq<Seq<u8>>, b: Seq<Seq<u8>>)
    requires
        a.len() == b.len(),
        a.len() >= 1,
    ensures
        merkle_root(a + b) == node_hash_of(merkle_root(a), merkle_root(b)),
{
    let c = a + b;
    let half = c.len() as int / 2;
    assert(c.take(half) =~= a);
    assert(c.skip(half) =~= b);
}

/// The node hashes of a perfect tree over the given leaf hashes, in layout
/// order: left subtree, right subtree, root.
pub open spec fn node_layout(ls: Seq<Seq<u8>>) -> Seq<Seq<u8>>
    decreases ls.len(),
{
    if ls.len() <= 1 {
        ls
    } else {
        let half = ls.len() as int / 2;
        node_layout(ls.take(half)) + node_layout(ls.skip(half)) + seq![merkle_root(ls)]
    }
}

/// A tree over `n` leaves lays out `2·n − 1` nodes.
pub proof fn lemma_node_layout_len(ls: Seq<Seq<u8>>)
    requires
        ls.len() >= 1,
    ensures
        node_layout(ls).len() == 2 * ls.len() - 1,
    decreases ls.len(),
{
    if ls.len() >= 2 {
        let half = ls.len() as int / 2;
        lemma_node_layout_len(ls.take(half));
        lemma_node_layout_len(ls.skip(half));
    }
}

/// The last node in the layout is the root hash.
pub proof fn lemma_node_layout_last(ls: Seq<Seq<u8>>)
    requires
        ls.len() >= 1,
    ensures
        node_layout(ls).len() >= 1,
        node_layout(ls).last() == merkle_root(ls),
{
    lemma_node_layout_len(ls);
}

/// The sibling hashes of the leaf at index `i`, from bottom to top: at each
/// level, the root of the half the leaf is not in.
pub open spec fn leaf_siblings(ls: Seq<Seq<u8>>, i: int) -> Seq<Seq<u8>>
    decreases ls.len(),
{
    if ls.len() <= 1 {
        Seq::<Seq<u8>>::empty()
    } else {
        let half = ls.len() as int / 2;
        if i < half {
            leaf_siblings(ls.take(half), i).push(merkle_root(ls.skip(half)))
        } else {
            leaf_siblings(ls.skip(half), i - half).push(merkle_root(ls.take(half)))
        }
    }
}

/// Climbing from the leaf at index `i` along its canonical path, combining
/// in its sibling hashes, reproduces the tree's root: the sound half of the
/// insert–prove–verify round trip.
pub proof fn lemma_siblings_fold(ls: Seq<Seq<u8>>, i: int)
    requires
        is_pow2(ls.len()),
        0 <= i < ls.len(),
    ensures
        leaf_siblings(ls, i).len() == lg(ls.len()),
        fold_root(ls[i], path_bits(lg(ls.len()), i as nat), leaf_siblings(ls, i)) == merkle_root(
            ls,
        ),
    decreases ls.len(),
{
    vstd::arithmetic::power2::lemma2_to64();
    if ls.len() == 1 {
        assert(path_bits(0, i as nat) =~= Seq::<bool>::empty());
    } else {
        lemma_pow2_shape(ls.len());
        let half = ls.len() as int / 2;
        let h = lg(ls.len());
        vstd::arithmetic::power2::lemma_pow2_pos((h - 1) as nat);
        assert(half == pow2((h - 1) as nat)) by {
            assert(ls.take(half).len() == half);
        }
        if i < half {
            let sub = ls.take(half);
            lemma_siblings_fold(sub, i);
            assert(sub[i] == ls[i]);
            assert(i / pow2((h - 1) as nat) as int == 0) by {
                vstd::arithmetic::div_mod::lemma_basic_div(i, pow2((h - 1) as nat) as int);
            }
            assert(path_bits(h, i as nat) =~= path_bits((h - 1) as nat, i as nat).push(false));
            lemma_fold_root_snoc(
                ls[i],
                path_bits((h - 1) as nat, i as nat),
                leaf_siblings(sub, i),
                false,
                merkle_root(ls.skip(half)),
            );
        } else {
            let sub = ls.skip(half);
            lemma_siblings_fold(sub, i - half);
            assert(sub[i - half] == ls[i]);
            assert(i / pow2((h - 1) as nat) as int == 1) by {
                vstd::arithmetic::div_mod::lemma_fundamental_div_mod_converse(
                    i,
                    pow2((h - 1) as nat) as int,
                    1,
                    i - half,
                );
            }
            let lower = path_bits((h - 1) as nat, (i - half) as nat);
            assert forall|k: int| 0 <= k < h implies #[trigger] path_bits(h, i as nat)[k]
                == lower.push(true)[k] by {
                if k < h - 1 {
                    lemma_low_bits_agree(i, half, (h - 1) as nat, k as nat);
                }
            }
            assert(path_bits(h, i as nat) =~= lower.push(true));
            lemma_fold_root_snoc(
                ls[i],
                path_bits((h - 1) as nat, (i - half) as nat),
                leaf_siblings(sub, i - half),
                true,
                merkle_root(ls.take(half)),
            );
        }
    }
}

/// Below the top level, the binary digits of `i` and of `i − 2^m` agree when
/// `2^m <= i < 2^(m+1)`.
proof fn lemma_low_bits_agree(i: int, half: int, m: nat, k: nat)
    requires
        half == pow2(m),
        half <= i < 2 * half,
        k < m,
    ensures
        i as nat / pow2(k) % 2 == (i - half) as nat / pow2(k) % 2,
{
    vstd::arithmetic::power2::lemma_pow2_pos(k);
    vstd::arithmetic::power2::lemma_pow2_pos((m - k) as nat);
    vstd::arithmetic::power2::lemma_pow2_adds(k, (m - k) as nat);
    // i = (i - half) + pow2(k) * pow2(m - k), so the quotients by pow2(k)
    // differ by the even number pow2(m - k).
    let p = pow2(k) as int;
    let q = pow2((m - k) as nat) as int;
    let x = i - half;
    vstd::arithmetic::div_mod::lemma_fundamental_div_mod(x, p);
    vstd::arithmetic::div_mod::lemma_mod_division_less_than_divisor(x, p);
    assert(i == (x / p + q) * p + x % p) by (nonlinear_arith)
        requires
            x == p * (x / p) + x % p,
            half == p * q,
            i == x + half,
    ;
    vstd::arithmetic::div_mod::lemma_fundamental_div_mod_converse(i, p, x / p + q, x % p);
    assert(i / p == x / p + q);
    vstd::arithmetic::power2::lemma_pow2_unfold((m - k) as nat);
    let t = pow2((m - k - 1) as nat) as int;
    vstd::arithmetic::div_mod::lemma_mod_multiples_vanish(t, x / p, 2);
    assert(i / p % 2 == x / p % 2);
}

/// Splitting off the top level of a canonical path: the top bit says which
/// half the leaf is in, and the lower bits form the canonical path within
/// that half.
pub proof fn lemma_path_bits_split(h: nat, i: int)
    requires
        h >= 1,
        0 <= i < pow2(h),
    ensures
        i < pow2((h - 1) as nat) ==> path_bits(h, i as nat) == path_bits(
            (h - 1) as nat,
            i as nat,
        ).push(false),
        i >= pow2((h - 1) as nat) ==> path_bits(h, i as nat) == path_bits(
            (h - 1) as nat,
            (i - pow2((h - 1) as nat)) as nat,
        ).push(true),
{
    let half = pow2((h - 1) as nat) as int;
    vstd::arithmetic::power2::lemma_pow2_pos((h - 1) as nat);
    vstd::arithmetic::power2::lemma_pow2_unfold(h);
    if i < half {
        assert(i / pow2((h - 1) as nat) as int == 0) by {
            vstd::arithmetic::div_mod::lemma_basic_div(i, pow2((h - 1) as nat) as int);
        }
        assert(path_bits(h, i as nat) =~= path_bits((h - 1) as nat, i as nat).push(false));
    } else {
        assert(i / pow2((h - 1) as nat) as int == 1) by {
            vstd::arithmetic::div_mod::lemma_fundamental_div_mod_converse(
                i,
                pow2((h - 1) as nat) as int,
                1,
                i - half,
            );
        }
        let lower = path_bits((h - 1) as nat, (i - half) as nat);
        assert forall|k: int| 0 <= k < h implies #[trigger] path_bits(h, i as nat)[k]
            == lower.push(true)[k] by {
            if k < h - 1 {
                lemma_low_bits_agree(i, half, (h - 1) as nat, k as nat);
            }
        }
        assert(path_bits(h, i as nat) =~= lower.push(true));
    }
}

/// The leaf subsequence reached by descending along the path bits, consumed
/// from the top level down.
pub open spec fn descend(ls: Seq<Seq<u8>>, bits: Seq<bool>) -> Seq<Seq<u8>>
    decreases bits.len(),
{
    if bits.len() == 0 {
        ls
    } else {
        let half = ls.len() as int / 2;
        if bits.last() {
            descend(ls.skip(half), bits.drop_last())
        } else {
            descend(ls.take(half), bits.drop_last())
        }
    }
}

/// The leaf hash the path bits select.
pub open spec fn selected_leaf(ls: Seq<Seq<u8>>, bits: Seq<bool>) -> Seq<u8> {
    descend(ls, bits)[0]
}

/// The leaf subsequences of the sibling subtrees along the path bits, from
/// bottom to top: at each level, the half the path does not descend into.
pub open spec fn sibling_subtrees(ls: Seq<Seq<u8>>, bits: Seq<bool>) -> Seq<Seq<Seq<u8>>>
    decreases bits.len(),
{
    if bits.len() == 0 {
        Seq::<Seq<Seq<u8>>>::empty()
    } else {
        let half = ls.len() as int / 2;
        if bits.last() {
            sibling_subtrees(ls.skip(half), bits.drop_last()).push(ls.take(half))
        } else {
            sibling_subtrees(ls.take(half), bits.drop_last()).push(ls.skip(half))
        }
    }
}

/// The multiset of all leaves in a sequence of subtree leaf sequences.
pub open spec fn subtrees_content(ts: Seq<Seq<Seq<u8>>>) -> Multiset<Seq<u8>>
    decreases ts.len(),
{
    if ts.len() == 0 {
        Multiset::<Seq<u8>>::empty()
    } else {
        ts[0].to_multiset().add(subtrees_content(ts.drop_first()))
    }
}

/// Appending one more subtree adds its leaves to the combined content.
pub proof fn lemma_subtrees_content_push(ts: Seq<Seq<Seq<u8>>>, t: Seq<Seq<u8>>)
    ensures
        subtrees_content(ts.push(t)) == subtrees_content(ts).add(t.to_multiset()),
    decreases ts.len(),
{
    broadcast use vstd::multiset::group_multiset_axioms;

    if ts.len() == 0 {
        assert(ts.push(t).drop_first() =~= Seq::<Seq<Seq<u8>>>::empty());
        assert(ts.push(t)[0] == t);
        assert(subtrees_content(ts.push(t)) == t.to_multiset().add(
            subtrees_content(ts.push(t).drop_first()),
        ));
        assert(subtrees_content(ts.push(t).drop_first()) == Multiset::<Seq<u8>>::empty());
        assert(subtrees_content(ts.push(t)) =~= subtrees_content(ts).add(t.to_multiset()));
    } else {
        assert(ts.push(t).drop_first() =~= ts.drop_first().push(t));
        assert(ts.push(t)[0] == ts[0]);
        lemma_subtrees_content_push(ts.drop_first(), t);
        assert(subtrees_content(ts.push(t)) == ts[0].to_multiset().add(
            subtrees_content(ts.drop_first()).add(t.to_multiset()),
        ));
        assert(subtrees_content(ts.push(t)) =~= subtrees_content(ts).add(t.to_multiset()));
    }
}

/// The sizes along a descent: there is one sibling subtree per level, the
/// one at level `k` holds `2^k` leaves, and the descent ends at one leaf.
pub proof fn lemma_sibling_subtrees_shape(ls: Seq<Seq<u8>>, bits: Seq<bool>)
    requires
        ls.len() == pow2(bits.len()),
    ensures
        sibling_subtrees(ls, bits).len() == bits.len(),
        forall|k: int|
            0 <= k < bits.len() ==> #[trigger] sibling_subtrees(ls, bits)[k].len() == pow2(k as nat),
        descend(ls, bits).len() == 1,
    decreases bits.len(),
{
    vstd::arithmetic::power2::lemma2_to64();
    if bits.len() >= 1 {
        vstd::arithmetic::power2::lemma_pow2_unfold(bits.len());
        let half = ls.len() as int / 2;
        if bits.last() {
            lemma_sibling_subtrees_shape(ls.skip(half), bits.drop_last());
        } else {
            lemma_sibling_subtrees_shape(ls.take(half), bits.drop_last());
        }
    }
}

/// A tree's leaves are exactly the selected leaf together with the leaves of
/// the sibling subtrees along any full-height path.
pub proof fn lemma_descent_partition(ls: Seq<Seq<u8>>, bits: Seq<bool>)
    requires
        ls.len() == pow2(bits.len()),
    ensures
        ls.to_multiset() == subtrees_content(sibling_subtrees(ls, bits)).insert(
            selected_leaf(ls, bits),
        ),
    decreases bits.len(),
{
    broadcast use vstd::seq_lib::group_to_multiset_ensures;
    broadcast use vstd::multiset::group_multiset_axioms;

    vstd::arithmetic::power2::lemma2_to64();
    if bits.len() == 0 {
        assert(ls =~= Seq::<Seq<u8>>::empty().push(ls[0]));
        assert(ls.to_multiset() =~= subtrees_content(sibling_subtrees(ls, bits)).insert(
            selected_leaf(ls, bits),
        ));
    } else {
        vstd::arithmetic::power2::lemma_pow2_unfold(bits.len());
        let half = ls.len() as int / 2;
        assert(ls =~= ls.take(half) + ls.skip(half));
        vstd::seq_lib::lemma_multiset_commutative(ls.take(half), ls.skip(half));
        if bits.last() {
            lemma_descent_partition(ls.skip(half), bits.drop_last());
            lemma_subtrees_content_push(
                sibling_subtrees(ls.skip(half), bits.drop_last()),
                ls.take(half),
            );
            assert(ls.to_multiset() =~= subtrees_content(sibling_subtrees(ls, bits)).insert(
                selected_leaf(ls, bits),
            ));
        } else {
            lemma_descent_partition(ls.take(half), bits.drop_last());
            lemma_subtrees_content_push(
                sibling_subtrees(ls.take(half), bits.drop_last()),
                ls.skip(half),
            );
            assert(ls.to_multiset() =~= subtrees_content(sibling_subtrees(ls, bits)).insert(
                selected_leaf(ls, bits),
            ));
        }
    }
}

/// Climbing from the selected leaf with the sibling subtree roots as
/// sibling hashes reproduces the tree's root.
pub proof fn lemma_fold_by_bits(ls: Seq<Seq<u8>>, bits: Seq<bool>, sibs: Seq<Seq<u8>>)
    requires
        ls.len() == pow2(bits.len()),
        sibs.len() == bits.len(),
        forall|k: int|
            0 <= k < bits.len() ==> #[trigger] sibs[k] == merkle_root(
                sibling_subtrees(ls, bits)[k],
            ),
    ensures
        fold_root(selected_leaf(ls, bits), bits, sibs) == merkle_root(ls),
    decreases bits.len(),
{
    vstd::arithmetic::power2::lemma2_to64();
    if bits.len() == 0 {
        assert(ls.len() == 1);
    } else {
        vstd::arithmetic::power2::lemma_pow2_unfold(bits.len());
        vstd::arithmetic::power2::lemma_pow2_pos((bits.len() - 1) as nat);
        assert(ls.len() >= 2);
        let half = ls.len() as int / 2;
        let bl = bits.drop_last();
        let sl = sibs.drop_last();
        lemma_sibling_subtrees_shape(ls, bits);
        if bits.last() {
            lemma_sibling_subtrees_shape(ls.skip(half), bl);
        } else {
            lemma_sibling_subtrees_shape(ls.take(half), bl);
        }
        let child = if bits.last() {
            ls.skip(half)
        } else {
            ls.take(half)
        };
        assert forall|k: int| 0 <= k < bl.len() implies #[trigger] sl[k] == merkle_root(
            sibling_subtrees(child, bl)[k],
        ) by {
            assert(sibling_subtrees(ls, bits)[k] == sibling_subtrees(child, bl).push(
                if bits.last() {
                    ls.take(half)
                } else {
                    ls.skip(half)
                },
            )[k]);
        }
        lemma_fold_by_bits(child, bl, sl);
        lemma_fold_root_snoc(selected_leaf(ls, bits), bl, sl, bits.last(), sibs.last());
        assert(bl.push(bits.last()) =~= bits);
        assert(sl.push(sibs.last()) =~= sibs);
        assert(sibs[bits.len() - 1] == merkle_root(sibling_subtrees(ls, bits)[bits.len() - 1]));
        assert(sibling_subtrees(ls, bits)[bits.len() - 1] == (if bits.last() {
            ls.take(half)
        } else {
            ls.skip(half)
        }));
    }
}

/// Along the canonical path of the leaf at index `i`, the descent selects
/// exactly that leaf and the sibling subtree roots are the canonical sibling
/// hashes.
pub proof fn lemma_canonical_path(ls: Seq<Seq<u8>>, i: int)
    requires
        is_pow2(ls.len()),
        0 <= i < ls.len(),
    ensures
        selected_leaf(ls, path_bits(lg(ls.len()), i as nat)) == ls[i],
        forall|k: int|
            0 <= k < lg(ls.len()) ==> #[trigger] merkle_root(
                sibling_subtrees(ls, path_bits(lg(ls.len()), i as nat))[k],
            ) == leaf_siblings(ls, i)[k],
    decreases ls.len(),
{
    vstd::arithmetic::power2::lemma2_to64();
    let h = lg(ls.len());
    let bits = path_bits(h, i as nat);
    if ls.len() == 1 {
        assert(bits =~= Seq::<bool>::empty());
    } else {
        lemma_pow2_shape(ls.len());
        let half = ls.len() as int / 2;
        assert(half == pow2((h - 1) as nat));
        lemma_path_bits_split(h, i);
        if i < half {
            let sub = ls.take(half);
            let lower = path_bits((h - 1) as nat, i as nat);
            assert(bits == lower.push(false));
            assert(bits.last() == false && bits.drop_last() =~= lower);
            lemma_canonical_path(sub, i);
            lemma_siblings_fold(sub, i);
            lemma_sibling_subtrees_shape(sub, lower);
            assert(sub[i] == ls[i]);
            assert(sibling_subtrees(ls, bits) == sibling_subtrees(sub, lower).push(ls.skip(half)));
            assert(leaf_siblings(ls, i) == leaf_siblings(sub, i).push(merkle_root(ls.skip(half))));
            assert forall|k: int| 0 <= k < h implies #[trigger] merkle_root(
                sibling_subtrees(ls, bits)[k],
            ) == leaf_siblings(ls, i)[k] by {
                if k < h - 1 {
                    assert(sibling_subtrees(ls, bits)[k] == sibling_subtrees(sub, lower)[k]);
                    assert(leaf_siblings(ls, i)[k] == leaf_siblings(sub, i)[k]);
                } else {
                    assert(sibling_subtrees(ls, bits)[k] == ls.skip(half));
                }
            }
        } else {
            let sub = ls.skip(half);
            let lower = path_bits((h - 1) as nat, (i - half) as nat);
            assert(bits == lower.push(true));
            assert(bits.last() == true && bits.drop_last() =~= lower);
            lemma_canonical_path(sub, i - half);
            lemma_siblings_fold(sub, i - half);
            lemma_sibling_subtrees_shape(sub, lower);
            assert(sub[i - half] == ls[i]);
            assert(sibling_subtrees(ls, bits) == sibling_subtrees(sub, lower).push(ls.take(half)));
            assert(leaf_siblings(ls, i) == leaf_siblings(sub, i - half).push(
                merkle_root(ls.take(half)),
            ));
            assert forall|k: int| 0 <= k < h implies #[trigger] merkle_root(
                sibling_subtrees(ls, bits)[k],
            ) == leaf_siblings(ls, i)[k] by {
                if k < h - 1 {
                    assert(sibling_subtrees(ls, bits)[k] == sibling_subtrees(sub, lower)[k]);
                    assert(leaf_siblings(ls, i)[k] == leaf_siblings(sub, i - half)[k]);
                } else {
                    assert(sibling_subtrees(ls, bits)[k] == ls.take(half));
                }
            }
        }
    }
}

/// Whether no hash occurs in both sequences.
pub open spec fn disjoint_seqs(a: Seq<Seq<u8>>, b: Seq<Seq<u8>>) -> bool {
    forall|x: Seq<u8>| a.contains(x) ==> !b.contains(x)
}

/// A hash is in a concatenation exactly when it is in one of the parts.
pub proof fn lemma_contains_concat(a: Seq<Seq<u8>>, b: Seq<Seq<u8>>, x: Seq<u8>)
    ensures
        (a + b).contains(x) == (a.contains(x) || b.contains(x)),
{
    if (a + b).contains(x) {
        let k = choose|k: int| 0 <= k < (a + b).len() && (a + b)[k] == x;
        if k < a.len() {
            assert(a[k] == x);
        } else {
            assert(b[k - a.len()] == x);
        }
    }
    if a.contains(x) {
        let k = choose|k: int| 0 <= k < a.len() && a[k] == x;
        assert((a + b)[k] == x);
    }
    if b.contains(x) {
        let k = choose|k: int| 0 <= k < b.len() && b[k] == x;
        assert((a + b)[a.len() + k] == x);
    }
}

/// Concatenating duplicate-free sequences with no hash in common keeps the
/// result duplicate-free.
pub proof fn lemma_no_dup_concat(a: Seq<Seq<u8>>, b: Seq<Seq<u8>>)
    requires
        a.no_duplicates(),
        b.no_duplicates(),
        disjoint_seqs(a, b),
    ensures
        (a + b).no_duplicates(),
{
    assert forall|i: int, j: int|
        0 <= i < (a + b).len() && 0 <= j < (a + b).len() && i != j implies (a + b)[i] != (a
        + b)[j] by {
        if i < a.len() && j >= a.len() {
            assert(a.contains(a[i]));
            assert(b.contains(b[j - a.len()]));
        }
        if j < a.len() && i >= a.len() {
            assert(a.contains(a[j]));
            assert(b.contains(b[i - a.len()]));
        }
    }
}

/// The two halves of a duplicate-free sequence are duplicate-free and share
/// no hash.
pub proof fn lemma_no_dup_halves(ls: Seq<Seq<u8>>, half: int)
    requires
        ls.no_duplicates(),
        0 <= half <= ls.len(),
    ensures
        ls.take(half).no_duplicates(),
        ls.skip(half).no_duplicates(),
        disjoint_seqs(ls.take(half), ls.skip(half)),
{
    assert forall|x: Seq<u8>| ls.take(half).contains(x) implies !ls.skip(half).contains(x) by {
        let k = choose|k: int| 0 <= k < half && ls.take(half)[k] == x;
        if ls.skip(half).contains(x) {
            let j = choose|j: int| 0 <= j < ls.len() - half && ls.skip(half)[j] == x;
            assert(ls[k] == ls[half + j]);
        }
    }
}

/// Copies the hashes at positions `start..end`.
fn copy_hash_range(src: &Vec<crate::hash::Hash>, start: usize, end: usize) -> (r: Vec<
    crate::hash::Hash,
>)
    requires
        start <= end <= src@.len(),
    ensures
        r@ == src@.subrange(start as int, end as int),
{
    let mut r: Vec<crate::hash::Hash> = Vec::new();
    let mut i = start;
    while i < end
        invariant
            start <= i <= end <= src@.len(),
            r@ == src@.subrange(start as int, i as int),
        decreases end - i,
    {
        r.push(src[i]);
        proof {
            assert(r@ =~= src@.subrange(start as int, i + 1 as int));
        }
        i += 1;
    }
    r
}

/// Merkle tree.
//
// The nodes of a tree with four leaves are stored in the order
// `0 1 2 3 4 5 6`, where `0 1` are the left subtree's leaves, `2` its root,
// `3 4` the right subtree's leaves, `5` its root, and `6` the root of the
// whole tree. In addition to the nodes, the tree holds an ordered set of its
// leaf hashes, present only to make proof generation a lookup.
#[derive(Debug, PartialEq, Eq)]
pub struct Tree {
    /// Nodes in tree.
    nodes: Vec<crate::hash::Hash>,
    /// Leaves of the tree (present to make proof generation efficient).
    leaves: indexmap::IndexSet<[u8; 32], std::hash::RandomState>,
}

impl Tree {
    /// The hashes of the leaves, in insertion order.
    pub closed spec fn leaves_model(self) -> Seq<Seq<u8>> {
        leaf_set_items(self.leaves)
    }

    /// The hashes of all nodes, in layout order.
    pub closed spec fn nodes_model(self) -> Seq<Seq<u8>> {
        hashes_of(self.nodes@)
    }

    /// The tree's height.
    pub open spec fn spec_height(self) -> nat {
        lg(self.leaves_model().len())
    }

    /// The tree's root hash.
    pub open spec fn spec_root(self) -> Seq<u8> {
        merkle_root(self.leaves_model())
    }

    /// A well-formed tree has a power of two of distinct leaves and stores
    /// exactly the node hashes the layout asks for.
    pub open spec fn wf(self) -> bool {
        &&& self.leaves_model().len() >= 1
        &&& is_pow2(self.leaves_model().len())
        &&& self.leaves_model().no_duplicates()
        &&& self.nodes_model() == node_layout(self.leaves_model())
    }

    /// Creates a new tree with given leaf hash.
    pub fn new(leaf_hash: crate::hash::Hash) -> (t: Self)
        ensures
            t.wf(),
            t.leaves_model() == seq![leaf_hash@],
    {
        let mut nodes: Vec<crate::hash::Hash> = Vec::new();
        nodes.push(leaf_hash);
        let mut leaves = leaf_set_new();
        let _ = leaf_set_insert(&mut leaves, *leaf_hash.as_bytes());
        let t = Tree { nodes, leaves };
        proof {
            vstd::arithmetic::power2::lemma2_to64();
            assert(t.leaves_model() =~= seq![leaf_hash@]);
            assert(t.nodes_model() =~= node_layout(t.leaves_model()));
        }
        t
    }

    /// Returns the number of leaves in the tree.
    pub fn num_leaves(&self) -> (n: usize)
        ensures
            n == self.leaves_model().len(),
    {
        leaf_set_len(&self.leaves)
    }

    /// Returns whether the given leaf hash is in the tree.
    pub fn contains(&self, hash: &crate::hash::Hash) -> (r: bool)
        ensures
            r == self.leaves_model().contains(hash@),
    {
        leaf_set_index_of(&self.leaves, hash.as_bytes()).is_some()
    }

    /// Returns height of the tree.
    pub fn height(&self) -> (h: usize)
        requires
            self.wf(),
        ensures
            h == self.spec_height(),
    {
        let total = self.num_leaves();
        let mut n = total;
        let mut h: usize = 0;
        while n > 1
            invariant
                1 <= n <= total == self.leaves_model().len(),
                is_pow2(n as nat),
                self.spec_height() == h + lg(n as nat),
                h + n <= total,
            decreases n,
        {
            proof {
                lemma_pow2_shape(n as nat);
            }
            n = n / 2;
            h = h + 1;
        }
        h
    }

    /// Returns root hash of merkle tree.
    pub fn root_hash(&self) -> (r: &crate::hash::Hash)
        requires
            self.wf(),
        ensures
            r@ == self.spec_root(),
    {
        proof {
            lemma_node_layout_len(self.leaves_model());
            lemma_node_layout_last(self.leaves_model());
        }
        &self.nodes[self.nodes.len() - 1]
    }
}

/// Walks the layout of the `count`-leaf subtree stored at `nodes[lo..]`,
/// collecting the sibling hashes of the leaf at index `i`, bottom to top.
fn collect_siblings(
    nodes: &Vec<crate::hash::Hash>,
    lo: usize,
    count: usize,
    i: usize,
    Ghost(ls): Ghost<Seq<Seq<u8>>>,
) -> (r: Vec<crate::hash::Hash>)
    requires
        is_pow2(ls.len()),
        count == ls.len(),
        i < count,
        lo + 2 * (count as int) - 1 <= nodes@.len(),
        hashes_of(nodes@).subrange(lo as int, lo + 2 * (count as int) - 1) == node_layout(ls),
    ensures
        hashes_of(r@) == leaf_siblings(ls, i as int),
        r@.len() == lg(count as nat),
    decreases count,
{
    if count == 1 {
        let r: Vec<crate::hash::Hash> = Vec::new();
        proof {
            assert(hashes_of(r@) =~= leaf_siblings(ls, i as int));
        }
        r
    } else {
        proof {
            lemma_pow2_shape(count as nat);
        }
        let total = nodes.len();
        proof {
            assert(lo + 2 * (count as int) - 1 <= total);
        }
        let half = count / 2;
        let left_len = count - 1;
        let ghost hl = ls.len() as int / 2;
        let ghost full = node_layout(ls);
        let ghost la = node_layout(ls.take(hl));
        let ghost lb = node_layout(ls.skip(hl));
        let ghost nm = hashes_of(nodes@);
        proof {
            lemma_node_layout_len(ls.take(hl));
            lemma_node_layout_len(ls.skip(hl));
            lemma_node_layout_last(ls.take(hl));
            lemma_node_layout_last(ls.skip(hl));
            assert(full == la + lb + seq![merkle_root(ls)]);
            assert(la.len() == count - 1 && lb.len() == count - 1);
            assert forall|j: int| 0 <= j < 2 * (count as int) - 1 implies #[trigger] nm[lo + j]
                == full[j] by {
                assert(full[j] == nm.subrange(lo as int, lo + 2 * (count as int) - 1)[j]);
            }
        }
        if i < half {
            proof {
                assert(nm.subrange(lo as int, lo + 2 * (half as int) - 1) =~= la);
            }
            let mut r = collect_siblings(nodes, lo, half, i, Ghost(ls.take(hl)));
            let idx = lo + left_len + (count - 2);
            let sib = nodes[idx];
            proof {
                assert(nm[idx as int] == full[idx - lo]);
                assert(full[idx - lo] == lb[count - 2]);
                assert(lb[count - 2] == lb.last());
                assert(hashes_of(r@.push(sib)) =~= hashes_of(r@).push(sib@));
            }
            r.push(sib);
            r
        } else {
            proof {
                assert forall|j: int| 0 <= j < 2 * (half as int) - 1 implies #[trigger] nm.subrange(
                    lo + left_len,
                    lo + left_len + 2 * (half as int) - 1,
                )[j] == lb[j] by {
                    assert(nm[lo + (left_len + j)] == full[left_len + j]);
                }
                assert(nm.subrange(lo + left_len, lo + left_len + 2 * (half as int) - 1) =~= lb);
            }
            let mut r = collect_siblings(nodes, lo + left_len, half, i - half, Ghost(ls.skip(hl)));
            let idx = lo + (count - 2);
            let sib = nodes[idx];
            proof {
                assert(nm[idx as int] == full[idx - lo]);
                assert(full[idx - lo] == la[count - 2]);
                assert(la[count - 2] == la.last());
                assert(hashes_of(r@.push(sib)) =~= hashes_of(r@).push(sib@));
            }
            r.push(sib);
            r
        }
    }
}

impl Tree {
    /// Returns inclusion proof of a leaf hash in the tree, if present.
    pub fn prove(&self, hash: &crate::hash::Hash) -> (r: Option<crate::proofs::Proof>)
        requires
            self.wf(),
        ensures
            r.is_some() == self.leaves_model().contains(hash@),
            r.is_some() ==> r.unwrap().leaf() == hash@,
            r.is_some() ==> exists|i: int|
                0 <= i < self.leaves_model().len() && #[trigger] self.leaves_model()[i] == hash@
                    && r.unwrap().bits() == path_bits(self.spec_height(), i as nat)
                    && r.unwrap().sibs() == leaf_siblings(self.leaves_model(), i),
            r.is_some() ==> r.unwrap().bits().len() == self.spec_height()
                && crate::proofs::proof_verifies(
                r.unwrap().bits(),
                r.unwrap().leaf(),
                r.unwrap().sibs(),
                self.spec_root(),
            ),
    {
        let height = self.height();
        let ghost ls = self.leaves_model();
        match leaf_set_index_of(&self.leaves, hash.as_bytes()) {
            None => None,
            Some(position) => {
                let path = crate::path::Path::for_height_and_num(height, position);
                let count = self.num_leaves();
                proof {
                    lemma_node_layout_len(ls);
                    assert(hashes_of(self.nodes@).subrange(0, 2 * (count as int) - 1) =~= hashes_of(
                        self.nodes@,
                    ));
                }
                let sibling_hashes = collect_siblings(&self.nodes, 0, count, position, Ghost(ls));
                let p = crate::proofs::Proof { path, leaf_hash: *hash, sibling_hashes };
                proof {
                    lemma_siblings_fold(ls, position as int);
                    assert(ls[position as int] == hash@);
                }
                Some(p)
            },
        }
    }

    /// Splits a tree and returns both subtrees. If there is only one node in
    /// the tree, the right subtree will be returned as `None`.
    pub fn split(&self) -> (r: (Self, Option<Self>))
        requires
            self.wf(),
        ensures
            r.0.wf(),
            self.leaves_model().len() == 1 ==> r.1.is_none() && r.0.leaves_model()
                == self.leaves_model(),
            self.leaves_model().len() >= 2 ==> r.1.is_some() && r.1.unwrap().wf()
                && r.0.leaves_model() == self.leaves_model().take(
                self.leaves_model().len() as int / 2,
            ) && r.1.unwrap().leaves_model() == self.leaves_model().skip(
                self.leaves_model().len() as int / 2,
            ),
    {
        let count = self.num_leaves();
        let ghost ls = self.leaves_model();
        if count == 1 {
            let copy = self.clone();
            proof {
                assert(copy.wf());
            }
            return (copy, None);
        }
        let half = count / 2;
        let left_len = count - 1;
        let n_nodes = self.nodes.len();
        let ghost hl = ls.len() as int / 2;
        let ghost full = node_layout(ls);
        let ghost la = node_layout(ls.take(hl));
        let ghost lb = node_layout(ls.skip(hl));
        proof {
            lemma_pow2_shape(count as nat);
            lemma_node_layout_len(ls);
            lemma_node_layout_len(ls.take(hl));
            lemma_node_layout_len(ls.skip(hl));
            lemma_no_dup_halves(ls, hl);
            assert(full == la + lb + seq![merkle_root(ls)]);
            assert(n_nodes == 2 * (count as int) - 1);
        }
        // The nodes of the two subtrees occupy the two equal slices of the
        // layout below the root.
        let left_nodes = copy_hash_range(&self.nodes, 0, left_len);
        let right_nodes = copy_hash_range(&self.nodes, left_len, left_len + left_len);

        // The leaves split in insertion order: first half left, second right.
        let mut left_leaves = leaf_set_new();
        let mut k: usize = 0;
        while k < half
            invariant
                k <= half,
                half == hl,
                hl == ls.len() as int / 2,
                ls == leaf_set_items(self.leaves),
                ls.no_duplicates(),
                2 * (half as int) <= ls.len(),
                leaf_set_items(left_leaves) == ls.take(k as int),
            decreases half - k,
        {
            proof {
                if ls.take(k as int).contains(ls[k as int]) {
                    let j = choose|j: int| 0 <= j < k && ls.take(k as int)[j] == ls[k as int];
                    assert(ls[j] == ls[k as int]);
                }
            }
            let item = leaf_set_get(&self.leaves, k);
            let _ = leaf_set_insert(&mut left_leaves, item);
            proof {
                assert(leaf_set_items(left_leaves) =~= ls.take(k + 1 as int));
            }
            k += 1;
        }

        let mut right_leaves = leaf_set_new();
        let mut k2: usize = 0;
        while k2 < half
            invariant
                k2 <= half,
                half == hl,
                hl == ls.len() as int / 2,
                ls == leaf_set_items(self.leaves),
                ls.no_duplicates(),
                2 * (half as int) == ls.len(),
                ls.len() <= usize::MAX,
                leaf_set_items(right_leaves) == ls.skip(hl).take(k2 as int),
            decreases half - k2,
        {
            proof {
                assert(ls.skip(hl).take(k2 as int) =~= ls.subrange(hl, hl + k2));
                if ls.skip(hl).take(k2 as int).contains(ls[hl + k2]) {
                    let j = choose|j: int|
                        0 <= j < k2 && ls.skip(hl).take(k2 as int)[j] == ls[hl + k2];
                    assert(ls[hl + j] == ls[hl + k2]);
                }
                assert(ls.skip(hl)[k2 as int] == ls[hl + k2]);
            }
            let item = leaf_set_get(&self.leaves, half + k2);
            let _ = leaf_set_insert(&mut right_leaves, item);
            proof {
                assert(leaf_set_items(right_leaves) =~= ls.skip(hl).take(k2 + 1 as int));
            }
            k2 += 1;
        }

        let left_tree = Tree { nodes: left_nodes, leaves: left_leaves };
        let right_tree = Tree { nodes: right_nodes, leaves: right_leaves };
        proof {
            assert(ls.take(hl).take(hl) =~= ls.take(hl));
            assert(ls.skip(hl).take(hl) =~= ls.skip(hl));
            assert(left_tree.leaves_model() == ls.take(hl));
            assert(right_tree.leaves_model() == ls.skip(hl));
            let ghost nm = hashes_of(self.nodes@);
            assert(nm == full);
            assert forall|j: int| 0 <= j < left_len implies #[trigger] hashes_of(
                left_tree.nodes@,
            )[j] == la[j] by {
                assert(left_tree.nodes@[j] == self.nodes@[j]);
                assert(nm[j] == full[j]);
                assert(full[j] == la[j]);
            }
            assert(hashes_of(left_tree.nodes@) =~= la);
            assert forall|j: int| 0 <= j < left_len implies #[trigger] hashes_of(
                right_tree.nodes@,
            )[j] == lb[j] by {
                assert(right_tree.nodes@[j] == self.nodes@[left_len + j]);
                assert(nm[left_len + j] == full[left_len + j]);
                assert(full[left_len + j] == lb[j]);
            }
            assert(hashes_of(right_tree.nodes@) =~= lb);
        }
        (left_tree, Some(right_tree))
    }
}

/// Tree perfection: a well-formed tree of height `h` holds exactly `2^h`
/// leaves and stores exactly `2·2^h − 1` node hashes.
pub proof fn lemma_tree_perfection(t: Tree)
    requires
        t.wf(),
    ensures
        t.leaves_model().len() == pow2(t.spec_height()),
        t.nodes_model().len() == 2 * pow2(t.spec_height()) - 1,
{
    lemma_node_layout_len(t.leaves_model());
}

impl Tree {
    /// A well-formed tree exists in memory, so its node count fits `usize`.
    pub proof fn lemma_size_bound(&self)
        requires
            self.wf(),
        ensures
            2 * self.leaves_model().len() - 1 <= usize::MAX,
    {
        broadcast use vstd::std_specs::vec::axiom_spec_len;

        lemma_node_layout_len(self.leaves_model());
        assert(self.nodes@.len() == self.nodes_model().len());
        assert(self.nodes.len() == self.nodes@.len());
    }
}

impl Clone for Tree {
    /// The copy holds the same node hashes and the same leaf set.
    fn clone(&self) -> (r: Self)
        ensures
            r.nodes_model() == self.nodes_model(),
            r.leaves_model() == self.leaves_model(),
    {
        let nodes = copy_hash_range(&self.nodes, 0, self.nodes.len());
        let leaves = leaf_set_clone(&self.leaves);
        let r = Tree { nodes, leaves };
        proof {
            assert(r.nodes@ =~= self.nodes@);
        }
        r
    }
}

/// Merges two merkle trees of the same height into one; the left tree's
/// leaves come first in the merged order.
pub fn merge(left: &Tree, right: &Tree) -> (t: Tree)
    requires
        left.wf(),
        right.wf(),
        left.spec_height() == right.spec_height(),
        disjoint_seqs(left.leaves_model(), right.leaves_model()),
        2 * (left.leaves_model().len() + right.leaves_model().len()) - 1 <= usize::MAX,
    ensures
        t.wf(),
        t.leaves_model() == left.leaves_model() + right.leaves_model(),
        t.spec_height() == left.spec_height() + 1,
        t.spec_root() == node_hash_of(left.spec_root(), right.spec_root()),
{
    let ghost l = left.leaves_model();
    let ghost r = right.leaves_model();
    proof {
        // The two heights agree, so the two leaf counts agree.
        lemma_node_layout_len(l);
        lemma_node_layout_len(r);
    }
    let mut nodes = copy_hash_range(&left.nodes, 0, left.nodes.len());
    let mut right_nodes = copy_hash_range(&right.nodes, 0, right.nodes.len());
    nodes.append(&mut right_nodes);
    let new_root = crate::hash::hash_intermediate(left.root_hash(), right.root_hash());
    nodes.push(new_root);

    let mut leaves = leaf_set_clone(&left.leaves);
    let count = right.num_leaves();
    let mut j: usize = 0;
    while j < count
        invariant
            j <= count == r.len(),
            r == leaf_set_items(right.leaves),
            leaf_set_items(leaves) == l + r.take(j as int),
            l.no_duplicates(),
            r.no_duplicates(),
            disjoint_seqs(l, r),
        decreases count - j,
    {
        proof {
            assert(l + r.take(j as int) =~= leaf_set_items(leaves));
            assert(r.contains(r[j as int]));
            lemma_contains_concat(l, r.take(j as int), r[j as int]);
            if r.take(j as int).contains(r[j as int]) {
                let k = choose|k: int| 0 <= k < j && r.take(j as int)[k] == r[j as int];
                assert(r[k] == r[j as int]);
            }
        }
        let item = leaf_set_get(&right.leaves, j);
        let added = leaf_set_insert(&mut leaves, item);
        proof {
            assert(leaf_set_items(leaves) =~= l + r.take(j + 1 as int));
        }
        j += 1;
    }
    proof {
        assert(r.take(r.len() as int) =~= r);
    }

    let t = Tree { nodes, leaves };
    proof {
        let ls = l + r;
        assert(l.len() == pow2(left.spec_height()) && r.len() == pow2(right.spec_height()));
        lemma_pow2_double(l.len());
        assert(ls.len() == 2 * l.len());
        assert(is_pow2(ls.len()) && lg(ls.len()) == lg(l.len()) + 1);
        lemma_no_dup_concat(l, r);
        let half = ls.len() as int / 2;
        assert(ls.take(half) =~= l);
        assert(ls.skip(half) =~= r);
        assert(t.nodes_model() =~= node_layout(l) + node_layout(r) + seq![merkle_root(ls)]);
        assert(t.nodes_model() == node_layout(ls));
    }
    t
}

} // verus!
