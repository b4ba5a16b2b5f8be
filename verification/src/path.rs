//! Paths through a perfect Merkle tree.
//!
//! A path is a bit sequence stored leaf-to-root: the bit at level `k` is
//! `true` when the leaf lies in the right subtree at that level (so its
//! sibling there is the left child), and `false` otherwise. `Direction` is
//! the reading of one bit: `true` maps to [`Direction::Left`], the side the
//! sibling is on.

use vstd::prelude::*;
use vstd::arithmetic::power2::pow2;
use vstd::arithmetic::power2::lemma_pow2_unfold;
use vstd::arithmetic::div_mod::lemma_div_denominator;

verus! {

/// `bit_vec`'s bit vector, declared so that it can stand in fields and
/// signatures; its values are read only through the wrappers below.
#[verifier::external_type_specification]
#[verifier::external_body]
#[verifier::reject_recursive_types(B)]
pub struct ExBitVec<B>(bit_vec::BitVec<B>);

/// The bits a `bit_vec::BitVec` holds, in order.
pub uninterp spec fn bit_vec_bits(bits: bit_vec::BitVec) -> Seq<bool>;

/// Relies on `bit_vec`'s `Clone` impl only to let `Path`'s derived `Clone`
/// compile; no verified code reasons about a cloned path, so nothing is
/// assumed of the copy.
pub assume_specification<B>[ <bit_vec::BitVec<B> as core::clone::Clone>::clone ](
    v: &bit_vec::BitVec<B>,
) -> bit_vec::BitVec<B>
    where
        B: bit_vec::BitBlock,
;

/// Relies on `BitVec::new`: a fresh vector holds no bits.
#[verifier::external_body]
fn bit_vec_new() -> (r: bit_vec::BitVec)
    ensures
        bit_vec_bits(r) == Seq::<bool>::empty(),
{
    bit_vec::BitVec::new()
}

/// Relies on `BitVec::push`: appends one bit at the back. `push` aborts when
/// the bit count would overflow `usize`, so that case is excluded here.
#[verifier::external_body]
fn bit_vec_push(bits: &mut bit_vec::BitVec, bit: bool)
    requires
        bit_vec_bits(*old(bits)).len() < usize::MAX,
    ensures
        bit_vec_bits(*final(bits)) == bit_vec_bits(*old(bits)).push(bit),
{
    bits.push(bit)
}

/// Relies on `BitVec::len`: the number of bits held.
#[verifier::external_body]
fn bit_vec_len(bits: &bit_vec::BitVec) -> (r: usize)
    ensures
        r == bit_vec_bits(*bits).len(),
{
    bits.len()
}

/// Relies on `BitVec::get`: the bit at a position, or `None` past the end.
#[verifier::external_body]
fn bit_vec_get(bits: &bit_vec::BitVec, i: usize) -> (r: Option<bool>)
    ensures
        r == if i < bit_vec_bits(*bits).len() {
            Some(bit_vec_bits(*bits)[i as int])
        } else {
            None::<bool>
        },
{
    bits.get(i)
}

/// The canonical path of the leaf with index `num` in a tree of the given
/// height: the bit at level `k` is the binary digit of `num` at position `k`.
pub open spec fn path_bits(height: nat, num: nat) -> Seq<bool> {
    Seq::new(height, |k: int| num / pow2(k as nat) % 2 == 1)
}

/// Represents path in a merkle proof (direction of path is from leaf to root).
#[derive(Debug, Clone, PartialEq, Eq)]
pub struct Path(pub(crate) bit_vec::BitVec);

impl View for Path {
    type V = Seq<bool>;

    closed spec fn view(&self) -> Seq<bool> {
        bit_vec_bits(self.0)
    }
}

impl Path {
    /// Returns height of path.
    pub fn height(&self) -> (h: usize)
        ensures
            h == self@.len(),
    {
        bit_vec_len(&self.0)
    }

    /// Returns the bit at the given level.
    pub fn bit(&self, i: usize) -> (r: bool)
        requires
            i < self@.len(),
        ensures
            r == self@[i as int],
    {
        match bit_vec_get(&self.0, i) {
            Some(b) => b,
            None => {
                proof {
                    assert(false);
                }
                false
            },
        }
    }

    /// Returns the directions in the path, from leaf to root.
    pub fn directions(&self) -> (r: Vec<Direction>)
        ensures
            r@.len() == self@.len(),
            forall|k: int| 0 <= k < r@.len() ==> r@[k] == direction_for(self@[k]),
    {
        let height = self.height();
        let mut dirs: Vec<Direction> = Vec::new();
        let mut i: usize = 0;
        while i < height
            invariant
                i <= height,
                height == self@.len(),
                dirs@.len() == i,
                forall|k: int| 0 <= k < i ==> dirs@[k] == direction_for(self@[k]),
            decreases height - i,
        {
            dirs.push(Direction::from(self.bit(i)));
            i += 1;
        }
        dirs
    }

    /// Creates a new path of given height and using binary representation of
    /// given number.
    ///
    /// For `height = 3` and `num = 3` the binary representation of `3` is
    /// `011`, so the stored bits, leaf to root, are `true, true, false`.
    pub fn for_height_and_num(height: usize, num: usize) -> (r: Path)
        ensures
            r@ == path_bits(height as nat, num as nat),
    {
        let mut bits = bit_vec_new();
        let mut cur = num;
        let mut count: usize = 0;
        proof {
            vstd::arithmetic::power2::lemma2_to64();
        }
        while count < height
            invariant
                count <= height,
                cur as nat == num as nat / pow2(count as nat),
                bit_vec_bits(bits) =~= path_bits(height as nat, num as nat).take(count as int),
            decreases height - count,
        {
            bit_vec_push(&mut bits, cur % 2 == 1);
            proof {
                vstd::arithmetic::power2::lemma_pow2_pos(count as nat);
                lemma_pow2_unfold(count as nat + 1);
                lemma_div_denominator(num as int, pow2(count as nat) as int, 2);
                assert(cur as nat / 2 == num as nat / pow2(count as nat + 1));
            }
            cur = cur / 2;
            count += 1;
        }
        proof {
            assert(path_bits(height as nat, num as nat).take(height as int) =~= path_bits(
                height as nat,
                num as nat,
            ));
        }
        Path(bits)
    }
}

/// The direction that reads off one path bit: `true` is `Left`, `false` is
/// `Right`.
pub open spec fn direction_for(bit: bool) -> Direction {
    if bit {
        Direction::Left
    } else {
        Direction::Right
    }
}

/// Represents direction to take in a merkle path.
#[derive(Debug, Clone, Copy, PartialEq, Eq)]
pub enum Direction {
    /// Left direction
    Left,
    /// Right direction
    Right,
}

impl core::ops::Not for Direction {
    type Output = Direction;

    fn not(self) -> (r: Direction) {
        match self {
            Direction::Left => Direction::Right,
            Direction::Right => Direction::Left,
        }
    }
}

impl vstd::std_specs::ops::NotSpecImpl for Direction {
    open spec fn obeys_not_spec() -> bool {
        true
    }

    open spec fn not_req(self) -> bool {
        true
    }

    open spec fn not_spec(self) -> Direction {
        match self {
            Direction::Left => Direction::Right,
            Direction::Right => Direction::Left,
        }
    }
}

impl From<bool> for Direction {
    fn from(b: bool) -> (r: Direction) {
        if b {
            Direction::Left
        } else {
            Direction::Right
        }
    }
}

impl vstd::std_specs::convert::FromSpecImpl<bool> for Direction {
    open spec fn obeys_from_spec() -> bool {
        true
    }

    open spec fn from_spec(b: bool) -> Direction {
        direction_for(b)
    }
}

impl From<Direction> for bool {
    fn from(direction: Direction) -> (b: bool) {
        match direction {
            Direction::Left => true,
            Direction::Right => false,
        }
    }
}

impl vstd::std_specs::convert::FromSpecImpl<Direction> for bool {
    open spec fn obeys_from_spec() -> bool {
        true
    }

    open spec fn from_spec(direction: Direction) -> bool {
        direction == Direction::Left
    }
}

} // verus!
