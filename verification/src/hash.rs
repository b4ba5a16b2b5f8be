//! 32-byte hash values and the two domain-separated hashing entry points.
//!
//! Leaves are hashed as `H(0x00 ‖ value)` and intermediate nodes as
//! `H(0x01 ‖ left ‖ right)`; the prefix byte prevents an intermediate node
//! from being replayed as a leaf.

use vstd::prelude::*;

verus! {

/// The digest that `blake3::hash` returns on a byte string. The result is a
/// pure function of the input bytes, so it can be given a name; nothing else
/// is assumed about it.
pub uninterp spec fn blake3_of(input: Seq<u8>) -> Seq<u8>;

/// Relies on `blake3::hash`: the 32-byte digest depends on the input bytes
/// alone.
#[verifier::external_body]
fn blake3_digest(input: &[u8]) -> (r: [u8; 32])
    ensures
        r@ == blake3_of(input@),
{
    *blake3::hash(input).as_bytes()
}

/// The hash of a leaf carrying the byte string `value`.
pub open spec fn leaf_hash_of(value: Seq<u8>) -> Seq<u8> {
    blake3_of(seq![0u8] + value)
}

/// The hash of an intermediate node whose children have hashes `left` and
/// `right`.
pub open spec fn node_hash_of(left: Seq<u8>, right: Seq<u8>) -> Seq<u8> {
    blake3_of(seq![1u8] + left + right)
}

/// A 32-byte hash value. Equality is byte-wise.
#[derive(Clone, Copy, Debug, PartialEq, Eq, Hash)]
pub struct Hash {
    /// The raw digest bytes.
    pub bytes: [u8; 32],
}

impl View for Hash {
    type V = Seq<u8>;

    open spec fn view(&self) -> Seq<u8> {
        self.bytes@
    }
}

impl Hash {
    /// Returns bytes of the hash.
    pub fn as_bytes(&self) -> (r: &[u8; 32])
        ensures
            r@ == self@,
    {
        &self.bytes
    }
}

impl From<[u8; 32]> for Hash {
    fn from(bytes: [u8; 32]) -> (r: Self) {
        Hash { bytes }
    }
}

impl vstd::std_specs::convert::FromSpecImpl<[u8; 32]> for Hash {
    open spec fn obeys_from_spec() -> bool {
        true
    }

    open spec fn from_spec(bytes: [u8; 32]) -> Hash {
        Hash { bytes }
    }
}

/// Byte-wise equality test of two hashes.
pub fn hash_eq(a: &Hash, b: &Hash) -> (r: bool)
    ensures
        r == (a@ == b@),
{
    let mut i: usize = 0;
    while i < 32
        invariant
            i <= 32,
            forall|j: int| 0 <= j < i ==> a@[j] == b@[j],
        decreases 32 - i,
    {
        if a.bytes[i] != b.bytes[i] {
            return false;
        }
        i += 1;
    }
    proof {
        assert(a@ =~= b@);
    }
    true
}

/// Calculates hash of a leaf.
pub fn hash_leaf(value: &[u8]) -> (r: Hash)
    ensures
        r@ == leaf_hash_of(value@),
{
    let mut buf: Vec<u8> = Vec::new();
    // The `0` byte marks leaf nodes, preventing a second-preimage attack.
    buf.push(0u8);
    let mut i: usize = 0;
    while i < value.len()
        invariant
            i <= value@.len(),
            buf@ == seq![0u8] + value@.take(i as int),
        decreases value@.len() - i,
    {
        buf.push(value[i]);
        proof {
            assert(buf@ =~= seq![0u8] + value@.take(i + 1 as int));
        }
        i += 1;
    }
    proof {
        assert(value@.take(value@.len() as int) =~= value@);
    }
    let digest = blake3_digest(buf.as_slice());
    Hash { bytes: digest }
}

/// Calculates intermediate hash of two child hashes.
pub fn hash_intermediate(left: &Hash, right: &Hash) -> (r: Hash)
    ensures
        r@ == node_hash_of(left@, right@),
{
    let mut buf: Vec<u8> = Vec::new();
    // The `1` byte marks intermediate nodes, preventing a second-preimage
    // attack.
    buf.push(1u8);
    let mut i: usize = 0;
    while i < 32
        invariant
            i <= 32,
            buf@ == seq![1u8] + left@.take(i as int),
        decreases 32 - i,
    {
        buf.push(left.bytes[i]);
        proof {
            assert(buf@ =~= seq![1u8] + left@.take(i + 1 as int));
        }
        i += 1;
    }
    proof {
        assert(left@.take(32) =~= left@);
    }
    let mut j: usize = 0;
    while j < 32
        invariant
            j <= 32,
            buf@ == seq![1u8] + left@ + right@.take(j as int),
        decreases 32 - j,
    {
        buf.push(right.bytes[j]);
        proof {
            assert(buf@ =~= seq![1u8] + left@ + right@.take(j + 1 as int));
        }
        j += 1;
    }
    proof {
        assert(right@.take(32) =~= right@);
    }
    let digest = blake3_digest(buf.as_slice());
    Hash { bytes: digest }
}

} // verus!
