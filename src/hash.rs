//! Content addressing: 32-byte SHA3-256 digests.
use vstd::prelude::*;

use sha3::{Digest, Sha3_256};

verus! {

/// Hashing errors.
#[derive(Clone, Copy, Debug, PartialEq, Eq, Structural)]
pub enum Error {
    /// The value has no canonical encoding.
    ComputeHashSerialize,
}

/// The SHA3-256 digest of a byte string.
pub uninterp spec fn sha3_256_of(bytes: Seq<u8>) -> Seq<u8>;

/// The type of hash used within the library: a SHA3-256 digest, ordered lexicographically.
#[derive(Clone, Copy, Debug, PartialOrd, Ord, Hash)]
pub struct Hash(pub [u8; 32]);

impl View for Hash {
    type V = Seq<u8>;

    open spec fn view(&self) -> Seq<u8> {
        self.0@
    }
}

impl Hash {
    /// Byte-wise equality of two hashes.
    pub fn same_as(&self, other: &Hash) -> (r: bool)
        ensures
            r == (self@ == other@),
    {
        let mut i: usize = 0;
        while i < 32
            invariant
                0 <= i <= 32,
                self@.len() == 32,
                other@.len() == 32,
                forall|k: int| 0 <= k < i ==> self@[k] == other@[k],
            decreases 32 - i,
        {
            if self.0[i] != other.0[i] {
                return false;
            }
            i = i + 1;
        }
        assert(self@ =~= other@);
        true
    }
}

impl PartialEq for Hash {
    fn eq(&self, other: &Hash) -> (r: bool) {
        self.same_as(other)
    }
}

impl Eq for Hash {
}

impl vstd::std_specs::cmp::PartialEqSpecImpl for Hash {
    open spec fn obeys_eq_spec() -> bool {
        true
    }

    open spec fn eq_spec(&self, other: &Hash) -> bool {
        self@ == other@
    }
}

/// Relies on sha3's `Sha3_256::digest`: the 32-byte SHA3-256 digest of `bytes`, a function of
/// the bytes alone.
#[verifier::external_body]
fn sha3_256(bytes: &[u8]) -> (r: Hash)
    ensures
        r@ == sha3_256_of(bytes@),
{
    let digest = Sha3_256::digest(bytes);
    let mut out = [0u8; 32];
    out.copy_from_slice(digest.as_slice());
    Hash(out)
}

/// Computes the hash of a canonically encoded value.
pub fn compute_hash(bytes: &[u8]) -> (r: Hash)
    ensures
        r@ == sha3_256_of(bytes@),
{
    sha3_256(bytes)
}

} // verus!
