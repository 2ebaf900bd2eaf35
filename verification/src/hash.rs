//! 32-byte hash values and their byte-wise XOR.

use vstd::prelude::*;

verus! {

/// Number of bytes in a hash.
pub const HASH_SIZE_BYTES: usize = 32;

/// A 32-byte hash value.
#[derive(Clone, Copy, Debug, PartialEq, Eq, PartialOrd, Ord, Hash)]
pub struct Hash {
    pub bytes: [u8; 32],
}

/// Byte-wise XOR of two byte strings, over the length of the first.
pub open spec fn xor_bytes(a: Seq<u8>, b: Seq<u8>) -> Seq<u8> {
    Seq::new(a.len(), |i: int| a[i] ^ b[i])
}

/// The all-zero byte string of hash length.
pub open spec fn zero_bytes() -> Seq<u8> {
    Seq::new(32, |i: int| 0u8)
}

impl View for Hash {
    type V = Seq<u8>;

    open spec fn view(&self) -> Seq<u8> {
        self.bytes@
    }
}

impl Hash {
    /// The all-zero hash.
    pub fn zero() -> (h: Hash)
        ensures
            h@ == zero_bytes(),
    {
        let h = Hash { bytes: [0u8; 32] };
        assert(h@ =~= zero_bytes());
        h
    }

    /// Builds a hash from its 32 bytes.
    pub fn from_bytes(bytes: &[u8; 32]) -> (h: Hash)
        ensures
            h@ == bytes@,
    {
        Hash { bytes: *bytes }
    }

    /// The 32 bytes of the hash.
    pub fn to_bytes(&self) -> (bytes: [u8; 32])
        ensures
            bytes@ == self@,
    {
        self.bytes
    }

    /// Byte-wise XOR with another hash.
    pub fn xor(&self, other: &Hash) -> (h: Hash)
        ensures
            h@ == xor_bytes(self@, other@),
    {
        let mut out = [0u8; 32];
        let mut i: usize = 0;
        while i < 32
            invariant
                i <= 32,
                forall|j: int| 0 <= j < i ==> out@[j] == self@[j] ^ other@[j],
            decreases 32 - i,
        {
            out[i] = self.bytes[i] ^ other.bytes[i];
            i += 1;
        }
        let h = Hash { bytes: out };
        assert(h@ =~= xor_bytes(self@, other@));
        h
    }

    /// Whether two hashes hold the same bytes.
    pub fn equals(&self, other: &Hash) -> (b: bool)
        ensures
            b == (self@ == other@),
            b == (*self == *other),
    {
        let mut i: usize = 0;
        while i < 32
            invariant
                i <= 32,
                forall|j: int| 0 <= j < i ==> self@[j] == other@[j],
            decreases 32 - i,
        {
            if self.bytes[i] != other.bytes[i] {
                return false;
            }
            i += 1;
        }
        assert(self@ =~= other@);
        assert(self.bytes =~= other.bytes);
        true
    }
}

} // verus!
