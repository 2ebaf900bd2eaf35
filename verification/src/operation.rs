//! Operation identifiers.

use vstd::prelude::*;

verus! {

/// Number of bytes of an operation identifier on the wire.
pub const OPERATION_ID_SIZE_BYTES: usize = 32;

/// Identifier of an operation: the 32-byte hash of the operation.
#[derive(Clone, Copy, Debug, PartialEq, Eq, PartialOrd, Ord, Hash)]
pub struct OperationId {
    hash: crate::hash::Hash,
}

impl View for OperationId {
    type V = Seq<u8>;

    closed spec fn view(&self) -> Seq<u8> {
        self.hash@
    }
}

impl OperationId {
    /// The identifier that carries `hash`.
    pub fn new(hash: crate::hash::Hash) -> (id: OperationId)
        ensures
            id@ == hash@,
    {
        OperationId { hash }
    }

    /// The hash that the identifier carries.
    pub fn get_hash(&self) -> (h: &crate::hash::Hash)
        ensures
            h@ == self@,
    {
        &self.hash
    }

    /// The identifier as its raw 32 bytes.
    pub fn to_bytes(&self) -> (bytes: [u8; 32])
        ensures
            bytes@ == self@,
    {
        self.hash.to_bytes()
    }

    /// The identifier made of 32 raw bytes.
    pub fn from_bytes(bytes: &[u8; 32]) -> (id: OperationId)
        ensures
            id@ == bytes@,
    {
        OperationId { hash: crate::hash::Hash::from_bytes(bytes) }
    }

    /// Whether two identifiers hold the same bytes.
    pub fn equals(&self, other: &OperationId) -> (b: bool)
        ensures
            b == (self@ == other@),
            b == (*self == *other),
    {
        self.hash.equals(&other.hash)
    }

    /// An identifier is 32 bytes long.
    pub proof fn lemma_view_len(self)
        ensures
            self@.len() == 32,
    {
    }

    /// Identifiers with the same bytes are the same identifier.
    pub proof fn lemma_view_injective(self, other: OperationId)
        requires
            self@ == other@,
        ensures
            self == other,
    {
        assert(self.hash.bytes =~= other.hash.bytes);
    }
}

} // verus!
