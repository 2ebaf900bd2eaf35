//! The accumulator hash of a set of operation identifiers: the byte-wise XOR
//! of the identifiers' hashes. XOR is commutative, associative and its own
//! inverse, so the accumulator follows insertions and removals one identifier
//! at a time and does not depend on their order.

use vstd::prelude::*;
use vstd::set::fold::*;
use crate::hash::{xor_bytes, zero_bytes};
use crate::operation::OperationId;

verus! {

/// One step of the accumulation: XOR the identifier's hash into `acc`.
pub open spec fn xor_step() -> spec_fn(Seq<u8>, OperationId) -> Seq<u8> {
    |acc: Seq<u8>, id: OperationId| xor_bytes(acc, id@)
}

/// XOR of the hashes of all identifiers in a finite set; all-zero for the empty set.
pub open spec fn xor_all(ids: Set<OperationId>) -> Seq<u8> {
    ids.fold(zero_bytes(), xor_step())
}

/// XOR-ing two byte strings into a third gives the same result in either order.
pub proof fn lemma_xor_bytes_commutes(b: Seq<u8>, a1: Seq<u8>, a2: Seq<u8>)
    ensures
        xor_bytes(xor_bytes(b, a2), a1) == xor_bytes(xor_bytes(b, a1), a2),
{
    assert forall|i: int| 0 <= i < b.len() implies xor_bytes(xor_bytes(b, a2), a1)[i] == xor_bytes(
        xor_bytes(b, a1),
        a2,
    )[i] by {
        let x = b[i];
        let y = a1[i];
        let z = a2[i];
        assert((x ^ z) ^ y == (x ^ y) ^ z) by (bit_vector);
    }
    assert(xor_bytes(xor_bytes(b, a2), a1) =~= xor_bytes(xor_bytes(b, a1), a2));
}

/// XOR-ing the same byte string in twice changes nothing.
pub proof fn lemma_xor_bytes_self_inverse(b: Seq<u8>, a: Seq<u8>)
    ensures
        xor_bytes(xor_bytes(b, a), a) == b,
{
    assert forall|i: int| 0 <= i < b.len() implies xor_bytes(xor_bytes(b, a), a)[i] == b[i] by {
        let x = b[i];
        let y = a[i];
        assert((x ^ y) ^ y == x) by (bit_vector);
    }
    assert(xor_bytes(xor_bytes(b, a), a) =~= b);
}

/// XOR with the all-zero hash changes nothing.
pub proof fn lemma_xor_bytes_zero(a: Seq<u8>)
    requires
        a.len() == 32,
    ensures
        xor_bytes(zero_bytes(), a) == a,
        xor_bytes(a, zero_bytes()) == a,
{
    assert forall|i: int| 0 <= i < 32 implies xor_bytes(zero_bytes(), a)[i] == a[i] && xor_bytes(
        a,
        zero_bytes(),
    )[i] == a[i] by {
        let y = a[i];
        assert(0u8 ^ y == y) by (bit_vector);
        assert(y ^ 0u8 == y) by (bit_vector);
    }
    assert(xor_bytes(zero_bytes(), a) =~= a);
    assert(xor_bytes(a, zero_bytes()) =~= a);
}

/// The accumulation step may be applied in any order.
pub proof fn lemma_xor_step_commutative()
    ensures
        is_fun_commutative(xor_step()),
{
    assert forall|a1: OperationId, a2: OperationId, b: Seq<u8>| #[trigger]
        xor_step()(xor_step()(b, a2), a1) == xor_step()(xor_step()(b, a1), a2) by {
        lemma_xor_bytes_commutes(b, a1@, a2@);
    }
}

/// The accumulator of the empty set is all-zero.
pub proof fn lemma_xor_all_empty()
    ensures
        xor_all(Set::<OperationId>::empty()) == zero_bytes(),
{
    lemma_fold_empty(zero_bytes(), xor_step());
}

/// Adding a new identifier XORs its hash into the accumulator.
pub proof fn lemma_xor_all_insert(ids: Set<OperationId>, id: OperationId)
    requires
        ids.finite(),
        !ids.contains(id),
    ensures
        xor_all(ids.insert(id)) == xor_bytes(xor_all(ids), id@),
{
    lemma_xor_step_commutative();
    lemma_fold_insert(ids, zero_bytes(), xor_step(), id);
}

/// Removing an identifier XORs its hash into the accumulator once more,
/// which cancels what its insertion contributed.
pub proof fn lemma_xor_all_remove(ids: Set<OperationId>, id: OperationId)
    requires
        ids.finite(),
        ids.contains(id),
    ensures
        xor_all(ids.remove(id)) == xor_bytes(xor_all(ids), id@),
{
    let rest = ids.remove(id);
    assert(rest.insert(id) =~= ids);
    lemma_xor_all_insert(rest, id);
    lemma_xor_bytes_self_inverse(xor_all(rest), id@);
}

/// The accumulator of a finite set is 32 bytes long.
pub proof fn lemma_xor_all_len(ids: Set<OperationId>)
    requires
        ids.finite(),
    ensures
        xor_all(ids).len() == 32,
    decreases ids.len(),
{
    if ids.is_empty() {
        assert(ids =~= Set::<OperationId>::empty());
        lemma_xor_all_empty();
    } else {
        let id = ids.choose();
        lemma_xor_all_len(ids.remove(id));
        lemma_xor_all_remove(ids, id);
        lemma_xor_bytes_self_inverse(xor_all(ids), id@);
    }
}

} // verus!
