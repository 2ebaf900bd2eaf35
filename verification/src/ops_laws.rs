//! Laws of the executed-operations ledger, proved from its model.

use vstd::prelude::*;
use crate::accumulator::{lemma_xor_all_empty, xor_all};
use crate::executed_ops::ExecutedOps;
use crate::hash::zero_bytes;
use crate::operation::OperationId;
use crate::ops_model::{absorb_changes, ids_of, lemma_ids_of_is_dom, pruned, Expiry};
use crate::slot::{slot_le, slot_lt, Slot};
use crate::streaming_laws::{lemma_index_unique, same_index};

verus! {

/// In a well-formed ledger the flat set of operations is the union of the
/// operations that the expiry index lists under its slots.
pub proof fn lemma_ops_is_union_of_sorted_ops(s: &ExecutedOps)
    requires
        s.wf(),
    ensures
        s.ops() == ids_of(s.entries()),
{
    lemma_ids_of_is_dom(s.entries(), s@);
}

/// In a well-formed ledger the accumulator is the XOR of the hashes of the
/// operations in the flat set.
pub proof fn lemma_hash_is_xor_of_ops(s: &ExecutedOps)
    requires
        s.wf(),
    ensures
        s.accumulator() == xor_all(s.ops()),
        s.ops() == s@.dom(),
{
}

/// Two well-formed ledgers that record the same operations have the same
/// flat set and the same accumulator, however each one came to its content.
pub proof fn lemma_same_content_same_hash(a: &ExecutedOps, b: &ExecutedOps)
    requires
        a.wf(),
        b.wf(),
        a@.dom() == b@.dom(),
    ensures
        a.ops() == b.ops(),
        a.accumulator() == b.accumulator(),
{
}

/// A well-formed ledger that records nothing has the all-zero accumulator.
pub proof fn lemma_empty_ledger_hash_is_zero(s: &ExecutedOps)
    requires
        s.wf(),
        s@ == Map::<OperationId, Slot>::empty(),
    ensures
        s.accumulator() == zero_bytes(),
{
    assert(s@.dom() =~= Set::<OperationId>::empty());
    lemma_xor_all_empty();
}

/// One of the changes names `id`.
pub open spec fn names(changes: Seq<(OperationId, Slot)>, id: OperationId) -> bool {
    exists|i: int| 0 <= i < changes.len() && (#[trigger] changes[i]).0 == id
}

/// What a ledger holds after a list of changes: what it held, and every
/// operation that a change names; an operation that it held keeps its slot,
/// and a new one has the slot of one of the changes that name it.
pub proof fn lemma_absorb_changes_content(m: Expiry, c: Seq<(OperationId, Slot)>)
    ensures
        forall|x: OperationId| #[trigger]
            absorb_changes(m, c).contains_key(x) <==> (m.contains_key(x) || names(c, x)),
        forall|x: OperationId| m.contains_key(x) ==> #[trigger] absorb_changes(m, c)[x] == m[x],
        forall|x: OperationId|
            !m.contains_key(x) && #[trigger] absorb_changes(m, c).contains_key(x) ==> exists|i: int|
                0 <= i < c.len() && #[trigger] c[i] == (x, absorb_changes(m, c)[x]),
    decreases c.len(),
{
    if c.len() > 0 {
        let d = c.drop_last();
        let r0 = absorb_changes(m, d);
        let r = absorb_changes(m, c);
        let y = c.last().0;
        lemma_absorb_changes_content(m, d);
        assert forall|x: OperationId| #[trigger] r.contains_key(x) <==> (m.contains_key(x) || names(
            c,
            x,
        )) by {
            if names(d, x) {
                let i = choose|i: int| 0 <= i < d.len() && (#[trigger] d[i]).0 == x;
                assert(c[i] == d[i]);
            }
            if names(c, x) {
                let i = choose|i: int| 0 <= i < c.len() && (#[trigger] c[i]).0 == x;
                if i < d.len() {
                    assert(d[i] == c[i]);
                }
            }
            if x == y {
                assert(c[c.len() - 1].0 == x);
            }
            assert(r0.contains_key(x) <==> (m.contains_key(x) || names(d, x)));
        }
        assert forall|x: OperationId| m.contains_key(x) implies #[trigger] r[x] == m[x] by {
            assert(r0.contains_key(x));
            assert(r0[x] == m[x]);
        }
        assert forall|x: OperationId| !m.contains_key(x) && #[trigger] r.contains_key(x) implies exists|
            i: int,
        | 0 <= i < c.len() && #[trigger] c[i] == (x, r[x]) by {
            if r0.contains_key(x) {
                let i = choose|i: int| 0 <= i < d.len() && #[trigger] d[i] == (x, r0[x]);
                assert(c[i] == d[i]);
            } else {
                assert(c[c.len() - 1] == (x, r[x]));
            }
        }
    }
}

/// The changes name one slot for each operation: the slot that the ledger
/// has for it, where it has one.
pub open spec fn changes_agree(m: Expiry, c: Seq<(OperationId, Slot)>) -> bool {
    &&& forall|i: int| 0 <= i < c.len() && m.contains_key((#[trigger] c[i]).0) ==> m[c[i].0] == c[i].1
    &&& forall|i: int, j: int|
        0 <= i < c.len() && 0 <= j < c.len() && (#[trigger] c[i]).0 == (#[trigger] c[j]).0 ==> c[i].1
            == c[j].1
}

/// Where the changes agree, an operation that the ledger held or that a
/// change names ends under that very slot.
pub proof fn lemma_absorbed_slot(m: Expiry, c: Seq<(OperationId, Slot)>, x: OperationId, v: Slot)
    requires
        changes_agree(m, c),
        (m.contains_key(x) && m[x] == v) || (exists|i: int| 0 <= i < c.len() && #[trigger] c[i] == (x, v)),
    ensures
        absorb_changes(m, c).contains_key(x),
        absorb_changes(m, c)[x] == v,
{
    lemma_absorb_changes_content(m, c);
    let r = absorb_changes(m, c);
    if exists|i: int| 0 <= i < c.len() && #[trigger] c[i] == (x, v) {
        let i = choose|i: int| 0 <= i < c.len() && #[trigger] c[i] == (x, v);
        assert(c[i].0 == x);
        assert(names(c, x));
        assert(r.contains_key(x));
        if !m.contains_key(x) {
            let j = choose|j: int| 0 <= j < c.len() && #[trigger] c[j] == (x, r[x]);
            assert(c[i].0 == c[j].0);
        }
    } else {
        assert(r.contains_key(x));
    }
}

/// Applying two lists of changes one after the other, pruning at the same
/// slot after each, leaves the ledger as applying both lists at once does,
/// provided the changes name one slot for each operation. The two ledgers
/// then have the same accumulator, since the accumulator is the XOR over the
/// recorded operations.
pub proof fn lemma_apply_in_two_steps(
    m: Expiry,
    a: Seq<(OperationId, Slot)>,
    b: Seq<(OperationId, Slot)>,
    slot: Slot,
)
    requires
        changes_agree(m, a + b),
    ensures
        pruned(absorb_changes(pruned(absorb_changes(m, a), slot), b), slot) == pruned(
            absorb_changes(m, a + b),
            slot,
        ),
{
    let c = a + b;
    let x0 = absorb_changes(m, a);
    let p = pruned(x0, slot);
    let l = absorb_changes(p, b);
    let r = absorb_changes(m, c);
    lemma_absorb_changes_content(m, a);
    lemma_absorb_changes_content(p, b);
    lemma_absorb_changes_content(m, c);
    assert forall|x: OperationId| l.contains_key(x) implies r.contains_key(x) && r[x] == l[x] by {
        if p.contains_key(x) {
            assert(x0.contains_key(x) && l[x] == x0[x]);
            if m.contains_key(x) {
                lemma_absorbed_slot(m, c, x, l[x]);
            } else {
                let i = choose|i: int| 0 <= i < a.len() && #[trigger] a[i] == (x, x0[x]);
                assert(c[i] == (x, l[x]));
                lemma_absorbed_slot(m, c, x, l[x]);
            }
        } else {
            let j = choose|j: int| 0 <= j < b.len() && #[trigger] b[j] == (x, l[x]);
            assert(c[a.len() + j] == (x, l[x]));
            lemma_absorbed_slot(m, c, x, l[x]);
        }
    }
    assert forall|x: OperationId| r.contains_key(x) && !slot_lt(r[x], slot) implies l.contains_key(
        x,
    ) by {
        if m.contains_key(x) {
            assert(x0.contains_key(x) && x0[x] == m[x]);
            assert(p.contains_key(x));
        } else {
            let i = choose|i: int| 0 <= i < c.len() && #[trigger] c[i] == (x, r[x]);
            if i < a.len() {
                assert(a[i] == c[i]);
                assert(a[i].0 == x);
                assert(names(a, x));
                assert(x0.contains_key(x));
                let k = choose|k: int| 0 <= k < a.len() && #[trigger] a[k] == (x, x0[x]);
                assert(c[k] == a[k]);
                assert(c[k].0 == c[i].0);
                assert(p.contains_key(x));
            } else {
                assert(b[i - a.len()] == c[i]);
                assert(b[i - a.len()].0 == x);
                assert(names(b, x));
            }
        }
    }
    assert(pruned(l, slot) =~= pruned(r, slot));
}

/// Pruning at a slot that lies after every recorded expiry empties the
/// ledger, and the accumulator of an empty ledger is all-zero.
pub proof fn lemma_prune_everything(m: Expiry, threshold: Slot)
    requires
        forall|x: OperationId| m.contains_key(x) ==> slot_lt(#[trigger] m[x], threshold),
    ensures
        pruned(m, threshold) == Map::<OperationId, Slot>::empty(),
        xor_all(pruned(m, threshold).dom()) == zero_bytes(),
{
    assert(pruned(m, threshold) =~= Map::<OperationId, Slot>::empty());
    assert(pruned(m, threshold).dom() =~= Set::<OperationId>::empty());
    lemma_xor_all_empty();
}

/// Pruning at a slot at or before every recorded expiry changes nothing.
pub proof fn lemma_prune_nothing(m: Expiry, threshold: Slot)
    requires
        forall|x: OperationId| m.contains_key(x) ==> !slot_lt(#[trigger] m[x], threshold),
    ensures
        pruned(m, threshold) == m,
{
    assert(pruned(m, threshold) =~= m);
}

/// Pruning is monotone: after pruning at a slot, pruning at a later slot
/// gives what pruning at the later slot alone gives.
pub proof fn lemma_prune_monotone(m: Expiry, t1: Slot, t2: Slot)
    requires
        slot_le(t1, t2),
    ensures
        pruned(pruned(m, t1), t2) == pruned(m, t2),
{
    assert(pruned(pruned(m, t1), t2) =~= pruned(m, t2));
}

/// XOR cancellation, first half. A ledger that took two lists of changes
/// one after the other and a ledger that took both at once, from the same
/// content and with the same pruning slot, have the same accumulator hash,
/// provided the changes name one slot for each operation.
pub proof fn lemma_two_steps_same_hash(
    start: Expiry,
    a: Seq<(OperationId, Slot)>,
    b: Seq<(OperationId, Slot)>,
    slot: Slot,
    stepwise: &ExecutedOps,
    at_once: &ExecutedOps,
)
    requires
        changes_agree(start, a + b),
        stepwise.wf(),
        at_once.wf(),
        stepwise@ == pruned(absorb_changes(pruned(absorb_changes(start, a), slot), b), slot),
        at_once@ == pruned(absorb_changes(start, a + b), slot),
    ensures
        stepwise@ == at_once@,
        stepwise.ops() == at_once.ops(),
        stepwise.accumulator() == at_once.accumulator(),
{
    lemma_apply_in_two_steps(start, a, b, slot);
}

/// XOR cancellation, second half. A ledger that was pruned at a slot after
/// every expiry that it recorded is empty, and its accumulator hash is
/// all-zero again: what each operation put in, its removal took out.
pub proof fn lemma_pruned_ledger_hash_is_zero(before: Expiry, threshold: Slot, after: &ExecutedOps)
    requires
        after.wf(),
        after@ == pruned(before, threshold),
        forall|x: OperationId| before.contains_key(x) ==> slot_lt(#[trigger] before[x], threshold),
    ensures
        after@ == Map::<OperationId, Slot>::empty(),
        after.ops() == Set::<OperationId>::empty(),
        after.accumulator() == zero_bytes(),
{
    lemma_prune_everything(before, threshold);
    assert(after@.dom() =~= Set::<OperationId>::empty());
}

/// Pruning monotonicity, on ledgers. A ledger that was pruned at a slot and
/// then at a later one, and a ledger that was pruned at the later slot
/// alone, from the same content, have the same content, the same
/// accumulator hash and the same expiry index.
pub proof fn lemma_pruned_twice_is_pruned_once(
    start: Expiry,
    t1: Slot,
    t2: Slot,
    twice: &ExecutedOps,
    once: &ExecutedOps,
)
    requires
        slot_le(t1, t2),
        twice.wf(),
        once.wf(),
        twice@ == pruned(pruned(start, t1), t2),
        once@ == pruned(start, t2),
    ensures
        twice@ == once@,
        twice.accumulator() == once.accumulator(),
        same_index(twice.entries(), once.entries()),
{
    lemma_prune_monotone(start, t1, t2);
    lemma_index_unique(twice.entries(), once.entries(), once@);
}

} // verus!
