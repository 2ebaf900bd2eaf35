//! Laws of bootstrap streaming: a ledger that is sent part by part and
//! merged into an empty ledger arrives whole.

use vstd::prelude::*;
use crate::executed_ops::ExecutedOps;
use crate::operation::OperationId;
use crate::ops_model::{
    absorb_ids, absorb_part, count_until, cursor_after, entries_match, entries_sorted, ids_of,
    lemma_count_until_splits, lemma_ids_of_is_dom, lemma_split_after_unique, part_from, part_len,
    resume_index, Entries, Expiry,
};
use crate::slot::{slot_le, slot_lt, Slot};
use crate::streaming_step::StreamingStep;

verus! {

/// What a ledger holds after a list of operations is recorded under one
/// slot: what it held, unchanged, and each listed operation that is new,
/// under that slot.
pub proof fn lemma_absorb_ids_content(m: Expiry, ids: Seq<OperationId>, slot: Slot)
    ensures
        forall|x: OperationId| #[trigger]
            absorb_ids(m, ids, slot).contains_key(x) <==> (m.contains_key(x) || ids.contains(x)),
        forall|x: OperationId| m.contains_key(x) ==> #[trigger] absorb_ids(m, ids, slot)[x] == m[x],
        forall|x: OperationId|
            !m.contains_key(x) && absorb_ids(m, ids, slot).contains_key(x) ==> #[trigger] absorb_ids(
                m,
                ids,
                slot,
            )[x] == slot,
    decreases ids.len(),
{
    if ids.len() > 0 {
        let d = ids.drop_last();
        let r0 = absorb_ids(m, d, slot);
        let r = absorb_ids(m, ids, slot);
        let y = ids.last();
        lemma_absorb_ids_content(m, d, slot);
        assert forall|x: OperationId| #[trigger] r.contains_key(x) <==> (m.contains_key(x)
            || ids.contains(x)) by {
            if d.contains(x) {
                let i = choose|i: int| 0 <= i < d.len() && d[i] == x;
                assert(ids[i] == x);
            }
            if ids.contains(x) {
                let i = choose|i: int| 0 <= i < ids.len() && ids[i] == x;
                if i < d.len() {
                    assert(d[i] == x);
                }
            }
            if x == y {
                assert(ids[ids.len() - 1] == x);
            }
            assert(r0.contains_key(x) <==> (m.contains_key(x) || d.contains(x)));
        }
        assert forall|x: OperationId| m.contains_key(x) implies #[trigger] r[x] == m[x] by {
            assert(r0.contains_key(x));
            assert(r0[x] == m[x]);
        }
        assert forall|x: OperationId| !m.contains_key(x) && r.contains_key(x) implies #[trigger] r[x]
            == slot by {
            if r0.contains_key(x) {
                assert(r0[x] == slot);
            }
        }
    }
}

/// What a ledger holds after a part is merged: what it held, unchanged, and
/// each listed operation that is new, under the slot of one of the entries
/// that list it.
pub proof fn lemma_absorb_part_content(m: Expiry, p: Entries)
    ensures
        forall|x: OperationId| #[trigger]
            absorb_part(m, p).contains_key(x) <==> (m.contains_key(x) || ids_of(p).contains(x)),
        forall|x: OperationId| m.contains_key(x) ==> #[trigger] absorb_part(m, p)[x] == m[x],
        forall|x: OperationId|
            !m.contains_key(x) && #[trigger] absorb_part(m, p).contains_key(x) ==> exists|
                i: int,
                j: int,
            |
                0 <= i < p.len() && 0 <= j < p[i].1.len() && #[trigger] p[i].1[j] == x && p[i].0
                    == absorb_part(m, p)[x],
    decreases p.len(),
{
    if p.len() > 0 {
        let d = p.drop_last();
        let r0 = absorb_part(m, d);
        let r = absorb_part(m, p);
        let last = p.len() - 1;
        lemma_absorb_part_content(m, d);
        lemma_absorb_ids_content(r0, p[last].1, p[last].0);
        assert forall|x: OperationId| #[trigger] r.contains_key(x) <==> (m.contains_key(x) || ids_of(
            p,
        ).contains(x)) by {
            if ids_of(d).contains(x) {
                let (i, j) = choose|i: int, j: int|
                    0 <= i < d.len() && 0 <= j < d[i].1.len() && #[trigger] d[i].1[j] == x;
                assert(p[i].1[j] == x);
            }
            if ids_of(p).contains(x) {
                let (i, j) = choose|i: int, j: int|
                    0 <= i < p.len() && 0 <= j < p[i].1.len() && #[trigger] p[i].1[j] == x;
                if i < d.len() {
                    assert(d[i].1[j] == x);
                } else {
                    assert(p[last].1.contains(x));
                }
            }
            if p[last].1.contains(x) {
                let j = choose|j: int| 0 <= j < p[last].1.len() && p[last].1[j] == x;
                assert(p[last].1[j] == x);
            }
            assert(r0.contains_key(x) <==> (m.contains_key(x) || ids_of(d).contains(x)));
        }
        assert forall|x: OperationId| m.contains_key(x) implies #[trigger] r[x] == m[x] by {
            assert(r0.contains_key(x));
            assert(r0[x] == m[x]);
        }
        assert forall|x: OperationId| !m.contains_key(x) && #[trigger] r.contains_key(x) implies exists|
            i: int,
            j: int,
        |
            0 <= i < p.len() && 0 <= j < p[i].1.len() && #[trigger] p[i].1[j] == x && p[i].0
                == r[x] by {
            if r0.contains_key(x) {
                let (i, j) = choose|i: int, j: int|
                    0 <= i < d.len() && 0 <= j < d[i].1.len() && #[trigger] d[i].1[j] == x && d[i].0
                        == r0[x];
                assert(p[i].1[j] == x && p[i].0 == r[x]);
            } else {
                assert(p[last].1.contains(x));
                let j = choose|j: int| 0 <= j < p[last].1.len() && p[last].1[j] == x;
                assert(p[last].1[j] == x && p[last].0 == r[x]);
            }
        }
    }
}

/// Merging two parts one after the other is merging them joined.
pub proof fn lemma_absorb_part_concat(m: Expiry, p: Entries, q: Entries)
    ensures
        absorb_part(m, p + q) == absorb_part(absorb_part(m, p), q),
    decreases q.len(),
{
    if q.len() == 0 {
        assert(p + q =~= p);
    } else {
        assert((p + q).drop_last() =~= p + q.drop_last());
        assert((p + q).last() == q.last());
        lemma_absorb_part_concat(m, p, q.drop_last());
    }
}

/// Merging the whole index of a ledger into an empty ledger gives the ledger's content.
pub proof fn lemma_absorb_index_is_content(e: Entries, m: Expiry)
    requires
        entries_match(e, m),
    ensures
        absorb_part(Map::<OperationId, Slot>::empty(), e) == m,
{
    let empty = Map::<OperationId, Slot>::empty();
    let r = absorb_part(empty, e);
    lemma_absorb_part_content(empty, e);
    lemma_ids_of_is_dom(e, m);
    assert forall|x: OperationId| r.contains_key(x) <==> m.contains_key(x) by {
        assert(r.contains_key(x) <==> ids_of(e).contains(x));
        assert(m.dom().contains(x) <==> ids_of(e).contains(x));
    }
    assert forall|x: OperationId| r.contains_key(x) implies r[x] == m[x] by {
        let (i, j) = choose|i: int, j: int|
            0 <= i < e.len() && 0 <= j < e[i].1.len() && #[trigger] e[i].1[j] == x && e[i].0 == r[x];
        assert(m[e[i].1[j]] == e[i].0);
    }
    assert(r =~= m);
}

/// In sorted entries, a transfer that stands on the slot of entry `k` resumes at entry `k + 1`.
pub proof fn lemma_count_until_at(e: Entries, k: int)
    requires
        entries_sorted(e),
        0 <= k < e.len(),
    ensures
        count_until(e, e[k].0) == k + 1,
{
    let slot = e[k].0;
    lemma_count_until_splits(e, slot);
    assert forall|i: int| 0 <= i < k + 1 implies slot_le((#[trigger] e[i]).0, slot) by {
        if i < k {
            assert(slot_lt(e[i].0, e[k].0));
        }
    }
    assert forall|i: int| k + 1 <= i < e.len() implies slot_lt(slot, (#[trigger] e[i]).0) by {
        assert(slot_lt(e[k].0, e[i].0));
    }
    lemma_split_after_unique(e, k + 1, count_until(e, slot), slot);
}

/// A transfer resumes within the entries.
pub proof fn lemma_resume_index_bounds(e: Entries, cursor: StreamingStep<Slot>)
    requires
        entries_sorted(e),
    ensures
        0 <= resume_index(e, cursor) <= e.len(),
{
    match cursor {
        StreamingStep::Ongoing(slot) => {
            lemma_count_until_splits(e, slot);
        },
        _ => {},
    }
}

/// After a part that is not empty, the transfer resumes right behind it.
pub proof fn lemma_cursor_advances(e: Entries, cursor: StreamingStep<Slot>, size: nat)
    requires
        entries_sorted(e),
        !(cursor_after(e, cursor, size) is Finished),
    ensures
        part_len(e, cursor, size) > 0,
        resume_index(e, cursor_after(e, cursor, size)) == resume_index(e, cursor) + part_len(
            e,
            cursor,
            size,
        ),
{
    lemma_resume_index_bounds(e, cursor);
    let start = resume_index(e, cursor);
    let n = part_len(e, cursor, size);
    let part = part_from(e, cursor, size);
    assert(part.len() == n);
    assert(part.last() == e[start + n - 1]);
    lemma_count_until_at(e, start + n - 1);
}

/// The content of a ledger that receives, part by part, everything that a
/// transfer standing at `cursor` has yet to send from the entries `e`, when
/// a part holds `size` entries at most. Each round takes the next part,
/// merges it into `target` and moves the cursor, until the cursor is finished.
pub open spec fn replay(e: Entries, size: nat, cursor: StreamingStep<Slot>, target: Expiry) -> Expiry
    decreases e.len() - resume_index(e, cursor),
    when size > 0 && entries_sorted(e)
    via replay_decreases
{
    let merged = absorb_part(target, part_from(e, cursor, size));
    let next = cursor_after(e, cursor, size);
    if next is Finished {
        merged
    } else {
        replay(e, size, next, merged)
    }
}

#[via_fn]
proof fn replay_decreases(e: Entries, size: nat, cursor: StreamingStep<Slot>, target: Expiry) {
    if !(cursor_after(e, cursor, size) is Finished) {
        lemma_cursor_advances(e, cursor, size);
        lemma_resume_index_bounds(e, cursor_after(e, cursor, size));
    }
}

/// Replaying from any cursor completes what was merged before it.
pub proof fn lemma_replay_from(e: Entries, size: nat, cursor: StreamingStep<Slot>, target: Expiry)
    requires
        size > 0,
        entries_sorted(e),
        target == absorb_part(
            Map::<OperationId, Slot>::empty(),
            e.subrange(0, resume_index(e, cursor)),
        ),
    ensures
        replay(e, size, cursor, target) == absorb_part(Map::<OperationId, Slot>::empty(), e),
    decreases e.len() - resume_index(e, cursor),
{
    lemma_resume_index_bounds(e, cursor);
    let empty = Map::<OperationId, Slot>::empty();
    let start = resume_index(e, cursor);
    let n = part_len(e, cursor, size);
    let part = part_from(e, cursor, size);
    let next = cursor_after(e, cursor, size);
    let merged = absorb_part(target, part);
    lemma_absorb_part_concat(empty, e.subrange(0, start), part);
    assert(e.subrange(0, start) + part =~= e.subrange(0, start + n));
    if next is Finished {
        assert(n == 0);
        assert(start == e.len());
        assert(e.subrange(0, start + n) =~= e);
    } else {
        lemma_cursor_advances(e, cursor, size);
        lemma_replay_from(e, size, next, merged);
    }
}

/// Streaming round trip, on the model. Sending the index of a ledger part
/// by part, from the start until the cursor is finished, and merging each
/// part into an empty ledger gives a ledger with the same content. A part
/// must be allowed to hold at least one entry.
pub proof fn lemma_streaming_round_trip(e: Entries, m: Expiry, size: nat)
    requires
        entries_sorted(e),
        entries_match(e, m),
        size > 0,
    ensures
        replay(e, size, StreamingStep::Started, Map::<OperationId, Slot>::empty()) == m,
{
    let empty = Map::<OperationId, Slot>::empty();
    assert(e.subrange(0, 0) =~= Seq::<(Slot, Seq<OperationId>)>::empty());
    lemma_replay_from(e, size, StreamingStep::Started, empty);
    lemma_absorb_index_is_content(e, m);
}

/// Two indexes list the same slots in the same order, with the same
/// operations under each.
pub open spec fn same_index(e1: Entries, e2: Entries) -> bool {
    &&& e1.len() == e2.len()
    &&& forall|i: int|
        0 <= i < e1.len() ==> (#[trigger] e1[i]).0 == e2[i].0 && e1[i].1.to_set() == e2[i].1.to_set()
}

proof fn lemma_slots_agree(e1: Entries, e2: Entries, m: Expiry, n: int)
    requires
        entries_sorted(e1),
        entries_match(e1, m),
        entries_sorted(e2),
        entries_match(e2, m),
        0 <= n <= e1.len(),
        n <= e2.len(),
    ensures
        forall|k: int| 0 <= k < n ==> (#[trigger] e1[k]).0 == e2[k].0,
    decreases n,
{
    if n > 0 {
        lemma_slots_agree(e1, e2, m, n - 1);
        let i = n - 1;
        lemma_slot_not_before(e1, e2, m, i);
        lemma_slot_not_before(e2, e1, m, i);
    }
}

/// Where two indexes of one ledger agree on the slots before entry `i`, the
/// slot of entry `i` of the second does not come after that of the first.
proof fn lemma_slot_not_before(e1: Entries, e2: Entries, m: Expiry, i: int)
    requires
        entries_sorted(e1),
        entries_match(e1, m),
        entries_sorted(e2),
        entries_match(e2, m),
        0 <= i < e1.len(),
        i < e2.len(),
        forall|k: int| 0 <= k < i ==> (#[trigger] e1[k]).0 == e2[k].0 || (#[trigger] e2[k]).0
            == e1[k].0,
    ensures
        slot_le(e2[i].0, e1[i].0),
{
    let x = e1[i].1[0];
    assert(m.contains_key(x) && m[x] == e1[i].0);
    let (k, j) = choose|k: int, j: int|
        0 <= k < e2.len() && 0 <= j < e2[k].1.len() && e2[k].0 == m[x] && #[trigger] e2[k].1[j] == x;
    if k < i {
        assert(e1[k].0 == e2[k].0);
        assert(slot_lt(e1[k].0, e1[i].0));
    } else if k > i {
        assert(slot_lt(e2[i].0, e2[k].0));
    }
}

/// A ledger has one index only: two sorted indexes that list the same
/// content list the same slots in the same order, with the same operations
/// under each.
pub proof fn lemma_index_unique(e1: Entries, e2: Entries, m: Expiry)
    requires
        entries_sorted(e1),
        entries_match(e1, m),
        entries_sorted(e2),
        entries_match(e2, m),
    ensures
        same_index(e1, e2),
{
    let n = if e1.len() <= e2.len() {
        e1.len() as int
    } else {
        e2.len() as int
    };
    lemma_slots_agree(e1, e2, m, n);
    if e1.len() <= e2.len() {
        lemma_no_further_slot(e1, e2, m);
    } else {
        lemma_slots_agree(e2, e1, m, n);
        lemma_no_further_slot(e2, e1, m);
    }
    assert forall|i: int| 0 <= i < e1.len() implies (#[trigger] e1[i]).1.to_set() == e2[i].1.to_set() by {
        lemma_slots_agree(e2, e1, m, n);
        lemma_entry_included(e1, e2, m, i);
        lemma_entry_included(e2, e1, m, i);
        assert(e1[i].1.to_set() =~= e2[i].1.to_set());
    }
}

/// An index that agrees on all its slots with one that is no longer is as long.
proof fn lemma_no_further_slot(e1: Entries, e2: Entries, m: Expiry)
    requires
        entries_sorted(e1),
        entries_match(e1, m),
        entries_sorted(e2),
        entries_match(e2, m),
        e1.len() <= e2.len(),
        forall|k: int| 0 <= k < e1.len() ==> (#[trigger] e1[k]).0 == e2[k].0,
    ensures
        e1.len() == e2.len(),
{
    if e1.len() < e2.len() {
        let i = e1.len() as int;
        let x = e2[i].1[0];
        assert(m.contains_key(x) && m[x] == e2[i].0);
        let (k, j) = choose|k: int, j: int|
            0 <= k < e1.len() && 0 <= j < e1[k].1.len() && e1[k].0 == m[x] && #[trigger] e1[k].1[j]
                == x;
        assert(e1[k].0 == e2[k].0);
        assert(slot_lt(e2[k].0, e2[i].0));
    }
}

/// Where two indexes of one ledger have the same slot at entry `i`, each
/// operation of that entry in the first stands in that entry in the second.
proof fn lemma_entry_included(e1: Entries, e2: Entries, m: Expiry, i: int)
    requires
        entries_sorted(e1),
        entries_match(e1, m),
        entries_sorted(e2),
        entries_match(e2, m),
        0 <= i < e1.len(),
        i < e2.len(),
        e1[i].0 == e2[i].0,
    ensures
        forall|x: OperationId| e1[i].1.contains(x) ==> e2[i].1.contains(x),
{
    assert forall|x: OperationId| e1[i].1.contains(x) implies e2[i].1.contains(x) by {
        let j1 = choose|j1: int| 0 <= j1 < e1[i].1.len() && e1[i].1[j1] == x;
        assert(m.contains_key(e1[i].1[j1]) && m[e1[i].1[j1]] == e1[i].0);
        let (k, j) = choose|k: int, j: int|
            0 <= k < e2.len() && 0 <= j < e2[k].1.len() && e2[k].0 == m[x] && #[trigger] e2[k].1[j]
                == x;
        if k < i {
            assert(slot_lt(e2[k].0, e2[i].0));
        } else if k > i {
            assert(slot_lt(e2[i].0, e2[k].0));
        }
        assert(e2[i].1[j] == x);
    }
}

/// Streaming round trip. A well-formed ledger whose content is what the
/// replay of another ledger's parts gives has the content of that ledger,
/// hence its accumulator hash and its expiry index, slot by slot.
pub proof fn lemma_streamed_ledger_is_same(source: &ExecutedOps, target: &ExecutedOps, size: nat)
    requires
        source.wf(),
        target.wf(),
        size > 0,
        target@ == replay(
            source.entries(),
            size,
            StreamingStep::Started,
            Map::<OperationId, Slot>::empty(),
        ),
    ensures
        target@ == source@,
        target.ops() == source.ops(),
        target.accumulator() == source.accumulator(),
        same_index(target.entries(), source.entries()),
{
    lemma_streaming_round_trip(source.entries(), source@, size);
    lemma_index_unique(target.entries(), source.entries(), source@);
}

} // verus!
