//! The mathematical model of the executed-operations ledger.
//!
//! The ledger is a finite map from each executed operation to the slot at
//! which it expires. The expiry index lists the same pairs grouped by slot,
//! in slot order. The functions here say what each ledger operation does to
//! the map, and the lemmas say how the index follows.

use vstd::prelude::*;
use crate::operation::OperationId;
use crate::slot::{slot_le, slot_lt, Slot};
use crate::streaming_step::StreamingStep;

verus! {

/// The ledger's content: each executed operation with its expiry slot.
pub type Expiry = Map<OperationId, Slot>;

/// The expiry index, or a part of it: slots with the operations that expire at each.
pub type Entries = Seq<(Slot, Seq<OperationId>)>;

/// The entries that a vector of slot entries holds.
pub open spec fn part_view(part: Seq<(Slot, Vec<OperationId>)>) -> Entries {
    Seq::new(part.len(), |i: int| (part[i].0, part[i].1@))
}

/// Records `id` under `slot` unless `id` is already recorded: the slot seen first stays.
pub open spec fn keep_first(m: Expiry, id: OperationId, slot: Slot) -> Expiry {
    if m.contains_key(id) {
        m
    } else {
        m.insert(id, slot)
    }
}

/// Records a list of changes, one after the other.
pub open spec fn absorb_changes(m: Expiry, changes: Seq<(OperationId, Slot)>) -> Expiry
    decreases changes.len(),
{
    if changes.len() == 0 {
        m
    } else {
        keep_first(absorb_changes(m, changes.drop_last()), changes.last().0, changes.last().1)
    }
}

/// Records a list of operations under one slot, one after the other.
pub open spec fn absorb_ids(m: Expiry, ids: Seq<OperationId>, slot: Slot) -> Expiry
    decreases ids.len(),
{
    if ids.len() == 0 {
        m
    } else {
        keep_first(absorb_ids(m, ids.drop_last(), slot), ids.last(), slot)
    }
}

/// Records the entries of a part, one after the other.
pub open spec fn absorb_part(m: Expiry, part: Entries) -> Expiry
    decreases part.len(),
{
    if part.len() == 0 {
        m
    } else {
        absorb_ids(absorb_part(m, part.drop_last()), part.last().1, part.last().0)
    }
}

/// Number of operations listed in a part, repetitions included.
pub open spec fn part_total(part: Entries) -> nat
    decreases part.len(),
{
    if part.len() == 0 {
        0
    } else {
        part_total(part.drop_last()) + part.last().1.len()
    }
}

/// What is left after every operation that expires strictly before `threshold` is dropped.
pub open spec fn pruned(m: Expiry, threshold: Slot) -> Expiry {
    Map::new(
        |id: OperationId| m.contains_key(id) && !slot_lt(m[id], threshold),
        |id: OperationId| m[id],
    )
}

/// The entries are in strictly increasing slot order.
pub open spec fn entries_sorted(e: Entries) -> bool {
    forall|i: int, j: int| 0 <= i < j < e.len() ==> slot_lt(#[trigger] e[i].0, #[trigger] e[j].0)
}

/// The entries list exactly the pairs of `m`: each operation once, under its
/// slot, and no slot without an operation.
pub open spec fn entries_match(e: Entries, m: Expiry) -> bool {
    &&& forall|i: int| 0 <= i < e.len() ==> (#[trigger] e[i]).1.len() > 0
    &&& forall|i: int, j: int|
        0 <= i < e.len() && 0 <= j < e[i].1.len() ==> m.contains_key(#[trigger] e[i].1[j])
            && m[e[i].1[j]] == e[i].0
    &&& forall|i: int, j1: int, j2: int|
        0 <= i < e.len() && 0 <= j1 < j2 < e[i].1.len() ==> #[trigger] e[i].1[j1]
            != #[trigger] e[i].1[j2]
    &&& forall|id: OperationId| #[trigger]
        m.contains_key(id) ==> exists|i: int, j: int|
            0 <= i < e.len() && 0 <= j < e[i].1.len() && e[i].0 == m[id] && #[trigger] e[i].1[j]
                == id
}

/// Every operation listed in the entries.
pub open spec fn ids_of(e: Entries) -> Set<OperationId> {
    Set::new(
        |id: OperationId|
            exists|i: int, j: int|
                0 <= i < e.len() && 0 <= j < e[i].1.len() && #[trigger] e[i].1[j] == id,
    )
}

/// `k` splits sorted entries at `slot`: the entries before `k` come strictly
/// before `slot`, the others do not.
pub open spec fn splits_before(e: Entries, k: int, slot: Slot) -> bool {
    &&& 0 <= k <= e.len()
    &&& forall|i: int| 0 <= i < k ==> slot_lt((#[trigger] e[i]).0, slot)
    &&& forall|i: int| k <= i < e.len() ==> !slot_lt((#[trigger] e[i]).0, slot)
}

/// `k` splits sorted entries after `slot`: the entries before `k` come at or
/// before `slot`, the others strictly after it.
pub open spec fn splits_after(e: Entries, k: int, slot: Slot) -> bool {
    &&& 0 <= k <= e.len()
    &&& forall|i: int| 0 <= i < k ==> slot_le((#[trigger] e[i]).0, slot)
    &&& forall|i: int| k <= i < e.len() ==> slot_lt(slot, (#[trigger] e[i]).0)
}

/// Number of entries at or before `slot` in sorted entries: the index of the
/// first entry strictly after `slot`.
pub open spec fn count_until(e: Entries, slot: Slot) -> int
    decreases e.len(),
{
    if e.len() == 0 {
        0
    } else if slot_lt(slot, e.last().0) {
        count_until(e.drop_last(), slot)
    } else {
        e.len() as int
    }
}

/// Index of the first entry that a transfer standing at `cursor` has yet to send.
pub open spec fn resume_index(e: Entries, cursor: StreamingStep<Slot>) -> int {
    match cursor {
        StreamingStep::Started => 0,
        StreamingStep::Ongoing(slot) => count_until(e, slot),
        StreamingStep::Finished => e.len() as int,
    }
}

/// Number of entries in the part sent from `cursor` when a part holds at most `size`.
pub open spec fn part_len(e: Entries, cursor: StreamingStep<Slot>, size: nat) -> int {
    let rest = e.len() - resume_index(e, cursor);
    if rest <= size {
        rest
    } else {
        size as int
    }
}

/// The part sent from `cursor`: the next `size` entries at most, in slot order.
pub open spec fn part_from(e: Entries, cursor: StreamingStep<Slot>, size: nat) -> Entries {
    let start = resume_index(e, cursor);
    e.subrange(start, start + part_len(e, cursor, size))
}

/// The cursor after the part sent from `cursor`: past the last slot sent, or
/// finished when nothing was left to send.
pub open spec fn cursor_after(e: Entries, cursor: StreamingStep<Slot>, size: nat) -> StreamingStep<
    Slot,
> {
    let part = part_from(e, cursor, size);
    if part.len() > 0 {
        StreamingStep::Ongoing(part.last().0)
    } else {
        StreamingStep::Finished
    }
}

/// In sorted entries `count_until` is the split after `slot`.
pub proof fn lemma_count_until_splits(e: Entries, slot: Slot)
    requires
        entries_sorted(e),
    ensures
        splits_after(e, count_until(e, slot), slot),
    decreases e.len(),
{
    if e.len() == 0 {
    } else if slot_lt(slot, e.last().0) {
        let f = e.drop_last();
        assert forall|i: int, j: int| 0 <= i < j < f.len() implies slot_lt(
            #[trigger] f[i].0,
            #[trigger] f[j].0,
        ) by {
            assert(f[i] == e[i] && f[j] == e[j]);
        }
        lemma_count_until_splits(f, slot);
        let k = count_until(f, slot);
        assert forall|i: int| 0 <= i < k implies slot_le((#[trigger] e[i]).0, slot) by {
            assert(e[i] == f[i]);
        }
        assert forall|i: int| k <= i < e.len() implies slot_lt(slot, (#[trigger] e[i]).0) by {
            if i < f.len() {
                assert(e[i] == f[i]);
            }
        }
    } else {
        let last = e.len() - 1;
        assert forall|i: int| 0 <= i < e.len() implies slot_le((#[trigger] e[i]).0, slot) by {
            if i < last {
                assert(slot_lt(e[i].0, e[last].0));
            }
        }
    }
}

/// A split after `slot` in sorted entries is unique.
pub proof fn lemma_split_after_unique(e: Entries, k1: int, k2: int, slot: Slot)
    requires
        splits_after(e, k1, slot),
        splits_after(e, k2, slot),
    ensures
        k1 == k2,
{
    if k1 < k2 {
        assert(slot_lt(slot, e[k1].0));
        assert(slot_le(e[k1].0, slot));
    } else if k2 < k1 {
        assert(slot_lt(slot, e[k2].0));
        assert(slot_le(e[k2].0, slot));
    }
}

/// The operations listed in matching entries are the recorded ones.
pub proof fn lemma_ids_of_is_dom(e: Entries, m: Expiry)
    requires
        entries_match(e, m),
    ensures
        ids_of(e) == m.dom(),
{
    assert forall|id: OperationId| ids_of(e).contains(id) <==> m.dom().contains(id) by {
        if ids_of(e).contains(id) {
            let (i, j) = choose|i: int, j: int|
                0 <= i < e.len() && 0 <= j < e[i].1.len() && #[trigger] e[i].1[j] == id;
            assert(m.contains_key(e[i].1[j]));
        }
        if m.contains_key(id) {
            let (i, j) = choose|i: int, j: int|
                0 <= i < e.len() && 0 <= j < e[i].1.len() && e[i].0 == m[id] && #[trigger] e[i].1[j]
                    == id;
            assert(e[i].1[j] == id);
        }
    }
    assert(ids_of(e) =~= m.dom());
}

/// In sorted matching entries an operation stands at one place only.
pub proof fn lemma_place_unique(e: Entries, m: Expiry, i1: int, j1: int, i2: int, j2: int)
    requires
        entries_sorted(e),
        entries_match(e, m),
        0 <= i1 < e.len(),
        0 <= j1 < e[i1].1.len(),
        0 <= i2 < e.len(),
        0 <= j2 < e[i2].1.len(),
        e[i1].1[j1] == e[i2].1[j2],
    ensures
        i1 == i2,
        j1 == j2,
{
    assert(m[e[i1].1[j1]] == e[i1].0);
    assert(m[e[i2].1[j2]] == e[i2].0);
    if i1 < i2 {
        assert(slot_lt(e[i1].0, e[i2].0));
    } else if i2 < i1 {
        assert(slot_lt(e[i2].0, e[i1].0));
    }
}

/// Recording a new operation at the end of the entry of its slot keeps the index in step.
pub proof fn lemma_match_push(e: Entries, m: Expiry, k: int, id: OperationId)
    requires
        entries_sorted(e),
        entries_match(e, m),
        0 <= k < e.len(),
        !m.contains_key(id),
    ensures
        entries_sorted(e.update(k, (e[k].0, e[k].1.push(id)))),
        entries_match(e.update(k, (e[k].0, e[k].1.push(id))), m.insert(id, e[k].0)),
{
    let slot = e[k].0;
    let f = e.update(k, (slot, e[k].1.push(id)));
    let n = m.insert(id, slot);
    assert forall|i: int, j: int| 0 <= i < j < f.len() implies slot_lt(
        #[trigger] f[i].0,
        #[trigger] f[j].0,
    ) by {
        assert(f[i].0 == e[i].0 && f[j].0 == e[j].0);
    }
    assert forall|i: int| 0 <= i < f.len() implies (#[trigger] f[i]).1.len() > 0 by {
        assert(e[i].1.len() > 0);
    }
    assert forall|i: int, j: int| 0 <= i < f.len() && 0 <= j < f[i].1.len() implies n.contains_key(
        #[trigger] f[i].1[j],
    ) && n[f[i].1[j]] == f[i].0 by {
        if i == k && j == e[k].1.len() {
        } else {
            assert(f[i].1[j] == e[i].1[j]);
            assert(m.contains_key(e[i].1[j]));
        }
    }
    assert forall|i: int, j1: int, j2: int|
        0 <= i < f.len() && 0 <= j1 < j2 < f[i].1.len() implies #[trigger] f[i].1[j1]
        != #[trigger] f[i].1[j2] by {
        assert(f[i].1[j1] == e[i].1[j1]);
        if i == k && j2 == e[k].1.len() {
            assert(m.contains_key(e[i].1[j1]));
        } else {
            assert(f[i].1[j2] == e[i].1[j2]);
        }
    }
    assert forall|x: OperationId| #[trigger] n.contains_key(x) implies exists|i: int, j: int|
        0 <= i < f.len() && 0 <= j < f[i].1.len() && f[i].0 == n[x] && #[trigger] f[i].1[j]
            == x by {
        if x == id {
            assert(f[k].1[e[k].1.len() as int] == x);
        } else {
            assert(m.contains_key(x));
            let (i, j) = choose|i: int, j: int|
                0 <= i < e.len() && 0 <= j < e[i].1.len() && e[i].0 == m[x] && #[trigger] e[i].1[j]
                    == x;
            assert(f[i].1[j] == x);
        }
    }
}

/// Recording a new operation in a new entry, placed where its slot belongs,
/// keeps the index in step.
pub proof fn lemma_match_insert(e: Entries, m: Expiry, k: int, slot: Slot, id: OperationId)
    requires
        entries_sorted(e),
        entries_match(e, m),
        splits_before(e, k, slot),
        k == e.len() || e[k].0 != slot,
        !m.contains_key(id),
    ensures
        entries_sorted(e.insert(k, (slot, seq![id]))),
        entries_match(e.insert(k, (slot, seq![id])), m.insert(id, slot)),
{
    let f = e.insert(k, (slot, seq![id]));
    let n = m.insert(id, slot);
    assert forall|i: int| k <= i < e.len() implies slot_lt(slot, (#[trigger] e[i]).0) by {
        if i > k {
            assert(slot_lt(e[k].0, e[i].0));
        }
    }
    assert forall|i: int, j: int| 0 <= i < j < f.len() implies slot_lt(
        #[trigger] f[i].0,
        #[trigger] f[j].0,
    ) by {
        if j < k {
            assert(f[i] == e[i] && f[j] == e[j]);
        } else if j == k {
            assert(f[i] == e[i]);
        } else if i < k {
            assert(f[i] == e[i] && f[j] == e[j - 1]);
        } else if i == k {
            assert(f[j] == e[j - 1]);
        } else {
            assert(f[i] == e[i - 1] && f[j] == e[j - 1]);
        }
    }
    assert forall|i: int| 0 <= i < f.len() implies (#[trigger] f[i]).1.len() > 0 by {
        if i < k {
            assert(f[i] == e[i]);
        } else if i > k {
            assert(f[i] == e[i - 1]);
        }
    }
    assert forall|i: int, j: int| 0 <= i < f.len() && 0 <= j < f[i].1.len() implies n.contains_key(
        #[trigger] f[i].1[j],
    ) && n[f[i].1[j]] == f[i].0 by {
        if i < k {
            assert(f[i] == e[i]);
            assert(m.contains_key(e[i].1[j]));
        } else if i > k {
            assert(f[i] == e[i - 1]);
            assert(m.contains_key(e[i - 1].1[j]));
        }
    }
    assert forall|i: int, j1: int, j2: int|
        0 <= i < f.len() && 0 <= j1 < j2 < f[i].1.len() implies #[trigger] f[i].1[j1]
        != #[trigger] f[i].1[j2] by {
        if i < k {
            assert(f[i] == e[i]);
            assert(e[i].1[j1] != e[i].1[j2]);
        } else if i > k {
            assert(f[i] == e[i - 1]);
            assert(e[i - 1].1[j1] != e[i - 1].1[j2]);
        }
    }
    assert forall|x: OperationId| #[trigger] n.contains_key(x) implies exists|i: int, j: int|
        0 <= i < f.len() && 0 <= j < f[i].1.len() && f[i].0 == n[x] && #[trigger] f[i].1[j]
            == x by {
        if x == id {
            assert(f[k].1[0] == x);
        } else {
            assert(m.contains_key(x));
            let (i, j) = choose|i: int, j: int|
                0 <= i < e.len() && 0 <= j < e[i].1.len() && e[i].0 == m[x] && #[trigger] e[i].1[j]
                    == x;
            if i < k {
                assert(f[i] == e[i]);
                assert(f[i].1[j] == x);
            } else {
                assert(f[i + 1] == e[i]);
                assert(f[i + 1].1[j] == x);
            }
        }
    }
}

/// While the entries before a split are being dropped: `m` still holds
/// exactly the operations of `m0` that stand at or after place `(i, j)` of `e`.
pub open spec fn dropping(e: Entries, m0: Expiry, m: Expiry, i: int, j: int) -> bool {
    &&& forall|x: OperationId| #[trigger]
        m.contains_key(x) ==> m0.contains_key(x) && m[x] == m0[x]
    &&& forall|a: int, b: int|
        0 <= a < e.len() && 0 <= b < e[a].1.len() ==> (m.contains_key(#[trigger] e[a].1[b]) <==> (a
            > i || (a == i && b >= j)))
}

/// Before anything is dropped, everything is still there.
pub proof fn lemma_dropping_start(e: Entries, m0: Expiry)
    requires
        entries_match(e, m0),
    ensures
        dropping(e, m0, m0, 0, 0),
{
}

/// Dropping the operation at the current place moves on to the next place of the entry.
pub proof fn lemma_dropping_step(e: Entries, m0: Expiry, m: Expiry, i: int, j: int)
    requires
        entries_sorted(e),
        entries_match(e, m0),
        dropping(e, m0, m, i, j),
        0 <= i < e.len(),
        0 <= j < e[i].1.len(),
    ensures
        m.contains_key(e[i].1[j]),
        dropping(e, m0, m.remove(e[i].1[j]), i, j + 1),
{
    let x = e[i].1[j];
    let n = m.remove(x);
    assert(m.contains_key(e[i].1[j]));
    assert forall|a: int, b: int| 0 <= a < e.len() && 0 <= b < e[a].1.len() implies (n.contains_key(
        #[trigger] e[a].1[b],
    ) <==> (a > i || (a == i && b >= j + 1))) by {
        if e[a].1[b] == x {
            lemma_place_unique(e, m0, a, b, i, j);
        } else {
            assert(m.contains_key(e[a].1[b]) <==> (a > i || (a == i && b >= j)));
        }
    }
}

/// At the end of an entry the next place is the start of the next entry.
pub proof fn lemma_dropping_next(e: Entries, m0: Expiry, m: Expiry, i: int)
    requires
        dropping(e, m0, m, i, e[i].1.len() as int),
        0 <= i < e.len(),
    ensures
        dropping(e, m0, m, i + 1, 0),
{
    assert forall|a: int, b: int| 0 <= a < e.len() && 0 <= b < e[a].1.len() implies (m.contains_key(
        #[trigger] e[a].1[b],
    ) <==> (a > i + 1 || (a == i + 1 && b >= 0))) by {
        assert(m.contains_key(e[a].1[b]) <==> (a > i || (a == i && b >= e[i].1.len())));
    }
}

/// Once every entry before the split at `threshold` is dropped, what is left
/// is the pruned ledger, and the entries from the split on are its index.
pub proof fn lemma_dropping_done(e: Entries, m0: Expiry, m: Expiry, k: int, threshold: Slot)
    requires
        entries_sorted(e),
        entries_match(e, m0),
        splits_before(e, k, threshold),
        dropping(e, m0, m, k, 0),
    ensures
        m == pruned(m0, threshold),
        entries_sorted(e.subrange(k, e.len() as int)),
        entries_match(e.subrange(k, e.len() as int), m),
{
    let p = pruned(m0, threshold);
    let f = e.subrange(k, e.len() as int);
    assert forall|x: OperationId| m.contains_key(x) <==> p.contains_key(x) by {
        if m0.contains_key(x) {
            let (a, b) = choose|a: int, b: int|
                0 <= a < e.len() && 0 <= b < e[a].1.len() && e[a].0 == m0[x] && #[trigger] e[a].1[b]
                    == x;
            assert(m.contains_key(e[a].1[b]) <==> (a > k || (a == k && b >= 0)));
            if a < k {
                assert(slot_lt(e[a].0, threshold));
            } else {
                assert(!slot_lt(e[a].0, threshold));
            }
        }
    }
    assert(m =~= p);
    assert forall|i: int, j: int| 0 <= i < j < f.len() implies slot_lt(
        #[trigger] f[i].0,
        #[trigger] f[j].0,
    ) by {
        assert(f[i] == e[i + k] && f[j] == e[j + k]);
    }
    assert forall|i: int| 0 <= i < f.len() implies (#[trigger] f[i]).1.len() > 0 by {
        assert(f[i] == e[i + k]);
    }
    assert forall|i: int, j: int| 0 <= i < f.len() && 0 <= j < f[i].1.len() implies m.contains_key(
        #[trigger] f[i].1[j],
    ) && m[f[i].1[j]] == f[i].0 by {
        assert(f[i] == e[i + k]);
        assert(m.contains_key(e[i + k].1[j]) <==> (i + k > k || (i + k == k && j >= 0)));
        assert(m0[e[i + k].1[j]] == e[i + k].0);
    }
    assert forall|i: int, j1: int, j2: int|
        0 <= i < f.len() && 0 <= j1 < j2 < f[i].1.len() implies #[trigger] f[i].1[j1]
        != #[trigger] f[i].1[j2] by {
        assert(f[i] == e[i + k]);
        assert(e[i + k].1[j1] != e[i + k].1[j2]);
    }
    assert forall|x: OperationId| #[trigger] m.contains_key(x) implies exists|i: int, j: int|
        0 <= i < f.len() && 0 <= j < f[i].1.len() && f[i].0 == m[x] && #[trigger] f[i].1[j]
            == x by {
        assert(m0.contains_key(x));
        let (a, b) = choose|a: int, b: int|
            0 <= a < e.len() && 0 <= b < e[a].1.len() && e[a].0 == m0[x] && #[trigger] e[a].1[b]
                == x;
        assert(m.contains_key(e[a].1[b]) <==> (a > k || (a == k && b >= 0)));
        assert(f[a - k] == e[a]);
        assert(f[a - k].1[b] == x);
    }
}

} // verus!
