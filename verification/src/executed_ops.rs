//! The ledger of executed operations: which operations were executed, until
//! which slot each one is remembered, and the accumulator hash of the lot.
//! Used to refuse an operation that is presented a second time.

use vstd::prelude::*;
use crate::accumulator::{lemma_xor_all_empty, lemma_xor_all_insert, lemma_xor_all_remove, xor_all};
use crate::id_set::OperationIdSet;
use crate::operation::OperationId;
use crate::ops_model::{
    absorb_changes, absorb_ids, absorb_part, count_until, cursor_after, dropping, entries_match,
    entries_sorted, keep_first, lemma_count_until_splits, lemma_dropping_done, lemma_dropping_next,
    lemma_dropping_start, lemma_dropping_step, lemma_match_insert, lemma_match_push,
    lemma_split_after_unique, part_from, part_total, part_view, pruned, splits_after,
    splits_before, Entries, Expiry,
};
use crate::slot::{slot_le, slot_lt, Slot};
use crate::streaming_step::StreamingStep;

verus! {

/// Configuration of the ledger.
#[derive(Clone, Copy, Debug, PartialEq, Eq, Structural)]
pub struct ExecutedOpsConfig {
    /// Number of threads per period.
    pub thread_count: u8,
    /// Largest number of slot entries in one bootstrap part.
    pub bootstrap_part_size: u64,
}

/// Operations to record, each with the slot at which it expires.
pub type ExecutedOpsChanges = Vec<(OperationId, Slot)>;

/// A run of slot entries, as streamed during bootstrap.
pub type ExecutedOpsPart = Vec<(Slot, Vec<OperationId>)>;

/// The ledger of executed operations.
pub struct ExecutedOps {
    /// Configuration.
    config: ExecutedOpsConfig,
    /// The executed operations by expiry slot, in slot order.
    sorted_ops: Vec<(Slot, Vec<OperationId>)>,
    /// The executed operations, for lookup.
    ops: OperationIdSet,
    /// Accumulator hash of the executed operations.
    hash: crate::hash::Hash,
    /// The expiry slot of each executed operation.
    expiry: Ghost<Expiry>,
}

/// Index of the first entry that does not come before `slot`.
fn first_not_before(entries: &Vec<(Slot, Vec<OperationId>)>, slot: &Slot) -> (k: usize)
    requires
        entries_sorted(part_view(entries@)),
    ensures
        splits_before(part_view(entries@), k as int, *slot),
{
    let ghost e = part_view(entries@);
    let mut lo: usize = 0;
    let mut hi: usize = entries.len();
    while lo < hi
        invariant
            0 <= lo <= hi <= entries@.len(),
            e == part_view(entries@),
            entries_sorted(e),
            forall|i: int| 0 <= i < lo ==> slot_lt((#[trigger] e[i]).0, *slot),
            forall|i: int| hi <= i < e.len() ==> !slot_lt((#[trigger] e[i]).0, *slot),
        decreases hi - lo,
    {
        let mid = lo + (hi - lo) / 2;
        if entries[mid].0.is_before(slot) {
            assert forall|i: int| 0 <= i < mid + 1 implies slot_lt((#[trigger] e[i]).0, *slot) by {
                if i < mid {
                    assert(slot_lt(e[i].0, e[mid as int].0));
                }
            }
            lo = mid + 1;
        } else {
            assert forall|i: int| mid <= i < e.len() implies !slot_lt((#[trigger] e[i]).0, *slot) by {
                if i > mid {
                    assert(slot_lt(e[mid as int].0, e[i].0));
                }
            }
            hi = mid;
        }
    }
    lo
}

/// Index of the first entry that comes strictly after `slot`.
fn first_after(entries: &Vec<(Slot, Vec<OperationId>)>, slot: &Slot) -> (k: usize)
    requires
        entries_sorted(part_view(entries@)),
    ensures
        k as int == count_until(part_view(entries@), *slot),
        splits_after(part_view(entries@), k as int, *slot),
{
    let ghost e = part_view(entries@);
    let mut lo: usize = 0;
    let mut hi: usize = entries.len();
    while lo < hi
        invariant
            0 <= lo <= hi <= entries@.len(),
            e == part_view(entries@),
            entries_sorted(e),
            forall|i: int| 0 <= i < lo ==> slot_le((#[trigger] e[i]).0, *slot),
            forall|i: int| hi <= i < e.len() ==> slot_lt(*slot, (#[trigger] e[i]).0),
        decreases hi - lo,
    {
        let mid = lo + (hi - lo) / 2;
        if slot.is_before(&entries[mid].0) {
            assert forall|i: int| mid <= i < e.len() implies slot_lt(*slot, (#[trigger] e[i]).0) by {
                if i > mid {
                    assert(slot_lt(e[mid as int].0, e[i].0));
                }
            }
            hi = mid;
        } else {
            assert forall|i: int| 0 <= i < mid + 1 implies slot_le((#[trigger] e[i]).0, *slot) by {
                if i < mid {
                    assert(slot_lt(e[i].0, e[mid as int].0));
                }
            }
            lo = mid + 1;
        }
    }
    proof {
        lemma_count_until_splits(e, *slot);
        lemma_split_after_unique(e, lo as int, count_until(e, *slot), *slot);
    }
    lo
}

impl View for ExecutedOps {
    type V = Expiry;

    /// The ledger's content: each executed operation with its expiry slot.
    closed spec fn view(&self) -> Expiry {
        self.expiry@
    }
}

impl Clone for ExecutedOps {
    /// A ledger with the same content.
    fn clone(&self) -> (copy: Self)
        ensures
            copy@ == self@,
            copy.entries() == self.entries(),
            copy.ops() == self.ops(),
            copy.accumulator() == self.accumulator(),
            copy.spec_config() == self.spec_config(),
            self.wf() ==> copy.wf(),
    {
        let mut sorted_ops: Vec<(Slot, Vec<OperationId>)> = Vec::new();
        let mut i: usize = 0;
        while i < self.sorted_ops.len()
            invariant
                i <= self.sorted_ops@.len(),
                sorted_ops@.len() == i,
                part_view(sorted_ops@) == part_view(self.sorted_ops@).take(i as int),
            decreases self.sorted_ops@.len() - i,
        {
            let ghost before = sorted_ops@;
            let ids = self.sorted_ops[i].1.clone();
            sorted_ops.push((self.sorted_ops[i].0, ids));
            proof {
                assert forall|k: int| 0 <= k < i + 1 implies part_view(sorted_ops@)[k] == part_view(
                    self.sorted_ops@,
                )[k] by {
                    if k < i {
                        assert(sorted_ops@[k] == before[k]);
                        assert(part_view(before)[k] == part_view(self.sorted_ops@).take(i as int)[k]);
                    }
                }
                assert(part_view(sorted_ops@) =~= part_view(self.sorted_ops@).take(i + 1));
            }
            i += 1;
        }
        proof {
            assert(part_view(self.sorted_ops@).take(i as int) =~= part_view(self.sorted_ops@));
        }
        ExecutedOps {
            config: self.config,
            sorted_ops,
            ops: self.ops.clone(),
            hash: self.hash,
            expiry: Ghost(self.expiry@),
        }
    }
}

impl ExecutedOps {
    /// The expiry index: the executed operations by expiry slot, in slot order.
    pub closed spec fn entries(&self) -> Entries {
        part_view(self.sorted_ops@)
    }

    /// The flat set of executed operations.
    pub closed spec fn ops(&self) -> Set<OperationId> {
        self.ops@
    }

    /// The bytes of the accumulator hash.
    pub closed spec fn accumulator(&self) -> Seq<u8> {
        self.hash@
    }

    /// The configuration that the ledger was made with.
    pub closed spec fn spec_config(&self) -> ExecutedOpsConfig {
        self.config
    }

    /// The lookup set is sound in itself.
    pub closed spec fn ops_wf(&self) -> bool {
        self.ops.wf()
    }

    /// The ledger's invariant. The flat set holds exactly the recorded
    /// operations; the expiry index lists each of them once, under its slot,
    /// in slot order and without empty entries; and the accumulator is the XOR
    /// of the hashes of the operations in the flat set.
    pub open spec fn wf(&self) -> bool {
        &&& self.ops_wf()
        &&& self@.dom().finite()
        &&& self.ops() == self@.dom()
        &&& entries_sorted(self.entries())
        &&& entries_match(self.entries(), self@)
        &&& self.accumulator() == xor_all(self.ops())
    }

    /// Creates an empty ledger: nothing executed, accumulator all-zero.
    pub fn new(config: ExecutedOpsConfig) -> (s: ExecutedOps)
        ensures
            s.wf(),
            s@ == Map::<OperationId, Slot>::empty(),
            s.entries() == Seq::<(Slot, Seq<OperationId>)>::empty(),
            s.accumulator() == crate::hash::zero_bytes(),
            s.spec_config() == config,
    {
        let s = ExecutedOps {
            config,
            sorted_ops: Vec::new(),
            ops: OperationIdSet::new(),
            hash: crate::hash::Hash::zero(),
            expiry: Ghost(Map::empty()),
        };
        proof {
            lemma_xor_all_empty();
            assert(s@.dom() =~= Set::<OperationId>::empty());
            assert(s.entries() =~= Seq::<(Slot, Seq<OperationId>)>::empty());
        }
        s
    }

    /// The configuration that the ledger was made with.
    pub fn config(&self) -> (c: ExecutedOpsConfig)
        ensures
            c == self.spec_config(),
    {
        self.config
    }

    /// The accumulator hash of the executed operations.
    pub fn hash(&self) -> (h: crate::hash::Hash)
        ensures
            h@ == self.accumulator(),
    {
        self.hash
    }

    /// The executed operations by expiry slot, in slot order.
    pub fn sorted_ops(&self) -> (entries: &Vec<(Slot, Vec<OperationId>)>)
        ensures
            part_view(entries@) == self.entries(),
    {
        &self.sorted_ops
    }

    /// Returns the number of executed operations.
    pub fn len(&self) -> (n: usize)
        requires
            self.wf(),
        ensures
            n == self@.dom().len(),
    {
        self.ops.len()
    }

    /// Whether no operation is recorded.
    pub fn is_empty(&self) -> (b: bool)
        requires
            self.wf(),
        ensures
            b == (self@ == Map::<OperationId, Slot>::empty()),
    {
        let b = self.ops.is_empty();
        proof {
            if b {
                assert(self@ =~= Map::<OperationId, Slot>::empty());
            }
        }
        b
    }

    /// Whether `op_id` was executed and has not expired yet.
    pub fn contains(&self, op_id: &OperationId) -> (b: bool)
        requires
            self.wf(),
        ensures
            b == self@.contains_key(*op_id),
    {
        self.ops.contains(op_id)
    }

    /// Records `id` under `slot` unless it is recorded already. A new
    /// identifier goes into the flat set and the expiry index, and its hash is
    /// XORed into the accumulator; a known one changes nothing.
    fn record(&mut self, id: OperationId, slot: Slot)
        requires
            old(self).wf(),
            old(self)@.dom().len() < usize::MAX,
        ensures
            final(self).wf(),
            final(self)@ == keep_first(old(self)@, id, slot),
            final(self)@.dom().len() <= old(self)@.dom().len() + 1,
            final(self).spec_config() == old(self).spec_config(),
    {
        let ghost m0 = self.expiry@;
        let ghost e = part_view(self.sorted_ops@);
        if self.ops.insert(id) {
            self.hash = self.hash.xor(id.get_hash());
            let k = first_not_before(&self.sorted_ops, &slot);
            if k < self.sorted_ops.len() && self.sorted_ops[k].0 == slot {
                self.sorted_ops[k].1.push(id);
                proof {
                    lemma_match_push(e, m0, k as int, id);
                    assert(part_view(self.sorted_ops@) =~= e.update(
                        k as int,
                        (e[k as int].0, e[k as int].1.push(id)),
                    ));
                }
            } else {
                let mut ids = Vec::new();
                ids.push(id);
                self.sorted_ops.insert(k, (slot, ids));
                proof {
                    lemma_match_insert(e, m0, k as int, slot, id);
                    assert(part_view(self.sorted_ops@) =~= e.insert(k as int, (slot, seq![id])));
                }
            }
            self.expiry = Ghost(self.expiry@.insert(id, slot));
            proof {
                lemma_xor_all_insert(m0.dom(), id);
                assert(self.expiry@.dom() =~= m0.dom().insert(id));
            }
        } else {
            assert(self.ops@ =~= m0.dom());
        }
    }

    /// Inserts the operations of `ids` under `slot`, first seen first, and
    /// updates the accumulator for each one that is new.
    fn extend_and_compute_hash(&mut self, ids: &Vec<OperationId>, slot: Slot)
        requires
            old(self).wf(),
            old(self)@.dom().len() + ids@.len() <= usize::MAX,
        ensures
            final(self).wf(),
            final(self)@ == absorb_ids(old(self)@, ids@, slot),
            final(self)@.dom().len() <= old(self)@.dom().len() + ids@.len(),
            final(self).spec_config() == old(self).spec_config(),
    {
        let ghost m0 = self@;
        let ghost c0 = self.spec_config();
        let mut i: usize = 0;
        while i < ids.len()
            invariant
                i <= ids@.len(),
                self.wf(),
                self@ == absorb_ids(m0, ids@.take(i as int), slot),
                self@.dom().len() <= m0.dom().len() + i,
                m0.dom().len() + ids@.len() <= usize::MAX,
                self.spec_config() == c0,
            decreases ids@.len() - i,
        {
            proof {
                assert(ids@.take(i + 1).drop_last() =~= ids@.take(i as int));
            }
            self.record(ids[i], slot);
            i += 1;
        }
        proof {
            assert(ids@.take(i as int) =~= ids@);
        }
    }

    /// Applies `changes` to the ledger, then forgets what expires before
    /// `slot`. Each change records an operation under its expiry slot; an
    /// operation that is recorded already keeps the slot it has. The
    /// accumulator follows every operation that comes or goes.
    pub fn apply_changes(&mut self, changes: Vec<(OperationId, Slot)>, slot: Slot)
        requires
            old(self).wf(),
            old(self)@.dom().len() + changes@.len() <= usize::MAX,
        ensures
            final(self).wf(),
            final(self)@ == pruned(absorb_changes(old(self)@, changes@), slot),
            final(self)@.dom().len() <= old(self)@.dom().len() + changes@.len(),
            final(self).spec_config() == old(self).spec_config(),
    {
        let ghost m0 = self@;
        let ghost c0 = self.spec_config();
        let mut i: usize = 0;
        while i < changes.len()
            invariant
                i <= changes@.len(),
                self.wf(),
                self@ == absorb_changes(m0, changes@.take(i as int)),
                self@.dom().len() <= m0.dom().len() + i,
                m0.dom().len() + changes@.len() <= usize::MAX,
                self.spec_config() == c0,
            decreases changes@.len() - i,
        {
            proof {
                assert(changes@.take(i + 1).drop_last() =~= changes@.take(i as int));
            }
            self.record(changes[i].0, changes[i].1);
            i += 1;
        }
        proof {
            assert(changes@.take(i as int) =~= changes@);
        }
        self.prune(slot);
    }

    /// Forgets every operation that expires strictly before `slot`: its entry
    /// leaves the expiry index, the operation leaves the flat set, and its
    /// hash is XORed out of the accumulator. Entries at or after `slot` stay.
    pub fn prune(&mut self, slot: Slot)
        requires
            old(self).wf(),
        ensures
            final(self).wf(),
            final(self)@ == pruned(old(self)@, slot),
            final(self)@.dom().len() <= old(self)@.dom().len(),
            final(self).spec_config() == old(self).spec_config(),
    {
        let ghost m0 = self.expiry@;
        let ghost e = part_view(self.sorted_ops@);
        let ghost c0 = self.config;
        let ghost all = self.sorted_ops@;
        let k = first_not_before(&self.sorted_ops, &slot);
        let kept = self.sorted_ops.split_off(k);
        proof {
            lemma_dropping_start(e, m0);
        }
        let mut i: usize = 0;
        while i < k
            invariant
                i <= k <= all.len(),
                self.sorted_ops@ == all.subrange(0, k as int),
                e == part_view(all),
                entries_sorted(e),
                entries_match(e, m0),
                dropping(e, m0, self.expiry@, i as int, 0),
                self.ops.wf(),
                self.ops@ == self.expiry@.dom(),
                self.expiry@.dom().finite(),
                self.hash@ == xor_all(self.ops@),
                self.config == c0,
            decreases k - i,
        {
            let n = self.sorted_ops[i].1.len();
            let mut j: usize = 0;
            while j < n
                invariant
                    i < k <= all.len(),
                    j <= n,
                    n == e[i as int].1.len(),
                    self.sorted_ops@ == all.subrange(0, k as int),
                    e == part_view(all),
                    entries_sorted(e),
                    entries_match(e, m0),
                    dropping(e, m0, self.expiry@, i as int, j as int),
                    self.ops.wf(),
                    self.ops@ == self.expiry@.dom(),
                    self.expiry@.dom().finite(),
                    self.hash@ == xor_all(self.ops@),
                    self.config == c0,
                decreases n - j,
            {
                let id = self.sorted_ops[i].1[j];
                proof {
                    assert(id == e[i as int].1[j as int]);
                    lemma_dropping_step(e, m0, self.expiry@, i as int, j as int);
                    lemma_xor_all_remove(self.ops@, id);
                }
                self.ops.remove(&id);
                self.hash = self.hash.xor(id.get_hash());
                self.expiry = Ghost(self.expiry@.remove(id));
                j += 1;
            }
            proof {
                lemma_dropping_next(e, m0, self.expiry@, i as int);
            }
            i += 1;
        }
        self.sorted_ops = kept;
        proof {
            lemma_dropping_done(e, m0, self.expiry@, k as int, slot);
            assert(part_view(self.sorted_ops@) =~= e.subrange(k as int, e.len() as int));
            vstd::set_lib::lemma_len_subset(self.expiry@.dom(), m0.dom());
        }
    }

    /// Gets a part of the executed operations, for a bootstrap server.
    ///
    /// The part holds the entries that follow the cursor, in slot order, as
    /// many as a part may hold at most. The cursor that comes back stands on
    /// the last slot sent, or is finished when nothing was left to send.
    pub fn get_executed_ops_part(&self, cursor: StreamingStep<Slot>) -> (r: (
        Vec<(Slot, Vec<OperationId>)>,
        StreamingStep<Slot>,
    ))
        requires
            self.wf(),
        ensures
            part_view(r.0@) == part_from(
                self.entries(),
                cursor,
                self.spec_config().bootstrap_part_size as nat,
            ),
            r.1 == cursor_after(
                self.entries(),
                cursor,
                self.spec_config().bootstrap_part_size as nat,
            ),
    {
        let ghost e = part_view(self.sorted_ops@);
        let ghost size = self.config.bootstrap_part_size as nat;
        let mut part: Vec<(Slot, Vec<OperationId>)> = Vec::new();
        let start: usize = match cursor {
            StreamingStep::Started => 0,
            StreamingStep::Ongoing(slot) => first_after(&self.sorted_ops, &slot),
            StreamingStep::Finished => {
                proof {
                    assert(part_view(part@) =~= part_from(e, cursor, size));
                }
                return (part, StreamingStep::Finished);
            },
        };
        let mut next: StreamingStep<Slot> = StreamingStep::Finished;
        let mut i: usize = start;
        while i < self.sorted_ops.len() && (part.len() as u64) < self.config.bootstrap_part_size
            invariant
                start <= i <= self.sorted_ops@.len(),
                e == part_view(self.sorted_ops@),
                size == self.config.bootstrap_part_size as nat,
                part@.len() == i - start,
                part@.len() <= size,
                part_view(part@) == e.subrange(start as int, i as int),
                next == (if i > start {
                    StreamingStep::Ongoing(e[i - 1].0)
                } else {
                    StreamingStep::Finished
                }),
            decreases self.sorted_ops@.len() - i,
        {
            let slot = self.sorted_ops[i].0;
            let ids = self.sorted_ops[i].1.clone();
            part.push((slot, ids));
            next = StreamingStep::Ongoing(slot);
            i += 1;
            proof {
                assert(part_view(part@) =~= e.subrange(start as int, i as int));
            }
        }
        (part, next)
    }

    /// Sets a part of the executed operations, for a bootstrap client. Takes
    /// what `get_executed_ops_part` returned.
    ///
    /// Each entry of the part is merged into the ledger, first seen first, and
    /// the accumulator follows each operation that is new. The cursor that
    /// comes back stands on the last slot of the ledger, or is finished when
    /// the ledger is empty.
    pub fn set_executed_ops_part(&mut self, part: Vec<(Slot, Vec<OperationId>)>) -> (next:
        StreamingStep<Slot>)
        requires
            old(self).wf(),
            old(self)@.dom().len() + part_total(part_view(part@)) <= usize::MAX,
        ensures
            final(self).wf(),
            final(self)@ == absorb_part(old(self)@, part_view(part@)),
            final(self)@.dom().len() <= old(self)@.dom().len() + part_total(part_view(part@)),
            next == (if final(self).entries().len() > 0 {
                StreamingStep::Ongoing(final(self).entries().last().0)
            } else {
                StreamingStep::Finished
            }),
            final(self).spec_config() == old(self).spec_config(),
    {
        let ghost m0 = self@;
        let ghost c0 = self.spec_config();
        let ghost p = part_view(part@);
        let mut i: usize = 0;
        while i < part.len()
            invariant
                i <= part@.len(),
                p == part_view(part@),
                self.wf(),
                self@ == absorb_part(m0, p.take(i as int)),
                self@.dom().len() <= m0.dom().len() + part_total(p.take(i as int)),
                m0.dom().len() + part_total(p) <= usize::MAX,
                self.spec_config() == c0,
            decreases part@.len() - i,
        {
            proof {
                assert(p.take(i + 1).drop_last() =~= p.take(i as int));
                assert(p.take(i + 1).last() == p[i as int]);
                lemma_part_total_take(p, i + 1);
            }
            self.extend_and_compute_hash(&part[i].1, part[i].0);
            i += 1;
        }
        proof {
            assert(p.take(i as int) =~= p);
        }
        let n = self.sorted_ops.len();
        if n > 0 {
            StreamingStep::Ongoing(self.sorted_ops[n - 1].0)
        } else {
            StreamingStep::Finished
        }
    }
}

/// The first entries of a part list no more operations than the whole part.
pub proof fn lemma_part_total_take(p: Entries, i: int)
    requires
        0 <= i <= p.len(),
    ensures
        part_total(p.take(i)) <= part_total(p),
    decreases p.len(),
{
    if i == p.len() {
        assert(p.take(i) =~= p);
    } else {
        assert(p.drop_last().take(i) =~= p.take(i));
        lemma_part_total_take(p.drop_last(), i);
    }
}

} // verus!
