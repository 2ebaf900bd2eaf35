//! Wire format of a part of the executed operations.
//!
//! ```text
//! part   := varint(n)  n times entry
//! entry  := slot  varint(k)  k times operation id (32 bytes)
//! slot   := varint(period)  thread (1 byte)
//! ```
//!
//! The two length prefixes are bounded when a part is read, and so is the thread.

use vstd::prelude::*;
use crate::operation::OperationId;
use crate::ops_model::part_view;
use crate::slot::Slot;
use crate::varint::{
    lemma_varint_round_trip, parse_bounded_varint, parse_varint, varint_bytes, CodecError,
};

verus! {

/// A part as it stands on the wire: each operation by its 32 bytes.
pub type WirePart = Seq<(Slot, Seq<Seq<u8>>)>;

/// The wire content of a part.
pub open spec fn wire_view(part: Seq<(Slot, Vec<OperationId>)>) -> WirePart {
    Seq::new(part.len(), |i: int| (part[i].0, wire_ids(part[i].1@)))
}

/// The wire content of a list of operations.
pub open spec fn wire_ids(ids: Seq<OperationId>) -> Seq<Seq<u8>> {
    Seq::new(ids.len(), |j: int| ids[j]@)
}

/// The bytes of a slot: its period as a varint, then its thread.
pub open spec fn slot_bytes(s: Slot) -> Seq<u8> {
    varint_bytes(s.period as nat).push(s.thread)
}

/// The bytes of a list of operations: their bytes one after the other.
pub open spec fn ids_bytes(ids: Seq<Seq<u8>>) -> Seq<u8>
    decreases ids.len(),
{
    if ids.len() == 0 {
        Seq::empty()
    } else {
        ids_bytes(ids.drop_last()) + ids.last()
    }
}

/// The bytes of an entry: its slot, the number of its operations, the operations.
pub open spec fn entry_bytes(e: (Slot, Seq<Seq<u8>>)) -> Seq<u8> {
    slot_bytes(e.0) + varint_bytes(e.1.len()) + ids_bytes(e.1)
}

/// The bytes of a list of entries: their bytes one after the other.
pub open spec fn entries_bytes(es: WirePart) -> Seq<u8>
    decreases es.len(),
{
    if es.len() == 0 {
        Seq::empty()
    } else {
        entries_bytes(es.drop_last()) + entry_bytes(es.last())
    }
}

/// The bytes of a part: the number of its entries, then the entries.
pub open spec fn part_bytes(es: WirePart) -> Seq<u8> {
    varint_bytes(es.len()) + entries_bytes(es)
}

/// Decoding of a slot at the front of `bytes`, for `thread_count` threads.
pub open spec fn parse_slot(bytes: Seq<u8>, thread_count: u8) -> Result<(Slot, int), CodecError> {
    match parse_varint(bytes) {
        Err(e) => Err(e),
        Ok((period, n)) => if n >= bytes.len() {
            Err(CodecError::UnexpectedEnd)
        } else if bytes[n] >= thread_count {
            Err(CodecError::InvalidThread)
        } else {
            Ok((Slot { period, thread: bytes[n] }, n + 1))
        },
    }
}

/// Decoding of `count` operations at the front of `bytes`.
pub open spec fn parse_ids(bytes: Seq<u8>, count: nat) -> Result<(Seq<Seq<u8>>, int), CodecError> {
    if bytes.len() < 32 * count {
        Err(CodecError::UnexpectedEnd)
    } else {
        Ok((Seq::new(count, |i: int| bytes.subrange(32 * i, 32 * i + 32)), 32 * count as int))
    }
}

/// Decoding of an entry at the front of `bytes`.
pub open spec fn parse_entry(bytes: Seq<u8>, thread_count: u8, max_ops: u64) -> Result<
    ((Slot, Seq<Seq<u8>>), int),
    CodecError,
> {
    match parse_slot(bytes, thread_count) {
        Err(e) => Err(e),
        Ok((slot, n1)) => match parse_bounded_varint(bytes.skip(n1), max_ops) {
            Err(e) => Err(e),
            Ok((k, n2)) => match parse_ids(bytes.skip(n1 + n2), k as nat) {
                Err(e) => Err(e),
                Ok((ids, n3)) => Ok(((slot, ids), n1 + n2 + n3)),
            },
        },
    }
}

/// Decoding of `count` entries at the front of `bytes`; the first entry that fails decides.
pub open spec fn parse_entries(bytes: Seq<u8>, count: nat, thread_count: u8, max_ops: u64) -> Result<
    (WirePart, int),
    CodecError,
>
    decreases count,
{
    if count == 0 {
        Ok((Seq::empty(), 0))
    } else {
        match parse_entries(bytes, (count - 1) as nat, thread_count, max_ops) {
            Err(e) => Err(e),
            Ok((es, n)) => match parse_entry(bytes.skip(n), thread_count, max_ops) {
                Err(e) => Err(e),
                Ok((entry, k)) => Ok((es.push(entry), n + k)),
            },
        }
    }
}

/// Decoding of a part at the front of `bytes`: the part and the number of
/// bytes that it takes, or the reason why there is none. A part of more than
/// `max_len` entries, or an entry of more than `max_ops` operations, is
/// out of bounds.
pub open spec fn parse_part(bytes: Seq<u8>, thread_count: u8, max_len: u64, max_ops: u64) -> Result<
    (WirePart, int),
    CodecError,
> {
    match parse_bounded_varint(bytes, max_len) {
        Err(e) => Err(e),
        Ok((count, n0)) => match parse_entries(bytes.skip(n0), count as nat, thread_count, max_ops) {
            Err(e) => Err(e),
            Ok((es, n)) => Ok((es, n0 + n)),
        },
    }
}

/// What a part must satisfy to be read back: lengths within the maxima,
/// threads that exist, and operations of 32 bytes.
pub open spec fn within_bounds(es: WirePart, thread_count: u8, max_len: u64, max_ops: u64) -> bool {
    &&& es.len() <= max_len
    &&& forall|i: int| 0 <= i < es.len() ==> entry_within_bounds(#[trigger] es[i], thread_count, max_ops)
}

/// What an entry must satisfy to be read back.
pub open spec fn entry_within_bounds(e: (Slot, Seq<Seq<u8>>), thread_count: u8, max_ops: u64) -> bool {
    &&& e.0.thread < thread_count
    &&& e.1.len() <= max_ops
    &&& forall|j: int| 0 <= j < e.1.len() ==> (#[trigger] e.1[j]).len() == 32
}

/// Operations of 32 bytes each take 32 bytes each, in order.
pub proof fn lemma_ids_bytes_layout(ids: Seq<Seq<u8>>)
    requires
        forall|j: int| 0 <= j < ids.len() ==> (#[trigger] ids[j]).len() == 32,
    ensures
        ids_bytes(ids).len() == 32 * ids.len(),
        forall|j: int|
            0 <= j < ids.len() ==> ids_bytes(ids).subrange(32 * j, 32 * j + 32) == #[trigger] ids[j],
    decreases ids.len(),
{
    if ids.len() > 0 {
        let d = ids.drop_last();
        lemma_ids_bytes_layout(d);
        assert forall|j: int| 0 <= j < ids.len() implies ids_bytes(ids).subrange(32 * j, 32 * j + 32)
            == #[trigger] ids[j] by {
            if j < d.len() {
                assert(d[j] == ids[j]);
                assert(ids_bytes(ids).subrange(32 * j, 32 * j + 32) =~= ids_bytes(d).subrange(
                    32 * j,
                    32 * j + 32,
                ));
            } else {
                assert(ids_bytes(ids).subrange(32 * j, 32 * j + 32) =~= ids.last());
            }
        }
    }
}

/// Round trip of a slot.
pub proof fn lemma_slot_round_trip(s: Slot, thread_count: u8, rest: Seq<u8>)
    requires
        s.thread < thread_count,
    ensures
        parse_slot(slot_bytes(s) + rest, thread_count) == Ok::<(Slot, int), CodecError>(
            (s, slot_bytes(s).len() as int),
        ),
{
    let v = varint_bytes(s.period as nat);
    let bytes = slot_bytes(s) + rest;
    assert(bytes =~= v + (seq![s.thread] + rest));
    lemma_varint_round_trip(s.period, seq![s.thread] + rest);
    assert(bytes[v.len() as int] == s.thread);
}

/// Round trip of a list of operations.
pub proof fn lemma_ids_round_trip(ids: Seq<Seq<u8>>, rest: Seq<u8>)
    requires
        forall|j: int| 0 <= j < ids.len() ==> (#[trigger] ids[j]).len() == 32,
    ensures
        parse_ids(ids_bytes(ids) + rest, ids.len()) == Ok::<(Seq<Seq<u8>>, int), CodecError>(
            (ids, ids_bytes(ids).len() as int),
        ),
{
    lemma_ids_bytes_layout(ids);
    let bytes = ids_bytes(ids) + rest;
    let got = Seq::new(ids.len(), |i: int| bytes.subrange(32 * i, 32 * i + 32));
    assert forall|j: int| 0 <= j < ids.len() implies got[j] == ids[j] by {
        assert(bytes.subrange(32 * j, 32 * j + 32) =~= ids_bytes(ids).subrange(32 * j, 32 * j + 32));
    }
    assert(got =~= ids);
}

/// Round trip of an entry.
pub proof fn lemma_entry_round_trip(
    e: (Slot, Seq<Seq<u8>>),
    thread_count: u8,
    max_ops: u64,
    rest: Seq<u8>,
)
    requires
        entry_within_bounds(e, thread_count, max_ops),
    ensures
        parse_entry(entry_bytes(e) + rest, thread_count, max_ops) == Ok::<
            ((Slot, Seq<Seq<u8>>), int),
            CodecError,
        >((e, entry_bytes(e).len() as int)),
{
    let a = slot_bytes(e.0);
    let b = varint_bytes(e.1.len());
    let c = ids_bytes(e.1);
    let bytes = entry_bytes(e) + rest;
    assert(bytes =~= a + (b + c + rest));
    lemma_slot_round_trip(e.0, thread_count, b + c + rest);
    assert(bytes.skip(a.len() as int) =~= b + (c + rest));
    lemma_varint_round_trip(e.1.len() as u64, c + rest);
    assert(bytes.skip((a.len() + b.len()) as int) =~= c + rest);
    lemma_ids_round_trip(e.1, rest);
}

/// Round trip of a list of entries.
pub proof fn lemma_entries_round_trip(es: WirePart, thread_count: u8, max_ops: u64, rest: Seq<u8>)
    requires
        forall|i: int| 0 <= i < es.len() ==> entry_within_bounds(#[trigger] es[i], thread_count, max_ops),
    ensures
        parse_entries(entries_bytes(es) + rest, es.len(), thread_count, max_ops) == Ok::<
            (WirePart, int),
            CodecError,
        >((es, entries_bytes(es).len() as int)),
    decreases es.len(),
{
    if es.len() == 0 {
        assert(es =~= Seq::<(Slot, Seq<Seq<u8>>)>::empty());
    } else {
        let d = es.drop_last();
        let last = es.last();
        let bytes = entries_bytes(es) + rest;
        assert forall|i: int| 0 <= i < d.len() implies entry_within_bounds(
            #[trigger] d[i],
            thread_count,
            max_ops,
        ) by {
            assert(d[i] == es[i]);
        }
        assert(bytes =~= entries_bytes(d) + (entry_bytes(last) + rest));
        lemma_entries_round_trip(d, thread_count, max_ops, entry_bytes(last) + rest);
        assert(bytes.skip(entries_bytes(d).len() as int) =~= entry_bytes(last) + rest);
        lemma_entry_round_trip(last, thread_count, max_ops, rest);
        assert(d.push(last) =~= es);
    }
}

/// Codec round trip. The bytes of a part within bounds, whatever follows
/// them, decode to that part, and decoding takes exactly the bytes that
/// encoding gave.
pub proof fn lemma_part_round_trip(
    es: WirePart,
    thread_count: u8,
    max_len: u64,
    max_ops: u64,
    rest: Seq<u8>,
)
    requires
        within_bounds(es, thread_count, max_len, max_ops),
    ensures
        parse_part(part_bytes(es) + rest, thread_count, max_len, max_ops) == Ok::<
            (WirePart, int),
            CodecError,
        >((es, part_bytes(es).len() as int)),
{
    let a = varint_bytes(es.len());
    let bytes = part_bytes(es) + rest;
    assert(bytes =~= a + (entries_bytes(es) + rest));
    lemma_varint_round_trip(es.len() as u64, entries_bytes(es) + rest);
    assert(bytes.skip(a.len() as int) =~= entries_bytes(es) + rest);
    lemma_entries_round_trip(es, thread_count, max_ops, rest);
}

/// A part that announces more entries than the maximum is refused as out
/// of bounds, whatever follows the announcement.
pub proof fn lemma_too_many_entries_refused(
    count: u64,
    rest: Seq<u8>,
    thread_count: u8,
    max_len: u64,
    max_ops: u64,
)
    requires
        count > max_len,
    ensures
        parse_part(varint_bytes(count as nat) + rest, thread_count, max_len, max_ops) == Err::<
            (WirePart, int),
            CodecError,
        >(CodecError::CodecBounds),
{
    lemma_varint_round_trip(count, rest);
}

/// An entry that announces more operations than the maximum is refused as
/// out of bounds.
pub proof fn lemma_too_many_operations_refused(
    slot: Slot,
    count: u64,
    rest: Seq<u8>,
    thread_count: u8,
    max_ops: u64,
)
    requires
        slot.thread < thread_count,
        count > max_ops,
    ensures
        parse_entry(slot_bytes(slot) + varint_bytes(count as nat) + rest, thread_count, max_ops)
            == Err::<((Slot, Seq<Seq<u8>>), int), CodecError>(CodecError::CodecBounds),
{
    let a = slot_bytes(slot);
    let b = varint_bytes(count as nat);
    let bytes = a + b + rest;
    assert(bytes =~= a + (b + rest));
    lemma_slot_round_trip(slot, thread_count, b + rest);
    assert(bytes.skip(a.len() as int) =~= b + rest);
    lemma_varint_round_trip(count, rest);
}

/// Parts with the same wire content are the same part.
pub proof fn lemma_same_wire_same_part(
    a: Seq<(Slot, Vec<OperationId>)>,
    b: Seq<(Slot, Vec<OperationId>)>,
)
    requires
        wire_view(a) == wire_view(b),
    ensures
        part_view(a) == part_view(b),
{
    assert(a.len() == wire_view(a).len());
    assert(b.len() == wire_view(b).len());
    assert forall|i: int| 0 <= i < a.len() implies part_view(a)[i] == part_view(b)[i] by {
        let x = a[i].1@;
        let y = b[i].1@;
        assert(wire_view(a)[i] == wire_view(b)[i]);
        assert(wire_ids(x).len() == wire_ids(y).len());
        assert forall|j: int| 0 <= j < x.len() implies x[j] == y[j] by {
            assert(wire_ids(x)[j] == wire_ids(y)[j]);
            x[j].lemma_view_injective(y[j]);
        }
        assert(x =~= y);
    }
    assert(part_view(a) =~= part_view(b));
}

/// On the wire every operation of a part takes 32 bytes, so a part is
/// within bounds as soon as its lengths and its threads are.
pub proof fn lemma_part_within_bounds(
    part: Seq<(Slot, Vec<OperationId>)>,
    thread_count: u8,
    max_len: u64,
    max_ops: u64,
)
    requires
        part.len() <= max_len,
        forall|i: int|
            0 <= i < part.len() ==> (#[trigger] part[i]).0.thread < thread_count && part[i].1@.len()
                <= max_ops,
    ensures
        within_bounds(wire_view(part), thread_count, max_len, max_ops),
{
    let w = wire_view(part);
    assert forall|i: int| 0 <= i < w.len() implies entry_within_bounds(
        #[trigger] w[i],
        thread_count,
        max_ops,
    ) by {
        assert(part[i].0.thread < thread_count);
        assert forall|j: int| 0 <= j < w[i].1.len() implies (#[trigger] w[i].1[j]).len() == 32 by {
            part[i].1@[j].lemma_view_len();
        }
    }
}

} // verus!
