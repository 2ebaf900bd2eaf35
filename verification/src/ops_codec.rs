//! Serializer and deserializer of a part of the executed operations.

use vstd::prelude::*;
use crate::operation::OperationId;
use crate::ops_wire::{
    lemma_part_round_trip, lemma_part_within_bounds,
    entries_bytes, entry_bytes, ids_bytes, parse_entries, parse_entry, parse_ids, parse_part,
    parse_slot, part_bytes, slot_bytes, wire_ids, wire_view, WirePart,
};
use crate::slot::Slot;
use crate::varint::{
    parse_bounded_varint, read_bounded_varint, read_varint, varint_bytes, write_varint, CodecError,
};

verus! {

/// Serializer of a part of the executed operations.
pub struct ExecutedOpsSerializer {}

/// Deserializer of a part of the executed operations, with the bounds that
/// it holds the input to.
pub struct ExecutedOpsDeserializer {
    thread_count: u8,
    max_executed_ops_length: u64,
    max_operations_per_block: u64,
}

/// Appends the bytes of `slot` to `buffer`.
pub fn write_slot(slot: &Slot, buffer: &mut Vec<u8>)
    ensures
        final(buffer)@ == old(buffer)@ + slot_bytes(*slot),
{
    let ghost start = buffer@;
    write_varint(slot.period, buffer);
    buffer.push(slot.thread);
    proof {
        assert(buffer@ =~= start + slot_bytes(*slot));
    }
}

/// Reads the slot encoded at `pos` in `buffer`, for `thread_count` threads.
pub fn read_slot(buffer: &[u8], pos: usize, thread_count: u8) -> (r: Result<(Slot, usize), CodecError>)
    requires
        pos <= buffer@.len(),
    ensures
        match r {
            Ok((slot, next)) => pos < next <= buffer@.len() && parse_slot(
                buffer@.skip(pos as int),
                thread_count,
            ) == Ok::<(Slot, int), CodecError>((slot, next - pos)),
            Err(e) => parse_slot(buffer@.skip(pos as int), thread_count) == Err::<
                (Slot, int),
                CodecError,
            >(e),
        },
{
    match read_varint(buffer, pos) {
        Err(e) => Err(e),
        Ok((period, next)) => {
            if next >= buffer.len() {
                return Err(CodecError::UnexpectedEnd);
            }
            let thread = buffer[next];
            assert(thread == buffer@.skip(pos as int)[next - pos]);
            if thread >= thread_count {
                return Err(CodecError::InvalidThread);
            }
            Ok((Slot { period, thread }, next + 1))
        },
    }
}

/// Reads the operation identifier that stands at `pos` in `buffer`.
fn read_id(buffer: &[u8], pos: usize) -> (id: OperationId)
    requires
        pos + 32 <= buffer@.len(),
    ensures
        id@ == buffer@.subrange(pos as int, pos + 32),
{
    let total = buffer.len();
    let mut bytes = [0u8; 32];
    let mut k: usize = 0;
    while k < 32
        invariant
            k <= 32,
            total == buffer@.len(),
            pos + 32 <= buffer@.len(),
            forall|j: int| 0 <= j < k ==> bytes@[j] == buffer@[pos + j],
        decreases 32 - k,
    {
        bytes[k] = buffer[pos + k];
        k += 1;
    }
    assert(bytes@ =~= buffer@.subrange(pos as int, pos + 32));
    OperationId::from_bytes(&bytes)
}

/// Reads `count` operation identifiers from `pos` in `buffer`.
fn read_ids(buffer: &[u8], pos: usize, count: u64) -> (r: Result<(Vec<OperationId>, usize), CodecError>)
    requires
        pos <= buffer@.len(),
    ensures
        match r {
            Ok((ids, next)) => pos <= next <= buffer@.len() && parse_ids(
                buffer@.skip(pos as int),
                count as nat,
            ) == Ok::<(Seq<Seq<u8>>, int), CodecError>((wire_ids(ids@), next - pos)),
            Err(e) => parse_ids(buffer@.skip(pos as int), count as nat) == Err::<
                (Seq<Seq<u8>>, int),
                CodecError,
            >(e),
        },
{
    let ghost bytes = buffer@.skip(pos as int);
    let total = buffer.len();
    let available = total - pos;
    if count > (available / 32) as u64 {
        return Err(CodecError::UnexpectedEnd);
    }
    let n = count as usize;
    let mut ids: Vec<OperationId> = Vec::new();
    let mut i: usize = 0;
    while i < n
        invariant
            i <= n,
            n == count,
            total == buffer@.len(),
            pos + 32 * n <= buffer@.len(),
            bytes == buffer@.skip(pos as int),
            ids@.len() == i,
            forall|j: int| 0 <= j < i ==> (#[trigger] ids@[j])@ == bytes.subrange(32 * j, 32 * j + 32),
        decreases n - i,
    {
        let id = read_id(buffer, pos + 32 * i);
        proof {
            assert(buffer@.subrange(pos + 32 * i, pos + 32 * i + 32) =~= bytes.subrange(
                32 * i,
                32 * i + 32,
            ));
        }
        ids.push(id);
        i += 1;
    }
    proof {
        assert(wire_ids(ids@) =~= Seq::new(
            count as nat,
            |i: int| bytes.subrange(32 * i, 32 * i + 32),
        ));
    }
    Ok((ids, pos + 32 * n))
}

/// Reads the entry encoded at `pos` in `buffer`.
fn read_entry(buffer: &[u8], pos: usize, thread_count: u8, max_ops: u64) -> (r: Result<
    ((Slot, Vec<OperationId>), usize),
    CodecError,
>)
    requires
        pos <= buffer@.len(),
    ensures
        match r {
            Ok((entry, next)) => pos < next <= buffer@.len() && parse_entry(
                buffer@.skip(pos as int),
                thread_count,
                max_ops,
            ) == Ok::<((Slot, Seq<Seq<u8>>), int), CodecError>(
                ((entry.0, wire_ids(entry.1@)), next - pos),
            ),
            Err(e) => parse_entry(buffer@.skip(pos as int), thread_count, max_ops) == Err::<
                ((Slot, Seq<Seq<u8>>), int),
                CodecError,
            >(e),
        },
{
    let ghost bytes = buffer@.skip(pos as int);
    let (slot, cut1) = match read_slot(buffer, pos, thread_count) {
        Err(e) => {
            return Err(e);
        },
        Ok(x) => x,
    };
    proof {
        assert(bytes.skip(cut1 - pos) =~= buffer@.skip(cut1 as int));
    }
    let (count, cut2) = match read_bounded_varint(buffer, cut1, max_ops) {
        Err(e) => {
            return Err(e);
        },
        Ok(x) => x,
    };
    proof {
        assert(bytes.skip((cut1 - pos) + (cut2 - cut1)) =~= buffer@.skip(cut2 as int));
    }
    match read_ids(buffer, cut2, count) {
        Err(e) => Err(e),
        Ok((ids, cut3)) => Ok(((slot, ids), cut3)),
    }
}

impl Default for ExecutedOpsSerializer {
    fn default() -> ExecutedOpsSerializer {
        ExecutedOpsSerializer::new()
    }
}

impl ExecutedOpsSerializer {
    /// Creates a serializer.
    pub fn new() -> ExecutedOpsSerializer {
        ExecutedOpsSerializer {  }
    }

    /// Appends the bytes of `value` to `buffer`: the number of entries, then
    /// for each entry its slot, the number of its operations and the
    /// operations, 32 bytes each.
    pub fn serialize(&self, value: &Vec<(Slot, Vec<OperationId>)>, buffer: &mut Vec<u8>)
        ensures
            final(buffer)@ == old(buffer)@ + part_bytes(wire_view(value@)),
    {
        let ghost start = buffer@;
        let ghost w = wire_view(value@);
        write_varint(value.len() as u64, buffer);
        let ghost head = buffer@;
        let mut i: usize = 0;
        proof {
            assert(w.take(0) =~= Seq::<(Slot, Seq<Seq<u8>>)>::empty());
            assert(buffer@ =~= head + entries_bytes(w.take(0)));
        }
        while i < value.len()
            invariant
                i <= value@.len(),
                w == wire_view(value@),
                head == start + varint_bytes(value@.len()),
                buffer@ == head + entries_bytes(w.take(i as int)),
            decreases value@.len() - i,
        {
            let ghost before = buffer@;
            write_slot(&value[i].0, buffer);
            write_varint(value[i].1.len() as u64, buffer);
            let ghost ids = w[i as int].1;
            let ghost base = buffer@;
            let mut j: usize = 0;
            proof {
                assert(ids.take(0) =~= Seq::<Seq<u8>>::empty());
                assert(buffer@ =~= base + ids_bytes(ids.take(0)));
            }
            while j < value[i].1.len()
                invariant
                    i < value@.len(),
                    j <= value@[i as int].1@.len(),
                    w == wire_view(value@),
                    ids == w[i as int].1,
                    buffer@ == base + ids_bytes(ids.take(j as int)),
                decreases value@[i as int].1@.len() - j,
            {
                let bytes = value[i].1[j].to_bytes();
                let ghost prior = buffer@;
                buffer.extend_from_slice(bytes.as_slice());
                proof {
                    assert(bytes@ == ids[j as int]);
                    assert(ids.take(j + 1).drop_last() =~= ids.take(j as int));
                    assert(ids.take(j + 1).last() == ids[j as int]);
                    assert(buffer@ =~= base + ids_bytes(ids.take(j + 1)));
                }
                j += 1;
            }
            proof {
                assert(ids.take(j as int) =~= ids);
                assert(w.take(i + 1).drop_last() =~= w.take(i as int));
                assert(w.take(i + 1).last() == w[i as int]);
                assert(buffer@ =~= before + entry_bytes(w[i as int]));
                assert(buffer@ =~= head + entries_bytes(w.take(i + 1)));
            }
            i += 1;
        }
        proof {
            assert(w.take(i as int) =~= w);
            assert(buffer@ =~= start + part_bytes(w));
        }
    }
}

impl ExecutedOpsDeserializer {
    /// Number of threads: a slot must name a thread below it.
    pub closed spec fn spec_thread_count(&self) -> u8 {
        self.thread_count
    }

    /// Largest number of entries in a part.
    pub closed spec fn spec_max_executed_ops_length(&self) -> u64 {
        self.max_executed_ops_length
    }

    /// Largest number of operations in an entry.
    pub closed spec fn spec_max_operations_per_block(&self) -> u64 {
        self.max_operations_per_block
    }

    /// What the deserializer makes of `bytes`.
    pub open spec fn spec_deserialize(&self, bytes: Seq<u8>) -> Result<(WirePart, int), CodecError> {
        parse_part(
            bytes,
            self.spec_thread_count(),
            self.spec_max_executed_ops_length(),
            self.spec_max_operations_per_block(),
        )
    }

    /// Creates a deserializer that accepts parts of at most
    /// `max_executed_ops_length` entries, entries of at most
    /// `max_operations_per_block` operations, and threads below `thread_count`.
    pub fn new(thread_count: u8, max_executed_ops_length: u64, max_operations_per_block: u64) -> (d:
        ExecutedOpsDeserializer)
        ensures
            d.spec_thread_count() == thread_count,
            d.spec_max_executed_ops_length() == max_executed_ops_length,
            d.spec_max_operations_per_block() == max_operations_per_block,
    {
        ExecutedOpsDeserializer { thread_count, max_executed_ops_length, max_operations_per_block }
    }

    /// Reads a part from the front of `buffer` and returns the position of
    /// the bytes behind it together with the part. A length prefix above its
    /// maximum is refused before anything is allocated for it.
    pub fn deserialize(&self, buffer: &[u8]) -> (r: Result<
        (usize, Vec<(Slot, Vec<OperationId>)>),
        CodecError,
    >)
        ensures
            match r {
                Ok((rest, part)) => rest <= buffer@.len() && self.spec_deserialize(buffer@) == Ok::<
                    (WirePart, int),
                    CodecError,
                >((wire_view(part@), rest as int)),
                Err(e) => self.spec_deserialize(buffer@) == Err::<(WirePart, int), CodecError>(e),
            },
    {
        let ghost all = buffer@;
        proof {
            assert(all.skip(0) =~= all);
        }
        let (count, cut0) = match read_bounded_varint(buffer, 0, self.max_executed_ops_length) {
            Err(e) => {
                return Err(e);
            },
            Ok(x) => x,
        };
        let ghost bytes = all.skip(cut0 as int);
        let mut part: Vec<(Slot, Vec<OperationId>)> = Vec::new();
        let mut pos: usize = cut0;
        let mut i: u64 = 0;
        proof {
            assert(wire_view(part@) =~= Seq::<(Slot, Seq<Seq<u8>>)>::empty());
        }
        while i < count
            invariant
                i <= count,
                cut0 <= pos <= buffer@.len(),
                all == buffer@,
                bytes == all.skip(cut0 as int),
                parse_bounded_varint(all, self.max_executed_ops_length) == Ok::<
                    (u64, int),
                    CodecError,
                >((count, cut0 as int)),
                parse_entries(bytes, i as nat, self.thread_count, self.max_operations_per_block)
                    == Ok::<(WirePart, int), CodecError>((wire_view(part@), pos - cut0)),
            decreases count - i,
        {
            proof {
                assert(bytes.skip(pos - cut0) =~= all.skip(pos as int));
            }
            let (entry, next) = match read_entry(
                buffer,
                pos,
                self.thread_count,
                self.max_operations_per_block,
            ) {
                Err(e) => {
                    proof {
                        lemma_entries_error_stays(
                            bytes,
                            (i + 1) as nat,
                            count as nat,
                            self.thread_count,
                            self.max_operations_per_block,
                        );
                    }
                    return Err(e);
                },
                Ok(x) => x,
            };
            let ghost before = wire_view(part@);
            part.push(entry);
            proof {
                assert(wire_view(part@) =~= before.push((entry.0, wire_ids(entry.1@))));
            }
            pos = next;
            i += 1;
        }
        Ok((pos, part))
    }
}

/// Once an entry fails, reading more entries fails in the same way.
pub proof fn lemma_entries_error_stays(
    bytes: Seq<u8>,
    failed: nat,
    count: nat,
    thread_count: u8,
    max_ops: u64,
)
    requires
        failed <= count,
        parse_entries(bytes, failed, thread_count, max_ops) is Err,
    ensures
        parse_entries(bytes, count, thread_count, max_ops) == parse_entries(
            bytes,
            failed,
            thread_count,
            max_ops,
        ),
    decreases count,
{
    if failed < count {
        lemma_entries_error_stays(bytes, failed, (count - 1) as nat, thread_count, max_ops);
    }
}

/// Codec round trip. What the serializer writes for a part within the
/// bounds of a deserializer, whatever follows it, the deserializer reads
/// back as that part, and it takes exactly the bytes that were written.
pub proof fn lemma_deserialize_reads_back(
    deserializer: &ExecutedOpsDeserializer,
    value: Seq<(Slot, Vec<OperationId>)>,
    rest: Seq<u8>,
)
    requires
        value.len() <= deserializer.spec_max_executed_ops_length(),
        forall|i: int|
            0 <= i < value.len() ==> (#[trigger] value[i]).0.thread < deserializer.spec_thread_count()
                && value[i].1@.len() <= deserializer.spec_max_operations_per_block(),
    ensures
        deserializer.spec_deserialize(part_bytes(wire_view(value)) + rest) == Ok::<
            (WirePart, int),
            CodecError,
        >((wire_view(value), part_bytes(wire_view(value)).len() as int)),
{
    lemma_part_within_bounds(
        value,
        deserializer.spec_thread_count(),
        deserializer.spec_max_executed_ops_length(),
        deserializer.spec_max_operations_per_block(),
    );
    lemma_part_round_trip(
        wire_view(value),
        deserializer.spec_thread_count(),
        deserializer.spec_max_executed_ops_length(),
        deserializer.spec_max_operations_per_block(),
        rest,
    );
}

} // verus!
