use massa_core::operation::OperationId;
use massa_core::ops_codec::{
    read_slot, write_slot, ExecutedOpsDeserializer, ExecutedOpsSerializer,
};
use massa_core::slot::Slot;
use massa_core::varint::{
    read_bounded_varint, read_varint, write_varint, CodecError, MAX_VARINT_LEN,
};

fn encode(value: u64) -> Vec<u8> {
    let mut buffer = Vec::new();
    write_varint(value, &mut buffer);
    buffer
}

fn id(k: u8) -> OperationId {
    OperationId::from_bytes(&[k; 32])
}

#[test]
fn varint_exact_bytes() {
    assert_eq!(encode(0), vec![0x00]);
    assert_eq!(encode(1), vec![0x01]);
    assert_eq!(encode(127), vec![0x7f]);
    assert_eq!(encode(128), vec![0x80, 0x01]);
    assert_eq!(encode(300), vec![0xac, 0x02]);
    assert_eq!(encode(16384), vec![0x80, 0x80, 0x01]);
    assert_eq!(
        encode(u64::MAX),
        vec![0xff, 0xff, 0xff, 0xff, 0xff, 0xff, 0xff, 0xff, 0xff, 0x01]
    );
    assert_eq!(encode(u64::MAX).len(), MAX_VARINT_LEN);
}

#[test]
fn varint_appends_to_what_is_there() {
    let mut buffer = vec![9, 9];
    write_varint(300, &mut buffer);
    assert_eq!(buffer, vec![9, 9, 0xac, 0x02]);
}

fn samples() -> Vec<u64> {
    let mut values = vec![0, 1, 127, 128, 255, 256, 16383, 16384, u64::MAX, u64::MAX - 1];
    for shift in 0..64 {
        values.push(1u64 << shift);
        values.push((1u64 << shift) - 1);
        values.push((1u64 << shift) + 1);
    }
    let mut x: u64 = 0x9e37_79b9_7f4a_7c15;
    for _ in 0..200 {
        x ^= x << 13;
        x ^= x >> 7;
        x ^= x << 17;
        values.push(x);
        values.push(x >> 40);
    }
    values
}

#[test]
fn varint_agrees_with_unsigned_varint() {
    for value in samples() {
        let mut reference = unsigned_varint::encode::u64_buffer();
        let expected = unsigned_varint::encode::u64(value, &mut reference);
        assert_eq!(encode(value), expected.to_vec());
    }
}

#[test]
fn varint_round_trip() {
    for value in samples() {
        let mut buffer = vec![0xaa];
        write_varint(value, &mut buffer);
        let end = buffer.len();
        buffer.extend_from_slice(&[0xff, 0x00, 0x01]);
        assert_eq!(read_varint(&buffer, 1), Ok((value, end)));
        let (reference, rest) = unsigned_varint::decode::u64(&buffer[1..]).unwrap();
        assert_eq!(reference, value);
        assert_eq!(rest.len(), buffer.len() - end);
    }
}

#[test]
fn varint_errors() {
    assert_eq!(read_varint(&[], 0), Err(CodecError::UnexpectedEnd));
    assert_eq!(read_varint(&[0x01], 1), Err(CodecError::UnexpectedEnd));
    assert_eq!(read_varint(&[0x80], 0), Err(CodecError::UnexpectedEnd));
    assert_eq!(
        read_varint(&[0xff, 0xff, 0xff], 0),
        Err(CodecError::UnexpectedEnd)
    );
    assert_eq!(
        read_varint(&[0x80, 0x00], 0),
        Err(CodecError::VarintNotMinimal)
    );
    assert_eq!(
        read_varint(&[0x81, 0x80, 0x00, 0x05], 0),
        Err(CodecError::VarintNotMinimal)
    );
    // ten bytes that all ask for more
    assert_eq!(
        read_varint(&[0x80; 10], 0),
        Err(CodecError::VarintOverflow)
    );
    assert_eq!(
        read_varint(&[0xff; 12], 0),
        Err(CodecError::VarintOverflow)
    );
    // a tenth group that does not fit in 64 bits
    assert_eq!(
        read_varint(
            &[0xff, 0xff, 0xff, 0xff, 0xff, 0xff, 0xff, 0xff, 0xff, 0x02],
            0
        ),
        Err(CodecError::VarintOverflow)
    );
    assert_eq!(
        read_varint(
            &[0x80, 0x80, 0x80, 0x80, 0x80, 0x80, 0x80, 0x80, 0x80, 0x01],
            0
        ),
        Ok((1u64 << 63, 10))
    );
    // a single zero byte is the number zero
    assert_eq!(read_varint(&[0x00, 0x07], 0), Ok((0, 1)));
}

#[test]
fn bounded_varint() {
    assert_eq!(read_bounded_varint(&encode(10), 0, 10), Ok((10, 1)));
    assert_eq!(
        read_bounded_varint(&encode(11), 0, 10),
        Err(CodecError::CodecBounds)
    );
    assert_eq!(
        read_bounded_varint(&[0x80], 0, 10),
        Err(CodecError::UnexpectedEnd)
    );
}

#[test]
fn slot_bytes() {
    let mut buffer = Vec::new();
    write_slot(&Slot::new(300, 5), &mut buffer);
    assert_eq!(buffer, vec![0xac, 0x02, 0x05]);
    assert_eq!(read_slot(&buffer, 0, 6), Ok((Slot::new(300, 5), 3)));
    assert_eq!(read_slot(&buffer, 0, 5), Err(CodecError::InvalidThread));
    assert_eq!(read_slot(&buffer, 0, 0), Err(CodecError::InvalidThread));
    assert_eq!(
        read_slot(&buffer[..2], 0, 6),
        Err(CodecError::UnexpectedEnd)
    );
    assert_eq!(read_slot(&buffer[..1], 0, 6), Err(CodecError::UnexpectedEnd));
}

fn sample_part() -> Vec<(Slot, Vec<OperationId>)> {
    vec![
        (Slot::new(1, 0), vec![id(1), id(2)]),
        (Slot::new(1, 1), vec![]),
        (Slot::new(200, 1), vec![id(3), id(3), id(4)]),
    ]
}

#[test]
fn part_exact_bytes() {
    let mut buffer = vec![0xee];
    ExecutedOpsSerializer::new().serialize(&vec![(Slot::new(300, 1), vec![id(7)])], &mut buffer);
    let mut expected = vec![0xee, 0x01, 0xac, 0x02, 0x01, 0x01];
    expected.extend_from_slice(&[7u8; 32]);
    assert_eq!(buffer, expected);

    let mut empty = Vec::new();
    ExecutedOpsSerializer::new().serialize(&Vec::new(), &mut empty);
    assert_eq!(empty, vec![0x00]);
}

#[test]
fn part_round_trip() {
    let part = sample_part();
    let mut buffer = Vec::new();
    ExecutedOpsSerializer::new().serialize(&part, &mut buffer);
    let written = buffer.len();
    assert_eq!(written, 1 + (2 + 1 + 64) + (2 + 1) + (3 + 1 + 96));
    let deserializer = ExecutedOpsDeserializer::new(2, 3, 3);
    assert_eq!(deserializer.deserialize(&buffer), Ok((written, part.clone())));
    // what follows a part is left alone
    buffer.extend_from_slice(&[1, 2, 3]);
    assert_eq!(deserializer.deserialize(&buffer), Ok((written, part)));
    assert_eq!(
        deserializer.deserialize(&[0x00]),
        Ok((1, Vec::new()))
    );
}

#[test]
fn part_with_too_many_entries_is_out_of_bounds() {
    let max_executed_ops_length = 5u64;
    let mut buffer = Vec::new();
    write_varint(max_executed_ops_length + 1, &mut buffer);
    let deserializer = ExecutedOpsDeserializer::new(2, max_executed_ops_length, 10);
    assert_eq!(
        deserializer.deserialize(&buffer),
        Err(CodecError::CodecBounds)
    );
    // whatever follows the length does not matter
    for k in 0..6u64 {
        write_slot(&Slot::new(k, 0), &mut buffer);
        write_varint(0, &mut buffer);
    }
    assert_eq!(
        deserializer.deserialize(&buffer),
        Err(CodecError::CodecBounds)
    );
    let part = sample_part();
    let mut buffer = Vec::new();
    ExecutedOpsSerializer::new().serialize(&part, &mut buffer);
    assert_eq!(
        ExecutedOpsDeserializer::new(2, 2, 3).deserialize(&buffer),
        Err(CodecError::CodecBounds)
    );
}

#[test]
fn entry_with_too_many_operations_is_out_of_bounds() {
    let part = sample_part();
    let mut buffer = Vec::new();
    ExecutedOpsSerializer::new().serialize(&part, &mut buffer);
    assert_eq!(
        ExecutedOpsDeserializer::new(2, 3, 2).deserialize(&buffer),
        Err(CodecError::CodecBounds)
    );
}

#[test]
fn part_errors() {
    let part = sample_part();
    let mut buffer = Vec::new();
    ExecutedOpsSerializer::new().serialize(&part, &mut buffer);
    let full = buffer.len();
    assert_eq!(
        ExecutedOpsDeserializer::new(1, 3, 3).deserialize(&buffer),
        Err(CodecError::InvalidThread)
    );
    let deserializer = ExecutedOpsDeserializer::new(2, 3, 3);
    for cut in 0..full {
        assert_eq!(
            deserializer.deserialize(&buffer[..cut]),
            Err(CodecError::UnexpectedEnd)
        );
    }
    assert_eq!(
        deserializer.deserialize(&[0x80, 0x00]),
        Err(CodecError::VarintNotMinimal)
    );
    assert_eq!(
        deserializer.deserialize(&[0xff; 11]),
        Err(CodecError::VarintOverflow)
    );
    // an entry that announces more operations than the bytes hold
    assert_eq!(
        deserializer.deserialize(&[0x01, 0x00, 0x00, 0x03, 0x01, 0x02]),
        Err(CodecError::UnexpectedEnd)
    );
}
