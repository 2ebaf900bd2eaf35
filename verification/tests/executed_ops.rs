use massa_core::executed_ops::{ExecutedOps, ExecutedOpsConfig};
use massa_core::operation::OperationId;
use massa_core::slot::{Slot, SlotError};
use massa_core::streaming_step::StreamingStep;

fn id_of_byte(i: u8) -> OperationId {
    OperationId::new(massa_core::hash::Hash::from_bytes(
        blake3::hash(&[i]).as_bytes(),
    ))
}

fn xor_of(ids: &[OperationId]) -> massa_core::hash::Hash {
    let mut bytes = [0u8; 32];
    for id in ids {
        let b = id.to_bytes();
        for k in 0..32 {
            bytes[k] ^= b[k];
        }
    }
    massa_core::hash::Hash::from_bytes(&bytes)
}

fn zero() -> massa_core::hash::Hash {
    massa_core::hash::Hash::from_bytes(&[0; 32])
}

fn config(part: u64) -> ExecutedOpsConfig {
    ExecutedOpsConfig {
        thread_count: 2,
        bootstrap_part_size: part,
    }
}

#[test]
fn test_executed_ops_xor_computing() {
    // initialize the executed ops and changes
    let config = ExecutedOpsConfig {
        thread_count: 2,
        bootstrap_part_size: 10,
    };
    let mut a = ExecutedOps::new(config.clone());
    let mut c = ExecutedOps::new(config);
    let slot = Slot {
        period: 0,
        thread: 0,
    };
    let mut change_a = Vec::new();
    let mut change_b = Vec::new();
    let mut change_c = Vec::new();
    for i in 0u8..20 {
        if i < 12 {
            change_a.push((id_of_byte(i), slot));
        }
        if i > 8 {
            change_b.push((id_of_byte(i), slot));
        }
        change_c.push((id_of_byte(i), slot));
    }

    // apply change_b to a which performs a.hash ^ $(change_b)
    a.apply_changes(change_a, slot);
    a.apply_changes(change_b, slot);
    c.apply_changes(change_c, slot);

    // check that a.hash ^ $(change_b) = c.hash
    assert_eq!(a.hash(), c.hash());

    // prune every element
    let prune_slot = slot.get_next_slot(2).unwrap();
    a.apply_changes(Vec::new(), prune_slot);
    a.prune(prune_slot);

    // at this point the hash should have been XORed with itself
    assert_eq!(a.hash(), massa_core::hash::Hash::from_bytes(&[0; 32]));
}

#[test]
fn new_ledger_is_empty_with_zero_hash() {
    let ops = ExecutedOps::new(config(10));
    assert_eq!(ops.len(), 0);
    assert!(ops.is_empty());
    assert_eq!(ops.hash(), zero());
    assert!(ops.sorted_ops().is_empty());
    assert!(!ops.contains(&id_of_byte(1)));
    assert_eq!(ops.config(), config(10));
}

#[test]
fn hash_is_xor_of_recorded_operations() {
    let mut ops = ExecutedOps::new(config(10));
    let ids: Vec<OperationId> = (0u8..7).map(id_of_byte).collect();
    let changes = ids
        .iter()
        .enumerate()
        .map(|(k, id)| (*id, Slot::new(k as u64 / 2, (k % 2) as u8)))
        .collect();
    ops.apply_changes(changes, Slot::new(0, 0));
    assert_eq!(ops.hash(), xor_of(&ids));
    assert_eq!(ops.len(), 7);

    // pruning the first two slots takes ids 0 and 1 out of the accumulator
    ops.prune(Slot::new(1, 0));
    assert_eq!(ops.hash(), xor_of(&ids[2..]));
    assert_eq!(ops.len(), 5);
    assert!(!ops.contains(&ids[0]));
    assert!(!ops.contains(&ids[1]));
    assert!(ops.contains(&ids[2]));
}

#[test]
fn flat_set_is_union_of_index_entries() {
    let mut ops = ExecutedOps::new(config(10));
    let mut changes = Vec::new();
    for i in 0u8..30 {
        changes.push((id_of_byte(i), Slot::new((i % 5) as u64, i % 2)));
    }
    ops.apply_changes(changes, Slot::new(2, 0));
    let mut listed = 0;
    let mut previous: Option<Slot> = None;
    for (slot, ids) in ops.sorted_ops() {
        assert!(!ids.is_empty());
        assert!(*slot >= Slot::new(2, 0));
        if let Some(p) = previous {
            assert!(p < *slot);
        }
        previous = Some(*slot);
        for id in ids {
            assert!(ops.contains(id));
            listed += 1;
        }
    }
    assert_eq!(listed, ops.len());
    for i in 0u8..30 {
        let kept = (i % 5) >= 2;
        assert_eq!(ops.contains(&id_of_byte(i)), kept);
    }
}

#[test]
fn reinserting_an_operation_does_not_toggle_the_hash() {
    let mut ops = ExecutedOps::new(config(10));
    let id = id_of_byte(42);
    let slot = Slot::new(3, 1);
    ops.apply_changes(vec![(id, slot)], Slot::new(0, 0));
    let once = ops.hash();
    assert_eq!(once, xor_of(&[id]));
    ops.apply_changes(vec![(id, slot), (id, slot)], Slot::new(0, 0));
    assert_eq!(ops.hash(), once);
    assert_eq!(ops.len(), 1);
    assert_eq!(ops.sorted_ops().len(), 1);
    assert_eq!(ops.sorted_ops()[0].1.len(), 1);
}

#[test]
fn operation_under_two_slots_keeps_the_first() {
    let mut ops = ExecutedOps::new(config(10));
    let id = id_of_byte(7);
    ops.apply_changes(vec![(id, Slot::new(5, 0))], Slot::new(0, 0));
    ops.apply_changes(vec![(id, Slot::new(9, 1))], Slot::new(0, 0));
    assert_eq!(ops.sorted_ops().len(), 1);
    assert_eq!(ops.sorted_ops()[0].0, Slot::new(5, 0));
    assert_eq!(ops.hash(), xor_of(&[id]));
    // once the first slot expires the operation is gone for good
    ops.prune(Slot::new(6, 0));
    assert!(ops.is_empty());
    assert_eq!(ops.hash(), zero());
    assert!(ops.sorted_ops().is_empty());
}

#[test]
fn pruning_at_or_below_the_minimum_is_a_no_op() {
    let mut ops = ExecutedOps::new(config(10));
    let changes: Vec<_> = (0u8..6)
        .map(|i| (id_of_byte(i), Slot::new(4 + i as u64, 0)))
        .collect();
    ops.apply_changes(changes, Slot::new(0, 0));
    let hash = ops.hash();
    let index = ops.sorted_ops().clone();
    ops.prune(Slot::new(4, 0));
    assert_eq!(ops.hash(), hash);
    assert_eq!(ops.sorted_ops(), &index);
    ops.prune(Slot::new(1, 1));
    assert_eq!(ops.hash(), hash);
    assert_eq!(ops.sorted_ops(), &index);
    assert_eq!(ops.len(), 6);
}

#[test]
fn operation_that_expires_before_the_current_slot_leaves_no_trace() {
    let mut ops = ExecutedOps::new(config(10));
    let kept = id_of_byte(1);
    let gone = id_of_byte(2);
    ops.apply_changes(
        vec![(gone, Slot::new(1, 0)), (kept, Slot::new(8, 0))],
        Slot::new(3, 0),
    );
    assert!(!ops.contains(&gone));
    assert!(ops.contains(&kept));
    assert_eq!(ops.hash(), xor_of(&[kept]));
    assert_eq!(ops.sorted_ops().len(), 1);
}

#[test]
fn pruning_is_monotone() {
    let changes: Vec<_> = (0u8..40)
        .map(|i| (id_of_byte(i), Slot::new((i / 4) as u64, i % 2)))
        .collect();
    let t1 = Slot::new(3, 1);
    let t2 = Slot::new(6, 0);
    let mut two_steps = ExecutedOps::new(config(10));
    two_steps.apply_changes(changes.clone(), Slot::new(0, 0));
    two_steps.prune(t1);
    two_steps.prune(t2);
    let mut one_step = ExecutedOps::new(config(10));
    one_step.apply_changes(changes, Slot::new(0, 0));
    one_step.prune(t2);
    assert_eq!(two_steps.hash(), one_step.hash());
    assert_eq!(two_steps.sorted_ops(), one_step.sorted_ops());
    assert_eq!(two_steps.len(), one_step.len());
}

fn ledger_of(entries: u64, part: u64) -> ExecutedOps {
    let mut ops = ExecutedOps::new(config(part));
    let mut changes = Vec::new();
    for k in 0..entries {
        let slot = Slot::new(k / 2, (k % 2) as u8);
        changes.push((id_of_byte((2 * k) as u8), slot));
        changes.push((id_of_byte((2 * k + 1) as u8), slot));
    }
    ops.apply_changes(changes, Slot::new(0, 0));
    ops
}

#[test]
fn streaming_in_three_parts_and_back() {
    let source = ledger_of(25, 10);
    assert_eq!(source.sorted_ops().len(), 25);

    let (first, cursor) = source.get_executed_ops_part(StreamingStep::Started);
    assert_eq!(first.len(), 10);
    assert_eq!(cursor, StreamingStep::Ongoing(Slot::new(4, 1)));
    let (second, cursor) = source.get_executed_ops_part(cursor);
    assert_eq!(second.len(), 10);
    assert_eq!(cursor, StreamingStep::Ongoing(Slot::new(9, 1)));
    let (third, cursor) = source.get_executed_ops_part(cursor);
    assert_eq!(third.len(), 5);
    assert_eq!(cursor, StreamingStep::Ongoing(Slot::new(12, 0)));
    let (fourth, cursor) = source.get_executed_ops_part(cursor);
    assert!(fourth.is_empty());
    assert_eq!(cursor, StreamingStep::Finished);
    let (fifth, cursor) = source.get_executed_ops_part(cursor);
    assert!(fifth.is_empty());
    assert_eq!(cursor, StreamingStep::Finished);

    let mut target = ExecutedOps::new(config(10));
    assert_eq!(
        target.set_executed_ops_part(first),
        StreamingStep::Ongoing(Slot::new(4, 1))
    );
    assert_eq!(
        target.set_executed_ops_part(second),
        StreamingStep::Ongoing(Slot::new(9, 1))
    );
    assert_eq!(
        target.set_executed_ops_part(third),
        StreamingStep::Ongoing(Slot::new(12, 0))
    );
    assert_eq!(target.hash(), source.hash());
    assert_eq!(target.sorted_ops(), source.sorted_ops());
    assert_eq!(target.len(), source.len());
}

#[test]
fn streaming_round_trip_for_every_part_size() {
    for part in 1..8u64 {
        let source = ledger_of(13, part);
        let mut target = ExecutedOps::new(config(part));
        let mut cursor = StreamingStep::Started;
        let mut rounds = 0;
        loop {
            let (chunk, next) = source.get_executed_ops_part(cursor);
            assert!(chunk.len() as u64 <= part);
            target.set_executed_ops_part(chunk);
            cursor = next;
            rounds += 1;
            if cursor.finished() {
                break;
            }
        }
        assert_eq!(rounds, (13 + part - 1) / part + 1);
        assert_eq!(target.hash(), source.hash());
        assert_eq!(target.sorted_ops(), source.sorted_ops());
    }
}

#[test]
fn streaming_resumes_after_a_slot_that_is_not_recorded() {
    let mut ops = ExecutedOps::new(config(2));
    let changes: Vec<_> = [1u64, 3, 5, 7]
        .iter()
        .map(|p| (id_of_byte(*p as u8), Slot::new(*p, 0)))
        .collect();
    ops.apply_changes(changes, Slot::new(0, 0));
    let (part, cursor) = ops.get_executed_ops_part(StreamingStep::Ongoing(Slot::new(4, 0)));
    assert_eq!(part.len(), 2);
    assert_eq!(part[0].0, Slot::new(5, 0));
    assert_eq!(part[1].0, Slot::new(7, 0));
    assert_eq!(cursor, StreamingStep::Ongoing(Slot::new(7, 0)));
    let (part, cursor) = ops.get_executed_ops_part(StreamingStep::Ongoing(Slot::new(7, 0)));
    assert!(part.is_empty());
    assert_eq!(cursor, StreamingStep::Finished);
}

#[test]
fn part_size_zero_sends_nothing() {
    let ops = ledger_of(3, 0);
    let (part, cursor) = ops.get_executed_ops_part(StreamingStep::Started);
    assert!(part.is_empty());
    assert_eq!(cursor, StreamingStep::Finished);
}

#[test]
fn setting_a_part_merges_with_what_is_there() {
    let a = id_of_byte(1);
    let b = id_of_byte(2);
    let c = id_of_byte(3);
    let mut ops = ExecutedOps::new(config(10));
    assert_eq!(
        ops.set_executed_ops_part(Vec::new()),
        StreamingStep::Finished
    );
    ops.apply_changes(vec![(a, Slot::new(2, 0))], Slot::new(0, 0));
    let next = ops.set_executed_ops_part(vec![
        (Slot::new(1, 0), vec![c]),
        (Slot::new(2, 0), vec![a, b, b]),
        (Slot::new(3, 0), vec![a]),
    ]);
    assert_eq!(next, StreamingStep::Ongoing(Slot::new(2, 0)));
    assert_eq!(ops.len(), 3);
    assert_eq!(ops.hash(), xor_of(&[a, b, c]));
    assert_eq!(
        ops.sorted_ops(),
        &vec![(Slot::new(1, 0), vec![c]), (Slot::new(2, 0), vec![a, b])]
    );
}

#[test]
fn next_slot_values() {
    assert_eq!(Slot::new(0, 0).get_next_slot(2), Ok(Slot::new(0, 1)));
    assert_eq!(Slot::new(0, 1).get_next_slot(2), Ok(Slot::new(1, 0)));
    assert_eq!(Slot::new(7, 30).get_next_slot(32), Ok(Slot::new(7, 31)));
    assert_eq!(Slot::new(7, 31).get_next_slot(32), Ok(Slot::new(8, 0)));
    assert_eq!(Slot::new(7, 255).get_next_slot(255), Ok(Slot::new(8, 0)));
    assert_eq!(
        Slot::new(u64::MAX, 1).get_next_slot(2),
        Err(SlotError::PeriodOverflow)
    );
    assert_eq!(
        Slot::new(u64::MAX, 0).get_next_slot(2),
        Ok(Slot::new(u64::MAX, 1))
    );
}

#[test]
fn slots_are_ordered_by_period_then_thread() {
    assert!(Slot::new(1, 5).is_before(&Slot::new(2, 0)));
    assert!(Slot::new(2, 0).is_before(&Slot::new(2, 1)));
    assert!(!Slot::new(2, 1).is_before(&Slot::new(2, 1)));
    assert!(!Slot::new(3, 0).is_before(&Slot::new(2, 9)));
}

#[test]
fn hash_xor_values() {
    let a = massa_core::hash::Hash::from_bytes(&[0x0f; 32]);
    let b = massa_core::hash::Hash::from_bytes(&[0xf1; 32]);
    assert_eq!(a.xor(&b).to_bytes(), [0xfe; 32]);
    assert_eq!(a.xor(&a), zero());
    assert_eq!(a.xor(&zero()), a);
    assert!(a.equals(&a));
    assert!(!a.equals(&b));
    assert_eq!(massa_core::hash::Hash::zero(), zero());
}

#[test]
fn clone_is_a_ledger_of_its_own() {
    let mut source = ledger_of(4, 10);
    let copy = source.clone();
    assert_eq!(copy.hash(), source.hash());
    assert_eq!(copy.sorted_ops(), source.sorted_ops());
    assert_eq!(copy.len(), source.len());
    source.prune(Slot::new(1, 0));
    assert_eq!(copy.len(), 8);
    assert_eq!(source.len(), 4);
    assert!(copy.contains(&id_of_byte(0)));
    assert!(!source.contains(&id_of_byte(0)));
}
