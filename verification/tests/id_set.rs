use massa_core::id_set::{position_of, OperationIdSet};
use massa_core::operation::OperationId;

fn id(first: u8, last: u8) -> OperationId {
    let mut bytes = [0u8; 32];
    bytes[0] = first;
    bytes[31] = last;
    OperationId::from_bytes(&bytes)
}

#[test]
fn insert_contains_remove() {
    let mut set = OperationIdSet::new();
    assert!(set.is_empty());
    assert!(set.insert(id(1, 1)));
    assert!(!set.insert(id(1, 1)));
    // same bucket, other identifier
    assert!(set.insert(id(1, 2)));
    assert!(set.insert(id(2, 1)));
    assert_eq!(set.len(), 3);
    assert!(set.contains(&id(1, 1)));
    assert!(set.contains(&id(1, 2)));
    assert!(!set.contains(&id(1, 3)));
    assert!(set.remove(&id(1, 1)));
    assert!(!set.remove(&id(1, 1)));
    assert!(!set.remove(&id(9, 9)));
    assert!(!set.contains(&id(1, 1)));
    assert!(set.contains(&id(1, 2)));
    assert_eq!(set.len(), 2);
    assert!(set.remove(&id(1, 2)));
    assert!(set.remove(&id(2, 1)));
    assert!(set.is_empty());
    assert_eq!(set.len(), 0);
}

#[test]
fn position_of_finds_the_first_place() {
    let ids = vec![id(1, 1), id(2, 2), id(3, 3)];
    assert_eq!(position_of(&ids, &id(2, 2)), Some(1));
    assert_eq!(position_of(&ids, &id(1, 1)), Some(0));
    assert_eq!(position_of(&ids, &id(4, 4)), None);
}

#[test]
fn operation_id_bytes() {
    let mut bytes = [0u8; 32];
    for k in 0..32 {
        bytes[k] = k as u8;
    }
    let id = OperationId::from_bytes(&bytes);
    assert_eq!(id.to_bytes(), bytes);
    assert_eq!(id.get_hash().to_bytes(), bytes);
    assert_eq!(OperationId::new(*id.get_hash()), id);
    assert!(id.equals(&OperationId::from_bytes(&bytes)));
}
