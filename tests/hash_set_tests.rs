use wave_core::error::{CoreError, HashSetError};
use wave_core::hash_functions::calculate_hash;
use wave_core::hash_set::{OnChainHashSet, OperationType, BUCKET_SIZE};
use wave_core::pubkey::Pubkey;

fn create_test_set() -> OnChainHashSet {
    OnChainHashSet::new(Some(128), Pubkey::new_from_array([9u8; 32]))
}

fn candidate(k: u64) -> [u8; 32] {
    let mut item = [0u8; 32];
    item[..8].copy_from_slice(&k.to_le_bytes());
    item[31] = 0xA5;
    item
}

/// `count` distinct items that all belong to bucket `bucket` of `set`.
fn items_in_bucket(set: &OnChainHashSet, bucket: usize, count: usize) -> Vec<[u8; 32]> {
    let mut out = Vec::new();
    let mut k = 0u64;
    while out.len() < count {
        let item = candidate(k);
        if set.bucket_index(&item) == Some(bucket) {
            out.push(item);
        }
        k += 1;
    }
    out
}

#[test]
fn test_hash_calculation() {
    let item = "test_item";
    let hash1 = calculate_hash(item.as_bytes());
    let hash2 = calculate_hash(item.as_bytes());
    assert_eq!(hash1, hash2);
    assert_ne!(calculate_hash(b"test_item"), calculate_hash(b"test_iten"));
}

#[test]
fn test_basic_operations() {
    let mut set = create_test_set();
    let timestamp = 1000;
    let item1 = [1u8; 32];
    let item2 = [2u8; 32];
    let item3 = [3u8; 32];

    assert!(set.insert(&item1, timestamp).unwrap());
    assert!(set.insert(&item2, timestamp).unwrap());
    assert!(set.insert(&item3, timestamp).unwrap());
    assert_eq!(set.item_count(), 3);

    assert!(set.contains(&item1));
    assert!(set.contains(&item2));
    assert!(set.contains(&item3));
    assert!(!set.contains(&[4u8; 32]));

    assert!(!set.insert(&item1, timestamp).unwrap());
    assert_eq!(set.item_count(), 3);

    assert!(set.remove(&item2, timestamp).unwrap());
    assert_eq!(set.item_count(), 2);
    assert!(!set.contains(&item2));

    // 3 inserts and 1 remove; the duplicate insert changed nothing and is not logged
    let history = set.get_operation_history();
    assert_eq!(history.len(), 4);
    assert_eq!(history[3].op_type, OperationType::Remove);
    assert_eq!(history[3].item, item2);
    assert_eq!(history[3].bucket_index, set.bucket_index(&item2).unwrap());
}

#[test]
fn test_rollover() {
    let mut set = create_test_set();
    let timestamp = 1000;
    let items = items_in_bucket(&set, 1, BUCKET_SIZE);

    for item in &items {
        set.insert(item, timestamp).unwrap();
    }
    assert!(set.is_rollover_active());

    set.process_rollover(timestamp).unwrap();
    for item in &items {
        assert!(set.contains(item));
    }
}

#[test]
fn test_checkpoint() {
    let mut set = create_test_set();
    let timestamp = 1000;
    let item = [1u8; 32];
    set.insert(&item, timestamp).unwrap();
    set.remove(&item, timestamp).unwrap();

    set.checkpoint(timestamp).unwrap();

    assert!(set.get_operation_history().is_empty());
    // insert, remove and the checkpoint entry itself
    assert_eq!(set.last_checkpoint(), 3);
    assert_eq!(set.metadata().total_operations, 3);
}

#[test]
fn test_frozen_state() {
    let mut set = create_test_set();
    let timestamp = 1000;
    let item = [1u8; 32];
    set.insert(&[7u8; 32], timestamp).unwrap();
    set.freeze();

    assert!(set.insert(&item, timestamp).is_err());
    assert!(set.remove(&item, timestamp).is_err());
    assert_eq!(set.insert(&item, timestamp), Err(CoreError::FrozenOrFinalized));
    assert_eq!(set.remove(&[7u8; 32], timestamp), Err(CoreError::FrozenOrFinalized));

    assert!(!set.contains(&item));
    assert!(set.contains(&[7u8; 32]));
    assert_eq!(set.item_count(), 1);
}

#[test]
fn example_b_rollover_of_one_bucket() {
    let mut set = create_test_set();
    assert_eq!(set.bucket_count(), 4);
    let items = items_in_bucket(&set, 2, 32);
    for item in &items {
        assert_eq!(set.insert(item, 5), Ok(true));
    }
    assert!(set.is_rollover_active());
    assert_eq!(set.rollover_items().len(), 16);
    assert_eq!(set.rollover_items(), &items[..16]);
    assert_eq!(set.get_bucket_stats()[2].item_count, 16);

    set.process_rollover(6).unwrap();
    assert_eq!(set.metadata().rollover_count, 1);
    assert!(!set.is_rollover_active());
    assert!(set.rollover_items().is_empty());
    for item in &items {
        assert!(set.contains(item));
    }
    let stats = set.get_bucket_stats();
    assert_eq!(stats[2].item_count, 32);
    assert_eq!(stats[2].operation_count, 48);
    assert_eq!(stats[2].last_modified, 6);
    assert_eq!(stats.iter().map(|s| s.item_count).sum::<usize>(), 32);
    let last = set.get_operation_history().last().unwrap();
    assert_eq!(last.op_type, OperationType::Rollover);
    assert_eq!(set.item_count(), 32);
}

#[test]
fn insert_twice_then_remove() {
    let mut set = create_test_set();
    let x = [42u8; 32];
    let before = set.item_count();
    assert_eq!(set.insert(&x, 1), Ok(true));
    assert_eq!(set.insert(&x, 2), Ok(false));
    assert_eq!(set.item_count(), before + 1);
    assert!(set.contains(&x));
    assert_eq!(set.remove(&x, 3), Ok(true));
    assert!(!set.contains(&x));
    assert_eq!(set.remove(&x, 4), Ok(false));
    assert_eq!(set.item_count(), before);
}

#[test]
fn one_rollover_for_a_full_bucket_and_one_more() {
    let mut set = create_test_set();
    let items = items_in_bucket(&set, 0, BUCKET_SIZE + 1);
    for (i, item) in items.iter().enumerate() {
        assert_eq!(set.insert(item, 10), Ok(true));
        assert_eq!(set.is_rollover_active(), i + 1 >= BUCKET_SIZE);
    }
    assert_eq!(set.rollover_items(), &items[..16]);
    assert_eq!(set.get_bucket_stats()[0].item_count, 17);
    set.process_rollover(11).unwrap();
    assert_eq!(set.metadata().rollover_count, 1);
    for item in &items {
        assert!(set.contains(item));
    }
}

#[test]
fn checkpoint_drains_rollover_and_clears_log() {
    let mut set = create_test_set();
    let items = items_in_bucket(&set, 3, BUCKET_SIZE);
    for item in &items {
        set.insert(item, 1).unwrap();
    }
    assert!(set.is_rollover_active());
    set.checkpoint(2).unwrap();
    assert!(set.get_operation_history().is_empty());
    assert!(!set.is_rollover_active());
    assert_eq!(set.metadata().rollover_count, 1);
    // 32 inserts, the rollover entry and the checkpoint entry
    assert_eq!(set.last_checkpoint(), 34);
    for item in &items {
        assert!(set.contains(item));
    }
    assert!(!set.contains(&[0xEEu8; 32]));
}

#[test]
fn full_set_refuses_insert() {
    let mut set = OnChainHashSet::new(Some(2), Pubkey::new_from_array([1u8; 32]));
    assert_eq!(set.bucket_count(), 1);
    assert_eq!(set.insert(&[1u8; 32], 0), Ok(true));
    assert_eq!(set.insert(&[2u8; 32], 0), Ok(true));
    assert_eq!(set.insert(&[3u8; 32], 0), Err(CoreError::CapacityExceeded));
    assert_eq!(set.insert(&[1u8; 32], 0), Err(CoreError::CapacityExceeded));
    assert_eq!(set.item_count(), 2);
    assert_eq!(set.get_operation_history().len(), 2);
}

#[test]
fn zero_capacity_set_holds_nothing() {
    let mut set = OnChainHashSet::new(Some(0), Pubkey::new_from_array([1u8; 32]));
    assert_eq!(set.bucket_count(), 0);
    assert_eq!(set.bucket_index(&[1u8; 32]), None);
    assert_eq!(set.insert(&[1u8; 32], 0), Err(CoreError::CapacityExceeded));
    assert!(!set.contains(&[1u8; 32]));
    assert_eq!(set.remove(&[1u8; 32], 0), Ok(false));
}

#[test]
fn bucket_count_rounds_up() {
    let set = OnChainHashSet::new(None, Pubkey::new_from_array([1u8; 32]));
    assert_eq!(set.capacity(), 1024);
    assert_eq!(set.bucket_count(), 32);
    let set = OnChainHashSet::new(Some(33), Pubkey::new_from_array([1u8; 32]));
    assert_eq!(set.bucket_count(), 2);
    let set = OnChainHashSet::new(Some(32), Pubkey::new_from_array([1u8; 32]));
    assert_eq!(set.bucket_count(), 1);
}

#[test]
fn remove_reaches_staged_items() {
    let mut set = create_test_set();
    let items = items_in_bucket(&set, 1, BUCKET_SIZE);
    for item in &items {
        set.insert(item, 1).unwrap();
    }
    assert!(set.contains(&items[0]));
    assert_eq!(set.insert(&items[0], 2), Ok(false));
    assert_eq!(set.remove(&items[0], 3), Ok(true));
    assert!(!set.contains(&items[0]));
    assert_eq!(set.rollover_items(), &items[1..16]);
    assert_eq!(set.item_count(), BUCKET_SIZE - 1);
    set.process_rollover(4).unwrap();
    assert!(!set.contains(&items[0]));
    assert_eq!(set.get_bucket_stats()[1].item_count, BUCKET_SIZE - 1);
}

#[test]
fn staging_buffer_bound_refuses_insert() {
    let mut set = OnChainHashSet::new(Some(1024), Pubkey::new_from_array([1u8; 32]));
    let items = items_in_bucket(&set, 5, 218);
    for item in &items[..217] {
        assert_eq!(set.insert(item, 1), Ok(true));
    }
    set.process_rollover(2).unwrap();
    assert_eq!(set.get_bucket_stats()[5].item_count, 217);
    let count = set.item_count();
    let logged = set.get_operation_history().len();
    assert_eq!(set.insert(&items[217], 3), Err(CoreError::CapacityExceeded));
    assert_eq!(set.item_count(), count);
    assert_eq!(set.get_operation_history().len(), logged);
    assert!(!set.contains(&items[217]));
}

#[test]
fn set_errors_test_error_conversion() {
    assert_eq!(HashSetError::ItemNotFound.code(), 0);
    assert_eq!(HashSetError::OperationNotAllowed.code(), 2);
}
