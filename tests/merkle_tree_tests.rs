use sha2::{Digest, Sha256};
use wave_core::batch::Batch;
use wave_core::error::{CoreError, MerkleTreeError};
use wave_core::merkle_tree::{BatchStatus, BatchType, MerkleTree};
use wave_core::operation_queue::{Operation, OperationQueue};
use wave_core::pubkey::Pubkey;

fn key(b: u8) -> Pubkey {
    Pubkey::new_from_array([b; 32])
}

fn create_test_tree() -> MerkleTree {
    MerkleTree::new(3, key(7), 1000, true).unwrap()
}

fn leaf(i: u8) -> [u8; 32] {
    let mut l = [0u8; 32];
    l[0] = i;
    l
}

fn sha_pair(a: &[u8; 32], b: &[u8; 32]) -> [u8; 32] {
    let mut h = Sha256::new();
    h.update(a);
    h.update(b);
    h.finalize().into()
}

#[test]
fn test_batch_operations() {
    let mut tree = create_test_tree();
    let processor = key(1);
    let leaves: Vec<[u8; 32]> = (0..3).map(|i| leaf(i as u8)).collect();

    let sequence_number = tree.create_batch(leaves.clone(), processor, BatchType::Standard).unwrap();
    assert_eq!(tree.get_batch_status(sequence_number), Some(BatchStatus::Pending));

    let processed_seq = tree.process_next_batch().unwrap().unwrap();
    assert_eq!(processed_seq, sequence_number);
    assert_eq!(tree.get_batch_status(sequence_number), Some(BatchStatus::Completed));

    for (i, leaf) in leaves.iter().enumerate() {
        let proof = tree.get_proof(i as u64).unwrap();
        assert!(tree.verify(leaf, &proof, i as u64));
    }
}

#[test]
fn test_priority_batches() {
    let mut tree = create_test_tree();
    let processor = key(1);
    let standard_seq = tree.create_batch(vec![[1u8; 32]], processor, BatchType::Standard).unwrap();
    let priority_seq = tree.create_batch(vec![[2u8; 32]], processor, BatchType::Priority).unwrap();

    let standard_batch = tree
        .pending_batches()
        .iter()
        .find(|b| b.sequence_number == standard_seq)
        .unwrap();
    let priority_batch = tree
        .pending_batches()
        .iter()
        .find(|b| b.sequence_number == priority_seq)
        .unwrap();

    assert_eq!(standard_batch.metadata.priority, 0);
    assert_eq!(priority_batch.metadata.priority, 1);
}

#[test]
fn test_finalization() {
    let mut tree = create_test_tree();
    tree.create_batch(vec![[1u8; 32]], key(2), BatchType::Standard).unwrap();
    tree.process_next_batch().unwrap();

    assert!(tree.finalize().is_ok());
    assert!(tree.metadata().is_finalized);

    let result = tree.create_batch(vec![[2u8; 32]], key(3), BatchType::Standard);
    assert!(result.is_err());
    assert_eq!(result, Err(CoreError::FrozenOrFinalized));
}

#[test]
fn example_a_depth_three_tree() {
    let mut tree = create_test_tree();
    for i in 0..3u8 {
        assert_eq!(tree.insert(&leaf(i)), Ok(i as u64));
    }
    let seq = tree.create_batch(vec![leaf(3), leaf(4)], key(1), BatchType::Priority).unwrap();
    assert_eq!(seq, 1);
    assert_eq!(tree.process_next_batch(), Ok(Some(1)));
    assert_eq!(tree.leaf_count, 5);
    let proof = tree.get_proof(0).unwrap();
    assert_eq!(proof.len(), 3);
    assert!(tree.verify(&leaf(0), &proof, 0));
    assert!(!tree.verify(&leaf(0), &proof, 1));
}

#[test]
fn proofs_stay_valid_after_later_inserts() {
    let mut tree = MerkleTree::new(4, key(1), 0, false).unwrap();
    for i in 0..16u8 {
        tree.insert(&leaf(i + 1)).unwrap();
        for j in 0..=i {
            let proof = tree.get_proof(j as u64).unwrap();
            assert_eq!(proof.len(), 4);
            assert!(tree.verify(&leaf(j + 1), &proof, j as u64));
        }
    }
}

#[test]
fn verify_rejects_malformed_proofs() {
    let mut tree = create_test_tree();
    for i in 0..4u8 {
        tree.insert(&leaf(i)).unwrap();
    }
    let proof = tree.get_proof(2).unwrap();
    assert!(tree.verify(&leaf(2), &proof, 2));
    assert!(!tree.verify(&leaf(2), &proof[..2], 2));
    let mut longer = proof.clone();
    longer.push([0u8; 32]);
    assert!(!tree.verify(&leaf(2), &longer, 2));
    for entry in 0..3 {
        for bit in [0usize, 77, 255] {
            let mut tampered = proof.clone();
            tampered[entry][bit / 8] ^= 1 << (bit % 8);
            assert!(!tree.verify(&leaf(2), &tampered, 2));
        }
    }
    assert!(!tree.verify(&leaf(3), &proof, 2));
    assert!(!tree.verify(&leaf(2), &proof, 100));
}

#[test]
fn verify_rejects_unwritten_slot() {
    let mut tree = create_test_tree();
    for i in 0..5u8 {
        tree.insert(&leaf(i)).unwrap();
    }
    // Slot 5 is empty; an all-zero leaf with the siblings of that slot
    // folds to the stored root, yet the slot is not a written leaf.
    let p4 = tree.get_proof(4).unwrap();
    let zero_path = vec![leaf(4), p4[1], p4[2]];
    assert!(!tree.verify(&[0u8; 32], &zero_path, 5));
    let h1 = sha_pair(&leaf(4), &[0u8; 32]);
    let h2 = sha_pair(&h1, &p4[1]);
    assert_eq!(sha_pair(&p4[2], &h2), tree.root);
}

#[test]
fn get_proof_rejects_unwritten_slot() {
    let mut tree = create_test_tree();
    tree.insert(&leaf(0)).unwrap();
    assert_eq!(tree.get_proof(1), Err(CoreError::InvalidArgument));
    assert!(tree.get_proof(0).is_ok());
}

#[test]
fn root_is_hash_of_children() {
    let mut tree = MerkleTree::new(1, key(1), 0, false).unwrap();
    assert_eq!(tree.root, [0u8; 32]);
    tree.insert(&leaf(9)).unwrap();
    assert_eq!(tree.root, sha_pair(&leaf(9), &[0u8; 32]));
    tree.insert(&leaf(4)).unwrap();
    assert_eq!(tree.root, sha_pair(&leaf(9), &leaf(4)));
    let proof = tree.get_proof(1).unwrap();
    assert_eq!(proof, vec![leaf(9)]);
}

#[test]
fn depth_above_maximum_is_refused() {
    assert!(matches!(MerkleTree::new(33, key(1), 0, false), Err(CoreError::InvalidArgument)));
    assert!(MerkleTree::new(0, key(1), 0, false).is_ok());
}

#[test]
fn full_tree_refuses_insert() {
    let mut tree = MerkleTree::new(1, key(1), 0, false).unwrap();
    assert_eq!(tree.insert(&leaf(1)), Ok(0));
    assert_eq!(tree.insert(&leaf(2)), Ok(1));
    let root = tree.root;
    assert_eq!(tree.insert(&leaf(3)), Err(CoreError::CapacityExceeded));
    assert_eq!(tree.leaf_count, 2);
    assert_eq!(tree.root, root);
}

#[test]
fn oversized_batch_is_refused() {
    let mut tree = create_test_tree();
    let leaves = vec![[5u8; 32]; 1025];
    assert_eq!(tree.create_batch(leaves, key(1), BatchType::Standard), Err(CoreError::CapacityExceeded));
    let leaves = vec![[5u8; 32]; 1024];
    assert_eq!(tree.create_batch(leaves, key(1), BatchType::Standard), Ok(1));
}

#[test]
fn batches_run_in_creation_order() {
    let mut tree = create_test_tree();
    assert_eq!(tree.create_batch(vec![leaf(1)], key(1), BatchType::Standard), Ok(1));
    assert_eq!(tree.create_batch(vec![leaf(2)], key(1), BatchType::Priority), Ok(2));
    assert_eq!(tree.create_batch(vec![leaf(3)], key(1), BatchType::Rollover), Ok(3));
    assert_eq!(tree.pending_batches()[2].metadata.priority, 2);
    assert_eq!(tree.process_next_batch(), Ok(Some(1)));
    assert_eq!(tree.create_batch(vec![leaf(4)], key(1), BatchType::Standard), Ok(4));
    assert_eq!(tree.process_next_batch(), Ok(Some(2)));
    assert_eq!(tree.process_next_batch(), Ok(Some(3)));
    assert_eq!(tree.process_next_batch(), Ok(Some(4)));
    assert_eq!(tree.process_next_batch(), Ok(None));
    assert_eq!(tree.get_batch_status(9), None);
    assert_eq!(tree.get_batch_status(0), None);
    let proof = tree.get_proof(1).unwrap();
    assert!(tree.verify(&leaf(2), &proof, 1));
}

#[test]
fn batch_stops_when_tree_fills() {
    let mut tree = MerkleTree::new(1, key(1), 0, false).unwrap();
    let seq = tree.create_batch(vec![leaf(1), leaf(2), leaf(3)], key(1), BatchType::Standard).unwrap();
    assert_eq!(tree.process_next_batch(), Err(CoreError::CapacityExceeded));
    assert_eq!(tree.leaf_count, 2);
    assert_eq!(tree.get_batch_status(seq), Some(BatchStatus::Processing));
    assert!(tree.pending_batches().is_empty());
    assert_eq!(tree.processed_batches().len(), 1);
}

#[test]
fn finalize_waits_for_pending_batches() {
    let mut tree = create_test_tree();
    tree.create_batch(vec![leaf(1)], key(1), BatchType::Standard).unwrap();
    assert_eq!(tree.finalize(), Err(CoreError::InvalidArgument));
    assert!(!tree.metadata().is_finalized);
    assert_eq!(tree.depth(), 3);
}

#[test]
fn test_batch_creation() {
    let processor = key(1);
    let items = vec![[1u8; 32], [2u8; 32]];
    let batch = Batch::new(1, items.clone(), processor);
    assert_eq!(batch.id, 1);
    assert_eq!(batch.items, items);
    assert_eq!(batch.status, BatchStatus::Pending);
}

#[test]
fn test_batch_processing() {
    let mut batch = Batch::new(1, vec![[1u8; 32], [2u8; 32]], key(1));
    assert!(batch.process().is_ok());
    assert_eq!(batch.status, BatchStatus::Completed);
    assert_eq!(batch.process(), Err(CoreError::InvalidArgument));
}

#[test]
fn test_batch_failure() {
    let mut batch = Batch::new(1, vec![[1u8; 32], [2u8; 32]], key(1));
    batch.fail();
    assert_eq!(batch.status, BatchStatus::Failed);
}

#[test]
fn test_queue_operations() {
    let mut queue = OperationQueue::new(2);
    let processor = key(1);
    let op1 = Operation { id: 1, data: vec![1, 2, 3], processor };
    let op2 = Operation { id: 2, data: vec![4, 5, 6], processor };

    assert!(queue.enqueue(op1).is_ok());
    assert!(queue.enqueue(op2).is_ok());
    assert_eq!(queue.len(), 2);

    let op3 = Operation { id: 3, data: vec![7, 8, 9], processor };
    assert!(queue.enqueue(op3).is_err());

    let dequeued = queue.dequeue().unwrap();
    assert_eq!(dequeued.id, 1);
    assert_eq!(queue.len(), 1);
    assert!(!queue.is_empty());
}

#[test]
fn errors_test_error_conversion() {
    assert_eq!(MerkleTreeError::InvalidDepth.code(), 0);
    assert_eq!(MerkleTreeError::BatchProcessingError.code(), 3);
}
