use wave_core::account_state::{AccountType, CompressedAccountMetadata, CompressionAlgorithm};
use wave_core::constants::{FLOW_REGISTRY_SIZE, NULLIFIER_SIZE, PROOF_LOG_SIZE};
use wave_core::events::{EventLogger, WaveEvent};
use wave_core::flow_registry::{FlowRegistry, RegistryManager};
use wave_core::nullifier::{Nullifier, NullifierSet};
use wave_core::proof_log::{ProofHistory, ProofLog};
use wave_core::pubkey::Pubkey;
use wave_core::verifiers::{Groth16Verifier, MerkleTreeVerifier};
use wave_core::wave_error::{TestErrorHandler, WaveError};

const FLOW_ID_1: u64 = 1;
const FLOW_ID_2: u64 = 2;
const FLOW_ID_3: u64 = 3;
const CIRCUIT_HASH_1: [u8; 32] = [1u8; 32];
const CIRCUIT_HASH_2: [u8; 32] = [2u8; 32];
const MERKLE_ROOT_1: [u8; 32] = [10u8; 32];
const MERKLE_ROOT_2: [u8; 32] = [20u8; 32];
const MERKLE_ROOT_3: [u8; 32] = [30u8; 32];
const NULLIFIER_1: [u8; 32] = [40u8; 32];
const NULLIFIER_2: [u8; 32] = [50u8; 32];
const NULLIFIER_3: [u8; 32] = [60u8; 32];
const TIMESTAMP_1: i64 = 1000000;
const TIMESTAMP_2: i64 = 2000000;
const TIMESTAMP_3: i64 = 3000000;
const PROOF_1: [u8; 128] = [70u8; 128];
const PROOF_2: [u8; 128] = [80u8; 128];
const PUBLIC_INPUTS_1: [u8; 32] = [100u8; 32];
const PUBLIC_INPUTS_2: [u8; 32] = [110u8; 32];
const PUBLIC_INPUTS_3: [u8; 32] = [120u8; 32];

#[test]
fn test_constant_uniqueness() {
    assert_ne!(FLOW_ID_1, FLOW_ID_2);
    assert_ne!(CIRCUIT_HASH_1, CIRCUIT_HASH_2);
    assert_ne!(MERKLE_ROOT_1, MERKLE_ROOT_2);
    assert_ne!(NULLIFIER_1, NULLIFIER_2);
    assert_ne!(TIMESTAMP_1, TIMESTAMP_2);
    assert_ne!(PROOF_1, PROOF_2);
    assert_ne!(PUBLIC_INPUTS_1, PUBLIC_INPUTS_2);
    assert_ne!(FLOW_ID_2, FLOW_ID_3);
}

#[test]
fn test_account_sizes() {
    assert!(FLOW_REGISTRY_SIZE >= 1024);
    assert!(NULLIFIER_SIZE >= 128);
    assert!(PROOF_LOG_SIZE >= 256);
    assert!(Nullifier::SIZE <= NULLIFIER_SIZE);
    assert!(ProofLog::SIZE <= PROOF_LOG_SIZE);
    assert!(FlowRegistry::SIZE <= FLOW_REGISTRY_SIZE);
}

#[test]
fn test_nullifier() {
    let nullifier = Nullifier::new(NULLIFIER_1, TIMESTAMP_1, FLOW_ID_1);
    assert_eq!(nullifier.hash, NULLIFIER_1);
    assert_eq!(nullifier.timestamp, TIMESTAMP_1);
    assert_eq!(nullifier.flow_id, FLOW_ID_1);
}

#[test]
fn test_nullifier_set() {
    let mut set = NullifierSet::new();
    set.add(Nullifier::new(NULLIFIER_1, TIMESTAMP_1, FLOW_ID_1));
    set.add(Nullifier::new(NULLIFIER_2, TIMESTAMP_2, FLOW_ID_1));
    set.add(Nullifier::new(NULLIFIER_3, TIMESTAMP_3, FLOW_ID_2));

    assert!(set.exists_hash(&NULLIFIER_1));
    assert!(!set.exists_hash(&[0u8; 32]));

    let found = set.get(&NULLIFIER_1).unwrap();
    assert_eq!(found.flow_id, FLOW_ID_1);

    let flow1_nullifiers = set.get_by_flow(FLOW_ID_1);
    assert_eq!(flow1_nullifiers.len(), 2);
    assert_eq!(flow1_nullifiers[0].flow_id, FLOW_ID_1);
    assert_eq!(flow1_nullifiers[1].flow_id, FLOW_ID_1);

    let flow2_nullifiers = set.get_by_flow(FLOW_ID_2);
    assert_eq!(flow2_nullifiers.len(), 1);
    assert_eq!(flow2_nullifiers[0].flow_id, FLOW_ID_2);
    assert!(set.get(&[0u8; 32]).is_none());
    assert!(set.get_by_flow(FLOW_ID_3).is_empty());
}

#[test]
fn test_proof_log() {
    let log = ProofLog::new(NULLIFIER_1, TIMESTAMP_1, FLOW_ID_1, PUBLIC_INPUTS_1);
    assert_eq!(log.nullifier, NULLIFIER_1);
    assert_eq!(log.timestamp, TIMESTAMP_1);
    assert_eq!(log.flow_id, FLOW_ID_1);
    assert_eq!(log.public_inputs_hash, PUBLIC_INPUTS_1);
}

#[test]
fn test_proof_history() {
    let mut history = ProofHistory::new();
    history.add_log(ProofLog::new(NULLIFIER_1, TIMESTAMP_1, FLOW_ID_1, PUBLIC_INPUTS_1));
    history.add_log(ProofLog::new(NULLIFIER_2, TIMESTAMP_2, FLOW_ID_1, PUBLIC_INPUTS_2));
    history.add_log(ProofLog::new(NULLIFIER_3, TIMESTAMP_3, FLOW_ID_2, PUBLIC_INPUTS_3));

    let flow1_logs = history.get_by_flow(FLOW_ID_1);
    assert_eq!(flow1_logs.len(), 2);
    assert_eq!(flow1_logs[0].flow_id, FLOW_ID_1);
    assert_eq!(flow1_logs[1].flow_id, FLOW_ID_1);

    let nullifier1_logs = history.get_by_nullifier(&NULLIFIER_1);
    assert_eq!(nullifier1_logs.len(), 1);
    assert_eq!(nullifier1_logs[0].nullifier, NULLIFIER_1);

    let timerange_logs = history.get_by_timerange(TIMESTAMP_1, TIMESTAMP_2);
    assert_eq!(timerange_logs.len(), 2);
    assert!(timerange_logs
        .iter()
        .all(|l| l.timestamp >= TIMESTAMP_1 && l.timestamp <= TIMESTAMP_2));
    assert_eq!(history.get_by_timerange(TIMESTAMP_3 + 1, TIMESTAMP_1).len(), 0);
}

#[test]
fn test_flow_registry() {
    let authority = Pubkey::new_from_array([5u8; 32]);
    let registry = FlowRegistry::new(authority, FLOW_ID_1, Some(MERKLE_ROOT_1), CIRCUIT_HASH_1, None);
    assert_eq!(registry.authority, authority);
    assert_eq!(registry.flow_id, FLOW_ID_1);
    assert_eq!(registry.merkle_root, Some(MERKLE_ROOT_1));
    assert_eq!(registry.circuit_hash, CIRCUIT_HASH_1);
    assert!(registry.is_enabled);
}

#[test]
fn test_registry_manager() {
    let mut manager = RegistryManager::new();
    manager.add_registry(FlowRegistry::new(
        Pubkey::new_from_array([1u8; 32]),
        FLOW_ID_1,
        Some(MERKLE_ROOT_1),
        CIRCUIT_HASH_1,
        None,
    ));
    manager.add_registry(FlowRegistry::new(
        Pubkey::new_from_array([2u8; 32]),
        FLOW_ID_2,
        Some(MERKLE_ROOT_2),
        CIRCUIT_HASH_2,
        None,
    ));

    let found = manager.get_by_id(FLOW_ID_1).unwrap();
    assert_eq!(found.flow_id, FLOW_ID_1);

    manager.update_root(FLOW_ID_1, MERKLE_ROOT_3).unwrap();
    let updated = manager.get_by_id(FLOW_ID_1).unwrap();
    assert_eq!(updated.merkle_root, Some(MERKLE_ROOT_3));

    manager.set_enabled(FLOW_ID_1, false).unwrap();
    let disabled = manager.get_by_id(FLOW_ID_1).unwrap();
    assert!(!disabled.is_enabled);
    assert!(manager.get_by_id(FLOW_ID_2).unwrap().is_enabled);

    assert_eq!(manager.update_root(FLOW_ID_3, MERKLE_ROOT_1), Err(WaveError::InvalidAccountData));
    assert_eq!(manager.set_enabled(FLOW_ID_3, true), Err(WaveError::InvalidAccountData));
    assert!(manager.get_by_id(FLOW_ID_3).is_none());
}

#[test]
fn test_error_handler() {
    let mut handler = TestErrorHandler::new();
    let code = handler.handle_error(WaveError::InvalidInstruction);
    assert_eq!(code, 0);
    assert_eq!(handler.error_count, 1);
    assert!(matches!(handler.last_error, Some(WaveError::InvalidInstruction)));
    assert_eq!(handler.handle_error(WaveError::FlowDisabled), 8);
    assert_eq!(handler.error_count, 2);

    handler.clear();
    assert_eq!(handler.error_count, 0);
    assert!(handler.last_error.is_none());
}

#[test]
fn error_test_error_conversion() {
    let errors = vec![
        WaveError::InvalidInstruction,
        WaveError::Unauthorized,
        WaveError::InvalidFlowId,
        WaveError::InvalidCircuitHash,
        WaveError::InvalidMerkleRoot,
        WaveError::InvalidProof,
        WaveError::InvalidNullifier,
        WaveError::NullifierAlreadyUsed,
        WaveError::FlowDisabled,
        WaveError::InvalidCallbackProgram,
        WaveError::InvalidAccountData,
    ];
    for (i, error) in errors.iter().enumerate() {
        assert_eq!(error.code(), i as u32);
    }
}

#[test]
fn test_event_logger() {
    let mut logger = EventLogger::new();
    logger.log(WaveEvent::FlowRegistered {
        flow_id: FLOW_ID_1,
        merkle_root: Some(MERKLE_ROOT_1),
        circuit_hash: CIRCUIT_HASH_1,
    });
    assert_eq!(logger.events.len(), 1);
    logger.clear();
    assert_eq!(logger.events.len(), 0);
}

#[test]
fn verifiers_accept_fixed_lists() {
    let groth = Groth16Verifier::new();
    let mut proof = vec![2u8; 40];
    assert!(groth.verify(&proof));
    proof[31] = 9;
    assert!(!groth.verify(&proof));
    assert!(!groth.verify(&PROOF_1));
    let roots = MerkleTreeVerifier::new();
    assert!(roots.verify(&MERKLE_ROOT_1));
    assert!(roots.verify(&MERKLE_ROOT_3));
    assert!(!roots.verify(&[11u8; 32]));
}

#[test]
fn compression_effective_when_smaller() {
    let mut meta = CompressedAccountMetadata {
        account_type: AccountType::User,
        original_size: 100,
        compressed_size: 40,
        compression_algorithm: CompressionAlgorithm::Lz4,
        compression_level: 1,
        last_accessed: 0,
        access_count: 0,
        compression_time_ms: 0,
        verification_hash: [0u8; 32],
    };
    assert!(meta.is_compression_effective());
    meta.compressed_size = 100;
    assert!(!meta.is_compression_effective());
    meta.compressed_size = 0;
    assert!(!meta.is_compression_effective());
}

#[test]
fn records_round_trip_through_bytes() {
    let n = Nullifier::new(NULLIFIER_2, -5, 77);
    let bytes = n.to_bytes();
    assert_eq!(bytes.len(), Nullifier::SIZE);
    assert_eq!(&bytes[32..40], &(-5i64).to_le_bytes());
    assert_eq!(Nullifier::from_bytes(&bytes), Ok(n));
    assert_eq!(Nullifier::from_bytes(&bytes[..47]), Err(WaveError::InvalidAccountData));

    let l = ProofLog::new(NULLIFIER_1, TIMESTAMP_2, FLOW_ID_2, PUBLIC_INPUTS_3);
    let bytes = l.to_bytes();
    assert_eq!(bytes.len(), ProofLog::SIZE);
    assert_eq!(&bytes[48..], &PUBLIC_INPUTS_3);
    assert_eq!(ProofLog::from_bytes(&bytes), Ok(l));
    let mut longer = bytes.clone();
    longer.push(0);
    assert_eq!(ProofLog::from_bytes(&longer), Err(WaveError::InvalidAccountData));

    let r = FlowRegistry::new(
        Pubkey::new_from_array([8u8; 32]),
        FLOW_ID_3,
        None,
        CIRCUIT_HASH_2,
        Some(Pubkey::new_from_array([9u8; 32])),
    );
    let bytes = r.to_bytes();
    assert_eq!(bytes.len(), 32 + 8 + 1 + 32 + 1 + 33);
    assert_eq!(FlowRegistry::from_bytes(&bytes), Ok(r));
    let mut bad_flag = bytes.clone();
    bad_flag[73] = 2;
    assert_eq!(FlowRegistry::from_bytes(&bad_flag), Err(WaveError::InvalidAccountData));
    let full = FlowRegistry::new(
        Pubkey::new_from_array([1u8; 32]),
        FLOW_ID_1,
        Some(MERKLE_ROOT_1),
        CIRCUIT_HASH_1,
        None,
    );
    let bytes = full.to_bytes();
    assert_eq!(bytes.len(), FlowRegistry::SIZE - 32);
    assert_eq!(FlowRegistry::from_bytes(&bytes), Ok(full));
}
