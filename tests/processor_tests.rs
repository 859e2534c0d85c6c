use wave_core::events::WaveEvent;
use wave_core::flow_registry::FlowRegistry;
use wave_core::instruction::WaveInstruction;
use wave_core::processor::{process_instruction, CallContext, RegistryEffect};
use wave_core::pubkey::Pubkey;
use wave_core::verifiers::{Groth16Verifier, MerkleTreeVerifier};
use wave_core::wave_error::WaveError;

const FLOW_ID_1: u64 = 1;
const CIRCUIT_HASH_1: [u8; 32] = [1u8; 32];
const MERKLE_ROOT_1: [u8; 32] = [10u8; 32];
const MERKLE_ROOT_2: [u8; 32] = [20u8; 32];
const NULLIFIER_1: [u8; 32] = [40u8; 32];
const PROOF_1: [u8; 128] = [70u8; 128];
const PUBLIC_INPUTS_1: [u8; 32] = [100u8; 32];
const TIMESTAMP_1: i64 = 1000000;

fn context(signer: bool) -> CallContext {
    CallContext {
        signer,
        signer_key: Pubkey::new_from_array([5u8; 32]),
        system_program_ok: true,
        registry: None,
        target_program: None,
        now: TIMESTAMP_1,
    }
}

#[test]
fn test_init_registry() {
    let instruction = WaveInstruction::InitRegistry {
        flow_id: FLOW_ID_1,
        merkle_root: Some(MERKLE_ROOT_1),
        circuit_hash: CIRCUIT_HASH_1,
        callback_program_id: None,
    };
    let ctx = context(true);
    let result = process_instruction(&ctx, None, None, &instruction.try_to_vec().unwrap());
    assert!(result.is_ok());
    match result.unwrap() {
        (RegistryEffect::SaveRegistry(registry), WaveEvent::FlowRegistered { flow_id, .. }) => {
            let loaded = FlowRegistry::from_bytes(&registry.to_bytes()).unwrap();
            assert_eq!(loaded.flow_id, FLOW_ID_1);
            assert_eq!(loaded.merkle_root, Some(MERKLE_ROOT_1));
            assert_eq!(loaded.circuit_hash, CIRCUIT_HASH_1);
            assert_eq!(loaded.authority, ctx.signer_key);
            assert!(loaded.is_enabled);
            assert_eq!(flow_id, FLOW_ID_1);
        }
        _ => panic!("registration should store a registry"),
    }
}

#[test]
fn test_validate_proof() {
    let instruction = WaveInstruction::ValidateProof {
        proof: PROOF_1.to_vec(),
        public_inputs: PUBLIC_INPUTS_1.to_vec(),
        nullifier: NULLIFIER_1,
    };
    let result = process_instruction(&context(true), None, None, &instruction.try_to_vec().unwrap());
    assert!(result.is_ok());
    match result.unwrap() {
        (RegistryEffect::RecordProof(nullifier, log), WaveEvent::FlowExecuted { nullifier: n, .. }) => {
            assert_eq!(nullifier.hash, NULLIFIER_1);
            assert_eq!(nullifier.timestamp, TIMESTAMP_1);
            assert_eq!(log.nullifier, NULLIFIER_1);
            assert_eq!(log.public_inputs_hash, PUBLIC_INPUTS_1);
            assert_eq!(n, NULLIFIER_1);
        }
        _ => panic!("a proof should be recorded"),
    }
}

#[test]
fn test_set_root() {
    let instruction = WaveInstruction::SetRoot { new_root: MERKLE_ROOT_2 };
    let mut ctx = context(true);
    ctx.registry = Some(FlowRegistry::new(ctx.signer_key, FLOW_ID_1, None, CIRCUIT_HASH_1, None));
    let result = process_instruction(&ctx, None, None, &instruction.try_to_vec().unwrap());
    assert!(result.is_ok());
    match result.unwrap() {
        (RegistryEffect::SaveRegistry(registry), WaveEvent::RootUpdated { flow_id, new_root }) => {
            assert_eq!(registry.merkle_root, Some(MERKLE_ROOT_2));
            assert_eq!(flow_id, FLOW_ID_1);
            assert_eq!(new_root, MERKLE_ROOT_2);
        }
        _ => panic!("the registry should be stored"),
    }
}

#[test]
fn test_trigger_flow() {
    let instruction = WaveInstruction::TriggerFlow { flow_id: FLOW_ID_1, instruction_data: vec![1, 2, 3] };
    let mut ctx = context(true);
    let target = Pubkey::new_from_array([6u8; 32]);
    ctx.target_program = Some(target);
    let result = process_instruction(&ctx, None, None, &instruction.try_to_vec().unwrap());
    assert!(result.is_ok());
    assert!(matches!(
        result.unwrap(),
        (RegistryEffect::Trigger { flow_id: FLOW_ID_1, target_program }, _) if target_program == target
    ));
}

#[test]
fn gate_refusals() {
    let init = WaveInstruction::InitRegistry {
        flow_id: FLOW_ID_1,
        merkle_root: Some([11u8; 32]),
        circuit_hash: CIRCUIT_HASH_1,
        callback_program_id: None,
    }
    .try_to_vec()
    .unwrap();
    let roots = MerkleTreeVerifier::new();
    let proofs = Groth16Verifier::new();
    assert!(matches!(process_instruction(&context(false), None, None, &init), Err(WaveError::Unauthorized)));
    assert!(matches!(process_instruction(&context(true), None, Some(&roots), &init), Err(WaveError::InvalidMerkleRoot)));
    assert!(process_instruction(&context(true), None, None, &init).is_ok());
    let mut no_system = context(true);
    no_system.system_program_ok = false;
    assert!(matches!(process_instruction(&no_system, None, None, &init), Err(WaveError::InvalidAccountData)));

    let zero_circuit = WaveInstruction::InitRegistry {
        flow_id: FLOW_ID_1,
        merkle_root: None,
        circuit_hash: [0u8; 32],
        callback_program_id: None,
    }
    .try_to_vec()
    .unwrap();
    assert!(matches!(process_instruction(&context(true), None, None, &zero_circuit), Err(WaveError::InvalidCircuitHash)));

    let validate = WaveInstruction::ValidateProof {
        proof: PROOF_1.to_vec(),
        public_inputs: PUBLIC_INPUTS_1.to_vec(),
        nullifier: NULLIFIER_1,
    }
    .try_to_vec()
    .unwrap();
    assert!(matches!(process_instruction(&context(true), Some(&proofs), None, &validate), Err(WaveError::InvalidProof)));
    let accepted = WaveInstruction::ValidateProof {
        proof: vec![1u8; 64],
        public_inputs: vec![7u8; 3],
        nullifier: NULLIFIER_1,
    }
    .try_to_vec()
    .unwrap();
    assert!(matches!(process_instruction(&context(true), Some(&proofs), None, &accepted), Err(WaveError::InvalidInstruction)));

    let set_root = WaveInstruction::SetRoot { new_root: MERKLE_ROOT_2 }.try_to_vec().unwrap();
    assert!(matches!(process_instruction(&context(true), None, Some(&roots), &set_root), Err(WaveError::InvalidAccountData)));
    let trigger = WaveInstruction::TriggerFlow { flow_id: 3, instruction_data: vec![] }.try_to_vec().unwrap();
    assert!(matches!(process_instruction(&context(true), None, None, &trigger), Err(WaveError::InvalidAccountData)));
    assert!(matches!(process_instruction(&context(true), None, None, &[7u8, 1]), Err(WaveError::InvalidInstruction)));
}
