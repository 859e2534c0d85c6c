use wave_core::instruction::{InstructionProcessor, WaveInstruction};
use wave_core::pubkey::Pubkey;
use wave_core::wave_error::WaveError;

const FLOW_ID_1: u64 = 1;
const FLOW_ID_2: u64 = 2;
const CIRCUIT_HASH_1: [u8; 32] = [1u8; 32];
const MERKLE_ROOT_1: [u8; 32] = [10u8; 32];
const MERKLE_ROOT_2: [u8; 32] = [20u8; 32];
const NULLIFIER_1: [u8; 32] = [40u8; 32];
const PROOF_1: [u8; 128] = [70u8; 128];
const PUBLIC_INPUTS_1: [u8; 32] = [100u8; 32];

#[test]
fn test_instruction_processing() {
    let mut processor = InstructionProcessor::new();
    let instruction = WaveInstruction::InitRegistry {
        flow_id: FLOW_ID_1,
        merkle_root: Some(MERKLE_ROOT_1),
        circuit_hash: CIRCUIT_HASH_1,
        callback_program_id: None,
    };
    let instruction_data = instruction.try_to_vec().unwrap();
    let program_id = Pubkey::new_from_array([3u8; 32]);

    assert!(processor.process_instruction(&program_id, &instruction_data).is_ok());
    assert_eq!(processor.instruction_count, 1);

    processor.set_success(false);
    assert!(processor.process_instruction(&program_id, &instruction_data).is_err());

    processor.clear();
    assert_eq!(processor.instruction_count, 0);
    assert!(processor.success);

    assert_eq!(processor.process_instruction(&program_id, &[9u8]), Err(WaveError::InvalidInstruction));
    assert_eq!(processor.instruction_count, 0);
}

#[test]
fn test_instruction_serialization() {
    let instructions = vec![
        WaveInstruction::InitRegistry {
            flow_id: FLOW_ID_1,
            merkle_root: Some(MERKLE_ROOT_1),
            circuit_hash: CIRCUIT_HASH_1,
            callback_program_id: None,
        },
        WaveInstruction::SetRoot { new_root: MERKLE_ROOT_2 },
        WaveInstruction::ValidateProof {
            proof: PROOF_1.to_vec(),
            public_inputs: PUBLIC_INPUTS_1.to_vec(),
            nullifier: NULLIFIER_1,
        },
        WaveInstruction::TriggerFlow { flow_id: FLOW_ID_2, instruction_data: vec![1, 2, 3] },
    ];

    for instruction in instructions {
        let serialized = instruction.try_to_vec().unwrap();
        let deserialized = WaveInstruction::try_from_slice(&serialized).unwrap();

        match (instruction, deserialized) {
            (
                WaveInstruction::InitRegistry { flow_id: f1, merkle_root: m1, circuit_hash: c1, callback_program_id: p1 },
                WaveInstruction::InitRegistry { flow_id: f2, merkle_root: m2, circuit_hash: c2, callback_program_id: p2 },
            ) => {
                assert_eq!(f1, f2);
                assert_eq!(m1, m2);
                assert_eq!(c1, c2);
                assert_eq!(p1, p2);
            }
            (WaveInstruction::SetRoot { new_root: r1 }, WaveInstruction::SetRoot { new_root: r2 }) => {
                assert_eq!(r1, r2);
            }
            (
                WaveInstruction::ValidateProof { proof: p1, public_inputs: i1, nullifier: n1 },
                WaveInstruction::ValidateProof { proof: p2, public_inputs: i2, nullifier: n2 },
            ) => {
                assert_eq!(p1, p2);
                assert_eq!(i1, i2);
                assert_eq!(n1, n2);
            }
            (
                WaveInstruction::TriggerFlow { flow_id: f1, instruction_data: d1 },
                WaveInstruction::TriggerFlow { flow_id: f2, instruction_data: d2 },
            ) => {
                assert_eq!(f1, f2);
                assert_eq!(d1, d2);
            }
            _ => panic!("Instructions don't match after serialization/deserialization"),
        }
    }
}

#[test]
fn encoding_layout_is_exact() {
    let bytes = WaveInstruction::TriggerFlow { flow_id: 0x0102, instruction_data: vec![7, 8] }
        .try_to_vec()
        .unwrap();
    assert_eq!(bytes, vec![3, 2, 1, 0, 0, 0, 0, 0, 0, 2, 0, 0, 0, 7, 8]);
    let bytes = WaveInstruction::InitRegistry {
        flow_id: 5,
        merkle_root: None,
        circuit_hash: [9u8; 32],
        callback_program_id: Some([4u8; 32]),
    }
    .try_to_vec()
    .unwrap();
    assert_eq!(bytes.len(), 1 + 8 + 1 + 32 + 33);
    assert_eq!(&bytes[..10], &[0, 5, 0, 0, 0, 0, 0, 0, 0, 0]);
    assert_eq!(bytes[42], 1);
}

#[test]
fn malformed_records_are_refused() {
    let good = WaveInstruction::SetRoot { new_root: [1u8; 32] }.try_to_vec().unwrap();
    assert!(WaveInstruction::try_from_slice(&good).is_ok());
    assert!(WaveInstruction::try_from_slice(&[]).is_err());
    assert!(WaveInstruction::try_from_slice(&[4u8]).is_err());
    assert!(WaveInstruction::try_from_slice(&good[..32]).is_err());
    let mut longer = good.clone();
    longer.push(0);
    assert!(matches!(WaveInstruction::try_from_slice(&longer), Err(WaveError::InvalidInstruction)));
    let mut init = WaveInstruction::InitRegistry {
        flow_id: 1,
        merkle_root: None,
        circuit_hash: [2u8; 32],
        callback_program_id: None,
    }
    .try_to_vec()
    .unwrap();
    assert!(WaveInstruction::try_from_slice(&init).is_ok());
    init[9] = 2;
    assert!(WaveInstruction::try_from_slice(&init).is_err());
    let mut blob = WaveInstruction::TriggerFlow { flow_id: 1, instruction_data: vec![1, 2, 3] }
        .try_to_vec()
        .unwrap();
    blob[9] = 4;
    assert!(WaveInstruction::try_from_slice(&blob).is_err());
}
