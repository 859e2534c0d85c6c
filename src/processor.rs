//! Processing of registry instructions: what a call may do, decided from its
//! instruction bytes and what the runtime reports about its accounts.
//!
//! Reading and writing accounts is left to the runtime; this module says
//! which records to store and which event to report, or why the call is
//! refused.
use crate::events::WaveEvent;
use crate::flow_registry::FlowRegistry;
use crate::instruction::{encodable, encoding, is_encoding, lemma_round_trip, same_instruction, WaveInstruction};
use crate::nullifier::Nullifier;
use crate::proof_log::ProofLog;
use crate::pubkey::Pubkey;
use crate::verifiers::{Groth16Verifier, MerkleTreeVerifier};
use crate::wave_error::WaveError;
use vstd::prelude::*;

verus! {

/// What the runtime reports about the accounts of a call.
#[derive(Clone, Copy, Debug)]
pub struct CallContext {
    /// The first account (authority or payer) signed the call.
    pub signer: bool,
    /// Key of the first account.
    pub signer_key: Pubkey,
    /// The account passed as system program is the system program.
    pub system_program_ok: bool,
    /// The registry stored in the registry account, when it decodes.
    pub registry: Option<FlowRegistry>,
    /// Key of the program to trigger, when that account is present.
    pub target_program: Option<Pubkey>,
    /// Current time.
    pub now: i64,
}

/// Records an accepted call stores.
#[derive(Clone, Copy, Debug)]
pub enum RegistryEffect {
    /// Write this registry to the registry account.
    SaveRegistry(FlowRegistry),
    /// Write the nullifier and the proof log to their accounts.
    RecordProof(Nullifier, ProofLog),
    /// Call the target program of the flow.
    Trigger { flow_id: u64, target_program: Pubkey },
}

/// The all-zero 32-byte value.
pub open spec fn zero_bytes() -> Seq<u8> {
    Seq::new(32, |i: int| 0u8)
}

/// The proof check is configured and refuses the proof: too short, or its
/// first 32 bytes are not accepted.
pub open spec fn proof_rejected(pv: Option<&Groth16Verifier>, proof: Seq<u8>) -> bool {
    match pv {
        Some(v) => proof.len() < 32 || !v.accepted().contains(proof.subrange(0, 32)),
        None => false,
    }
}

/// The root check is configured and refuses the root.
pub open spec fn root_rejected(rv: Option<&MerkleTreeVerifier>, root: Option<[u8; 32]>) -> bool {
    match (rv, root) {
        (Some(v), Some(r)) => !v.valid().contains(r@),
        _ => false,
    }
}

pub open spec fn pubkey_of(o: Option<[u8; 32]>) -> Option<Pubkey> {
    match o {
        Some(k) => Some(Pubkey { bytes: k }),
        None => None,
    }
}

/// What a call with one instruction comes to.
pub open spec fn call_outcome(
    ctx: CallContext,
    pv: Option<&Groth16Verifier>,
    rv: Option<&MerkleTreeVerifier>,
    ins: WaveInstruction,
    r: Result<(RegistryEffect, WaveEvent), WaveError>,
) -> bool {
    match ins {
        WaveInstruction::InitRegistry { flow_id, merkle_root, circuit_hash, callback_program_id } => {
            if !ctx.signer {
                r == Err::<(RegistryEffect, WaveEvent), WaveError>(WaveError::Unauthorized)
            } else if !ctx.system_program_ok {
                r == Err::<(RegistryEffect, WaveEvent), WaveError>(WaveError::InvalidAccountData)
            } else if circuit_hash@ == zero_bytes() {
                r == Err::<(RegistryEffect, WaveEvent), WaveError>(WaveError::InvalidCircuitHash)
            } else if root_rejected(rv, merkle_root) {
                r == Err::<(RegistryEffect, WaveEvent), WaveError>(WaveError::InvalidMerkleRoot)
            } else {
                r == Ok::<(RegistryEffect, WaveEvent), WaveError>(
                    (
                        RegistryEffect::SaveRegistry(
                            FlowRegistry {
                                authority: ctx.signer_key,
                                flow_id,
                                merkle_root,
                                circuit_hash,
                                is_enabled: true,
                                callback_program_id: pubkey_of(callback_program_id),
                            },
                        ),
                        WaveEvent::FlowRegistered { flow_id, merkle_root, circuit_hash },
                    ),
                )
            }
        },
        WaveInstruction::SetRoot { new_root } => {
            if !ctx.signer {
                r == Err::<(RegistryEffect, WaveEvent), WaveError>(WaveError::Unauthorized)
            } else if root_rejected(rv, Some(new_root)) {
                r == Err::<(RegistryEffect, WaveEvent), WaveError>(WaveError::InvalidMerkleRoot)
            } else {
                match ctx.registry {
                    None => r == Err::<(RegistryEffect, WaveEvent), WaveError>(
                        WaveError::InvalidAccountData,
                    ),
                    Some(reg) => r == Ok::<(RegistryEffect, WaveEvent), WaveError>(
                        (
                            RegistryEffect::SaveRegistry(
                                FlowRegistry { merkle_root: Some(new_root), ..reg },
                            ),
                            WaveEvent::RootUpdated { flow_id: reg.flow_id, new_root },
                        ),
                    ),
                }
            }
        },
        WaveInstruction::ValidateProof { proof, public_inputs, nullifier } => {
            if !ctx.signer {
                r == Err::<(RegistryEffect, WaveEvent), WaveError>(WaveError::Unauthorized)
            } else if proof_rejected(pv, proof@) {
                r == Err::<(RegistryEffect, WaveEvent), WaveError>(WaveError::InvalidProof)
            } else if public_inputs@.len() < 32 {
                r == Err::<(RegistryEffect, WaveEvent), WaveError>(WaveError::InvalidInstruction)
            } else {
                match r {
                    Ok((RegistryEffect::RecordProof(n, l), WaveEvent::FlowExecuted { flow_id, nullifier: nn })) => {
                        &&& n == (Nullifier { hash: nullifier, timestamp: ctx.now, flow_id: 0 })
                        &&& l.nullifier == nullifier
                        &&& l.timestamp == ctx.now
                        &&& l.flow_id == 0
                        &&& l.public_inputs_hash@ == public_inputs@.subrange(0, 32)
                        &&& flow_id == 0
                        &&& nn == nullifier
                    },
                    _ => false,
                }
            }
        },
        WaveInstruction::TriggerFlow { flow_id, .. } => {
            if !ctx.signer {
                r == Err::<(RegistryEffect, WaveEvent), WaveError>(WaveError::Unauthorized)
            } else {
                match ctx.target_program {
                    None => r == Err::<(RegistryEffect, WaveEvent), WaveError>(
                        WaveError::InvalidAccountData,
                    ),
                    Some(t) => r == Ok::<(RegistryEffect, WaveEvent), WaveError>(
                        (
                            RegistryEffect::Trigger { flow_id, target_program: t },
                            WaveEvent::FlowTriggered { flow_id, target_program: t },
                        ),
                    ),
                }
            }
        },
    }
}

/// Instructions that agree field by field get the same answer.
proof fn lemma_outcome_respects_same(
    ctx: CallContext,
    pv: Option<&Groth16Verifier>,
    rv: Option<&MerkleTreeVerifier>,
    a: WaveInstruction,
    b: WaveInstruction,
    r: Result<(RegistryEffect, WaveEvent), WaveError>,
)
    requires
        same_instruction(a, b),
        call_outcome(ctx, pv, rv, a, r),
    ensures
        call_outcome(ctx, pv, rv, b, r),
{
}

/// Whether every byte of the value is zero.
fn is_zero(a: &[u8; 32]) -> (r: bool)
    ensures
        r == (a@ == zero_bytes()),
{
    let mut i: usize = 0;
    while i < 32
        invariant
            i <= 32,
            forall|k: int| 0 <= k < i ==> a@[k] == 0u8,
        decreases 32 - i,
    {
        if a[i] != 0 {
            return false;
        }
        i = i + 1;
    }
    assert(a@ =~= zero_bytes());
    true
}

/// Whether a configured root check refuses the root.
fn check_root(rv: Option<&MerkleTreeVerifier>, root: &Option<[u8; 32]>) -> (r: bool)
    ensures
        r == root_rejected(rv, *root),
{
    match (rv, root) {
        (Some(v), Some(k)) => !v.verify(k),
        _ => false,
    }
}

/// Decides a registry call. A record that is not an instruction is refused
/// with `InvalidInstruction`. Every instruction needs the first account to
/// have signed (`Unauthorized`). A registration also needs the system
/// program account (`InvalidAccountData`), a non-zero circuit hash
/// (`InvalidCircuitHash`) and a root the root check accepts
/// (`InvalidMerkleRoot`), and stores a new enabled registry. A root update
/// needs an accepted root and a stored registry (`InvalidAccountData`) and
/// stores it with the new root. A proof needs the proof check to accept it
/// (`InvalidProof`) and at least 32 bytes of public inputs
/// (`InvalidInstruction`), and records the nullifier and a proof log at the
/// current time. A trigger needs the target program account. The checks run
/// only when a verifier is given.
pub fn process_instruction(
    ctx: &CallContext,
    proof_verifier: Option<&Groth16Verifier>,
    root_verifier: Option<&MerkleTreeVerifier>,
    instruction_data: &[u8],
) -> (r: Result<(RegistryEffect, WaveEvent), WaveError>)
    ensures
        !is_encoding(instruction_data@) ==> r == Err::<(RegistryEffect, WaveEvent), WaveError>(
            WaveError::InvalidInstruction,
        ),
        forall|ins: WaveInstruction|
            encodable(ins) && encoding(ins) == instruction_data@ ==> call_outcome(
                *ctx,
                proof_verifier,
                root_verifier,
                ins,
                r,
            ),
{
    let instruction = match WaveInstruction::try_from_slice(instruction_data) {
        Ok(ins) => ins,
        Err(_) => {
            return Err(WaveError::InvalidInstruction);
        },
    };
    let ghost decoded = instruction;
    let r = match instruction {
        WaveInstruction::InitRegistry { flow_id, merkle_root, circuit_hash, callback_program_id } => {
            if !ctx.signer {
                Err(WaveError::Unauthorized)
            } else if !ctx.system_program_ok {
                Err(WaveError::InvalidAccountData)
            } else if is_zero(&circuit_hash) {
                Err(WaveError::InvalidCircuitHash)
            } else if check_root(root_verifier, &merkle_root) {
                Err(WaveError::InvalidMerkleRoot)
            } else {
                let callback = match callback_program_id {
                    Some(k) => Some(Pubkey::new_from_array(k)),
                    None => None,
                };
                let registry = FlowRegistry::new(
                    ctx.signer_key,
                    flow_id,
                    merkle_root,
                    circuit_hash,
                    callback,
                );
                Ok(
                    (
                        RegistryEffect::SaveRegistry(registry),
                        WaveEvent::FlowRegistered { flow_id, merkle_root, circuit_hash },
                    ),
                )
            }
        },
        WaveInstruction::SetRoot { new_root } => {
            if !ctx.signer {
                Err(WaveError::Unauthorized)
            } else if check_root(root_verifier, &Some(new_root)) {
                Err(WaveError::InvalidMerkleRoot)
            } else {
                match ctx.registry {
                    None => Err(WaveError::InvalidAccountData),
                    Some(reg) => {
                        let updated = FlowRegistry { merkle_root: Some(new_root), ..reg };
                        Ok(
                            (
                                RegistryEffect::SaveRegistry(updated),
                                WaveEvent::RootUpdated { flow_id: reg.flow_id, new_root },
                            ),
                        )
                    },
                }
            }
        },
        WaveInstruction::ValidateProof { proof, public_inputs, nullifier } => {
            let rejected = match proof_verifier {
                Some(v) => proof.len() < 32 || !v.verify(proof.as_slice()),
                None => false,
            };
            if !ctx.signer {
                Err(WaveError::Unauthorized)
            } else if rejected {
                Err(WaveError::InvalidProof)
            } else if public_inputs.len() < 32 {
                Err(WaveError::InvalidInstruction)
            } else {
                let mut public_inputs_hash = [0u8; 32];
                let mut i: usize = 0;
                while i < 32
                    invariant
                        i <= 32,
                        public_inputs@.len() >= 32,
                        forall|k: int| 0 <= k < i ==> public_inputs_hash@[k] == public_inputs@[k],
                    decreases 32 - i,
                {
                    public_inputs_hash[i] = public_inputs[i];
                    i = i + 1;
                }
                assert(public_inputs_hash@ =~= public_inputs@.subrange(0, 32));
                let record = Nullifier::new(nullifier, ctx.now, 0);
                let log = ProofLog::new(nullifier, ctx.now, 0, public_inputs_hash);
                Ok(
                    (
                        RegistryEffect::RecordProof(record, log),
                        WaveEvent::FlowExecuted { flow_id: 0, nullifier },
                    ),
                )
            }
        },
        WaveInstruction::TriggerFlow { flow_id, instruction_data: _ } => {
            if !ctx.signer {
                Err(WaveError::Unauthorized)
            } else {
                match ctx.target_program {
                    None => Err(WaveError::InvalidAccountData),
                    Some(t) => Ok(
                        (
                            RegistryEffect::Trigger { flow_id, target_program: t },
                            WaveEvent::FlowTriggered { flow_id, target_program: t },
                        ),
                    ),
                }
            }
        },
    };
    proof {
        assert(call_outcome(*ctx, proof_verifier, root_verifier, decoded, r));
        assert forall|ins: WaveInstruction|
            encodable(ins) && encoding(ins) == instruction_data@ implies call_outcome(
            *ctx,
            proof_verifier,
            root_verifier,
            ins,
            r,
        ) by {
            lemma_round_trip(ins, decoded);
            lemma_outcome_respects_same(*ctx, proof_verifier, root_verifier, decoded, ins, r);
        }
    }
    r
}

} // verus!
