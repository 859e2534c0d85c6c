//! Registry instructions and their wire format.
//!
//! An instruction is one tag byte followed by its fields: integers as
//! little-endian bytes, a 32-byte value as itself, an optional value as a
//! 0 or 1 byte followed by the value when present, and a byte string as its
//! length (4 bytes, little-endian) followed by the bytes. A record decodes
//! only if it is exactly the encoding of some instruction.
use crate::pubkey::Pubkey;
use crate::wave_error::WaveError;
use crate::wire::{
    blob_bytes, has_at, key_bytes, lemma_array_unique, lemma_blob_unique, lemma_has_at_join,
    lemma_has_at_split, lemma_key_unique, lemma_u32_le_len, lemma_u64_le_len, lemma_u64_unique,
    push_all, push_blob, push_key, read_array, read_blob, read_key, read_u64,
};
use vstd::bytes::*;
use vstd::prelude::*;

verus! {

/// An instruction of the flow registry.
#[derive(Debug)]
pub enum WaveInstruction {
    /// Register a flow.
    InitRegistry {
        flow_id: u64,
        merkle_root: Option<[u8; 32]>,
        circuit_hash: [u8; 32],
        callback_program_id: Option<[u8; 32]>,
    },
    /// Replace the Merkle root of a flow.
    SetRoot { new_root: [u8; 32] },
    /// Check a proof and consume a nullifier.
    ValidateProof { proof: Vec<u8>, public_inputs: Vec<u8>, nullifier: [u8; 32] },
    /// Call the flow's downstream program.
    TriggerFlow { flow_id: u64, instruction_data: Vec<u8> },
}

/// Every byte string of the instruction has a length that fits 4 bytes.
pub open spec fn encodable(ins: WaveInstruction) -> bool {
    match ins {
        WaveInstruction::ValidateProof { proof, public_inputs, .. } => proof@.len() <= u32::MAX
            && public_inputs@.len() <= u32::MAX,
        WaveInstruction::TriggerFlow { instruction_data, .. } => instruction_data@.len() <= u32::MAX,
        _ => true,
    }
}

/// The bytes of an instruction.
pub open spec fn encoding(ins: WaveInstruction) -> Seq<u8> {
    match ins {
        WaveInstruction::InitRegistry { flow_id, merkle_root, circuit_hash, callback_program_id } =>
            seq![0u8] + spec_u64_to_le_bytes(flow_id) + key_bytes(merkle_root) + circuit_hash@
            + key_bytes(callback_program_id),
        WaveInstruction::SetRoot { new_root } => seq![1u8] + new_root@,
        WaveInstruction::ValidateProof { proof, public_inputs, nullifier } => seq![2u8] + blob_bytes(
            proof@,
        ) + blob_bytes(public_inputs@) + nullifier@,
        WaveInstruction::TriggerFlow { flow_id, instruction_data } => seq![3u8]
            + spec_u64_to_le_bytes(flow_id) + blob_bytes(instruction_data@),
    }
}

/// `data` is the encoding of some instruction.
pub open spec fn is_encoding(data: Seq<u8>) -> bool {
    exists|ins: WaveInstruction| encodable(ins) && encoding(ins) == data
}

/// Where the fields of a registration lie in its encoding.
proof fn lemma_init_parts(
    d: Seq<u8>,
    f: u64,
    m: Option<[u8; 32]>,
    c: [u8; 32],
    cb: Option<[u8; 32]>,
)
    requires
        d == encoding(
            WaveInstruction::InitRegistry {
                flow_id: f,
                merkle_root: m,
                circuit_hash: c,
                callback_program_id: cb,
            },
        ),
    ensures
        d.len() == 9 + key_bytes(m).len() + 32 + key_bytes(cb).len(),
        d[0] == 0u8,
        has_at(d, 1, spec_u64_to_le_bytes(f)),
        has_at(d, 9, key_bytes(m)),
        has_at(d, 9 + key_bytes(m).len() as int, c@),
        has_at(d, 9 + key_bytes(m).len() as int + 32, key_bytes(cb)),
{
    lemma_u64_le_len(f);
    let p0 = seq![0u8];
    let p1 = p0 + spec_u64_to_le_bytes(f);
    let p2 = p1 + key_bytes(m);
    let p3 = p2 + c@;
    assert(d.subrange(0, d.len() as int) =~= d);
    lemma_has_at_split(d, 0, p3, key_bytes(cb));
    lemma_has_at_split(d, 0, p2, c@);
    lemma_has_at_split(d, 0, p1, key_bytes(m));
    lemma_has_at_split(d, 0, p0, spec_u64_to_le_bytes(f));
}

/// Where the fields of a proof submission lie in its encoding.
proof fn lemma_validate_parts(d: Seq<u8>, p: Seq<u8>, i: Seq<u8>, n: [u8; 32])
    requires
        p.len() <= u32::MAX,
        i.len() <= u32::MAX,
        d == seq![2u8] + blob_bytes(p) + blob_bytes(i) + n@,
    ensures
        d.len() == 1 + 4 + p.len() + 4 + i.len() + 32,
        d[0] == 2u8,
        has_at(d, 1, blob_bytes(p)),
        has_at(d, 5 + p.len() as int, blob_bytes(i)),
        has_at(d, 9 + p.len() as int + i.len() as int, n@),
{
    lemma_u32_le_len(p.len() as u32);
    lemma_u32_le_len(i.len() as u32);
    let p0 = seq![2u8];
    let p1 = p0 + blob_bytes(p);
    let p2 = p1 + blob_bytes(i);
    assert(d.subrange(0, d.len() as int) =~= d);
    lemma_has_at_split(d, 0, p2, n@);
    lemma_has_at_split(d, 0, p1, blob_bytes(i));
    lemma_has_at_split(d, 0, p0, blob_bytes(p));
}

/// Where the fields of a trigger lie in its encoding.
proof fn lemma_trigger_parts(d: Seq<u8>, f: u64, x: Seq<u8>)
    requires
        x.len() <= u32::MAX,
        d == seq![3u8] + spec_u64_to_le_bytes(f) + blob_bytes(x),
    ensures
        d.len() == 1 + 8 + 4 + x.len(),
        d[0] == 3u8,
        has_at(d, 1, spec_u64_to_le_bytes(f)),
        has_at(d, 9, blob_bytes(x)),
{
    lemma_u64_le_len(f);
    lemma_u32_le_len(x.len() as u32);
    let p0 = seq![3u8];
    let p1 = p0 + spec_u64_to_le_bytes(f);
    assert(d.subrange(0, d.len() as int) =~= d);
    lemma_has_at_split(d, 0, p1, blob_bytes(x));
    lemma_has_at_split(d, 0, p0, spec_u64_to_le_bytes(f));
}

/// The first byte of an encoding names its variant.
proof fn lemma_encoding_tag(ins: WaveInstruction)
    requires
        encodable(ins),
    ensures
        encoding(ins).len() >= 1,
        encoding(ins)[0] == match ins {
            WaveInstruction::InitRegistry { .. } => 0u8,
            WaveInstruction::SetRoot { .. } => 1u8,
            WaveInstruction::ValidateProof { .. } => 2u8,
            WaveInstruction::TriggerFlow { .. } => 3u8,
        },
{
}

fn decode_init(data: &[u8]) -> (r: Result<WaveInstruction, WaveError>)
    requires
        data@.len() >= 1,
        data@[0] == 0u8,
    ensures
        match r {
            Ok(ins) => encodable(ins) && encoding(ins) == data@,
            Err(e) => e == WaveError::InvalidInstruction && forall|ins: WaveInstruction|
                (ins is InitRegistry) ==> encoding(ins) != data@,
        },
{
    let total = data.len();
    let flow_id = match read_u64(data, 1) {
        Some(x) => x,
        None => {
            proof {
                assert forall|ins: WaveInstruction| (ins is InitRegistry) implies encoding(ins) != data@ by {
                    if let WaveInstruction::InitRegistry { flow_id, merkle_root, circuit_hash, callback_program_id } = ins {
                        if encoding(ins) == data@ {
                            lemma_init_parts(data@, flow_id, merkle_root, circuit_hash, callback_program_id);
                            lemma_u64_le_len(flow_id);
                        }
                    }
                }
            }
            return Err(WaveError::InvalidInstruction);
        },
    };
    proof {
        lemma_u64_le_len(flow_id);
    }
    let (merkle_root, p1) = match read_key(data, 9) {
        Some(t) => t,
        None => {
            proof {
                assert forall|ins: WaveInstruction| (ins is InitRegistry) implies encoding(ins) != data@ by {
                    if let WaveInstruction::InitRegistry { flow_id, merkle_root, circuit_hash, callback_program_id } = ins {
                        if encoding(ins) == data@ {
                            lemma_init_parts(data@, flow_id, merkle_root, circuit_hash, callback_program_id);
                        }
                    }
                }
            }
            return Err(WaveError::InvalidInstruction);
        },
    };
    let circuit_hash = match read_array(data, p1) {
        Some(a) => a,
        None => {
            proof {
                assert forall|ins: WaveInstruction| (ins is InitRegistry) implies encoding(ins) != data@ by {
                    if let WaveInstruction::InitRegistry { flow_id, merkle_root: m, circuit_hash, callback_program_id } = ins {
                        if encoding(ins) == data@ {
                            lemma_init_parts(data@, flow_id, m, circuit_hash, callback_program_id);
                        }
                    }
                }
            }
            return Err(WaveError::InvalidInstruction);
        },
    };
    let (callback_program_id, p2) = match read_key(data, p1 + 32) {
        Some(t) => t,
        None => {
            proof {
                assert forall|ins: WaveInstruction| (ins is InitRegistry) implies encoding(ins) != data@ by {
                    if let WaveInstruction::InitRegistry { flow_id, merkle_root: m, circuit_hash, callback_program_id } = ins {
                        if encoding(ins) == data@ {
                            lemma_init_parts(data@, flow_id, m, circuit_hash, callback_program_id);
                        }
                    }
                }
            }
            return Err(WaveError::InvalidInstruction);
        },
    };
    if p2 != total {
        proof {
            assert forall|ins: WaveInstruction| (ins is InitRegistry) implies encoding(ins) != data@ by {
                if let WaveInstruction::InitRegistry { flow_id, merkle_root: m, circuit_hash, callback_program_id: cb } = ins {
                    if encoding(ins) == data@ {
                        lemma_init_parts(data@, flow_id, m, circuit_hash, cb);
                    }
                }
            }
        }
        return Err(WaveError::InvalidInstruction);
    }
    let ins = WaveInstruction::InitRegistry { flow_id, merkle_root, circuit_hash, callback_program_id };
    proof {
        assert(data@.subrange(0, 1) =~= seq![0u8]);
        lemma_has_at_join(data@, 0, seq![0u8], spec_u64_to_le_bytes(flow_id));
        lemma_has_at_join(data@, 0, seq![0u8] + spec_u64_to_le_bytes(flow_id), key_bytes(merkle_root));
        lemma_has_at_join(
            data@,
            0,
            seq![0u8] + spec_u64_to_le_bytes(flow_id) + key_bytes(merkle_root),
            circuit_hash@,
        );
        lemma_has_at_join(
            data@,
            0,
            seq![0u8] + spec_u64_to_le_bytes(flow_id) + key_bytes(merkle_root) + circuit_hash@,
            key_bytes(callback_program_id),
        );
        assert(data@.subrange(0, data@.len() as int) =~= data@);
    }
    Ok(ins)
}

fn decode_set_root(data: &[u8]) -> (r: Result<WaveInstruction, WaveError>)
    requires
        data@.len() >= 1,
        data@[0] == 1u8,
    ensures
        match r {
            Ok(ins) => encodable(ins) && encoding(ins) == data@,
            Err(e) => e == WaveError::InvalidInstruction && forall|ins: WaveInstruction|
                (ins is SetRoot) ==> encoding(ins) != data@,
        },
{
    if data.len() != 33 {
        return Err(WaveError::InvalidInstruction);
    }
    match read_array(data, 1) {
        Some(new_root) => {
            assert(data@ =~= seq![1u8] + new_root@);
            Ok(WaveInstruction::SetRoot { new_root })
        },
        None => Err(WaveError::InvalidInstruction),
    }
}

fn decode_validate(data: &[u8]) -> (r: Result<WaveInstruction, WaveError>)
    requires
        data@.len() >= 1,
        data@[0] == 2u8,
    ensures
        match r {
            Ok(ins) => encodable(ins) && encoding(ins) == data@,
            Err(e) => e == WaveError::InvalidInstruction && forall|ins: WaveInstruction|
                (ins is ValidateProof && encodable(ins)) ==> encoding(ins) != data@,
        },
{
    let total = data.len();
    let (proof, p1) = match read_blob(data, 1) {
        Some(t) => t,
        None => {
            proof {
                assert forall|ins: WaveInstruction|
                    (ins is ValidateProof && encodable(ins)) implies encoding(ins) != data@ by {
                    if let WaveInstruction::ValidateProof { proof, public_inputs, nullifier } = ins {
                        if encoding(ins) == data@ {
                            lemma_validate_parts(data@, proof@, public_inputs@, nullifier);
                        }
                    }
                }
            }
            return Err(WaveError::InvalidInstruction);
        },
    };
    let (public_inputs, p2) = match read_blob(data, p1) {
        Some(t) => t,
        None => {
            proof {
                assert forall|ins: WaveInstruction|
                    (ins is ValidateProof && encodable(ins)) implies encoding(ins) != data@ by {
                    if let WaveInstruction::ValidateProof { proof: p, public_inputs, nullifier } = ins {
                        if encoding(ins) == data@ {
                            lemma_validate_parts(data@, p@, public_inputs@, nullifier);
                        }
                    }
                }
            }
            return Err(WaveError::InvalidInstruction);
        },
    };
    let nullifier = match read_array(data, p2) {
        Some(a) => a,
        None => {
            proof {
                assert forall|ins: WaveInstruction|
                    (ins is ValidateProof && encodable(ins)) implies encoding(ins) != data@ by {
                    if let WaveInstruction::ValidateProof { proof: p, public_inputs: i, nullifier } = ins {
                        if encoding(ins) == data@ {
                            lemma_validate_parts(data@, p@, i@, nullifier);
                        }
                    }
                }
            }
            return Err(WaveError::InvalidInstruction);
        },
    };
    if p2 + 32 != total {
        proof {
            assert forall|ins: WaveInstruction|
                (ins is ValidateProof && encodable(ins)) implies encoding(ins) != data@ by {
                if let WaveInstruction::ValidateProof { proof: p, public_inputs: i, nullifier: n } = ins {
                    if encoding(ins) == data@ {
                        lemma_validate_parts(data@, p@, i@, n);
                    }
                }
            }
        }
        return Err(WaveError::InvalidInstruction);
    }
    proof {
        lemma_u32_le_len(proof@.len() as u32);
        lemma_u32_le_len(public_inputs@.len() as u32);
        assert(data@.subrange(0, 1) =~= seq![2u8]);
        lemma_has_at_join(data@, 0, seq![2u8], blob_bytes(proof@));
        lemma_has_at_join(data@, 0, seq![2u8] + blob_bytes(proof@), blob_bytes(public_inputs@));
        lemma_has_at_join(
            data@,
            0,
            seq![2u8] + blob_bytes(proof@) + blob_bytes(public_inputs@),
            nullifier@,
        );
        assert(data@.subrange(0, data@.len() as int) =~= data@);
    }
    Ok(WaveInstruction::ValidateProof { proof, public_inputs, nullifier })
}

fn decode_trigger(data: &[u8]) -> (r: Result<WaveInstruction, WaveError>)
    requires
        data@.len() >= 1,
        data@[0] == 3u8,
    ensures
        match r {
            Ok(ins) => encodable(ins) && encoding(ins) == data@,
            Err(e) => e == WaveError::InvalidInstruction && forall|ins: WaveInstruction|
                (ins is TriggerFlow && encodable(ins)) ==> encoding(ins) != data@,
        },
{
    let total = data.len();
    let flow_id = match read_u64(data, 1) {
        Some(x) => x,
        None => {
            proof {
                assert forall|ins: WaveInstruction|
                    (ins is TriggerFlow && encodable(ins)) implies encoding(ins) != data@ by {
                    if let WaveInstruction::TriggerFlow { flow_id, instruction_data } = ins {
                        if encoding(ins) == data@ {
                            lemma_trigger_parts(data@, flow_id, instruction_data@);
                            lemma_u64_le_len(flow_id);
                        }
                    }
                }
            }
            return Err(WaveError::InvalidInstruction);
        },
    };
    proof {
        lemma_u64_le_len(flow_id);
    }
    let (instruction_data, p1) = match read_blob(data, 9) {
        Some(t) => t,
        None => {
            proof {
                assert forall|ins: WaveInstruction|
                    (ins is TriggerFlow && encodable(ins)) implies encoding(ins) != data@ by {
                    if let WaveInstruction::TriggerFlow { flow_id, instruction_data } = ins {
                        if encoding(ins) == data@ {
                            lemma_trigger_parts(data@, flow_id, instruction_data@);
                        }
                    }
                }
            }
            return Err(WaveError::InvalidInstruction);
        },
    };
    if p1 != total {
        proof {
            assert forall|ins: WaveInstruction|
                (ins is TriggerFlow && encodable(ins)) implies encoding(ins) != data@ by {
                if let WaveInstruction::TriggerFlow { flow_id, instruction_data: x } = ins {
                    if encoding(ins) == data@ {
                        lemma_trigger_parts(data@, flow_id, x@);
                    }
                }
            }
        }
        return Err(WaveError::InvalidInstruction);
    }
    proof {
        lemma_u32_le_len(instruction_data@.len() as u32);
        assert(data@.subrange(0, 1) =~= seq![3u8]);
        lemma_has_at_join(data@, 0, seq![3u8], spec_u64_to_le_bytes(flow_id));
        lemma_has_at_join(
            data@,
            0,
            seq![3u8] + spec_u64_to_le_bytes(flow_id),
            blob_bytes(instruction_data@),
        );
        assert(data@.subrange(0, data@.len() as int) =~= data@);
    }
    Ok(WaveInstruction::TriggerFlow { flow_id, instruction_data })
}

impl WaveInstruction {
    /// Decodes an instruction. Succeeds exactly when `data` is the encoding
    /// of some instruction, and then returns that instruction; otherwise
    /// `InvalidInstruction`.
    pub fn try_from_slice(data: &[u8]) -> (r: Result<WaveInstruction, WaveError>)
        ensures
            match r {
                Ok(ins) => encodable(ins) && encoding(ins) == data@,
                Err(e) => e == WaveError::InvalidInstruction && !is_encoding(data@),
            },
    {
        if data.len() == 0 {
            proof {
                assert forall|ins: WaveInstruction| encodable(ins) implies encoding(ins) != data@ by {
                    lemma_encoding_tag(ins);
                }
            }
            return Err(WaveError::InvalidInstruction);
        }
        let tag = data[0];
        let r = if tag == 0 {
            decode_init(data)
        } else if tag == 1 {
            decode_set_root(data)
        } else if tag == 2 {
            decode_validate(data)
        } else if tag == 3 {
            decode_trigger(data)
        } else {
            Err(WaveError::InvalidInstruction)
        };
        proof {
            if r is Err {
                assert forall|ins: WaveInstruction| encodable(ins) implies encoding(ins) != data@ by {
                    lemma_encoding_tag(ins);
                }
            }
        }
        r
    }

    /// Encodes the instruction; refused with `InvalidInstruction` when a
    /// byte string is too long for its 4-byte length.
    pub fn try_to_vec(&self) -> (r: Result<Vec<u8>, WaveError>)
        ensures
            match r {
                Ok(v) => encodable(*self) && v@ == encoding(*self),
                Err(e) => e == WaveError::InvalidInstruction && !encodable(*self),
            },
    {
        let mut out: Vec<u8> = Vec::new();
        match self {
            WaveInstruction::InitRegistry { flow_id, merkle_root, circuit_hash, callback_program_id } => {
                out.push(0u8);
                let f = u64_to_le_bytes(*flow_id);
                push_all(&mut out, f.as_slice());
                push_key(&mut out, merkle_root);
                push_all(&mut out, circuit_hash.as_slice());
                push_key(&mut out, callback_program_id);
            },
            WaveInstruction::SetRoot { new_root } => {
                out.push(1u8);
                push_all(&mut out, new_root.as_slice());
            },
            WaveInstruction::ValidateProof { proof, public_inputs, nullifier } => {
                if proof.len() > u32::MAX as usize || public_inputs.len() > u32::MAX as usize {
                    return Err(WaveError::InvalidInstruction);
                }
                out.push(2u8);
                push_blob(&mut out, proof);
                push_blob(&mut out, public_inputs);
                push_all(&mut out, nullifier.as_slice());
            },
            WaveInstruction::TriggerFlow { flow_id, instruction_data } => {
                if instruction_data.len() > u32::MAX as usize {
                    return Err(WaveError::InvalidInstruction);
                }
                out.push(3u8);
                let f = u64_to_le_bytes(*flow_id);
                push_all(&mut out, f.as_slice());
                push_blob(&mut out, instruction_data);
            },
        }
        assert(out@ =~= encoding(*self));
        Ok(out)
    }
}

/// The two instructions agree field by field (byte strings and 32-byte
/// values by their bytes).
pub open spec fn same_instruction(a: WaveInstruction, b: WaveInstruction) -> bool {
    match (a, b) {
        (
            WaveInstruction::InitRegistry {
                flow_id: f1,
                merkle_root: m1,
                circuit_hash: c1,
                callback_program_id: p1,
            },
            WaveInstruction::InitRegistry {
                flow_id: f2,
                merkle_root: m2,
                circuit_hash: c2,
                callback_program_id: p2,
            },
        ) => f1 == f2 && m1 == m2 && c1 == c2 && p1 == p2,
        (WaveInstruction::SetRoot { new_root: r1 }, WaveInstruction::SetRoot { new_root: r2 }) => r1
            == r2,
        (
            WaveInstruction::ValidateProof { proof: p1, public_inputs: i1, nullifier: n1 },
            WaveInstruction::ValidateProof { proof: p2, public_inputs: i2, nullifier: n2 },
        ) => p1@ == p2@ && i1@ == i2@ && n1 == n2,
        (
            WaveInstruction::TriggerFlow { flow_id: f1, instruction_data: d1 },
            WaveInstruction::TriggerFlow { flow_id: f2, instruction_data: d2 },
        ) => f1 == f2 && d1@ == d2@,
        _ => false,
    }
}

/// Round trip: an instruction is determined by its encoding, so the
/// instruction `try_from_slice` returns for the bytes `try_to_vec` produced
/// is the one that was encoded.
pub proof fn lemma_round_trip(original: WaveInstruction, decoded: WaveInstruction)
    requires
        encodable(original),
        encodable(decoded),
        encoding(decoded) == encoding(original),
    ensures
        same_instruction(decoded, original),
{
    let d = encoding(original);
    lemma_encoding_tag(original);
    lemma_encoding_tag(decoded);
    match (decoded, original) {
        (
            WaveInstruction::InitRegistry {
                flow_id: f1,
                merkle_root: m1,
                circuit_hash: c1,
                callback_program_id: p1,
            },
            WaveInstruction::InitRegistry {
                flow_id: f2,
                merkle_root: m2,
                circuit_hash: c2,
                callback_program_id: p2,
            },
        ) => {
            lemma_init_parts(d, f1, m1, c1, p1);
            lemma_init_parts(d, f2, m2, c2, p2);
            lemma_u64_unique(d, 1, f1, f2);
            lemma_key_unique(d, 9, m1, m2);
            lemma_array_unique(d, 9 + key_bytes(m1).len() as int, c1, c2);
            lemma_key_unique(d, 9 + key_bytes(m1).len() as int + 32, p1, p2);
        },
        (WaveInstruction::SetRoot { new_root: r1 }, WaveInstruction::SetRoot { new_root: r2 }) => {
            assert(d.subrange(0, d.len() as int) =~= d);
            lemma_has_at_split(d, 0, seq![1u8], r1@);
            lemma_has_at_split(d, 0, seq![1u8], r2@);
            lemma_array_unique(d, 1, r1, r2);
        },
        (
            WaveInstruction::ValidateProof { proof: p1, public_inputs: i1, nullifier: n1 },
            WaveInstruction::ValidateProof { proof: p2, public_inputs: i2, nullifier: n2 },
        ) => {
            lemma_validate_parts(d, p1@, i1@, n1);
            lemma_validate_parts(d, p2@, i2@, n2);
            lemma_blob_unique(d, 1, p1@, p2@);
            lemma_blob_unique(d, 5 + p1@.len() as int, i1@, i2@);
            lemma_array_unique(d, 9 + p1@.len() as int + i1@.len() as int, n1, n2);
        },
        (
            WaveInstruction::TriggerFlow { flow_id: f1, instruction_data: x1 },
            WaveInstruction::TriggerFlow { flow_id: f2, instruction_data: x2 },
        ) => {
            lemma_trigger_parts(d, f1, x1@);
            lemma_trigger_parts(d, f2, x2@);
            lemma_u64_unique(d, 1, f1, f2);
            lemma_blob_unique(d, 9, x1@, x2@);
        },
        _ => {},
    }
}

/// Decodes instructions and records the last one; answers with the outcome
/// it was set to give.
pub struct InstructionProcessor {
    pub last_instruction: Option<WaveInstruction>,
    pub instruction_count: usize,
    pub success: bool,
}

impl InstructionProcessor {
    pub fn new() -> (r: InstructionProcessor)
        ensures
            r.last_instruction is None,
            r.instruction_count == 0,
            r.success,
    {
        InstructionProcessor { last_instruction: None, instruction_count: 0, success: true }
    }

    /// Decodes `instruction_data` and records it. A record that is not an
    /// instruction is refused with `InvalidInstruction`, changing nothing;
    /// otherwise the instruction is kept, counted (the count stops at its
    /// maximum) and the outcome set by `set_success` is returned, a failure
    /// being `InvalidInstruction`.
    pub fn process_instruction(&mut self, program_id: &Pubkey, instruction_data: &[u8]) -> (r: Result<
        (),
        WaveError,
    >)
        ensures
            !is_encoding(instruction_data@) ==> r == Err::<(), WaveError>(WaveError::InvalidInstruction)
                && final(self).instruction_count == old(self).instruction_count
                && final(self).success == old(self).success,
            is_encoding(instruction_data@) ==> {
                &&& final(self).last_instruction matches Some(ins) && encodable(ins) && encoding(ins)
                    == instruction_data@
                &&& final(self).instruction_count == (if old(self).instruction_count < usize::MAX {
                    old(self).instruction_count + 1
                } else {
                    old(self).instruction_count as int
                })
                &&& final(self).success == old(self).success
                &&& r == (if old(self).success {
                    Ok::<(), WaveError>(())
                } else {
                    Err(WaveError::InvalidInstruction)
                })
            },
    {
        let instruction = match WaveInstruction::try_from_slice(instruction_data) {
            Ok(ins) => ins,
            Err(e) => {
                return Err(e);
            },
        };
        self.last_instruction = Some(instruction);
        self.instruction_count = self.instruction_count.saturating_add(1);
        if self.success {
            Ok(())
        } else {
            Err(WaveError::InvalidInstruction)
        }
    }

    /// Forgets the last instruction and the count, and restores success.
    pub fn clear(&mut self)
        ensures
            final(self).last_instruction is None,
            final(self).instruction_count == 0,
            final(self).success,
    {
        self.last_instruction = None;
        self.instruction_count = 0;
        self.success = true;
    }

    /// Sets the outcome later instructions get.
    pub fn set_success(&mut self, success: bool)
        ensures
            final(self).success == success,
            final(self).instruction_count == old(self).instruction_count,
    {
        self.success = success;
    }
}

} // verus!
