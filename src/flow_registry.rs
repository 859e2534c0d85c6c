//! Per-flow settings and an in-memory list of them.
use crate::pubkey::Pubkey;
use crate::wave_error::WaveError;
use crate::wire::{
    has_at, key_bytes, lemma_has_at_join, lemma_has_at_split, lemma_u64_le_len, push_all, push_key,
    read_array, read_key, read_u64,
};
use vstd::bytes::*;
use vstd::prelude::*;

verus! {

/// Settings of one flow.
#[derive(Clone, Copy, Debug, PartialEq, Eq)]
pub struct FlowRegistry {
    /// The authority that can update this flow's settings.
    pub authority: Pubkey,
    pub flow_id: u64,
    /// Optional Merkle root for membership verification.
    pub merkle_root: Option<[u8; 32]>,
    /// Hash of the circuit used for this flow.
    pub circuit_hash: [u8; 32],
    pub is_enabled: bool,
    /// Optional program to call after successful verification.
    pub callback_program_id: Option<Pubkey>,
}

impl FlowRegistry {
    /// Bytes of a serialized registry.
    pub const SIZE: usize = 139;

    /// A registry for a flow, enabled.
    pub fn new(
        authority: Pubkey,
        flow_id: u64,
        merkle_root: Option<[u8; 32]>,
        circuit_hash: [u8; 32],
        callback_program_id: Option<Pubkey>,
    ) -> (r: FlowRegistry)
        ensures
            r == (FlowRegistry {
                authority,
                flow_id,
                merkle_root,
                circuit_hash,
                is_enabled: true,
                callback_program_id,
            }),
    {
        FlowRegistry { authority, flow_id, merkle_root, circuit_hash, is_enabled: true, callback_program_id }
    }
}

/// Optional key as an optional 32-byte value.
pub open spec fn key_of(o: Option<Pubkey>) -> Option<[u8; 32]> {
    match o {
        Some(k) => Some(k.bytes),
        None => None,
    }
}

/// Stored form of a registry: authority, flow id (8 little-endian bytes),
/// optional root, circuit hash, enabled flag (one 0 or 1 byte) and optional
/// callback program.
pub open spec fn registry_bytes(r: FlowRegistry) -> Seq<u8> {
    r.authority.bytes@ + spec_u64_to_le_bytes(r.flow_id) + key_bytes(r.merkle_root) + r.circuit_hash@
        + seq![if r.is_enabled { 1u8 } else { 0u8 }] + key_bytes(key_of(r.callback_program_id))
}

/// Where the fields of a registry lie in its stored form.
proof fn lemma_registry_parts(d: Seq<u8>, r: FlowRegistry)
    requires
        d == registry_bytes(r),
    ensures
        ({
            let m = key_bytes(r.merkle_root).len() as int;
            &&& d.len() == 32 + 8 + m + 32 + 1 + key_bytes(key_of(r.callback_program_id)).len()
            &&& has_at(d, 0, r.authority.bytes@)
            &&& has_at(d, 32, spec_u64_to_le_bytes(r.flow_id))
            &&& has_at(d, 40, key_bytes(r.merkle_root))
            &&& has_at(d, 40 + m, r.circuit_hash@)
            &&& d[72 + m] == (if r.is_enabled { 1u8 } else { 0u8 })
            &&& has_at(d, 73 + m, key_bytes(key_of(r.callback_program_id)))
        }),
{
    lemma_u64_le_len(r.flow_id);
    let p0 = r.authority.bytes@;
    let p1 = p0 + spec_u64_to_le_bytes(r.flow_id);
    let p2 = p1 + key_bytes(r.merkle_root);
    let p3 = p2 + r.circuit_hash@;
    let p4 = p3 + seq![if r.is_enabled { 1u8 } else { 0u8 }];
    assert(d.subrange(0, d.len() as int) =~= d);
    lemma_has_at_split(d, 0, p4, key_bytes(key_of(r.callback_program_id)));
    lemma_has_at_split(d, 0, p3, seq![if r.is_enabled { 1u8 } else { 0u8 }]);
    lemma_has_at_split(d, 0, p2, r.circuit_hash@);
    lemma_has_at_split(d, 0, p1, key_bytes(r.merkle_root));
    lemma_has_at_split(d, 0, p0, spec_u64_to_le_bytes(r.flow_id));
    let m = key_bytes(r.merkle_root).len() as int;
    assert(d.subrange(72 + m, 73 + m)[0] == d[72 + m]);
}

impl FlowRegistry {
    /// The stored form.
    pub fn to_bytes(&self) -> (r: Vec<u8>)
        ensures
            r@ == registry_bytes(*self),
    {
        let mut out: Vec<u8> = Vec::new();
        push_all(&mut out, self.authority.bytes.as_slice());
        let f = u64_to_le_bytes(self.flow_id);
        push_all(&mut out, f.as_slice());
        push_key(&mut out, &self.merkle_root);
        push_all(&mut out, self.circuit_hash.as_slice());
        out.push(if self.is_enabled { 1u8 } else { 0u8 });
        let callback = match self.callback_program_id {
            Some(k) => Some(k.bytes),
            None => None,
        };
        push_key(&mut out, &callback);
        assert(out@ =~= registry_bytes(*self));
        out
    }

    /// Reads a stored registry. Succeeds exactly when `data` is the stored
    /// form of one; otherwise `InvalidAccountData`.
    pub fn from_bytes(data: &[u8]) -> (r: Result<FlowRegistry, WaveError>)
        ensures
            match r {
                Ok(reg) => registry_bytes(reg) == data@,
                Err(e) => e == WaveError::InvalidAccountData && forall|reg: FlowRegistry|
                    registry_bytes(reg) != data@,
            },
    {
        let total = data.len();
        let (authority, flow_id, merkle_root, p1) = match (read_array(data, 0), read_u64(data, 32), read_key(data, 40)) {
            (Some(a), Some(f), Some((m, p))) => (a, f, m, p),
            _ => {
                proof {
                    assert forall|reg: FlowRegistry| registry_bytes(reg) != data@ by {
                        if registry_bytes(reg) == data@ {
                            lemma_registry_parts(data@, reg);
                        }
                    }
                }
                return Err(WaveError::InvalidAccountData);
            },
        };
        let circuit_hash = match read_array(data, p1) {
            Some(c) => c,
            None => {
                proof {
                    assert forall|reg: FlowRegistry| registry_bytes(reg) != data@ by {
                        if registry_bytes(reg) == data@ {
                            lemma_registry_parts(data@, reg);
                        }
                    }
                }
                return Err(WaveError::InvalidAccountData);
            },
        };
        if p1 + 32 >= total || data[p1 + 32] > 1 {
            proof {
                assert forall|reg: FlowRegistry| registry_bytes(reg) != data@ by {
                    if registry_bytes(reg) == data@ {
                        lemma_registry_parts(data@, reg);
                    }
                }
            }
            return Err(WaveError::InvalidAccountData);
        }
        let is_enabled = data[p1 + 32] == 1;
        let (callback, p2) = match read_key(data, p1 + 33) {
            Some(t) => t,
            None => {
                proof {
                    assert forall|reg: FlowRegistry| registry_bytes(reg) != data@ by {
                        if registry_bytes(reg) == data@ {
                            lemma_registry_parts(data@, reg);
                        }
                    }
                }
                return Err(WaveError::InvalidAccountData);
            },
        };
        if p2 != total {
            proof {
                assert forall|reg: FlowRegistry| registry_bytes(reg) != data@ by {
                    if registry_bytes(reg) == data@ {
                        lemma_registry_parts(data@, reg);
                    }
                }
            }
            return Err(WaveError::InvalidAccountData);
        }
        let callback_program_id = match callback {
            Some(k) => Some(Pubkey { bytes: k }),
            None => None,
        };
        let reg = FlowRegistry {
            authority: Pubkey { bytes: authority },
            flow_id,
            merkle_root,
            circuit_hash,
            is_enabled,
            callback_program_id,
        };
        proof {
            lemma_u64_le_len(flow_id);
            let flag = seq![if is_enabled { 1u8 } else { 0u8 }];
            assert(data@.subrange(p1 + 32, p1 + 33) =~= flag);
            assert(key_of(callback_program_id) == callback);
            let a = authority@;
            let b = a + spec_u64_to_le_bytes(flow_id);
            let c = b + key_bytes(merkle_root);
            let e = c + circuit_hash@;
            let g = e + flag;
            lemma_has_at_join(data@, 0, a, spec_u64_to_le_bytes(flow_id));
            lemma_has_at_join(data@, 0, b, key_bytes(merkle_root));
            lemma_has_at_join(data@, 0, c, circuit_hash@);
            lemma_has_at_join(data@, 0, e, flag);
            lemma_has_at_join(data@, 0, g, key_bytes(callback));
            assert(data@.subrange(0, data@.len() as int) =~= data@);
        }
        Ok(reg)
    }
}

/// Position of the first registry of the flow, if any.
pub open spec fn first_of_flow(rs: Seq<FlowRegistry>, flow_id: u64) -> Option<int> {
    if exists|i: int| 0 <= i < rs.len() && rs[i].flow_id == flow_id {
        Some(
            choose|i: int|
                0 <= i < rs.len() && rs[i].flow_id == flow_id && forall|j: int|
                    0 <= j < i ==> rs[j].flow_id != flow_id,
        )
    } else {
        None
    }
}

/// An in-memory list of flow registries.
pub struct RegistryManager {
    pub registries: Vec<FlowRegistry>,
}

impl RegistryManager {
    pub fn new() -> (r: RegistryManager)
        ensures
            r.registries@.len() == 0,
    {
        RegistryManager { registries: Vec::new() }
    }

    pub fn add_registry(&mut self, registry: FlowRegistry)
        ensures
            final(self).registries@ == old(self).registries@.push(registry),
    {
        self.registries.push(registry);
    }

    fn find(&self, flow_id: u64) -> (r: Option<usize>)
        ensures
            match r {
                Some(i) => i < self.registries@.len() && first_of_flow(self.registries@, flow_id) == Some(
                    i as int,
                ),
                None => first_of_flow(self.registries@, flow_id) is None,
            },
    {
        let mut i: usize = 0;
        while i < self.registries.len()
            invariant
                i <= self.registries@.len(),
                forall|j: int| 0 <= j < i ==> self.registries@[j].flow_id != flow_id,
            decreases self.registries@.len() - i,
        {
            if self.registries[i].flow_id == flow_id {
                proof {
                    let rs = self.registries@;
                    let k = choose|k: int|
                        0 <= k < rs.len() && rs[k].flow_id == flow_id && forall|j: int|
                            0 <= j < k ==> rs[j].flow_id != flow_id;
                    assert(k == i) by {
                        if k < i {
                        } else if k > i {
                        }
                    }
                }
                return Some(i);
            }
            i = i + 1;
        }
        None
    }

    /// The first registry of the flow.
    pub fn get_by_id(&self, flow_id: u64) -> (r: Option<&FlowRegistry>)
        ensures
            match first_of_flow(self.registries@, flow_id) {
                Some(i) => r == Some(&self.registries@[i]),
                None => r is None,
            },
    {
        match self.find(flow_id) {
            Some(i) => Some(&self.registries[i]),
            None => None,
        }
    }

    /// Sets the Merkle root of the first registry of the flow; refused with
    /// `InvalidAccountData`, changing nothing, when there is none.
    pub fn update_root(&mut self, flow_id: u64, new_root: [u8; 32]) -> (r: Result<(), WaveError>)
        ensures
            match first_of_flow(old(self).registries@, flow_id) {
                Some(i) => r is Ok && final(self).registries@ == old(self).registries@.update(
                    i,
                    FlowRegistry { merkle_root: Some(new_root), ..old(self).registries@[i] },
                ),
                None => r == Err::<(), WaveError>(WaveError::InvalidAccountData) && final(self).registries@ == old(self).registries@,
            },
    {
        match self.find(flow_id) {
            Some(i) => {
                self.registries[i].merkle_root = Some(new_root);
                Ok(())
            },
            None => Err(WaveError::InvalidAccountData),
        }
    }

    /// Enables or disables the first registry of the flow; refused with
    /// `InvalidAccountData`, changing nothing, when there is none.
    pub fn set_enabled(&mut self, flow_id: u64, enabled: bool) -> (r: Result<(), WaveError>)
        ensures
            match first_of_flow(old(self).registries@, flow_id) {
                Some(i) => r is Ok && final(self).registries@ == old(self).registries@.update(
                    i,
                    FlowRegistry { is_enabled: enabled, ..old(self).registries@[i] },
                ),
                None => r == Err::<(), WaveError>(WaveError::InvalidAccountData) && final(self).registries@ == old(self).registries@,
            },
    {
        match self.find(flow_id) {
            Some(i) => {
                self.registries[i].is_enabled = enabled;
                Ok(())
            },
            None => Err(WaveError::InvalidAccountData),
        }
    }
}

} // verus!
