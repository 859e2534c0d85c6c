//! Records of consumed nullifiers.
use crate::hash_set::same_item;
use crate::wave_error::WaveError;
use crate::wire::{
    bits_to_i64, i64_bits, i64_to_bits, lemma_has_at_join, lemma_u64_le_len, push_all, read_array,
    read_u64,
};
use vstd::bytes::*;
use vstd::prelude::*;

verus! {

/// A nullifier consumed by a flow at a given time.
#[derive(Clone, Copy, Debug, PartialEq, Eq)]
pub struct Nullifier {
    /// The nullifier hash.
    pub hash: [u8; 32],
    /// When it was used.
    pub timestamp: i64,
    /// The flow it was used with.
    pub flow_id: u64,
}

impl Nullifier {
    /// Bytes of a serialized nullifier.
    pub const SIZE: usize = 48;

    pub fn new(hash: [u8; 32], timestamp: i64, flow_id: u64) -> (r: Nullifier)
        ensures
            r.hash == hash,
            r.timestamp == timestamp,
            r.flow_id == flow_id,
    {
        Nullifier { hash, timestamp, flow_id }
    }
}

/// Stored form of a nullifier: the hash, then the time and the flow as
/// 8 little-endian bytes each.
pub open spec fn nullifier_bytes(n: Nullifier) -> Seq<u8> {
    n.hash@ + spec_u64_to_le_bytes(i64_bits(n.timestamp)) + spec_u64_to_le_bytes(n.flow_id)
}

impl Nullifier {
    /// The stored form.
    pub fn to_bytes(&self) -> (r: Vec<u8>)
        ensures
            r@ == nullifier_bytes(*self),
    {
        let mut out: Vec<u8> = Vec::new();
        push_all(&mut out, self.hash.as_slice());
        let t = u64_to_le_bytes(i64_to_bits(self.timestamp));
        push_all(&mut out, t.as_slice());
        let f = u64_to_le_bytes(self.flow_id);
        push_all(&mut out, f.as_slice());
        assert(out@ =~= nullifier_bytes(*self));
        out
    }

    /// Reads a stored nullifier. Succeeds exactly when `data` is the stored
    /// form of one, which is `Nullifier::SIZE` bytes long; otherwise
    /// `InvalidAccountData`.
    pub fn from_bytes(data: &[u8]) -> (r: Result<Nullifier, WaveError>)
        ensures
            match r {
                Ok(n) => nullifier_bytes(n) == data@,
                Err(e) => e == WaveError::InvalidAccountData && forall|n: Nullifier|
                    nullifier_bytes(n) != data@,
            },
    {
        if data.len() != Nullifier::SIZE {
            proof {
                assert forall|n: Nullifier| nullifier_bytes(n) != data@ by {
                    lemma_u64_le_len(i64_bits(n.timestamp));
                    lemma_u64_le_len(n.flow_id);
                }
            }
            return Err(WaveError::InvalidAccountData);
        }
        match (read_array(data, 0), read_u64(data, 32), read_u64(data, 40)) {
            (Some(hash), Some(t), Some(flow_id)) => {
                let n = Nullifier { hash, timestamp: bits_to_i64(t), flow_id };
                proof {
                    assert(data@.subrange(0, 32) == hash@);
                    lemma_u64_le_len(t);
                    lemma_has_at_join(data@, 0, hash@, spec_u64_to_le_bytes(t));
                    lemma_has_at_join(data@, 0, hash@ + spec_u64_to_le_bytes(t), spec_u64_to_le_bytes(flow_id));
                    assert(data@.subrange(0, 48) =~= data@);
                }
                Ok(n)
            },
            _ => Err(WaveError::InvalidAccountData),
        }
    }
}

/// Nullifiers used with the given flow, in recording order.
pub open spec fn nullifiers_of_flow(ns: Seq<Nullifier>, flow_id: u64) -> Seq<Nullifier> {
    ns.filter(|n: Nullifier| n.flow_id == flow_id)
}

/// An in-memory list of recorded nullifiers.
pub struct NullifierSet {
    pub nullifiers: Vec<Nullifier>,
}

impl NullifierSet {
    pub fn new() -> (r: NullifierSet)
        ensures
            r.nullifiers@.len() == 0,
    {
        NullifierSet { nullifiers: Vec::new() }
    }

    /// Records a nullifier at the end of the list.
    pub fn add(&mut self, nullifier: Nullifier)
        ensures
            final(self).nullifiers@ == old(self).nullifiers@.push(nullifier),
    {
        self.nullifiers.push(nullifier);
    }

    /// Whether a nullifier with this hash was recorded.
    pub fn exists_hash(&self, hash: &[u8; 32]) -> (r: bool)
        ensures
            r == exists|i: int| 0 <= i < self.nullifiers@.len() && self.nullifiers@[i].hash == *hash,
    {
        self.get(hash).is_some()
    }

    /// The first recorded nullifier with this hash.
    pub fn get(&self, hash: &[u8; 32]) -> (r: Option<&Nullifier>)
        ensures
            match r {
                Some(n) => exists|i: int|
                    0 <= i < self.nullifiers@.len() && self.nullifiers@[i] == *n && n.hash == *hash
                        && forall|j: int| 0 <= j < i ==> self.nullifiers@[j].hash != *hash,
                None => forall|i: int|
                    0 <= i < self.nullifiers@.len() ==> self.nullifiers@[i].hash != *hash,
            },
    {
        let mut i: usize = 0;
        while i < self.nullifiers.len()
            invariant
                i <= self.nullifiers@.len(),
                forall|j: int| 0 <= j < i ==> self.nullifiers@[j].hash != *hash,
            decreases self.nullifiers@.len() - i,
        {
            if same_item(&self.nullifiers[i].hash, hash) {
                return Some(&self.nullifiers[i]);
            }
            i = i + 1;
        }
        None
    }

    /// Nullifiers used with `flow_id`, in recording order.
    pub fn get_by_flow(&self, flow_id: u64) -> (r: Vec<&Nullifier>)
        ensures
            r@.map_values(|x: &Nullifier| *x) == nullifiers_of_flow(self.nullifiers@, flow_id),
    {
        proof {
            reveal(Seq::filter);
        }
        let mut out: Vec<&Nullifier> = Vec::new();
        let mut i: usize = 0;
        while i < self.nullifiers.len()
            invariant
                i <= self.nullifiers@.len(),
                out@.map_values(|x: &Nullifier| *x) == nullifiers_of_flow(self.nullifiers@.take(i as int), flow_id),
            decreases self.nullifiers@.len() - i,
        {
            proof {
                reveal(Seq::filter);
            }
            assert(self.nullifiers@.take(i + 1).drop_last() =~= self.nullifiers@.take(i as int));
            assert(self.nullifiers@.take(i + 1).last() == self.nullifiers@[i as int]);
            let ghost before = out@.map_values(|x: &Nullifier| *x);
            if self.nullifiers[i].flow_id == flow_id {
                out.push(&self.nullifiers[i]);
                assert(out@.map_values(|x: &Nullifier| *x) =~= before.push(self.nullifiers@[i as int]));
            }
            i = i + 1;
        }
        assert(self.nullifiers@.take(i as int) =~= self.nullifiers@);
        out
    }
}

} // verus!
