//! Records of accepted proofs.
use crate::hash_set::same_item;
use crate::wave_error::WaveError;
use crate::wire::{
    bits_to_i64, i64_bits, i64_to_bits, lemma_has_at_join, lemma_u64_le_len, push_all, read_array,
    read_u64,
};
use vstd::bytes::*;
use vstd::prelude::*;

verus! {

/// A proof accepted for a flow.
#[derive(Clone, Copy, Debug, PartialEq, Eq)]
pub struct ProofLog {
    /// The nullifier the proof consumed.
    pub nullifier: [u8; 32],
    /// When the proof was submitted.
    pub timestamp: i64,
    /// The flow the proof was used with.
    pub flow_id: u64,
    /// Hash of the public inputs.
    pub public_inputs_hash: [u8; 32],
}

impl ProofLog {
    /// Bytes of a serialized proof log.
    pub const SIZE: usize = 80;

    pub fn new(nullifier: [u8; 32], timestamp: i64, flow_id: u64, public_inputs_hash: [u8; 32]) -> (r:
        ProofLog)
        ensures
            r.nullifier == nullifier,
            r.timestamp == timestamp,
            r.flow_id == flow_id,
            r.public_inputs_hash == public_inputs_hash,
    {
        ProofLog { nullifier, timestamp, flow_id, public_inputs_hash }
    }
}

/// Stored form of a proof log: the nullifier, the time and the flow as 8
/// little-endian bytes each, then the public-inputs hash.
pub open spec fn proof_log_bytes(l: ProofLog) -> Seq<u8> {
    l.nullifier@ + spec_u64_to_le_bytes(i64_bits(l.timestamp)) + spec_u64_to_le_bytes(l.flow_id)
        + l.public_inputs_hash@
}

impl ProofLog {
    /// The stored form.
    pub fn to_bytes(&self) -> (r: Vec<u8>)
        ensures
            r@ == proof_log_bytes(*self),
    {
        let mut out: Vec<u8> = Vec::new();
        push_all(&mut out, self.nullifier.as_slice());
        let t = u64_to_le_bytes(i64_to_bits(self.timestamp));
        push_all(&mut out, t.as_slice());
        let f = u64_to_le_bytes(self.flow_id);
        push_all(&mut out, f.as_slice());
        push_all(&mut out, self.public_inputs_hash.as_slice());
        assert(out@ =~= proof_log_bytes(*self));
        out
    }

    /// Reads a stored proof log. Succeeds exactly when `data` is the stored
    /// form of one, which is `ProofLog::SIZE` bytes long; otherwise
    /// `InvalidAccountData`.
    pub fn from_bytes(data: &[u8]) -> (r: Result<ProofLog, WaveError>)
        ensures
            match r {
                Ok(l) => proof_log_bytes(l) == data@,
                Err(e) => e == WaveError::InvalidAccountData && forall|l: ProofLog|
                    proof_log_bytes(l) != data@,
            },
    {
        if data.len() != ProofLog::SIZE {
            proof {
                assert forall|l: ProofLog| proof_log_bytes(l) != data@ by {
                    lemma_u64_le_len(i64_bits(l.timestamp));
                    lemma_u64_le_len(l.flow_id);
                }
            }
            return Err(WaveError::InvalidAccountData);
        }
        match (read_array(data, 0), read_u64(data, 32), read_u64(data, 40), read_array(data, 48)) {
            (Some(nullifier), Some(t), Some(flow_id), Some(public_inputs_hash)) => {
                let l = ProofLog { nullifier, timestamp: bits_to_i64(t), flow_id, public_inputs_hash };
                proof {
                    lemma_u64_le_len(t);
                    lemma_u64_le_len(flow_id);
                    let a = nullifier@;
                    let b = a + spec_u64_to_le_bytes(t);
                    let c = b + spec_u64_to_le_bytes(flow_id);
                    lemma_has_at_join(data@, 0, a, spec_u64_to_le_bytes(t));
                    lemma_has_at_join(data@, 0, b, spec_u64_to_le_bytes(flow_id));
                    lemma_has_at_join(data@, 0, c, public_inputs_hash@);
                    assert(data@.subrange(0, 80) =~= data@);
                }
                Ok(l)
            },
            _ => Err(WaveError::InvalidAccountData),
        }
    }
}

pub open spec fn logs_of_flow(ls: Seq<ProofLog>, flow_id: u64) -> Seq<ProofLog> {
    ls.filter(|l: ProofLog| l.flow_id == flow_id)
}

pub open spec fn logs_of_nullifier(ls: Seq<ProofLog>, nullifier: [u8; 32]) -> Seq<ProofLog> {
    ls.filter(|l: ProofLog| l.nullifier == nullifier)
}

/// Logs whose time lies in `[start, end]`.
pub open spec fn logs_in_range(ls: Seq<ProofLog>, start: i64, end: i64) -> Seq<ProofLog> {
    ls.filter(|l: ProofLog| start <= l.timestamp && l.timestamp <= end)
}

/// An in-memory list of proof logs.
pub struct ProofHistory {
    pub logs: Vec<ProofLog>,
}

impl ProofHistory {
    pub fn new() -> (r: ProofHistory)
        ensures
            r.logs@.len() == 0,
    {
        ProofHistory { logs: Vec::new() }
    }

    /// Appends a log.
    pub fn add_log(&mut self, log: ProofLog)
        ensures
            final(self).logs@ == old(self).logs@.push(log),
    {
        self.logs.push(log);
    }

    /// Logs of `flow_id`, in order.
    pub fn get_by_flow(&self, flow_id: u64) -> (r: Vec<&ProofLog>)
        ensures
            r@.map_values(|x: &ProofLog| *x) == logs_of_flow(self.logs@, flow_id),
    {
        proof {
            reveal(Seq::filter);
        }
        let mut out: Vec<&ProofLog> = Vec::new();
        let mut i: usize = 0;
        while i < self.logs.len()
            invariant
                i <= self.logs@.len(),
                out@.map_values(|x: &ProofLog| *x) == logs_of_flow(self.logs@.take(i as int), flow_id),
            decreases self.logs@.len() - i,
        {
            proof {
                reveal(Seq::filter);
            }
            assert(self.logs@.take(i + 1).drop_last() =~= self.logs@.take(i as int));
            assert(self.logs@.take(i + 1).last() == self.logs@[i as int]);
            let ghost before = out@.map_values(|x: &ProofLog| *x);
            if self.logs[i].flow_id == flow_id {
                out.push(&self.logs[i]);
                assert(out@.map_values(|x: &ProofLog| *x) =~= before.push(self.logs@[i as int]));
            }
            i = i + 1;
        }
        assert(self.logs@.take(i as int) =~= self.logs@);
        out
    }

    /// Logs of `nullifier`, in order.
    pub fn get_by_nullifier(&self, nullifier: &[u8; 32]) -> (r: Vec<&ProofLog>)
        ensures
            r@.map_values(|x: &ProofLog| *x) == logs_of_nullifier(self.logs@, *nullifier),
    {
        proof {
            reveal(Seq::filter);
        }
        let mut out: Vec<&ProofLog> = Vec::new();
        let mut i: usize = 0;
        while i < self.logs.len()
            invariant
                i <= self.logs@.len(),
                out@.map_values(|x: &ProofLog| *x) == logs_of_nullifier(self.logs@.take(i as int), *nullifier),
            decreases self.logs@.len() - i,
        {
            proof {
                reveal(Seq::filter);
            }
            assert(self.logs@.take(i + 1).drop_last() =~= self.logs@.take(i as int));
            assert(self.logs@.take(i + 1).last() == self.logs@[i as int]);
            let ghost before = out@.map_values(|x: &ProofLog| *x);
            if same_item(&self.logs[i].nullifier, nullifier) {
                out.push(&self.logs[i]);
                assert(out@.map_values(|x: &ProofLog| *x) =~= before.push(self.logs@[i as int]));
            }
            i = i + 1;
        }
        assert(self.logs@.take(i as int) =~= self.logs@);
        out
    }

    /// Logs whose time lies in `[start, end]`, in order.
    pub fn get_by_timerange(&self, start: i64, end: i64) -> (r: Vec<&ProofLog>)
        ensures
            r@.map_values(|x: &ProofLog| *x) == logs_in_range(self.logs@, start, end),
    {
        proof {
            reveal(Seq::filter);
        }
        let mut out: Vec<&ProofLog> = Vec::new();
        let mut i: usize = 0;
        while i < self.logs.len()
            invariant
                i <= self.logs@.len(),
                out@.map_values(|x: &ProofLog| *x) == logs_in_range(self.logs@.take(i as int), start, end),
            decreases self.logs@.len() - i,
        {
            proof {
                reveal(Seq::filter);
            }
            assert(self.logs@.take(i + 1).drop_last() =~= self.logs@.take(i as int));
            assert(self.logs@.take(i + 1).last() == self.logs@[i as int]);
            let ghost before = out@.map_values(|x: &ProofLog| *x);
            let t = self.logs[i].timestamp;
            if t >= start && t <= end {
                out.push(&self.logs[i]);
                assert(out@.map_values(|x: &ProofLog| *x) =~= before.push(self.logs@[i as int]));
            }
            i = i + 1;
        }
        assert(self.logs@.take(i as int) =~= self.logs@);
        out
    }
}

} // verus!
