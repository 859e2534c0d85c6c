//! Events reported by the flow registry, and a list that collects them.
use crate::pubkey::Pubkey;
use vstd::prelude::*;

verus! {

/// Something that happened to a flow.
#[derive(Debug)]
pub enum WaveEvent {
    FlowRegistered { flow_id: u64, merkle_root: Option<[u8; 32]>, circuit_hash: [u8; 32] },
    FlowExecuted { flow_id: u64, nullifier: [u8; 32] },
    ProofRejected { flow_id: u64, reason: String },
    NullifierUsed { nullifier: [u8; 32], flow_id: u64, timestamp: i64 },
    RootUpdated { flow_id: u64, new_root: [u8; 32] },
    FlowTriggered { flow_id: u64, target_program: Pubkey },
}

/// Events collected in the order they were logged.
pub struct EventLogger {
    pub events: Vec<WaveEvent>,
}

impl EventLogger {
    pub fn new() -> (r: EventLogger)
        ensures
            r.events@.len() == 0,
    {
        EventLogger { events: Vec::new() }
    }

    pub fn log(&mut self, event: WaveEvent)
        ensures
            final(self).events@ == old(self).events@.push(event),
    {
        self.events.push(event);
    }

    pub fn clear(&mut self)
        ensures
            final(self).events@.len() == 0,
    {
        self.events.clear();
    }
}

} // verus!
