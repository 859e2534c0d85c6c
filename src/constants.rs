//! Size limits, tags and account sizes of the flow registry.
use vstd::prelude::*;

verus! {

/// Largest proof accepted, in bytes.
pub const MAX_PROOF_SIZE: usize = 1024;

/// Largest public-input blob accepted, in bytes.
pub const MAX_PUBLIC_INPUTS_SIZE: usize = 256;

/// Largest flow identifier.
pub const MAX_FLOW_ID: u64 = 1000000;

/// Flow verified against a Merkle root.
pub const FLOW_TAG_MERKLE: u8 = 1;

/// Flow verified directly.
pub const FLOW_TAG_DIRECT: u8 = 2;

pub const PROGRAM_VERSION: u8 = 1;

/// Bytes reserved for a flow registry account.
pub const FLOW_REGISTRY_SIZE: usize = 1024;

/// Bytes reserved for a nullifier account.
pub const NULLIFIER_SIZE: usize = 128;

/// Bytes reserved for a proof log account.
pub const PROOF_LOG_SIZE: usize = 256;

pub const MAX_MERKLE_TREE_DEPTH: usize = 32;

pub const MAX_PUBLIC_INPUTS: usize = 10;

} // verus!
