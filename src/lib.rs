//! Fixed-budget state structures: an append-only Merkle commitment tree fed
//! by a FIFO batch queue, and a bucketed membership set that relieves
//! overfull buckets in bounded steps.
pub mod account_state;
pub mod batch;
pub mod compression;
pub mod constants;
pub mod error;
pub mod events;
pub mod flow_registry;
pub mod hash_functions;
pub mod hash_set;
pub mod instruction;
pub mod merkle_tree;
pub mod nullifier;
pub mod operation_queue;
pub mod processor;
pub mod proof_log;
pub mod pubkey;
pub mod verifiers;
pub mod wave_error;
pub mod wire;
