//! Error kinds shared by the tree and the set.
use vstd::prelude::*;

verus! {

/// Why a mutating call was refused. Every check is made before any state
/// changes, except inside batch processing (see `MerkleTree::process_next_batch`).
#[derive(Clone, Copy, Debug, PartialEq, Eq, Structural)]
pub enum CoreError {
    /// The tree is full, the set is at capacity, or a batch is too large.
    CapacityExceeded,
    /// A depth above the maximum, or a malformed index.
    InvalidArgument,
    /// A mutating call on a frozen set or a finalized tree.
    FrozenOrFinalized,
    /// A record that fails to decode.
    Malformed,
}

/// Tree failures, as numbered codes.
#[derive(Clone, Copy, Debug, PartialEq, Eq, Structural)]
pub enum MerkleTreeError {
    InvalidDepth,
    TreeFull,
    InvalidProof,
    BatchProcessingError,
}

impl MerkleTreeError {
    /// Code carried by a custom program error: the position of the variant.
    pub fn code(&self) -> (r: u32)
        ensures
            r == match *self {
                MerkleTreeError::InvalidDepth => 0u32,
                MerkleTreeError::TreeFull => 1,
                MerkleTreeError::InvalidProof => 2,
                MerkleTreeError::BatchProcessingError => 3,
            },
    {
        match self {
            MerkleTreeError::InvalidDepth => 0,
            MerkleTreeError::TreeFull => 1,
            MerkleTreeError::InvalidProof => 2,
            MerkleTreeError::BatchProcessingError => 3,
        }
    }
}

/// Set failures, as numbered codes.
#[derive(Clone, Copy, Debug, PartialEq, Eq, Structural)]
pub enum HashSetError {
    ItemNotFound,
    SetFull,
    OperationNotAllowed,
}

impl HashSetError {
    /// Code carried by a custom program error: the position of the variant.
    pub fn code(&self) -> (r: u32)
        ensures
            r == match *self {
                HashSetError::ItemNotFound => 0u32,
                HashSetError::SetFull => 1,
                HashSetError::OperationNotAllowed => 2,
            },
    {
        match self {
            HashSetError::ItemNotFound => 0,
            HashSetError::SetFull => 1,
            HashSetError::OperationNotAllowed => 2,
        }
    }
}

} // verus!
