//! A stand-alone batch of items with its processing status.
use crate::error::CoreError;
use crate::merkle_tree::BatchStatus;
use crate::pubkey::Pubkey;
use vstd::prelude::*;

verus! {

/// Items submitted together by one processor.
#[derive(Debug)]
pub struct Batch {
    pub id: u64,
    pub items: Vec<[u8; 32]>,
    pub timestamp: i64,
    pub processor: Pubkey,
    pub status: BatchStatus,
}

impl Batch {
    /// A pending batch.
    pub fn new(id: u64, items: Vec<[u8; 32]>, processor: Pubkey) -> (r: Batch)
        ensures
            r.id == id,
            r.items == items,
            r.timestamp == 0,
            r.processor == processor,
            r.status == BatchStatus::Pending,
    {
        Batch { id, items, timestamp: 0, processor, status: BatchStatus::Pending }
    }

    /// Runs a pending batch to completion; refused with `InvalidArgument`,
    /// changing nothing, in any other status.
    pub fn process(&mut self) -> (r: Result<(), CoreError>)
        ensures
            old(self).status == BatchStatus::Pending ==> r is Ok && final(self).status
                == BatchStatus::Completed,
            old(self).status != BatchStatus::Pending ==> r == Err::<(), CoreError>(
                CoreError::InvalidArgument,
            ) && final(self).status == old(self).status,
            final(self).id == old(self).id,
            final(self).items == old(self).items,
            final(self).timestamp == old(self).timestamp,
            final(self).processor == old(self).processor,
    {
        if self.status != BatchStatus::Pending {
            return Err(CoreError::InvalidArgument);
        }
        self.status = BatchStatus::Processing;
        self.status = BatchStatus::Completed;
        Ok(())
    }

    /// Marks the batch failed.
    pub fn fail(&mut self)
        ensures
            final(self).status == BatchStatus::Failed,
            final(self).id == old(self).id,
            final(self).items == old(self).items,
            final(self).timestamp == old(self).timestamp,
            final(self).processor == old(self).processor,
    {
        self.status = BatchStatus::Failed;
    }
}

} // verus!
