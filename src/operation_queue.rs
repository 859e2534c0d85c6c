//! A bounded FIFO queue of opaque operations.
use crate::pubkey::Pubkey;
use vstd::prelude::*;

verus! {

/// An operation waiting to be carried out.
#[derive(Debug)]
pub struct Operation {
    pub id: u64,
    pub data: Vec<u8>,
    pub processor: Pubkey,
}

/// At most `max_size` operations, oldest first.
pub struct OperationQueue {
    queue: Vec<Operation>,
    max_size: usize,
}

impl OperationQueue {
    /// Operations waiting, oldest first.
    pub closed spec fn spec_items(&self) -> Seq<Operation> {
        self.queue@
    }

    pub closed spec fn spec_max_size(&self) -> nat {
        self.max_size as nat
    }

    pub fn new(max_size: usize) -> (r: OperationQueue)
        ensures
            r.spec_items().len() == 0,
            r.spec_max_size() == max_size,
    {
        OperationQueue { queue: Vec::new(), max_size }
    }

    /// Appends an operation; refused, changing nothing, when the queue
    /// already holds `max_size` operations.
    pub fn enqueue(&mut self, operation: Operation) -> (r: Result<(), &'static str>)
        ensures
            final(self).spec_max_size() == old(self).spec_max_size(),
            old(self).spec_items().len() < old(self).spec_max_size() ==> r is Ok && final(self).spec_items() == old(self).spec_items().push(operation),
            old(self).spec_items().len() >= old(self).spec_max_size() ==> r is Err && final(self).spec_items() == old(self).spec_items(),
    {
        if self.queue.len() >= self.max_size {
            return Err("Queue is full");
        }
        self.queue.push(operation);
        Ok(())
    }

    /// Takes the oldest operation.
    pub fn dequeue(&mut self) -> (r: Option<Operation>)
        ensures
            final(self).spec_max_size() == old(self).spec_max_size(),
            old(self).spec_items().len() == 0 ==> r is None && final(self).spec_items()
                == old(self).spec_items(),
            old(self).spec_items().len() > 0 ==> r == Some(old(self).spec_items()[0]) && final(self).spec_items() == old(self).spec_items().drop_first(),
    {
        if self.queue.len() == 0 {
            return None;
        }
        let op = self.queue.remove(0);
        assert(self.queue@ =~= old(self).queue@.drop_first());
        Some(op)
    }

    pub fn is_empty(&self) -> (r: bool)
        ensures
            r == (self.spec_items().len() == 0),
    {
        self.queue.len() == 0
    }

    pub fn len(&self) -> (r: usize)
        ensures
            r == self.spec_items().len(),
    {
        self.queue.len()
    }
}

} // verus!
