//! Atomic write batches.

use vstd::prelude::*;
use crate::node::{NodeKey, StaleNodeIndex, Version};

verus! {

/// One operation of an atomic write batch.
#[derive(Clone, Copy, Debug, PartialEq, Eq, Structural)]
pub enum BatchOp {
    /// Erase the node with this key.
    DeleteNode(NodeKey),
    /// Erase this record from the stale node index.
    DeleteStaleNodeIndex(StaleNodeIndex),
    /// Set the shard's pruner progress marker.
    PutProgress(Version),
}

/// A list of operations that a shard commits together or not at all.
#[derive(Clone, Debug, PartialEq, Eq)]
pub struct SchemaBatch {
    ops: Vec<BatchOp>,
}

impl View for SchemaBatch {
    type V = Seq<BatchOp>;

    closed spec fn view(&self) -> Seq<BatchOp> {
        self.ops@
    }
}

impl SchemaBatch {
    /// An empty batch.
    pub fn new() -> (batch: SchemaBatch)
        ensures
            batch@ == Seq::<BatchOp>::empty(),
    {
        SchemaBatch { ops: Vec::new() }
    }

    /// Adds the deletion of the node `key`.
    pub fn delete_node(&mut self, key: NodeKey)
        ensures
            final(self)@ == old(self)@.push(BatchOp::DeleteNode(key)),
    {
        self.ops.push(BatchOp::DeleteNode(key));
    }

    /// Adds the deletion of the stale node index record `index`.
    pub fn delete_stale_node_index(&mut self, index: StaleNodeIndex)
        ensures
            final(self)@ == old(self)@.push(BatchOp::DeleteStaleNodeIndex(index)),
    {
        self.ops.push(BatchOp::DeleteStaleNodeIndex(index));
    }

    /// Adds the update of the progress marker to `version`.
    pub fn put_progress(&mut self, version: Version)
        ensures
            final(self)@ == old(self)@.push(BatchOp::PutProgress(version)),
    {
        self.ops.push(BatchOp::PutProgress(version));
    }

    /// The number of operations in the batch.
    pub fn len(&self) -> (n: usize)
        ensures
            n == self@.len(),
    {
        self.ops.len()
    }

    /// The operation at position `i`, if there is one.
    pub fn get(&self, i: usize) -> (op: Option<BatchOp>)
        ensures
            op == (if i < self@.len() {
                Some(self@[i as int])
            } else {
                None
            }),
    {
        if i < self.ops.len() {
            Some(self.ops[i])
        } else {
            None
        }
    }
}

} // verus!
