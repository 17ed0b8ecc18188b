//! The ways in which a pruning call can fail.

use vstd::prelude::*;

verus! {

/// Why a pruning call did not complete.
///
/// Nothing is retried inside the library: whoever schedules the pruner
/// decides whether to call again. A call that failed leaves every shard at
/// its last committed batch, from which the next call resumes.
#[derive(Clone, Copy, Debug, PartialEq, Eq, Structural)]
pub enum PrunerError {
    /// A shard refused an atomic write. Nothing of the refused batch is
    /// visible.
    StorageError,
    /// The call was asked something that a sound caller never asks (to
    /// prune to a version below the progress already made, or with a batch
    /// size of zero), or a stale node index names a node that its shard
    /// does not hold.
    InvariantViolation,
    /// The pruning of the data shard `shard_id` failed; it is the first
    /// shard, in shard order, that did. The other shards were still pruned.
    WorkerFailure { shard_id: u8 },
}

impl PrunerError {
    /// A short name of the kind of failure, for logs and gauges.
    pub fn kind(&self) -> (name: &'static str)
        ensures
            name@ == (match *self {
                PrunerError::StorageError => "storage_error"@,
                PrunerError::InvariantViolation => "invariant_violation"@,
                PrunerError::WorkerFailure { .. } => "worker_failure"@,
            }),
    {
        match self {
            PrunerError::StorageError => "storage_error",
            PrunerError::InvariantViolation => "invariant_violation",
            PrunerError::WorkerFailure { .. } => "worker_failure",
        }
    }
}

} // verus!
