//! One shard of the store, held in memory.
//!
//! A shard keeps its stale node index as a vector in storage order, so a
//! scan from a version is a binary search and a walk. Writes reach it only
//! as atomic batches, each of which is applied whole or refused whole.

use vstd::prelude::*;
use crate::batch::{BatchOp, SchemaBatch};
use crate::error::PrunerError;
use crate::model::{
    count_below, is_sorted, key_rank, keys_sorted, lemma_key_insert, lemma_key_rank,
    lemma_key_remove, lemma_rank, lemma_rank_seek_key, lemma_with_record, lemma_without_record,
    rank, seek_key, with_record, without_record, ShardState,
};
use crate::node::{NodeKey, StaleNodeIndex, Version};

verus! {

/// One shard: its stale node index, the keys of its nodes, its pruner
/// progress marker and its write quota.
#[derive(Clone, Debug, PartialEq, Eq)]
pub struct DbShard {
    stale_index: Vec<StaleNodeIndex>,
    nodes: Vec<NodeKey>,
    progress: Option<Version>,
    write_quota: u64,
}

impl View for DbShard {
    type V = ShardState;

    closed spec fn view(&self) -> ShardState {
        ShardState {
            stale_index: self.stale_index@,
            nodes: self.nodes@.to_set(),
            progress: self.progress,
            write_quota: self.write_quota,
        }
    }
}

impl DbShard {
    /// The invariant of the representation: the index and the node keys
    /// are in storage order.
    pub closed spec fn wf(&self) -> bool {
        &&& is_sorted(self.stale_index@)
        &&& keys_sorted(self.nodes@)
    }

    /// A well-formed shard has a well-formed model.
    pub proof fn lemma_wf(&self)
        requires
            self.wf(),
        ensures
            self@.wf(),
            self@.stale_index.len() <= usize::MAX,
    {
        vstd::seq_lib::seq_to_set_is_finite(self.nodes@);
        assert(self.stale_index.len() == self.stale_index@.len());
    }

    /// An empty shard that was never pruned, with the largest write quota.
    pub fn new() -> (shard: DbShard)
        ensures
            shard.wf(),
            shard@ == ShardState::empty(),
    {
        let shard = DbShard {
            stale_index: Vec::new(),
            nodes: Vec::new(),
            progress: None,
            write_quota: u64::MAX,
        };
        assert(shard.nodes@.to_set() =~= Set::<NodeKey>::empty());
        shard
    }

    /// The persisted progress marker, if one was ever written.
    pub fn progress(&self) -> (progress: Option<Version>)
        ensures
            progress == self@.progress,
    {
        self.progress
    }

    /// How many atomic writes the shard still accepts.
    pub fn write_quota(&self) -> (quota: u64)
        ensures
            quota == self@.write_quota,
    {
        self.write_quota
    }

    /// Lets the shard accept `quota` more atomic writes and refuse those
    /// that follow.
    pub fn set_write_quota(&mut self, quota: u64)
        requires
            old(self).wf(),
        ensures
            final(self).wf(),
            final(self)@ == (ShardState { write_quota: quota, ..old(self)@ }),
    {
        self.write_quota = quota;
    }

    /// The number of records in the stale node index.
    pub fn num_stale_node_indices(&self) -> (n: usize)
        ensures
            n == self@.stale_index.len(),
    {
        self.stale_index.len()
    }

    /// The record at position `pos` of the stale node index, in storage
    /// order; `None` behind the last record.
    pub fn stale_node_index_at(&self, pos: usize) -> (record: Option<StaleNodeIndex>)
        ensures
            record == (if pos < self@.stale_index.len() {
                Some(self@.stale_index[pos as int])
            } else {
                None
            }),
    {
        if pos < self.stale_index.len() {
            Some(self.stale_index[pos])
        } else {
            None
        }
    }

    /// The stale node index, in storage order.
    pub fn stale_node_indices(&self) -> (records: Vec<StaleNodeIndex>)
        ensures
            records@ == self@.stale_index,
    {
        let mut records: Vec<StaleNodeIndex> = Vec::new();
        let mut i: usize = 0;
        while i < self.stale_index.len()
            invariant
                i <= self.stale_index.len(),
                records@ == self.stale_index@.take(i as int),
            decreases self.stale_index.len() - i,
        {
            records.push(self.stale_index[i]);
            i += 1;
            assert(self.stale_index@.take(i as int) == self.stale_index@.take(i - 1).push(
                self.stale_index@[i - 1],
            ));
        }
        assert(self.stale_index@.take(i as int) == self.stale_index@);
        records
    }

    /// The keys of the nodes that the shard holds, in storage order.
    pub fn nodes(&self) -> (keys: Vec<NodeKey>)
        requires
            self.wf(),
        ensures
            keys_sorted(keys@),
            keys@.to_set() == self@.nodes,
    {
        let mut keys: Vec<NodeKey> = Vec::new();
        let mut i: usize = 0;
        while i < self.nodes.len()
            invariant
                i <= self.nodes.len(),
                keys@ == self.nodes@.take(i as int),
            decreases self.nodes.len() - i,
        {
            keys.push(self.nodes[i]);
            i += 1;
            assert(self.nodes@.take(i as int) == self.nodes@.take(i - 1).push(
                self.nodes@[i - 1],
            ));
        }
        assert(self.nodes@.take(i as int) == self.nodes@);
        keys
    }

    /// The number of nodes that the shard holds.
    pub fn num_nodes(&self) -> (n: usize)
        requires
            self.wf(),
        ensures
            n == self@.nodes.len(),
    {
        proof {
            lemma_key_rank(self.nodes@, NodeKey { version: 0, path: 0 });
            self.nodes@.unique_seq_to_set();
        }
        self.nodes.len()
    }

    /// The number of node keys that are stored before `key`.
    fn key_lower_bound(&self, key: &NodeKey) -> (pos: usize)
        requires
            self.wf(),
        ensures
            pos == key_rank(self.nodes@, *key),
            pos <= self.nodes@.len(),
    {
        let mut lo: usize = 0;
        let mut hi: usize = self.nodes.len();
        while lo < hi
            invariant
                lo <= hi <= self.nodes@.len(),
                keys_sorted(self.nodes@),
                forall|a: int| 0 <= a < lo ==> (#[trigger] self.nodes@[a]).lt(*key),
                forall|a: int| hi <= a < self.nodes@.len() ==> !(#[trigger] self.nodes@[a]).lt(*key),
            decreases hi - lo,
        {
            let mid: usize = lo + (hi - lo) / 2;
            if self.nodes[mid].precedes(key) {
                assert forall|a: int| 0 <= a < mid + 1 implies (#[trigger] self.nodes@[a]).lt(
                    *key,
                ) by {
                    if a < mid {
                        assert(self.nodes@[a].lt(self.nodes@[mid as int]));
                    }
                }
                lo = mid + 1;
            } else {
                assert forall|a: int| mid <= a < self.nodes@.len() implies !(
                #[trigger] self.nodes@[a]).lt(*key) by {
                    if a > mid {
                        assert(self.nodes@[mid as int].lt(self.nodes@[a]));
                    }
                }
                hi = mid;
            }
        }
        proof {
            lemma_key_rank(self.nodes@, *key);
            let r = key_rank(self.nodes@, *key) as int;
            if lo < r {
                assert(self.nodes@[lo as int].lt(*key));
            }
            if r < lo {
                assert(self.nodes@[r].lt(*key));
            }
        }
        lo
    }

    /// Where the node `key` is held, if it is.
    fn node_position(&self, key: &NodeKey) -> (pos: Option<usize>)
        requires
            self.wf(),
        ensures
            match pos {
                Some(j) => j < self.nodes@.len() && self.nodes@[j as int] == *key,
                None => !self.nodes@.contains(*key),
            },
    {
        let pos = self.key_lower_bound(key);
        proof {
            lemma_key_rank(self.nodes@, *key);
        }
        if pos < self.nodes.len() && self.nodes[pos] == *key {
            Some(pos)
        } else {
            None
        }
    }

    /// Whether the shard holds the node `key`.
    pub fn has_node(&self, key: &NodeKey) -> (held: bool)
        requires
            self.wf(),
        ensures
            held == self@.nodes.contains(*key),
    {
        match self.node_position(key) {
            Some(j) => true,
            None => false,
        }
    }

    /// The number of records that are stored before `probe`.
    fn lower_bound(&self, probe: &StaleNodeIndex) -> (pos: usize)
        requires
            self.wf(),
        ensures
            pos == rank(self.stale_index@, *probe),
            pos <= self.stale_index@.len(),
    {
        let mut lo: usize = 0;
        let mut hi: usize = self.stale_index.len();
        while lo < hi
            invariant
                lo <= hi <= self.stale_index@.len(),
                is_sorted(self.stale_index@),
                forall|a: int| 0 <= a < lo ==> (#[trigger] self.stale_index@[a]).lt(*probe),
                forall|a: int|
                    hi <= a < self.stale_index@.len() ==> !(#[trigger] self.stale_index@[a]).lt(
                        *probe,
                    ),
            decreases hi - lo,
        {
            let mid: usize = lo + (hi - lo) / 2;
            if self.stale_index[mid].precedes(probe) {
                assert forall|a: int| 0 <= a < mid + 1 implies (#[trigger] self.stale_index@[a]).lt(
                    *probe,
                ) by {
                    if a < mid {
                        assert(self.stale_index@[a].lt(self.stale_index@[mid as int]));
                    }
                }
                lo = mid + 1;
            } else {
                assert forall|a: int| mid <= a < self.stale_index@.len() implies !(
                #[trigger] self.stale_index@[a]).lt(*probe) by {
                    if a > mid {
                        assert(self.stale_index@[mid as int].lt(self.stale_index@[a]));
                    }
                }
                hi = mid;
            }
        }
        proof {
            lemma_rank(self.stale_index@, *probe);
            let r = rank(self.stale_index@, *probe) as int;
            if lo < r {
                assert(self.stale_index@[lo as int].lt(*probe));
            }
            if r < lo {
                assert(self.stale_index@[r].lt(*probe));
            }
        }
        lo
    }

    /// The position at which a scan from version `start` begins: that of
    /// the first record that is stale since `start` or later.
    pub fn seek(&self, start: Version) -> (pos: usize)
        requires
            self.wf(),
        ensures
            pos == count_below(self@.stale_index, start as int),
            pos <= self@.stale_index.len(),
    {
        let probe = StaleNodeIndex::first_at(start);
        proof {
            lemma_rank_seek_key(self.stale_index@, start);
            assert(probe == seek_key(start));
        }
        self.lower_bound(&probe)
    }

    /// Whether the stale node index holds `index`.
    pub fn has_stale_node_index(&self, index: &StaleNodeIndex) -> (held: bool)
        requires
            self.wf(),
        ensures
            held == self@.stale_index.contains(*index),
    {
        let pos = self.lower_bound(index);
        proof {
            lemma_rank(self.stale_index@, *index);
        }
        pos < self.stale_index.len() && self.stale_index[pos] == *index
    }

    /// Stores the node `key`.
    pub fn put_node(&mut self, key: NodeKey)
        requires
            old(self).wf(),
        ensures
            final(self).wf(),
            final(self)@ == (ShardState { nodes: old(self)@.nodes.insert(key), ..old(self)@ }),
    {
        let pos = self.key_lower_bound(&key);
        proof {
            lemma_key_rank(self.nodes@, key);
        }
        if pos < self.nodes.len() && self.nodes[pos] == key {
            assert(self.nodes@.to_set().insert(key) =~= self.nodes@.to_set());
        } else {
            proof {
                lemma_key_insert(self.nodes@, key);
            }
            self.nodes.insert(pos, key);
        }
    }

    /// Records `index` in the stale node index, at its place in storage
    /// order.
    pub fn put_stale_node_index(&mut self, index: StaleNodeIndex)
        requires
            old(self).wf(),
        ensures
            final(self).wf(),
            final(self)@ == (ShardState {
                stale_index: with_record(old(self)@.stale_index, index),
                ..old(self)@
            }),
    {
        let pos = self.lower_bound(&index);
        proof {
            lemma_rank(self.stale_index@, index);
            lemma_with_record(self.stale_index@, index);
        }
        if pos < self.stale_index.len() && self.stale_index[pos] == index {
        } else {
            self.stale_index.insert(pos, index);
        }
    }

    /// Applies one operation of a batch.
    fn apply(&mut self, op: BatchOp)
        requires
            old(self).wf(),
        ensures
            final(self).wf(),
            final(self)@ == old(self)@.apply(op),
    {
        match op {
            BatchOp::DeleteNode(key) => {
                match self.node_position(&key) {
                    Some(j) => {
                        proof {
                            lemma_key_remove(self.nodes@, j as int);
                        }
                        self.nodes.remove(j);
                    },
                    None => {
                        assert(self.nodes@.to_set().remove(key) =~= self.nodes@.to_set());
                    },
                }
            },
            BatchOp::DeleteStaleNodeIndex(index) => {
                let pos = self.lower_bound(&index);
                proof {
                    lemma_rank(self.stale_index@, index);
                    lemma_without_record(self.stale_index@, index);
                }
                if pos < self.stale_index.len() && self.stale_index[pos] == index {
                    self.stale_index.remove(pos);
                }
            },
            BatchOp::PutProgress(version) => {
                self.progress = Some(version);
            },
        }
    }

    /// Writes `batch` atomically: the shard applies every operation of it,
    /// in order, and uses up one write of its quota; or, where the quota
    /// is used up, refuses the batch and stays as it is.
    pub fn write_schemas(&mut self, batch: &SchemaBatch) -> (r: Result<(), PrunerError>)
        requires
            old(self).wf(),
        ensures
            final(self).wf(),
            final(self)@ == old(self)@.commit(batch@),
            r == (if old(self)@.accepts_write() {
                Ok::<(), PrunerError>(())
            } else {
                Err(PrunerError::StorageError)
            }),
    {
        if self.write_quota == 0 {
            return Err(PrunerError::StorageError);
        }
        let n = batch.len();
        let mut i: usize = 0;
        while i < n
            invariant
                i <= n,
                n == batch@.len(),
                self.wf(),
                self.write_quota == old(self).write_quota,
                self@ == old(self)@.apply_all(batch@.take(i as int)),
            decreases n - i,
        {
            match batch.get(i) {
                Some(op) => {
                    self.apply(op);
                },
                None => {},
            }
            i += 1;
            assert(batch@.take(i as int).drop_last() == batch@.take(i - 1));
        }
        assert(batch@.take(n as int) == batch@);
        self.write_quota = self.write_quota - 1;
        Ok(())
    }
}

} // verus!
