//! The sharded store: one metadata shard, which holds the top levels of the
//! tree, and a fixed number of data shards, each of which holds its own
//! part of the key space.

use vstd::prelude::*;
use crate::model::ShardState;
use crate::shard::DbShard;

verus! {

/// The most data shards that a store can have: a shard is named by a `u8`.
pub const MAX_NUM_SHARDS: usize = 255;

/// What the whole store holds.
pub struct DbState {
    /// The metadata shard.
    pub metadata: ShardState,
    /// The data shards, by shard id.
    pub shards: Seq<ShardState>,
}

impl DbState {
    /// The invariant of a store: each of its shards is well formed, and a
    /// `u8` names each data shard.
    pub open spec fn wf(self) -> bool {
        &&& self.metadata.wf()
        &&& self.shards.len() <= MAX_NUM_SHARDS
        &&& forall|i: int| 0 <= i < self.shards.len() ==> (#[trigger] self.shards[i]).wf()
    }
}

/// The metadata shard and the data shards of one store.
#[derive(Clone, Debug, PartialEq, Eq)]
pub struct StateMerkleDb {
    pub(crate) metadata_db: DbShard,
    pub(crate) shards: Vec<DbShard>,
}

impl View for StateMerkleDb {
    type V = DbState;

    closed spec fn view(&self) -> DbState {
        DbState {
            metadata: self.metadata_db@,
            shards: Seq::new(self.shards@.len(), |i: int| self.shards@[i]@),
        }
    }
}

impl StateMerkleDb {
    /// The invariant of the representation.
    pub closed spec fn wf(&self) -> bool {
        &&& self.metadata_db.wf()
        &&& self.shards@.len() <= MAX_NUM_SHARDS
        &&& forall|i: int| 0 <= i < self.shards@.len() ==> (#[trigger] self.shards@[i]).wf()
    }

    /// What `wf` and the view say of the fields.
    pub(crate) proof fn lemma_parts(&self)
        ensures
            self.wf() == (self.metadata_db.wf() && self.shards@.len() <= MAX_NUM_SHARDS && forall|
                i: int,
            |
                0 <= i < self.shards@.len() ==> (#[trigger] self.shards@[i]).wf()),
            self@.metadata == self.metadata_db@,
            self@.shards.len() == self.shards@.len(),
            forall|i: int| 0 <= i < self.shards@.len() ==> #[trigger] self@.shards[i] == self.shards@[i]@,
    {
    }

    /// A well-formed store has a well-formed model.
    pub proof fn lemma_wf(&self)
        requires
            self.wf(),
        ensures
            self@.wf(),
            self@.metadata.stale_index.len() <= usize::MAX,
    {
        self.metadata_db.lemma_wf();
        assert forall|i: int| 0 <= i < self@.shards.len() implies (#[trigger] self@.shards[i]).wf() by {
            self.shards@[i].lemma_wf();
        }
    }

    /// A store with an empty metadata shard and `num_shards` empty data
    /// shards.
    pub fn new(num_shards: u8) -> (db: StateMerkleDb)
        ensures
            db.wf(),
            db@.metadata == ShardState::empty(),
            db@.shards == Seq::new(num_shards as nat, |i: int| ShardState::empty()),
    {
        let mut shards: Vec<DbShard> = Vec::new();
        let mut i: u8 = 0;
        while i < num_shards
            invariant
                i <= num_shards,
                shards@.len() == i,
                forall|j: int| 0 <= j < i ==> (#[trigger] shards@[j]).wf(),
                forall|j: int| 0 <= j < i ==> (#[trigger] shards@[j])@ == ShardState::empty(),
            decreases num_shards - i,
        {
            shards.push(DbShard::new());
            i += 1;
        }
        let db = StateMerkleDb { metadata_db: DbShard::new(), shards };
        assert(db@.shards =~= Seq::new(num_shards as nat, |i: int| ShardState::empty()));
        db
    }

    /// The store made of the metadata shard `metadata_db` and the data
    /// shards `shards`; `None` where there are more shards than a `u8`
    /// can name.
    pub fn from_parts(metadata_db: DbShard, shards: Vec<DbShard>) -> (db: Option<StateMerkleDb>)
        requires
            metadata_db.wf(),
            forall|i: int| 0 <= i < shards@.len() ==> (#[trigger] shards@[i]).wf(),
        ensures
            db is Some <==> shards@.len() <= MAX_NUM_SHARDS,
            db matches Some(db) ==> db.wf() && db@.metadata == metadata_db@ && db@.shards
                == Seq::new(shards@.len(), |i: int| shards@[i]@),
    {
        if shards.len() > MAX_NUM_SHARDS {
            None
        } else {
            Some(StateMerkleDb { metadata_db, shards })
        }
    }

    /// Takes the store apart: its metadata shard, and its data shards by
    /// shard id.
    pub fn into_parts(self) -> (parts: (DbShard, Vec<DbShard>))
        requires
            self.wf(),
        ensures
            parts.0.wf(),
            parts.0@ == self@.metadata,
            parts.1@.len() == self@.shards.len(),
            forall|i: int|
                0 <= i < parts.1@.len() ==> (#[trigger] parts.1@[i]).wf() && parts.1@[i]@
                    == self@.shards[i],
    {
        (self.metadata_db, self.shards)
    }

    /// The number of data shards.
    pub fn num_shards(&self) -> (n: u8)
        requires
            self.wf(),
        ensures
            n == self@.shards.len(),
    {
        self.shards.len() as u8
    }

    /// The metadata shard.
    pub fn metadata_db(&self) -> (shard: &DbShard)
        requires
            self.wf(),
        ensures
            shard.wf(),
            shard@ == self@.metadata,
    {
        &self.metadata_db
    }

    /// The data shard `shard_id`.
    pub fn db_shard(&self, shard_id: u8) -> (shard: &DbShard)
        requires
            self.wf(),
            shard_id < self@.shards.len(),
        ensures
            shard.wf(),
            shard@ == self@.shards[shard_id as int],
    {
        &self.shards[shard_id as usize]
    }
}

} // verus!
