//! Garbage collection for a versioned, sharded, authenticated state tree.
//!
//! The write path of the tree records, for every node that a newer version
//! supersedes, a *stale node index*: the version at which the node stopped
//! being part of the live tree, and the node's key. The pruner consumes
//! these records: once the retention boundary (the *target version*) has
//! passed a record's version, the record and the node it names are erased,
//! shard by shard, in bounded atomic batches, with a progress marker that
//! is committed together with each batch.
//!
//! The modules, leaves first:
//!
//! - `node`, `batch`, `error`: versions, node keys and stale node index
//!   records; atomic write batches; the ways in which pruning fails.
//! - `model`, `shard`, `merkle_db`: the mathematical model of a shard, a
//!   shard held in memory, and the store of one metadata shard and a fixed
//!   number of data shards.
//! - `scanner`: reads a shard's stale node index against a version window.
//! - `executor`: prunes one shard, one atomic batch after another.
//! - `pruner`: the coordinator, which owns target and progress and walks
//!   the store from the one to the other.
//! - `laws`: what holds over any number of calls.
//!
//! Beside the pruner the crate holds three small pieces of the node's
//! tooling: `move_types`, the shapes and the text values that the
//! governance modules hand to the indexer; `processors`, the indexer's
//! processors by name; and `bencher`, the settings of a transaction
//! benchmark.

pub mod batch;
pub mod bencher;
pub mod error;
pub mod executor;
pub mod laws;
pub mod merkle_db;
pub mod model;
pub mod move_types;
pub mod node;
pub mod processors;
pub mod pruner;
pub mod scanner;
pub mod shard;
