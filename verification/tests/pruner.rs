use state_pruner::batch::{BatchOp, SchemaBatch};
use state_pruner::error::PrunerError;
use state_pruner::executor::{
    get_progress, has_caught_up, prune_shard_batch, prune_single_shard, prune_state_merkle_shard,
};
use state_pruner::merkle_db::StateMerkleDb;
use state_pruner::node::{NodeKey, StaleNodeIndex};
use state_pruner::pruner::{
    finish_pending_pruning, gather, prune_shards, prune_top_levels, worker_pool_size,
    StateMerklePruner, MAX_PRUNER_WORKERS,
};
use state_pruner::scanner::{get_stale_node_indices, read_limit};
use state_pruner::shard::DbShard;

fn key(tag: u64) -> NodeKey {
    NodeKey::new(1, tag)
}

fn stale(version: u64, tag: u64) -> StaleNodeIndex {
    StaleNodeIndex::new(version, key(tag))
}

/// A shard that holds the given records, each with the node it names.
fn shard_with(records: &[(u64, u64)]) -> DbShard {
    let mut shard = DbShard::new();
    for (version, tag) in records {
        shard.put_node(key(*tag));
        shard.put_stale_node_index(stale(*version, *tag));
    }
    shard
}

/// A shard as `shard_with` makes it, with its progress marker at `progress`.
fn shard_at(progress: u64, records: &[(u64, u64)]) -> DbShard {
    let mut shard = shard_with(records);
    let mut batch = SchemaBatch::new();
    batch.put_progress(progress);
    shard.write_schemas(&batch).unwrap();
    shard.set_write_quota(u64::MAX);
    shard
}

const A: u64 = 0xa;
const B: u64 = 0xb;
const C: u64 = 0xc;
const D: u64 = 0xd;

fn four_records() -> DbShard {
    shard_with(&[(5, A), (7, B), (7, C), (9, D)])
}

#[test]
fn node_keys_are_ordered_by_version_then_path() {
    assert!(NodeKey::new(1, 9).precedes(&NodeKey::new(2, 0)));
    assert!(NodeKey::new(2, 3).precedes(&NodeKey::new(2, 4)));
    assert!(!NodeKey::new(2, 4).precedes(&NodeKey::new(2, 4)));
    assert!(!NodeKey::new(3, 0).precedes(&NodeKey::new(2, 9)));
    assert_eq!(NodeKey::new_empty_path(7), NodeKey::new(7, 0));
}

#[test]
fn stale_indices_are_ordered_by_version_then_key() {
    assert!(stale(5, D).precedes(&stale(7, A)));
    assert!(stale(7, B).precedes(&stale(7, C)));
    assert!(!stale(7, C).precedes(&stale(7, B)));
    assert!(!stale(7, C).precedes(&stale(7, C)));
}

#[test]
fn a_shard_keeps_its_index_in_storage_order() {
    let shard = shard_with(&[(9, D), (7, C), (5, A), (7, B), (7, C)]);
    assert_eq!(
        shard.stale_node_indices(),
        vec![stale(5, A), stale(7, B), stale(7, C), stale(9, D)]
    );
    assert_eq!(shard.num_stale_node_indices(), 4);
    assert_eq!(shard.num_nodes(), 4);
    assert_eq!(shard.stale_node_index_at(1), Some(stale(7, B)));
    assert_eq!(shard.stale_node_index_at(4), None);
    assert!(shard.has_stale_node_index(&stale(7, C)));
    assert!(!shard.has_stale_node_index(&stale(8, C)));
    assert!(shard.has_node(&key(D)));
    assert!(!shard.has_node(&key(0xe)));
    assert_eq!(shard.progress(), None);
    assert_eq!(shard.write_quota(), u64::MAX);
}

#[test]
fn seek_finds_the_first_record_from_a_version() {
    let shard = four_records();
    assert_eq!(shard.seek(0), 0);
    assert_eq!(shard.seek(5), 0);
    assert_eq!(shard.seek(6), 1);
    assert_eq!(shard.seek(7), 1);
    assert_eq!(shard.seek(8), 3);
    assert_eq!(shard.seek(9), 3);
    assert_eq!(shard.seek(10), 4);
    assert_eq!(DbShard::new().seek(3), 0);
}

#[test]
fn a_batch_is_written_whole() {
    let mut shard = four_records();
    let mut batch = SchemaBatch::new();
    batch.delete_node(key(B));
    batch.delete_stale_node_index(stale(7, B));
    batch.delete_stale_node_index(stale(8, B));
    batch.delete_node(key(0xe));
    batch.put_progress(6);
    assert_eq!(batch.len(), 5);
    assert_eq!(batch.get(0), Some(BatchOp::DeleteNode(key(B))));
    assert_eq!(batch.get(4), Some(BatchOp::PutProgress(6)));
    assert_eq!(batch.get(5), None);
    assert_eq!(shard.write_schemas(&batch), Ok(()));
    assert_eq!(
        shard.stale_node_indices(),
        vec![stale(5, A), stale(7, C), stale(9, D)]
    );
    assert!(!shard.has_node(&key(B)));
    assert_eq!(shard.num_nodes(), 3);
    assert_eq!(shard.progress(), Some(6));
    assert_eq!(shard.write_quota(), u64::MAX - 1);
}

#[test]
fn a_refused_batch_leaves_no_trace() {
    let mut shard = four_records();
    shard.set_write_quota(0);
    let before = shard.clone();
    let mut batch = SchemaBatch::new();
    batch.delete_node(key(A));
    batch.delete_stale_node_index(stale(5, A));
    batch.put_progress(5);
    assert_eq!(shard.write_schemas(&batch), Err(PrunerError::StorageError));
    assert_eq!(shard, before);
}

#[test]
fn scan_over_fetches_by_one() {
    let shard = four_records();
    let (indices, next) = get_stale_node_indices(&shard, 0, 9, 2);
    assert_eq!(indices, vec![stale(5, A), stale(7, B)]);
    assert_eq!(next, Some(7));
}

#[test]
fn scan_stops_behind_the_window() {
    let shard = four_records();
    let (indices, next) = get_stale_node_indices(&shard, 0, 7, 10);
    assert_eq!(indices, vec![stale(5, A), stale(7, B), stale(7, C)]);
    assert_eq!(next, Some(9));
    let (indices, next) = get_stale_node_indices(&shard, 6, 8, 10);
    assert_eq!(indices, vec![stale(7, B), stale(7, C)]);
    assert_eq!(next, Some(9));
}

#[test]
fn scan_to_the_end_of_the_index_resumes_at_the_last_record() {
    let shard = four_records();
    let (indices, next) = get_stale_node_indices(&shard, 7, 9, 10);
    assert_eq!(indices, vec![stale(7, B), stale(7, C), stale(9, D)]);
    assert_eq!(next, Some(9));
    let (indices, next) = get_stale_node_indices(&shard, 7, 9, 3);
    assert_eq!(indices, vec![stale(7, B), stale(7, C), stale(9, D)]);
    assert_eq!(next, Some(9));
}

#[test]
fn scan_of_an_empty_shard_finds_nothing() {
    let shard = DbShard::new();
    let (indices, next) = get_stale_node_indices(&shard, 0, 9, 2);
    assert_eq!(indices, vec![]);
    assert_eq!(next, None);
}

#[test]
fn scan_behind_the_last_record_finds_nothing() {
    let shard = four_records();
    let (indices, next) = get_stale_node_indices(&shard, 10, 20, 2);
    assert_eq!(indices, vec![]);
    assert_eq!(next, None);
}

#[test]
fn scan_of_a_window_without_records_reports_the_record_behind_it() {
    let shard = four_records();
    let (indices, next) = get_stale_node_indices(&shard, 0, 4, 2);
    assert_eq!(indices, vec![]);
    assert_eq!(next, Some(5));
    let (indices, next) = get_stale_node_indices(&shard, 8, 8, 2);
    assert_eq!(indices, vec![]);
    assert_eq!(next, Some(9));
}

#[test]
fn scan_never_returns_more_than_the_batch_size() {
    let shard = shard_with(&[(1, 1), (1, 2), (2, 3), (3, 4), (3, 5), (3, 6), (4, 7)]);
    for batch_size in 1..10usize {
        for start in 0..6u64 {
            for end in 0..6u64 {
                let (indices, _) = get_stale_node_indices(&shard, start, end, batch_size);
                assert!(indices.len() <= batch_size);
                for index in &indices {
                    assert!(start <= index.stale_since_version);
                    assert!(index.stale_since_version <= end);
                }
            }
        }
    }
    let (indices, next) = get_stale_node_indices(&shard, 0, 9, 0);
    assert_eq!(indices, vec![]);
    assert_eq!(next, Some(1));
    let (indices, next) = get_stale_node_indices(&shard, 0, 9, usize::MAX);
    assert_eq!(indices.len(), 7);
    assert_eq!(next, Some(4));
}

#[test]
fn batch_building_adds_node_then_record() {
    let shard = four_records();
    let mut batch = SchemaBatch::new();
    batch.put_progress(1);
    let next = prune_state_merkle_shard(&shard, 0, 9, 2, &mut batch);
    assert_eq!(next, Ok(Some(7)));
    assert_eq!(batch.len(), 5);
    assert_eq!(batch.get(0), Some(BatchOp::PutProgress(1)));
    assert_eq!(batch.get(1), Some(BatchOp::DeleteNode(key(A))));
    assert_eq!(batch.get(2), Some(BatchOp::DeleteStaleNodeIndex(stale(5, A))));
    assert_eq!(batch.get(3), Some(BatchOp::DeleteNode(key(B))));
    assert_eq!(batch.get(4), Some(BatchOp::DeleteStaleNodeIndex(stale(7, B))));
    assert_eq!(shard, four_records());
}

#[test]
fn batch_building_rejects_unsound_requests() {
    let shard = four_records();
    let mut batch = SchemaBatch::new();
    assert_eq!(
        prune_state_merkle_shard(&shard, 0, 9, 0, &mut batch),
        Err(PrunerError::InvariantViolation)
    );
    assert_eq!(
        prune_state_merkle_shard(&shard, 8, 7, 2, &mut batch),
        Err(PrunerError::InvariantViolation)
    );
    assert_eq!(batch.len(), 0);
    assert_eq!(prune_state_merkle_shard(&shard, 8, 8, 2, &mut batch), Ok(Some(9)));
    assert_eq!(batch.len(), 0);
}

#[test]
fn batch_building_rejects_a_record_without_its_node() {
    let mut shard = four_records();
    let mut drop_node = SchemaBatch::new();
    drop_node.delete_node(key(B));
    shard.write_schemas(&drop_node).unwrap();
    let mut batch = SchemaBatch::new();
    assert_eq!(
        prune_state_merkle_shard(&shard, 0, 9, 2, &mut batch),
        Err(PrunerError::InvariantViolation)
    );
    assert_eq!(batch.len(), 0);
    assert_eq!(prune_state_merkle_shard(&shard, 0, 9, 1, &mut batch), Ok(Some(7)));
    assert_eq!(batch.len(), 2);
}

#[test]
fn end_to_end_in_batches_of_two() {
    let mut shard = four_records();

    let first = prune_shard_batch(&mut shard, 9, 2).unwrap();
    assert!(!first.done);
    assert_eq!(first.batch.len(), 5);
    assert_eq!(first.batch.get(0), Some(BatchOp::DeleteNode(key(A))));
    assert_eq!(first.batch.get(1), Some(BatchOp::DeleteStaleNodeIndex(stale(5, A))));
    assert_eq!(first.batch.get(2), Some(BatchOp::DeleteNode(key(B))));
    assert_eq!(first.batch.get(3), Some(BatchOp::DeleteStaleNodeIndex(stale(7, B))));
    assert_eq!(first.batch.get(4), Some(BatchOp::PutProgress(7)));
    assert_eq!(shard.stale_node_indices(), vec![stale(7, C), stale(9, D)]);
    assert!(!shard.has_node(&key(A)));
    assert!(!shard.has_node(&key(B)));
    assert!(shard.has_node(&key(C)));
    assert!(shard.has_node(&key(D)));
    assert_eq!(shard.progress(), Some(7));

    let second = prune_shard_batch(&mut shard, 9, 2).unwrap();
    assert_eq!(second.batch.len(), 5);
    assert_eq!(second.batch.get(0), Some(BatchOp::DeleteNode(key(C))));
    assert_eq!(second.batch.get(1), Some(BatchOp::DeleteStaleNodeIndex(stale(7, C))));
    assert_eq!(second.batch.get(2), Some(BatchOp::DeleteNode(key(D))));
    assert_eq!(second.batch.get(3), Some(BatchOp::DeleteStaleNodeIndex(stale(9, D))));
    assert_eq!(second.batch.get(4), Some(BatchOp::PutProgress(9)));
    assert_eq!(shard.stale_node_indices(), vec![]);
    assert_eq!(shard.num_nodes(), 0);
    assert_eq!(shard.progress(), Some(9));

    let third = prune_shard_batch(&mut shard, 9, 2).unwrap();
    assert!(third.done);
    assert_eq!(third.batch.len(), 1);
    assert_eq!(third.batch.get(0), Some(BatchOp::PutProgress(9)));
    assert_eq!(shard.stale_node_indices(), vec![]);
    assert_eq!(shard.num_nodes(), 0);
    assert_eq!(shard.progress(), Some(9));

    let before = shard.clone();
    assert_eq!(prune_single_shard(&mut shard, 9, 2), Ok(()));
    assert_eq!(shard, before);
}

#[test]
fn a_shard_is_pruned_to_the_target_and_no_further() {
    let mut shard = four_records();
    assert_eq!(prune_single_shard(&mut shard, 7, 2), Ok(()));
    assert_eq!(shard.stale_node_indices(), vec![stale(9, D)]);
    assert!(shard.has_node(&key(D)));
    assert_eq!(shard.num_nodes(), 1);
    assert_eq!(shard.progress(), Some(7));
    assert_eq!(get_progress(&shard), 7);
    // Two batches: (5,a),(7,b) with the marker at 7, then (7,c) with the
    // marker at the target.
    assert_eq!(shard.write_quota(), u64::MAX - 2);
}

#[test]
fn pruning_a_shard_that_has_caught_up_writes_nothing() {
    let mut shard = shard_at(9, &[(9, A), (12, B)]);
    let before = shard.clone();
    assert_eq!(prune_single_shard(&mut shard, 9, 0), Ok(()));
    assert_eq!(shard, before);
    assert_eq!(shard.write_quota(), u64::MAX);
}

#[test]
fn pruning_a_shard_backwards_is_refused() {
    let mut shard = shard_at(9, &[(9, A), (12, B)]);
    let before = shard.clone();
    assert_eq!(prune_single_shard(&mut shard, 8, 2), Err(PrunerError::InvariantViolation));
    assert_eq!(shard, before);
    assert_eq!(prune_shard_batch(&mut shard, 8, 2), Err(PrunerError::InvariantViolation));
    assert_eq!(shard, before);
}

#[test]
fn pruning_with_a_batch_size_of_zero_is_refused() {
    let mut shard = four_records();
    let before = shard.clone();
    assert_eq!(prune_single_shard(&mut shard, 9, 0), Err(PrunerError::InvariantViolation));
    assert_eq!(shard, before);
}

#[test]
fn a_record_without_its_node_stops_the_pruning() {
    let mut shard = four_records();
    let mut drop_node = SchemaBatch::new();
    drop_node.delete_node(key(C));
    shard.write_schemas(&drop_node).unwrap();
    assert_eq!(prune_single_shard(&mut shard, 9, 2), Err(PrunerError::InvariantViolation));
    assert_eq!(shard.stale_node_indices(), vec![stale(7, C), stale(9, D)]);
    assert_eq!(shard.progress(), Some(7));
    assert!(shard.has_node(&key(D)));
}

#[test]
fn nothing_newer_than_the_target_is_erased() {
    let records = [(1, 1), (2, 2), (2, 3), (4, 4), (5, 5), (5, 6), (8, 7), (9, 8)];
    for target in 0..11u64 {
        for batch_size in 1..5usize {
            let mut shard = shard_with(&records);
            let result = prune_single_shard(&mut shard, target, batch_size);
            if target == 0 {
                assert_eq!(result, Ok(()));
                assert_eq!(shard, shard_with(&records));
                continue;
            }
            assert_eq!(result, Ok(()));
            assert_eq!(shard.progress(), Some(target));
            for (version, tag) in records {
                let kept = version > target;
                assert_eq!(shard.has_stale_node_index(&stale(version, tag)), kept);
                assert_eq!(shard.has_node(&key(tag)), kept);
            }
        }
    }
}

#[test]
fn pruning_resumes_after_a_refused_write() {
    let records = [(1, 1), (2, 2), (2, 3), (4, 4), (5, 5), (5, 6), (8, 7), (9, 8)];
    let mut whole = shard_with(&records);
    assert_eq!(prune_single_shard(&mut whole, 8, 2), Ok(()));
    for accepted in 0..4u64 {
        let mut shard = shard_with(&records);
        shard.set_write_quota(accepted);
        assert_eq!(prune_single_shard(&mut shard, 8, 2), Err(PrunerError::StorageError));
        assert_eq!(shard.write_quota(), 0);
        // What the refused batch would have erased is still there, and the
        // marker stands where the last accepted batch put it.
        let erased = 2 * accepted as usize;
        assert_eq!(shard.num_stale_node_indices(), records.len() - erased);
        assert_eq!(shard.num_nodes(), records.len() - erased);
        let marker = [None, Some(2), Some(5), Some(8)][accepted as usize];
        assert_eq!(shard.progress(), marker);

        shard.set_write_quota(u64::MAX);
        let resumed = prune_single_shard(&mut shard, 8, 3);
        if accepted == 3 {
            // The marker reached the target with the batch before the
            // refused one: the shard counts as pruned.
            assert_eq!(resumed, Ok(()));
            assert_eq!(shard.stale_node_indices(), vec![stale(8, 7), stale(9, 8)]);
        } else {
            assert_eq!(resumed, Ok(()));
            assert_eq!(shard.stale_node_indices(), whole.stale_node_indices());
            assert_eq!(shard.num_nodes(), whole.num_nodes());
            assert_eq!(shard.progress(), whole.progress());
        }
    }
}

#[test]
fn records_left_at_the_marker_go_with_the_next_target() {
    let mut shard = shard_with(&[(9, A), (9, B), (9, C), (11, D)]);
    shard.set_write_quota(1);
    assert_eq!(prune_single_shard(&mut shard, 9, 2), Err(PrunerError::StorageError));
    assert_eq!(shard.progress(), Some(9));
    assert_eq!(shard.stale_node_indices(), vec![stale(9, C), stale(11, D)]);
    shard.set_write_quota(u64::MAX);
    assert_eq!(prune_single_shard(&mut shard, 9, 2), Ok(()));
    assert_eq!(shard.stale_node_indices(), vec![stale(9, C), stale(11, D)]);
    assert_eq!(prune_single_shard(&mut shard, 10, 2), Ok(()));
    assert_eq!(shard.stale_node_indices(), vec![stale(11, D)]);
    assert_eq!(shard.progress(), Some(10));
}

fn store_at_three() -> StateMerkleDb {
    let metadata = shard_at(3, &[(5, 100), (8, 101), (12, 102)]);
    let shards = vec![
        shard_at(3, &[(4, 1), (5, 2), (10, 3), (11, 4)]),
        shard_at(3, &[]),
        shard_at(3, &[(3, 5), (6, 6), (6, 7), (6, 8), (7, 9)]),
        shard_at(3, &[(20, 10)]),
    ];
    StateMerkleDb::from_parts(metadata, shards).unwrap()
}

#[test]
fn four_shards_catch_up_in_one_call() {
    let mut pruner = StateMerklePruner::new(store_at_three()).unwrap();
    assert_eq!(pruner.progress(), 3);
    assert_eq!(pruner.target_version(), 3);
    assert!(!pruner.is_pruning_pending());
    pruner.set_target_version(10);
    assert!(pruner.is_pruning_pending());
    assert_eq!(pruner.prune(2), Ok(10));
    assert_eq!(pruner.progress(), 10);
    assert_eq!(pruner.target_version(), 10);
    for shard_id in 0..4u8 {
        assert_eq!(pruner.get_shard_progress(shard_id), 10);
    }
    let db = pruner.state_merkle_db();
    assert_eq!(db.num_shards(), 4);
    assert_eq!(db.metadata_db().progress(), Some(10));
    assert_eq!(db.metadata_db().stale_node_indices(), vec![stale(12, 102)]);
    assert_eq!(db.db_shard(0).stale_node_indices(), vec![stale(11, 4)]);
    assert_eq!(db.db_shard(1).stale_node_indices(), vec![]);
    assert_eq!(db.db_shard(2).stale_node_indices(), vec![]);
    assert_eq!(db.db_shard(3).stale_node_indices(), vec![stale(20, 10)]);
    assert_eq!(db.db_shard(0).num_nodes(), 1);
    assert_eq!(db.db_shard(2).num_nodes(), 0);
    assert_eq!(db.db_shard(3).num_nodes(), 1);
}

#[test]
fn shards_without_top_level_records_catch_up_too() {
    let shards = vec![shard_at(3, &[(4, 1)]), shard_at(3, &[]), shard_at(3, &[]), shard_at(3, &[])];
    let db = StateMerkleDb::from_parts(shard_at(3, &[]), shards).unwrap();
    let mut pruner = StateMerklePruner::new(db).unwrap();
    pruner.set_target_version(10);
    assert_eq!(pruner.prune(1), Ok(10));
    assert_eq!(pruner.progress(), 10);
    for shard_id in 0..4u8 {
        assert_eq!(pruner.get_shard_progress(shard_id), 10);
    }
    assert_eq!(pruner.state_merkle_db().metadata_db().progress(), Some(10));
    assert_eq!(pruner.state_merkle_db().db_shard(0).num_stale_node_indices(), 0);
}

#[test]
fn a_call_at_the_target_does_nothing() {
    let mut pruner = StateMerklePruner::new(store_at_three()).unwrap();
    let before = pruner.clone();
    assert_eq!(pruner.prune(2), Ok(3));
    assert_eq!(pruner, before);
    assert_eq!(pruner.prune(0), Ok(3));
    assert_eq!(pruner, before);

    pruner.set_target_version(10);
    assert_eq!(pruner.prune(2), Ok(10));
    let after = pruner.clone();
    assert_eq!(pruner.prune(2), Ok(10));
    assert_eq!(pruner, after);
    let db = pruner.state_merkle_db();
    let quotas: Vec<u64> = (0..4u8).map(|id| db.db_shard(id).write_quota()).collect();
    assert_eq!(pruner.prune(5), Ok(10));
    let db = pruner.state_merkle_db();
    let again: Vec<u64> = (0..4u8).map(|id| db.db_shard(id).write_quota()).collect();
    assert_eq!(quotas, again);
}

#[test]
fn the_target_never_goes_down() {
    let mut pruner = StateMerklePruner::new(store_at_three()).unwrap();
    pruner.set_target_version(10);
    pruner.set_target_version(7);
    assert_eq!(pruner.target_version(), 10);
    pruner.set_target_version(10);
    assert_eq!(pruner.target_version(), 10);
    pruner.set_target_version(11);
    assert_eq!(pruner.target_version(), 11);
    assert_eq!(pruner.progress(), 3);
    assert_eq!(pruner.name(), "state_merkle_pruner");
}

#[test]
fn progress_never_goes_down() {
    let mut pruner = StateMerklePruner::new(store_at_three()).unwrap();
    let mut last = pruner.progress();
    let mut last_shards = vec![3u64; 4];
    for target in [5u64, 4, 9, 9, 2, 30] {
        pruner.set_target_version(target);
        let reached = pruner.prune(2).unwrap();
        assert_eq!(reached, pruner.target_version());
        assert!(pruner.progress() >= last);
        last = pruner.progress();
        for shard_id in 0..4u8 {
            let now = pruner.get_shard_progress(shard_id);
            assert!(now >= last_shards[shard_id as usize]);
            assert_eq!(now, pruner.progress());
            last_shards[shard_id as usize] = now;
        }
    }
    assert_eq!(pruner.progress(), 30);
    let db = pruner.into_db();
    assert_eq!(db.metadata_db().num_stale_node_indices(), 0);
    assert_eq!(db.db_shard(3).num_stale_node_indices(), 0);
}

#[test]
fn a_failing_shard_fails_the_cycle_and_spares_the_others() {
    let (metadata, mut shards) = store_at_three().into_parts();
    shards[2].set_write_quota(1);
    let db = StateMerkleDb::from_parts(metadata, shards).unwrap();
    let mut pruner = StateMerklePruner::new(db).unwrap();
    pruner.set_target_version(10);
    assert_eq!(pruner.prune(2), Err(PrunerError::WorkerFailure { shard_id: 2 }));
    // The windows end at 3, 5, 8 and 10. Shard 2 spends its one write in
    // the window up to 5 and fails in the window up to 8, which is not
    // recorded as progress.
    assert_eq!(pruner.progress(), 5);
    assert_eq!(pruner.state_merkle_db().metadata_db().progress(), Some(8));
    for shard_id in [0u8, 1, 3] {
        assert_eq!(pruner.get_shard_progress(shard_id), 8);
    }
    assert_eq!(pruner.get_shard_progress(2), 5);
    assert_eq!(
        pruner.state_merkle_db().db_shard(2).stale_node_indices(),
        vec![stale(6, 6), stale(6, 7), stale(6, 8), stale(7, 9)]
    );

    // Taken up again, the cycle ends where an undisturbed one ends.
    let (metadata, mut shards) = pruner.clone().into_db().into_parts();
    shards[2].set_write_quota(u64::MAX);
    let mut resumed =
        StateMerklePruner::new(StateMerkleDb::from_parts(metadata, shards).unwrap()).unwrap();
    resumed.set_target_version(10);
    assert_eq!(resumed.prune(2), Ok(10));
    let mut whole = StateMerklePruner::new(store_at_three()).unwrap();
    whole.set_target_version(10);
    assert_eq!(whole.prune(2), Ok(10));
    let (resumed_db, whole_db) = (resumed.into_db(), whole.into_db());
    assert_eq!(
        resumed_db.metadata_db().stale_node_indices(),
        whole_db.metadata_db().stale_node_indices()
    );
    for shard_id in 0..4u8 {
        assert_eq!(
            resumed_db.db_shard(shard_id).stale_node_indices(),
            whole_db.db_shard(shard_id).stale_node_indices()
        );
        assert_eq!(
            resumed_db.db_shard(shard_id).progress(),
            whole_db.db_shard(shard_id).progress()
        );
    }
}

#[test]
fn a_refused_top_level_write_ends_the_call_at_once() {
    let (mut metadata, shards) = store_at_three().into_parts();
    metadata.set_write_quota(0);
    let db = StateMerkleDb::from_parts(metadata, shards).unwrap();
    let mut pruner = StateMerklePruner::new(db).unwrap();
    pruner.set_target_version(10);
    let before = pruner.clone();
    assert_eq!(pruner.prune(2), Err(PrunerError::StorageError));
    assert_eq!(pruner, before);
}

#[test]
fn a_new_pruner_brings_lagging_shards_up() {
    let metadata = shard_at(6, &[(8, 100)]);
    let shards = vec![
        shard_at(6, &[(7, 1)]),
        shard_at(2, &[(3, 2), (4, 3), (6, 4), (7, 5)]),
        shard_with(&[(1, 6), (9, 7)]),
    ];
    let db = StateMerkleDb::from_parts(metadata, shards).unwrap();
    let pruner = StateMerklePruner::new(db).unwrap();
    assert_eq!(pruner.progress(), 6);
    assert_eq!(pruner.target_version(), 6);
    for shard_id in 0..3u8 {
        assert_eq!(pruner.get_shard_progress(shard_id), 6);
    }
    let db = pruner.state_merkle_db();
    assert_eq!(db.db_shard(0).stale_node_indices(), vec![stale(7, 1)]);
    assert_eq!(db.db_shard(1).stale_node_indices(), vec![stale(7, 5)]);
    assert_eq!(db.db_shard(2).stale_node_indices(), vec![stale(9, 7)]);
    assert_eq!(db.metadata_db().stale_node_indices(), vec![stale(8, 100)]);
}

#[test]
fn a_new_pruner_refuses_a_shard_that_is_ahead() {
    let metadata = shard_at(6, &[]);
    let shards = vec![shard_at(6, &[]), shard_at(7, &[])];
    let db = StateMerkleDb::from_parts(metadata, shards).unwrap();
    assert_eq!(
        StateMerklePruner::new(db).err(),
        Some(PrunerError::WorkerFailure { shard_id: 1 })
    );
}

#[test]
fn a_new_store_is_empty() {
    let db = StateMerkleDb::new(3);
    assert_eq!(db.num_shards(), 3);
    assert_eq!(*db.metadata_db(), DbShard::new());
    assert_eq!(*db.db_shard(2), DbShard::new());
    let mut pruner = StateMerklePruner::new(db).unwrap();
    assert_eq!(pruner.progress(), 0);
    pruner.set_target_version(4);
    assert_eq!(pruner.prune(1), Ok(4));
    assert_eq!(pruner.get_shard_progress(1), 4);
}

#[test]
fn a_store_has_at_most_255_shards() {
    let shards: Vec<DbShard> = (0..256).map(|_| DbShard::new()).collect();
    assert!(StateMerkleDb::from_parts(DbShard::new(), shards).is_none());
    let shards: Vec<DbShard> = (0..255).map(|_| DbShard::new()).collect();
    assert!(StateMerkleDb::from_parts(DbShard::new(), shards).is_some());
}

#[test]
fn top_levels_are_pruned_in_one_write() {
    let mut db = store_at_three();
    assert_eq!(prune_top_levels(&mut db, 3, 8), Ok(Some(12)));
    assert_eq!(db.metadata_db().stale_node_indices(), vec![stale(12, 102)]);
    assert_eq!(db.metadata_db().progress(), Some(8));
    assert_eq!(db.metadata_db().write_quota(), u64::MAX - 1);
    assert_eq!(db.db_shard(0).num_stale_node_indices(), 4);
    assert_eq!(prune_top_levels(&mut db, 8, 7), Err(PrunerError::InvariantViolation));
    assert_eq!(prune_top_levels(&mut db, 8, 12), Ok(Some(12)));
    assert_eq!(prune_top_levels(&mut db, 12, 20), Ok(None));
    assert_eq!(db.metadata_db().progress(), Some(20));
}

#[test]
fn every_shard_is_pruned_to_the_same_boundary() {
    let mut db = store_at_three();
    assert_eq!(prune_shards(&mut db, 6, 2), Ok(()));
    for shard_id in 0..4u8 {
        assert_eq!(db.db_shard(shard_id).progress(), Some(6));
    }
    assert_eq!(db.db_shard(0).stale_node_indices(), vec![stale(10, 3), stale(11, 4)]);
    assert_eq!(db.db_shard(2).stale_node_indices(), vec![stale(7, 9)]);
    assert_eq!(db.metadata_db().progress(), Some(3));
    assert_eq!(
        prune_shards(&mut db, 5, 2),
        Err(PrunerError::WorkerFailure { shard_id: 0 })
    );
    assert_eq!(finish_pending_pruning(&mut db, 7), Ok(()));
    assert_eq!(db.db_shard(2).stale_node_indices(), vec![]);
}

#[test]
fn errors_have_names() {
    assert_eq!(PrunerError::StorageError.kind(), "storage_error");
    assert_eq!(PrunerError::InvariantViolation.kind(), "invariant_violation");
    assert_eq!(PrunerError::WorkerFailure { shard_id: 3 }.kind(), "worker_failure");
}

#[test]
fn a_scan_starts_at_the_least_record_of_a_version() {
    assert_eq!(StaleNodeIndex::first_at(7), StaleNodeIndex::new(7, NodeKey::new(0, 0)));
    assert!(StaleNodeIndex::first_at(7).precedes(&stale(7, A)));
    assert!(stale(6, D).precedes(&StaleNodeIndex::first_at(7)));
}

#[test]
fn a_scan_reads_one_record_more_than_it_returns() {
    assert_eq!(read_limit(0), 1);
    assert_eq!(read_limit(2), 3);
    assert_eq!(read_limit(usize::MAX - 1), usize::MAX);
    assert_eq!(read_limit(usize::MAX), usize::MAX);
}

#[test]
fn a_scan_of_what_it_reads_is_a_scan_of_the_index() {
    let records = [(1, 1), (2, 2), (2, 3), (4, 4), (5, 5), (5, 6), (8, 7), (9, 8)];
    let whole = shard_with(&records);
    for start in 0..10u64 {
        for end in 0..10u64 {
            for batch_size in 0..5usize {
                let from = whole.seek(start);
                let mut read = DbShard::new();
                for pos in from..from + read_limit(batch_size) {
                    if let Some(record) = whole.stale_node_index_at(pos) {
                        read.put_stale_node_index(record);
                    }
                }
                assert_eq!(
                    get_stale_node_indices(&read, start, end, batch_size),
                    get_stale_node_indices(&whole, start, end, batch_size)
                );
            }
        }
    }
}

#[test]
fn a_shard_has_caught_up_when_its_marker_is_at_the_target() {
    let shard = shard_at(9, &[(9, A)]);
    assert!(has_caught_up(&shard, 9));
    assert!(!has_caught_up(&shard, 10));
    assert!(!has_caught_up(&shard, 8));
    assert!(has_caught_up(&DbShard::new(), 0));
    assert!(!has_caught_up(&DbShard::new(), 1));
}

#[test]
fn a_cycle_fails_with_its_first_failed_shard() {
    assert_eq!(gather(&vec![]), Ok(()));
    assert_eq!(gather(&vec![Ok(()), Ok(()), Ok(())]), Ok(()));
    assert_eq!(
        gather(&vec![Ok(()), Err(PrunerError::StorageError), Err(PrunerError::InvariantViolation)]),
        Err(PrunerError::WorkerFailure { shard_id: 1 })
    );
    assert_eq!(
        gather(&vec![Err(PrunerError::InvariantViolation)]),
        Err(PrunerError::WorkerFailure { shard_id: 0 })
    );
}

#[test]
fn there_is_a_worker_for_each_shard_up_to_the_ceiling() {
    assert_eq!(MAX_PRUNER_WORKERS, 16);
    assert_eq!(worker_pool_size(0), 0);
    assert_eq!(worker_pool_size(4), 4);
    assert_eq!(worker_pool_size(16), 16);
    assert_eq!(worker_pool_size(17), 16);
    assert_eq!(worker_pool_size(255), 16);
}

#[test]
fn a_sound_window_with_quota_to_spare_is_pruned() {
    // Five records in the window: a quota of six is enough for any batch
    // size.
    let records = [(1, 1), (2, 2), (2, 3), (4, 4), (5, 5), (8, 7)];
    for batch_size in 1..8usize {
        let mut shard = shard_with(&records);
        shard.set_write_quota(6);
        assert_eq!(prune_single_shard(&mut shard, 5, batch_size), Ok(()));
        assert_eq!(shard.stale_node_indices(), vec![stale(8, 7)]);
        assert_eq!(shard.progress(), Some(5));
    }
}

#[test]
fn shards_that_hold_the_same_are_equal() {
    let mut one = DbShard::new();
    let mut other = DbShard::new();
    for tag in [3u64, 1, 2] {
        one.put_node(key(tag));
    }
    for tag in [2u64, 3, 1, 3] {
        other.put_node(key(tag));
    }
    one.put_stale_node_index(stale(4, 1));
    one.put_stale_node_index(stale(2, 2));
    other.put_stale_node_index(stale(2, 2));
    other.put_stale_node_index(stale(4, 1));
    assert_eq!(one, other);
    assert_eq!(one.nodes(), vec![key(1), key(2), key(3)]);
    other.put_node(NodeKey::new(0, 9));
    assert_ne!(one, other);
    assert_eq!(other.nodes(), vec![NodeKey::new(0, 9), key(1), key(2), key(3)]);
}

#[test]
fn a_call_walks_from_one_top_level_record_to_the_next() {
    // Top-level records at 5, 8 and 12: from 3 to 10 the windows end at 3,
    // 5, 8 and 10, and the metadata shard is written once in each.
    let mut pruner = StateMerklePruner::new(store_at_three()).unwrap();
    pruner.set_target_version(10);
    assert_eq!(pruner.prune(2), Ok(10));
    assert_eq!(pruner.state_merkle_db().metadata_db().write_quota(), u64::MAX - 4);
    // The scan of the last window stopped at the record at 12: the next
    // call starts with the window up to 12, then goes to its target.
    pruner.set_target_version(20);
    assert_eq!(pruner.prune(2), Ok(20));
    assert_eq!(pruner.state_merkle_db().metadata_db().write_quota(), u64::MAX - 6);
    assert_eq!(pruner.state_merkle_db().metadata_db().num_stale_node_indices(), 0);
    assert_eq!(pruner.state_merkle_db().db_shard(3).stale_node_indices(), vec![]);
}

/// A small generator of numbers that repeats itself from run to run.
struct Numbers(u64);

impl Numbers {
    fn next(&mut self, bound: u64) -> u64 {
        self.0 = self.0.wrapping_mul(6364136223846793005).wrapping_add(1442695040888963407);
        (self.0 >> 33) % bound
    }
}

fn all_records(db: &StateMerkleDb) -> Vec<(Option<u8>, StaleNodeIndex)> {
    let mut records = Vec::new();
    for record in db.metadata_db().stale_node_indices() {
        records.push((None, record));
    }
    for shard_id in 0..db.num_shards() {
        for record in db.db_shard(shard_id).stale_node_indices() {
            records.push((Some(shard_id), record));
        }
    }
    records
}

#[test]
fn whatever_the_calls_nothing_newer_than_the_target_is_erased() {
    let mut numbers = Numbers(7);
    for _ in 0..40 {
        let mut shards = Vec::new();
        let mut tag = 0u64;
        for _ in 0..3 {
            let mut shard = DbShard::new();
            for _ in 0..numbers.next(12) {
                tag += 1;
                shard.put_node(key(tag));
                shard.put_stale_node_index(stale(1 + numbers.next(30), tag));
            }
            shards.push(shard);
        }
        let mut metadata = DbShard::new();
        for _ in 0..numbers.next(8) {
            tag += 1;
            metadata.put_node(key(tag));
            metadata.put_stale_node_index(stale(1 + numbers.next(30), tag));
        }
        let db = StateMerkleDb::from_parts(metadata, shards).unwrap();
        let mut pruner = StateMerklePruner::new(db).unwrap();
        for _ in 0..8 {
            if numbers.next(3) != 0 {
                pruner.set_target_version(numbers.next(35));
            }
            // The process starts again: what an earlier call left undone in
            // a shard is finished first. Then, now and then, a shard runs
            // out of writes.
            let target = pruner.target_version();
            let (metadata, mut shards) = pruner.clone().into_db().into_parts();
            for shard in shards.iter_mut() {
                shard.set_write_quota(u64::MAX);
            }
            let db = StateMerkleDb::from_parts(metadata, shards).unwrap();
            let (metadata, mut shards) = StateMerklePruner::new(db).unwrap().into_db().into_parts();
            for shard in shards.iter_mut() {
                shard.set_write_quota(if numbers.next(4) == 0 { numbers.next(3) } else { u64::MAX });
            }
            let db = StateMerkleDb::from_parts(metadata, shards).unwrap();
            let mut next = StateMerklePruner::new(db).unwrap();
            next.set_target_version(target);
            let before = all_records(next.state_merkle_db());
            let progress_before = next.progress();
            let shard_progress_before: Vec<u64> =
                (0..3u8).map(|id| next.get_shard_progress(id)).collect();
            let result = next.prune(1 + numbers.next(4) as usize);
            let after = all_records(next.state_merkle_db());
            for (shard, record) in &before {
                if !after.contains(&(*shard, *record)) {
                    assert!(record.stale_since_version <= target);
                    let db = next.state_merkle_db();
                    let held = match shard {
                        None => db.metadata_db().has_node(&record.node_key),
                        Some(id) => db.db_shard(*id).has_node(&record.node_key),
                    };
                    assert!(!held);
                }
            }
            for entry in &after {
                assert!(before.contains(entry));
            }
            assert!(next.progress() >= progress_before);
            for shard_id in 0..3u8 {
                assert!(
                    next.get_shard_progress(shard_id) >= shard_progress_before[shard_id as usize]
                );
            }
            if result.is_ok() {
                assert_eq!(result, Ok(target));
                assert_eq!(next.progress(), target);
                for shard_id in 0..3u8 {
                    assert_eq!(next.get_shard_progress(shard_id), target);
                }
                for (_, record) in &after {
                    assert!(record.stale_since_version >= progress_before);
                }
            }
            pruner = next;
        }
    }
}
