//! The shard pruning executor.
//!
//! One batch of the executor scans a shard from its progress marker, erases
//! the records that the scan returned together with the nodes they name,
//! and moves the progress marker, all in one atomic write. A shard is
//! pruned to a version by committing batches until a scan finds nothing
//! more up to that version.

use vstd::prelude::*;
use crate::batch::{BatchOp, SchemaBatch};
use crate::error::PrunerError;
use crate::model::{
    count_below, erased_within, is_sorted, lemma_count_below, lemma_count_below_at,
    lemma_erased_within_trans, lemma_rank, rank, without_record, ShardState,
};
use crate::node::{NodeKey, StaleNodeIndex, Version};
use crate::scanner::{
    get_stale_node_indices, lemma_window, scan_batch, scan_examined, scan_resume, window,
    window_len,
};
use crate::shard::DbShard;

verus! {

/// The operations that erase the records `indices` and the nodes they
/// name: for each record, in order, first its node, then the record.
pub open spec fn deletions(indices: Seq<StaleNodeIndex>) -> Seq<BatchOp>
    decreases indices.len(),
{
    if indices.len() == 0 {
        Seq::empty()
    } else {
        deletions(indices.drop_last()).push(BatchOp::DeleteNode(indices.last().node_key)).push(
            BatchOp::DeleteStaleNodeIndex(indices.last()),
        )
    }
}

/// The keys of the nodes that the records `indices` name.
pub open spec fn node_keys(indices: Seq<StaleNodeIndex>) -> Set<NodeKey> {
    Set::new(
        |key: NodeKey| exists|i: int| 0 <= i < indices.len() && (#[trigger] indices[i]).node_key == key,
    )
}

/// Whether one of the records `indices` names a node that is not among
/// `nodes`.
pub open spec fn dangling(nodes: Set<NodeKey>, indices: Seq<StaleNodeIndex>) -> bool {
    exists|i: int| 0 <= i < indices.len() && !nodes.contains((#[trigger] indices[i]).node_key)
}

/// `index` without the `n` records from position `lo` on.
pub open spec fn cut(index: Seq<StaleNodeIndex>, lo: int, n: int) -> Seq<StaleNodeIndex> {
    index.subrange(0, lo) + index.subrange(lo + n, index.len() as int)
}

/// Why a scan of `s` from `start` to `end` cannot be turned into a batch,
/// if it cannot: the request is unsound, or a record that the scan returns
/// names a node that the shard does not hold.
pub open spec fn scan_error(s: ShardState, start: Version, end: Version, batch_size: nat) -> Option<
    PrunerError,
> {
    if batch_size == 0 || end < start || dangling(
        s.nodes,
        scan_batch(s.stale_index, start, end, batch_size),
    ) {
        Some(PrunerError::InvariantViolation)
    } else {
        None
    }
}

/// The shard `s` after the atomic write that erases what a scan from
/// `start` to `end` returns and sets the progress marker to `checkpoint`.
pub open spec fn pruned_batch(
    s: ShardState,
    start: Version,
    end: Version,
    batch_size: nat,
    checkpoint: Version,
) -> ShardState {
    let indices = scan_batch(s.stale_index, start, end, batch_size);
    ShardState {
        stale_index: cut(
            s.stale_index,
            count_below(s.stale_index, start as int) as int,
            indices.len() as int,
        ),
        nodes: s.nodes.difference(node_keys(indices)),
        progress: Some(checkpoint),
        write_quota: (s.write_quota - 1) as u64,
    }
}

/// Whether the batch that follows on `s` leaves work for another one: the
/// scan read a record that is stale since `end` or earlier last.
pub open spec fn batch_continues(s: ShardState, end: Version, batch_size: nat) -> bool {
    match scan_resume(s.stale_index, s.progress_or_zero(), end, batch_size) {
        Some(v) => v <= end,
        None => false,
    }
}

/// The progress marker that the batch that follows on `s` persists: the
/// version at which the next scan resumes, while work is left; `end` when
/// the shard has caught up.
pub open spec fn batch_checkpoint(s: ShardState, end: Version, batch_size: nat) -> Version {
    match scan_resume(s.stale_index, s.progress_or_zero(), end, batch_size) {
        Some(v) => if v <= end {
            v
        } else {
            end
        },
        None => end,
    }
}

/// The operations of the batch that follows on `s`.
pub open spec fn batch_ops(s: ShardState, end: Version, batch_size: nat) -> Seq<BatchOp> {
    deletions(scan_batch(s.stale_index, s.progress_or_zero(), end, batch_size)).push(
        BatchOp::PutProgress(batch_checkpoint(s, end, batch_size)),
    )
}

/// Why the batch that follows on `s` fails, if it does.
pub open spec fn batch_error(s: ShardState, end: Version, batch_size: nat) -> Option<PrunerError> {
    if scan_error(s, s.progress_or_zero(), end, batch_size) is Some {
        scan_error(s, s.progress_or_zero(), end, batch_size)
    } else if !s.accepts_write() {
        Some(PrunerError::StorageError)
    } else {
        None
    }
}

/// The shard after the batch that follows on `s`: `s` itself where the
/// batch fails.
pub open spec fn after_batch(s: ShardState, end: Version, batch_size: nat) -> ShardState {
    if batch_error(s, end, batch_size) is Some {
        s
    } else {
        pruned_batch(s, s.progress_or_zero(), end, batch_size, batch_checkpoint(s, end, batch_size))
    }
}

/// The shard after the batches that prune `s` to `end`, and the error of
/// the batch that failed, if one did: batches follow one another until one
/// fails or leaves no work.
pub open spec fn run_batches(s: ShardState, end: Version, batch_size: nat) -> (ShardState, Option<
    PrunerError,
>)
    decreases s.stale_index.len(),
    when s.wf()
{
    if batch_error(s, end, batch_size) is Some {
        (s, batch_error(s, end, batch_size))
    } else if !batch_continues(s, end, batch_size) {
        (after_batch(s, end, batch_size), None)
    } else {
        proof {
            lemma_batch_shrinks(s, end, batch_size);
        }
        run_batches(after_batch(s, end, batch_size), end, batch_size)
    }
}

/// What pruning the shard `s` to `end` leaves, and the error that stopped
/// it, if one did. A shard whose progress marker is at `end` already is
/// left as it is.
pub open spec fn prune_shard(s: ShardState, end: Version, batch_size: nat) -> (ShardState, Option<
    PrunerError,
>) {
    if s.progress_or_zero() == end {
        (s, None)
    } else {
        run_batches(s, end, batch_size)
    }
}

/// The shard `s` without the records that are stale since a version from
/// `start` to `end`, and without the nodes that those records name, its
/// progress marker at `end`.
pub open spec fn pruned_from(s: ShardState, start: Version, end: Version) -> ShardState {
    ShardState {
        stale_index: cut(
            s.stale_index,
            count_below(s.stale_index, start as int) as int,
            window_len(s.stale_index, start, end) as int,
        ),
        nodes: s.nodes.difference(node_keys(window(s.stale_index, start, end))),
        progress: Some(end),
        write_quota: s.write_quota,
    }
}

/// What pruning the shard `s` to `end` leaves when every batch succeeds:
/// the shard without the records that are stale since a version from its
/// progress marker to `end`, and without the nodes that those records
/// name, its progress marker at `end`. The write quota is left aside.
pub open spec fn fully_pruned(s: ShardState, end: Version) -> ShardState {
    pruned_from(s, s.progress_or_zero(), end)
}

/// Whether every record that is stale since a version from `start` to
/// `end` names a node that the shard holds, and no two of them name the
/// same node.
pub open spec fn sound_from(s: ShardState, start: Version, end: Version) -> bool {
    let w = window(s.stale_index, start, end);
    &&& forall|i: int| 0 <= i < w.len() ==> s.nodes.contains((#[trigger] w[i]).node_key)
    &&& forall|i: int, j: int|
        0 <= i < j < w.len() ==> (#[trigger] w[i]).node_key != (#[trigger] w[j]).node_key
}

/// Whether every record that is stale since a version from the progress
/// marker of `s` to `end` names a node that the shard holds, and no two of
/// them name the same node.
pub open spec fn window_is_sound(s: ShardState, end: Version) -> bool {
    sound_from(s, s.progress_or_zero(), end)
}

/// One committed batch of the executor.
#[derive(Clone, Debug, PartialEq, Eq)]
pub struct ShardBatch {
    /// The operations that the shard committed together.
    pub batch: SchemaBatch,
    /// Whether the shard has caught up: `false` while another batch is
    /// to follow.
    pub done: bool,
}

/// The progress of `shard`: its persisted marker, or 0 where none was ever
/// written.
pub fn get_progress(shard: &DbShard) -> (version: Version)
    ensures
        version == shard@.progress_or_zero(),
{
    match shard.progress() {
        Some(v) => v,
        None => 0,
    }
}

/// Whether `shard` counts as pruned to `target_version`: its progress
/// stands there.
pub fn has_caught_up(shard: &DbShard, target_version: Version) -> (caught_up: bool)
    ensures
        caught_up == (shard@.progress_or_zero() == target_version),
{
    get_progress(shard) == target_version
}

/// Whether `shard` holds the node of every record of `indices`.
fn holds_all_nodes(shard: &DbShard, indices: &Vec<StaleNodeIndex>) -> (held: bool)
    requires
        shard.wf(),
    ensures
        held == !dangling(shard@.nodes, indices@),
{
    let mut i: usize = 0;
    while i < indices.len()
        invariant
            shard.wf(),
            i <= indices.len(),
            forall|j: int| 0 <= j < i ==> shard@.nodes.contains((#[trigger] indices@[j]).node_key),
        decreases indices.len() - i,
    {
        if !shard.has_node(&indices[i].node_key) {
            return false;
        }
        i += 1;
    }
    true
}

/// Scans `shard` from `min_readable_version` to `target_version` and adds
/// to `batch` the deletion of every record that the scan returns and of the
/// node that the record names. Returns the version at which the next scan
/// starts. Nothing is written to the shard: the caller commits the batch.
///
/// Fails, and leaves `batch` as it is, where `batch_size` is zero, where
/// `target_version` is below `min_readable_version`, or where a record
/// names a node that the shard does not hold.
pub fn prune_state_merkle_shard(
    shard: &DbShard,
    min_readable_version: Version,
    target_version: Version,
    batch_size: usize,
    batch: &mut SchemaBatch,
) -> (r: Result<Option<Version>, PrunerError>)
    requires
        shard.wf(),
    ensures
        r == (match scan_error(shard@, min_readable_version, target_version, batch_size as nat) {
            Some(e) => Err::<Option<Version>, PrunerError>(e),
            None => Ok(
                scan_resume(
                    shard@.stale_index,
                    min_readable_version,
                    target_version,
                    batch_size as nat,
                ),
            ),
        }),
        final(batch)@ == (if r is Ok {
            old(batch)@ + deletions(
                scan_batch(
                    shard@.stale_index,
                    min_readable_version,
                    target_version,
                    batch_size as nat,
                ),
            )
        } else {
            old(batch)@
        }),
{
    if batch_size == 0 || target_version < min_readable_version {
        return Err(PrunerError::InvariantViolation);
    }
    let (indices, next_version) = get_stale_node_indices(
        shard,
        min_readable_version,
        target_version,
        batch_size,
    );
    if !holds_all_nodes(shard, &indices) {
        return Err(PrunerError::InvariantViolation);
    }
    let ghost before = batch@;
    let mut i: usize = 0;
    while i < indices.len()
        invariant
            i <= indices.len(),
            batch@ == before + deletions(indices@.take(i as int)),
        decreases indices.len() - i,
    {
        let index: StaleNodeIndex = indices[i];
        batch.delete_node(index.node_key);
        batch.delete_stale_node_index(index);
        i += 1;
        proof {
            assert(indices@.take(i as int).drop_last() == indices@.take(i - 1));
            assert(indices@.take(i as int).last() == index);
            assert(batch@ =~= before + deletions(indices@.take(i as int)));
        }
    }
    assert(indices@.take(i as int) == indices@);
    Ok(next_version)
}

/// Commits the batch that follows on `shard` in pruning it to
/// `target_version`: scans from the shard's progress marker, erases up to
/// `batch_size` records with their nodes, and sets the marker, in one
/// atomic write. The marker becomes the version at which the next scan
/// resumes while that version is `target_version` or below, and
/// `target_version` once the shard has caught up.
///
/// Where the batch fails, the shard is left as it was.
pub fn prune_shard_batch(shard: &mut DbShard, target_version: Version, batch_size: usize) -> (r:
    Result<ShardBatch, PrunerError>)
    requires
        old(shard).wf(),
    ensures
        final(shard).wf(),
        final(shard)@ == after_batch(old(shard)@, target_version, batch_size as nat),
        erased_within(old(shard)@, final(shard)@, target_version),
        old(shard)@.progress_or_zero() <= final(shard)@.progress_or_zero(),
        r matches Ok(committed) ==> committed.batch@.len() <= 2 * batch_size + 1,
        match batch_error(old(shard)@, target_version, batch_size as nat) {
            Some(e) => r == Err::<ShardBatch, PrunerError>(e),
            None => r matches Ok(committed) && committed.batch@ == batch_ops(
                old(shard)@,
                target_version,
                batch_size as nat,
            ) && committed.done == !batch_continues(
                old(shard)@,
                target_version,
                batch_size as nat,
            ),
        },
{
    proof {
        shard.lemma_wf();
        lemma_after_batch(shard@, target_version, batch_size as nat);
        lemma_deletions_len(
            scan_batch(
                shard@.stale_index,
                shard@.progress_or_zero(),
                target_version,
                batch_size as nat,
            ),
        );
    }
    let start: Version = get_progress(shard);
    let mut batch = SchemaBatch::new();
    let next_version = match prune_state_merkle_shard(
        shard,
        start,
        target_version,
        batch_size,
        &mut batch,
    ) {
        Ok(next_version) => next_version,
        Err(e) => {
            return Err(e);
        },
    };
    let (checkpoint, done): (Version, bool) = match next_version {
        Some(v) => if v <= target_version {
            (v, false)
        } else {
            (target_version, true)
        },
        None => (target_version, true),
    };
    batch.put_progress(checkpoint);
    proof {
        shard.lemma_wf();
        if shard@.accepts_write() {
            lemma_commit_batch(shard@, start, target_version, batch_size as nat, checkpoint);
        }
        assert(batch@ =~= batch_ops(shard@, target_version, batch_size as nat));
    }
    match shard.write_schemas(&batch) {
        Ok(()) => Ok(ShardBatch { batch, done }),
        Err(e) => Err(e),
    }
}

/// Prunes `shard` to `target_version`.
///
/// A shard whose progress marker is at `target_version` already is left
/// as it is, without a write. Otherwise batches of up to `batch_size`
/// records are committed until a scan finds no record up to
/// `target_version` any more; the last batch sets the progress marker to
/// `target_version`. A failed batch ends the call with its error and
/// leaves the shard at the batch committed before it.
pub fn prune_single_shard(shard: &mut DbShard, target_version: Version, batch_size: usize) -> (r:
    Result<(), PrunerError>)
    requires
        old(shard).wf(),
    ensures
        final(shard).wf(),
        final(shard)@ == prune_shard(old(shard)@, target_version, batch_size as nat).0,
        r == (match prune_shard(old(shard)@, target_version, batch_size as nat).1 {
            Some(e) => Err::<(), PrunerError>(e),
            None => Ok(()),
        }),
        erased_within(old(shard)@, final(shard)@, target_version),
        old(shard)@.progress_or_zero() <= final(shard)@.progress_or_zero(),
        r is Ok ==> final(shard)@.progress_or_zero() == target_version,
        r is Ok && old(shard)@.progress_or_zero() != target_version ==> final(shard)@ == (
        ShardState { write_quota: final(shard)@.write_quota, ..fully_pruned(old(shard)@, target_version) }),
        batch_size >= 1 && old(shard)@.progress_or_zero() <= target_version && window_is_sound(
            old(shard)@,
            target_version,
        ) && old(shard)@.write_quota > window_len(
            old(shard)@.stale_index,
            old(shard)@.progress_or_zero(),
            target_version,
        ) ==> r is Ok,
{
    proof {
        shard.lemma_wf();
        lemma_prune_shard(shard@, target_version, batch_size as nat);
        if batch_size >= 1 && shard@.progress_or_zero() <= target_version && window_is_sound(
            shard@,
            target_version,
        ) && shard@.write_quota > window_len(
            shard@.stale_index,
            shard@.progress_or_zero(),
            target_version,
        ) {
            lemma_prune_shard_succeeds(shard@, target_version, batch_size as nat);
        }
    }
    if has_caught_up(shard, target_version) {
        return Ok(());
    }
    let ghost initial = shard@;
    proof {
        shard.lemma_wf();
    }
    loop
        invariant
            shard.wf(),
            initial == old(shard)@,
            initial.wf(),
            initial.progress_or_zero() != target_version,
            run_batches(shard@, target_version, batch_size as nat) == run_batches(
                initial,
                target_version,
                batch_size as nat,
            ),
        decreases shard@.stale_index.len(),
    {
        proof {
            shard.lemma_wf();
            lemma_prune_shard(initial, target_version, batch_size as nat);
            if batch_size >= 1 && initial.progress_or_zero() <= target_version && window_is_sound(
                initial,
                target_version,
            ) && initial.write_quota > window_len(
                initial.stale_index,
                initial.progress_or_zero(),
                target_version,
            ) {
                lemma_prune_shard_succeeds(initial, target_version, batch_size as nat);
            }
            if batch_error(shard@, target_version, batch_size as nat) is None && batch_continues(
                shard@,
                target_version,
                batch_size as nat,
            ) {
                lemma_batch_shrinks(shard@, target_version, batch_size as nat);
            }
        }
        match prune_shard_batch(shard, target_version, batch_size) {
            Ok(committed) => {
                if committed.done {
                    return Ok(());
                }
            },
            Err(e) => {
                return Err(e);
            },
        }
    }
}

/// Two operations erase each record: one its node, one the record.
pub proof fn lemma_deletions_len(indices: Seq<StaleNodeIndex>)
    ensures
        deletions(indices).len() == 2 * indices.len(),
    decreases indices.len(),
{
    if indices.len() > 0 {
        lemma_deletions_len(indices.drop_last());
    }
}

/// Taking a block of records out of an ordered index leaves it ordered.
pub proof fn lemma_cut_sorted(index: Seq<StaleNodeIndex>, lo: int, n: int)
    requires
        is_sorted(index),
        0 <= lo,
        0 <= n,
        lo + n <= index.len(),
    ensures
        is_sorted(cut(index, lo, n)),
        cut(index, lo, n).len() == index.len() - n,
        forall|x: StaleNodeIndex| cut(index, lo, n).contains(x) ==> index.contains(x),
{
    let c = cut(index, lo, n);
    assert forall|i: int, j: int| 0 <= i < j < c.len() implies (#[trigger] c[i]).lt(
        #[trigger] c[j],
    ) by {
        let a = if i < lo { i } else { i + n };
        let b = if j < lo { j } else { j + n };
        assert(c[i] == index[a] && c[j] == index[b]);
    }
    assert forall|x: StaleNodeIndex| c.contains(x) implies index.contains(x) by {
        let i = choose|i: int| 0 <= i < c.len() && c[i] == x;
        let a = if i < lo { i } else { i + n };
        assert(index[a] == x);
    }
}

/// Applying the deletions of a block of records of the index erases that
/// block, and the nodes that its records name.
pub proof fn lemma_apply_deletions(s: ShardState, lo: int, n: int)
    requires
        s.wf(),
        0 <= lo,
        0 <= n,
        lo + n <= s.stale_index.len(),
    ensures
        s.apply_all(deletions(s.stale_index.subrange(lo, lo + n))) == (ShardState {
            stale_index: cut(s.stale_index, lo, n),
            nodes: s.nodes.difference(node_keys(s.stale_index.subrange(lo, lo + n))),
            ..s
        }),
    decreases n,
{
    let index = s.stale_index;
    let block = index.subrange(lo, lo + n);
    if n == 0 {
        assert(cut(index, lo, n) =~= index);
        assert(s.nodes.difference(node_keys(block)) =~= s.nodes);
    } else {
        let shorter = index.subrange(lo, lo + n - 1);
        let last = index[lo + n - 1];
        assert(block.drop_last() =~= shorter);
        assert(block.last() == last);
        lemma_apply_deletions(s, lo, n - 1);
        let ops1 = deletions(shorter);
        let ops2 = ops1.push(BatchOp::DeleteNode(last.node_key));
        let ops3 = ops2.push(BatchOp::DeleteStaleNodeIndex(last));
        assert(deletions(block) == ops3);
        assert(ops3.drop_last() =~= ops2);
        assert(ops2.drop_last() =~= ops1);
        let s1 = s.apply_all(ops1);
        let s2 = s1.apply(BatchOp::DeleteNode(last.node_key));
        let s3 = s2.apply(BatchOp::DeleteStaleNodeIndex(last));
        assert(s.apply_all(ops2) == s2);
        assert(s.apply_all(ops3) == s3);
        // The nodes.
        assert forall|key: NodeKey|
            s2.nodes.contains(key) <==> s.nodes.difference(node_keys(block)).contains(key) by {
            if node_keys(block).contains(key) {
                let i = choose|i: int| 0 <= i < block.len() && (#[trigger] block[i]).node_key == key;
                if i < n - 1 {
                    assert(shorter[i].node_key == key);
                }
            }
            if node_keys(shorter).contains(key) {
                let i = choose|i: int|
                    0 <= i < shorter.len() && (#[trigger] shorter[i]).node_key == key;
                assert(block[i].node_key == key);
            }
            if key == last.node_key {
                assert(block[n - 1].node_key == key);
            }
        }
        assert(s2.nodes =~= s.nodes.difference(node_keys(block)));
        // The index.
        let index1 = cut(index, lo, n - 1);
        lemma_cut_sorted(index, lo, n - 1);
        assert(index1[lo] == last);
        lemma_rank(index1, last);
        let r = rank(index1, last) as int;
        if r < lo {
            assert(index1[r].lt(index1[lo]));
        }
        if r > lo {
            assert(index1[lo].lt(index1[r]));
        }
        assert(without_record(index1, last) =~= cut(index, lo, n));
    }
}

/// In a well-formed shard the atomic write of a batch's operations does
/// what `pruned_batch` says.
pub proof fn lemma_commit_batch(
    s: ShardState,
    start: Version,
    end: Version,
    batch_size: nat,
    checkpoint: Version,
)
    requires
        s.wf(),
        s.accepts_write(),
    ensures
        s.commit(
            deletions(scan_batch(s.stale_index, start, end, batch_size)).push(
                BatchOp::PutProgress(checkpoint),
            ),
        ) == pruned_batch(s, start, end, batch_size, checkpoint),
        pruned_batch(s, start, end, batch_size, checkpoint).wf(),
{
    let index = s.stale_index;
    lemma_window(index, start, end);
    let lo = count_below(index, start as int) as int;
    let indices = scan_batch(index, start, end, batch_size);
    let n = indices.len() as int;
    assert(indices =~= index.subrange(lo, lo + n));
    lemma_apply_deletions(s, lo, n);
    let ops = deletions(indices).push(BatchOp::PutProgress(checkpoint));
    assert(ops.drop_last() =~= deletions(indices));
    lemma_cut_sorted(index, lo, n);
}

/// A batch that leaves work has erased at least one record.
pub proof fn lemma_batch_shrinks(s: ShardState, end: Version, batch_size: nat)
    requires
        s.wf(),
        batch_error(s, end, batch_size) is None,
        batch_continues(s, end, batch_size),
    ensures
        after_batch(s, end, batch_size).wf(),
        after_batch(s, end, batch_size).stale_index.len() < s.stale_index.len(),
{
    let index = s.stale_index;
    let start = s.progress_or_zero();
    lemma_window(index, start, end);
    lemma_count_below(index, start as int);
    let lo = count_below(index, start as int) as int;
    let examined = scan_examined(index, start, end, batch_size) as int;
    let resume = index[lo + examined - 1];
    assert(start <= resume.stale_since_version <= end);
    assert(lo + examined - 1 < lo + window_len(index, start, end));
    let indices = scan_batch(index, start, end, batch_size);
    assert(indices.len() >= 1);
    lemma_cut_sorted(index, lo, indices.len() as int);
}

/// The atomic write of a batch keeps the shard well formed and erases
/// nothing that is stale since later than `end`.
pub proof fn lemma_pruned_batch(
    s: ShardState,
    start: Version,
    end: Version,
    batch_size: nat,
    checkpoint: Version,
)
    requires
        s.wf(),
    ensures
        pruned_batch(s, start, end, batch_size, checkpoint).wf(),
        erased_within(s, pruned_batch(s, start, end, batch_size, checkpoint), end),
{
    let index = s.stale_index;
    let f = pruned_batch(s, start, end, batch_size, checkpoint);
    lemma_window(index, start, end);
    let lo = count_below(index, start as int) as int;
    let indices = scan_batch(index, start, end, batch_size);
    let n = indices.len() as int;
    lemma_cut_sorted(index, lo, n);
    assert(indices =~= index.subrange(lo, lo + n));
    assert forall|r: StaleNodeIndex|
        #![trigger index.contains(r)]
        index.contains(r) && !f.stale_index.contains(r) implies r.stale_since_version <= end by {
        let i = choose|i: int| 0 <= i < index.len() && index[i] == r;
        if i < lo {
            assert(f.stale_index[i] == r);
        } else if i >= lo + n {
            assert(f.stale_index[i - n] == r);
        } else {
            assert(start <= index[i].stale_since_version <= end);
        }
    }
    assert forall|k: NodeKey|
        #![trigger s.nodes.contains(k)]
        s.nodes.contains(k) && !f.nodes.contains(k) implies exists|r: StaleNodeIndex|
        #![trigger index.contains(r)]
        index.contains(r) && r.node_key == k && r.stale_since_version <= end by {
        assert(node_keys(indices).contains(k));
        let i = choose|i: int| 0 <= i < indices.len() && (#[trigger] indices[i]).node_key == k;
        assert(indices[i] == index[lo + i]);
        assert(index.contains(index[lo + i]));
        assert(start <= index[lo + i].stale_since_version <= end);
    }
}

/// One batch keeps the shard well formed, erases nothing that is stale
/// since later than `end`, and moves the progress marker forward, and not
/// beyond `end`.
pub proof fn lemma_after_batch(s: ShardState, end: Version, batch_size: nat)
    requires
        s.wf(),
    ensures
        after_batch(s, end, batch_size).wf(),
        erased_within(s, after_batch(s, end, batch_size), end),
        s.progress_or_zero() <= after_batch(s, end, batch_size).progress_or_zero(),
        s.progress_or_zero() <= end ==> after_batch(s, end, batch_size).progress_or_zero() <= end,
        after_batch(s, end, batch_size).write_quota <= s.write_quota,
        batch_error(s, end, batch_size) is None ==> after_batch(s, end, batch_size).progress == Some(
            batch_checkpoint(s, end, batch_size),
        ) && s.progress_or_zero() <= end,
{
    if batch_error(s, end, batch_size) is None {
        let index = s.stale_index;
        let start = s.progress_or_zero();
        lemma_pruned_batch(s, start, end, batch_size, batch_checkpoint(s, end, batch_size));
        lemma_count_below(index, start as int);
        let lo = count_below(index, start as int) as int;
        let examined = scan_examined(index, start, end, batch_size) as int;
        if batch_continues(s, end, batch_size) {
            assert(index[lo + examined - 1].stale_since_version >= start);
        }
    }
}

/// How one batch moves the window that is left to prune: a batch that
/// leaves work takes at least one record from the front of the window, and
/// the scan after it starts where this one did; a batch that leaves no work
/// has erased the whole window.
pub proof fn lemma_batch_window(s: ShardState, end: Version, batch_size: nat)
    requires
        s.wf(),
        batch_error(s, end, batch_size) is None,
    ensures
        ({
            let start = s.progress_or_zero();
            let lo = count_below(s.stale_index, start as int);
            let w = window(s.stale_index, start, end);
            let n = scan_batch(s.stale_index, start, end, batch_size).len();
            let after = after_batch(s, end, batch_size);
            &&& n <= w.len()
            &&& scan_batch(s.stale_index, start, end, batch_size) == w.take(n as int)
            &&& after.stale_index == cut(s.stale_index, lo as int, n as int)
            &&& if batch_continues(s, end, batch_size) {
                &&& n >= 1
                &&& count_below(after.stale_index, after.progress_or_zero() as int) == lo
                &&& window(after.stale_index, after.progress_or_zero(), end) == w.skip(n as int)
            } else {
                n == w.len()
            }
        }),
{
    let index = s.stale_index;
    let start = s.progress_or_zero();
    lemma_window(index, start, end);
    lemma_count_below(index, start as int);
    lemma_count_below(index, end + 1);
    let lo = count_below(index, start as int) as int;
    let hi = count_below(index, end + 1) as int;
    let wl = window_len(index, start, end) as int;
    let w = window(index, start, end);
    let indices = scan_batch(index, start, end, batch_size);
    let n = indices.len() as int;
    let examined = scan_examined(index, start, end, batch_size) as int;
    let after = after_batch(s, end, batch_size);
    if lo > hi {
        assert(index[hi].stale_since_version < start);
    }
    assert(wl == hi - lo);
    assert(indices =~= w.take(n));
    if wl > batch_size {
        assert(examined == batch_size + 1);
        assert(start <= index[lo + batch_size].stale_since_version <= end);
        assert(batch_continues(s, end, batch_size));
    }
    if batch_continues(s, end, batch_size) {
        let c = after.progress_or_zero();
        assert(c == index[lo + examined - 1].stale_since_version);
        assert(start <= c <= end);
        assert(lo + examined - 1 < lo + wl);
        let t = after.stale_index;
        lemma_cut_sorted(index, lo, n);
        assert forall|i: int| 0 <= i < lo implies (#[trigger] t[i]).stale_since_version < c by {
            assert(t[i] == index[i]);
        }
        assert forall|i: int| 0 <= i < hi - n implies (#[trigger] t[i]).stale_since_version < end
            + 1 by {
            if i < lo {
                assert(t[i] == index[i]);
            } else {
                assert(t[i] == index[i + n]);
            }
        }
        assert forall|i: int| hi - n <= i < t.len() implies (#[trigger] t[i]).stale_since_version
            >= end + 1 by {
            assert(t[i] == index[i + n]);
        }
        if wl > batch_size {
            assert forall|i: int| lo <= i < t.len() implies (#[trigger] t[i]).stale_since_version
                >= c by {
                assert(t[i] == index[i + n]);
                if i + n > lo + batch_size {
                    assert(index[lo + batch_size].lt(index[i + n]));
                }
            }
        } else {
            assert(examined == wl);
            assert(index.len() - lo == wl);
            assert(t.len() == lo);
        }
        lemma_count_below_at(t, c as int, lo);
        lemma_count_below_at(t, end + 1, hi - n);
        assert(window(t, c, end) =~= w.skip(n));
    }
}

/// Pruning a shard to `end`, batch by batch, keeps it well formed, erases
/// nothing that is stale since later than `end`, and never moves the
/// progress marker back, nor beyond `end`. When no batch fails, it leaves
/// what `fully_pruned` says.
pub proof fn lemma_run_batches(s: ShardState, end: Version, batch_size: nat)
    requires
        s.wf(),
    ensures
        run_batches(s, end, batch_size).0.wf(),
        erased_within(s, run_batches(s, end, batch_size).0, end),
        s.progress_or_zero() <= run_batches(s, end, batch_size).0.progress_or_zero(),
        s.progress_or_zero() <= end ==> run_batches(s, end, batch_size).0.progress_or_zero()
            <= end,
        run_batches(s, end, batch_size).0.write_quota <= s.write_quota,
        run_batches(s, end, batch_size).1 is None ==> run_batches(s, end, batch_size).0 == (
        ShardState {
            write_quota: run_batches(s, end, batch_size).0.write_quota,
            ..fully_pruned(s, end)
        }),
    decreases s.stale_index.len(),
{
    lemma_after_batch(s, end, batch_size);
    if batch_error(s, end, batch_size) is None {
        lemma_batch_window(s, end, batch_size);
        let start = s.progress_or_zero();
        let index = s.stale_index;
        let lo = count_below(index, start as int) as int;
        let w = window(index, start, end);
        let indices = scan_batch(index, start, end, batch_size);
        let n = indices.len() as int;
        let s1 = after_batch(s, end, batch_size);
        lemma_window(index, start, end);
        if batch_continues(s, end, batch_size) {
            lemma_batch_shrinks(s, end, batch_size);
            lemma_run_batches(s1, end, batch_size);
            let f = run_batches(s1, end, batch_size).0;
            assert(run_batches(s, end, batch_size) == run_batches(s1, end, batch_size));
            lemma_erased_within_trans(s, s1, f, end);
            if run_batches(s, end, batch_size).1 is None {
                let w1 = window(s1.stale_index, s1.progress_or_zero(), end);
                lemma_window(s1.stale_index, s1.progress_or_zero(), end);
                assert(w1 == w.skip(n));
                assert(w1.len() == window_len(s1.stale_index, s1.progress_or_zero(), end));
                assert(w.len() == window_len(index, start, end));
                assert(cut(s1.stale_index, lo, w1.len() as int) =~= cut(index, lo, w.len() as int));
                assert forall|k: NodeKey|
                    s1.nodes.difference(node_keys(w1)).contains(k) <==> s.nodes.difference(
                        node_keys(w),
                    ).contains(k) by {
                    if node_keys(w).contains(k) {
                        let i = choose|i: int| 0 <= i < w.len() && (#[trigger] w[i]).node_key == k;
                        if i < n {
                            assert(indices[i].node_key == k);
                        } else {
                            assert(w1[i - n].node_key == k);
                        }
                    }
                    if node_keys(indices).contains(k) {
                        let i = choose|i: int|
                            0 <= i < indices.len() && (#[trigger] indices[i]).node_key == k;
                        assert(w[i].node_key == k);
                    }
                    if node_keys(w1).contains(k) {
                        let i = choose|i: int| 0 <= i < w1.len() && (#[trigger] w1[i]).node_key == k;
                        assert(w[i + n].node_key == k);
                    }
                }
                assert(s1.nodes.difference(node_keys(w1)) =~= s.nodes.difference(node_keys(w)));
                assert(fully_pruned(s1, end).stale_index == fully_pruned(s, end).stale_index);
                assert(fully_pruned(s1, end).nodes == fully_pruned(s, end).nodes);
            }
        } else {
            assert(indices =~= w);
            assert(w.len() == window_len(index, start, end));
            assert(s1.stale_index == fully_pruned(s, end).stale_index);
            assert(s1.nodes == fully_pruned(s, end).nodes);
            assert(s1.progress == Some(end));
        }
    }
}

/// The laws of `lemma_run_batches`, for `prune_shard`.
pub proof fn lemma_prune_shard(s: ShardState, end: Version, batch_size: nat)
    requires
        s.wf(),
    ensures
        prune_shard(s, end, batch_size).0.wf(),
        erased_within(s, prune_shard(s, end, batch_size).0, end),
        s.progress_or_zero() <= prune_shard(s, end, batch_size).0.progress_or_zero(),
        s.progress_or_zero() <= end ==> prune_shard(s, end, batch_size).0.progress_or_zero()
            <= end,
        prune_shard(s, end, batch_size).0.write_quota <= s.write_quota,
        prune_shard(s, end, batch_size).1 is None ==> prune_shard(
            s,
            end,
            batch_size,
        ).0.progress_or_zero() == end,
        prune_shard(s, end, batch_size).1 is None && s.progress_or_zero() != end ==> prune_shard(
            s,
            end,
            batch_size,
        ).0 == (ShardState {
            write_quota: prune_shard(s, end, batch_size).0.write_quota,
            ..fully_pruned(s, end)
        }),
{
    if s.progress_or_zero() != end {
        lemma_run_batches(s, end, batch_size);
    }
}

/// A window that is sound up to a version is sound up to every earlier
/// one, and holds no fewer records.
pub proof fn lemma_sound_earlier(s: ShardState, start: Version, end: Version, later: Version)
    requires
        s.wf(),
        sound_from(s, start, later),
        end <= later,
    ensures
        sound_from(s, start, end),
        window_len(s.stale_index, start, end) <= window_len(s.stale_index, start, later),
{
    let index = s.stale_index;
    let w = window(index, start, end);
    let wl = window(index, start, later);
    lemma_window(index, start, end);
    lemma_window(index, start, later);
    lemma_count_below(index, start as int);
    lemma_count_below(index, end + 1);
    lemma_count_below(index, later + 1);
    let lo = count_below(index, start as int) as int;
    let hi = count_below(index, end + 1) as int;
    let hi2 = count_below(index, later + 1) as int;
    if hi2 < hi {
        assert(index[hi2].stale_since_version < end + 1);
    }
    assert forall|i: int| 0 <= i < w.len() implies #[trigger] w[i] == wl[i] by {
        assert(w[i] == index[lo + i]);
        assert(wl[i] == index[lo + i]);
    }
}

/// The batches use up no more writes than they erase records, and one.
pub proof fn lemma_writes_bound(s: ShardState, end: Version, batch_size: nat)
    requires
        s.wf(),
    ensures
        s.write_quota - run_batches(s, end, batch_size).0.write_quota <= s.stale_index.len()
            - run_batches(s, end, batch_size).0.stale_index.len() + 1,
        run_batches(s, end, batch_size).0.stale_index.len() <= s.stale_index.len(),
    decreases s.stale_index.len(),
{
    if batch_error(s, end, batch_size) is None {
        lemma_batch_window(s, end, batch_size);
        let start = s.progress_or_zero();
        lemma_window(s.stale_index, start, end);
        if batch_continues(s, end, batch_size) {
            lemma_batch_shrinks(s, end, batch_size);
            lemma_writes_bound(after_batch(s, end, batch_size), end, batch_size);
        }
    }
}

/// When the batches succeed: the batch size is not zero, the progress
/// marker is not beyond `end`, the window is sound, and the write quota
/// exceeds the number of records in the window.
pub proof fn lemma_run_batches_succeeds(s: ShardState, end: Version, batch_size: nat)
    requires
        s.wf(),
        batch_size >= 1,
        s.progress_or_zero() <= end,
        window_is_sound(s, end),
        s.write_quota > window_len(s.stale_index, s.progress_or_zero(), end),
    ensures
        run_batches(s, end, batch_size).1 is None,
    decreases s.stale_index.len(),
{
    let start = s.progress_or_zero();
    let index = s.stale_index;
    let w = window(index, start, end);
    let indices = scan_batch(index, start, end, batch_size);
    lemma_window(index, start, end);
    assert(w.len() == window_len(index, start, end));
    assert(!dangling(s.nodes, indices)) by {
        assert forall|i: int| 0 <= i < indices.len() implies s.nodes.contains(
            (#[trigger] indices[i]).node_key,
        ) by {
            assert(indices[i] == w[i]);
        }
    }
    assert(batch_error(s, end, batch_size) is None);
    if batch_continues(s, end, batch_size) {
        let s1 = after_batch(s, end, batch_size);
        let n = indices.len() as int;
        lemma_after_batch(s, end, batch_size);
        lemma_batch_window(s, end, batch_size);
        lemma_batch_shrinks(s, end, batch_size);
        let w1 = window(s1.stale_index, s1.progress_or_zero(), end);
        lemma_window(s1.stale_index, s1.progress_or_zero(), end);
        assert(w1 == w.skip(n));
        assert forall|i: int| 0 <= i < w1.len() implies s1.nodes.contains(
            (#[trigger] w1[i]).node_key,
        ) by {
            assert(w1[i] == w[i + n]);
            if node_keys(indices).contains(w1[i].node_key) {
                let j = choose|j: int|
                    0 <= j < indices.len() && (#[trigger] indices[j]).node_key == w1[i].node_key;
                assert(indices[j] == w[j]);
            }
        }
        assert forall|i: int, j: int| 0 <= i < j < w1.len() implies (#[trigger] w1[i]).node_key != (
        #[trigger] w1[j]).node_key by {
            assert(w1[i] == w[i + n] && w1[j] == w[j + n]);
        }
        lemma_run_batches_succeeds(s1, end, batch_size);
    }
}

/// When pruning a shard succeeds: under the conditions of
/// `lemma_run_batches_succeeds`.
pub proof fn lemma_prune_shard_succeeds(s: ShardState, end: Version, batch_size: nat)
    requires
        s.wf(),
        batch_size >= 1,
        s.progress_or_zero() <= end,
        window_is_sound(s, end),
        s.write_quota > window_len(s.stale_index, s.progress_or_zero(), end),
    ensures
        prune_shard(s, end, batch_size).1 is None,
{
    if s.progress_or_zero() != end {
        lemma_run_batches_succeeds(s, end, batch_size);
    }
}

} // verus!
