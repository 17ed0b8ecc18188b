//! The pruning coordinator.
//!
//! The coordinator owns the target version and the overall progress. A
//! call of `prune` walks from the progress to the target in windows: for
//! each window it first prunes the top levels of the tree, in the metadata
//! shard, then every data shard up to the same boundary, and only then
//! records the boundary as the new progress.

use vstd::prelude::*;
use crate::batch::SchemaBatch;
use crate::error::PrunerError;
use crate::executor::{
    fully_pruned, get_progress, lemma_commit_batch, lemma_prune_shard, lemma_pruned_batch,
    prune_shard, prune_single_shard, prune_state_merkle_shard, pruned_batch, pruned_from,
    scan_error,
};
use crate::laws::{lemma_partly_fully, lemma_pruned_is_partly};
use crate::merkle_db::{DbState, StateMerkleDb, MAX_NUM_SHARDS};
use crate::model::{
    count_below, erased_within, lemma_count_below, lemma_erased_within_trans,
    lemma_erased_within_weaken, same_content, ShardState,
};
use crate::node::Version;
use crate::scanner::{lemma_window, scan_batch, scan_resume, window, window_len};

verus! {

/// What the coordinator holds.
pub struct PrunerState {
    /// The store.
    pub db: DbState,
    /// The version up to which the pruner was asked to prune.
    pub target_version: Version,
    /// The boundary of the last window that was pruned in every shard.
    pub progress: Version,
    /// Where the last scan of the top levels stopped: the boundary of the
    /// first window of the next call.
    pub next_version: Option<Version>,
}

impl PrunerState {
    /// The invariant of the coordinator: the store is well formed, and a
    /// `usize` counts the records of its top levels; the metadata shard is
    /// not ahead of the target; every data shard stands between the overall
    /// progress and the metadata shard; and where the metadata shard is
    /// ahead of the overall progress, its top levels are pruned up to where
    /// it stands.
    pub open spec fn wf(self) -> bool {
        &&& self.db.wf()
        &&& self.db.metadata.stale_index.len() <= usize::MAX
        &&& top_levels_pruned(self.db.metadata, self.progress)
        &&& self.progress <= self.db.metadata.progress_or_zero() <= self.target_version
        &&& forall|i: int|
            0 <= i < self.db.shards.len() ==> self.progress <= (
            #[trigger] self.db.shards[i]).progress_or_zero()
                <= self.db.metadata.progress_or_zero()
    }
}

/// Whether the metadata shard `meta`, where its progress marker is ahead
/// of `progress`, holds no record that is stale since a version from
/// `progress` to its marker.
pub open spec fn top_levels_pruned(meta: ShardState, progress: Version) -> bool {
    progress < meta.progress_or_zero() ==> forall|i: int|
        0 <= i < meta.stale_index.len() ==> !(progress <= (
        #[trigger] meta.stale_index[i]).stale_since_version <= meta.progress_or_zero())
}

/// Why pruning the top levels from `start` to `end` fails, if it does.
pub open spec fn top_levels_error(meta: ShardState, start: Version, end: Version) -> Option<
    PrunerError,
> {
    if scan_error(meta, start, end, usize::MAX as nat) is Some {
        scan_error(meta, start, end, usize::MAX as nat)
    } else if !meta.accepts_write() {
        Some(PrunerError::StorageError)
    } else {
        None
    }
}

/// The metadata shard after pruning the top levels from `start` to `end`:
/// one atomic write erases what the scan returns and sets the progress
/// marker to `end`. Where that fails the shard stays as it is.
pub open spec fn after_top_levels(meta: ShardState, start: Version, end: Version) -> ShardState {
    if top_levels_error(meta, start, end) is Some {
        meta
    } else {
        pruned_batch(meta, start, end, usize::MAX as nat, end)
    }
}

/// Where the scan of the top levels from `start` to `end` stops.
pub open spec fn top_levels_next(meta: ShardState, start: Version, end: Version) -> Option<
    Version,
> {
    scan_resume(meta.stale_index, start, end, usize::MAX as nat)
}

/// The data shards after each of them was pruned to `end`. No shard's
/// outcome depends on another's.
pub open spec fn prune_all(shards: Seq<ShardState>, end: Version, batch_size: nat) -> Seq<
    ShardState,
> {
    Seq::new(shards.len(), |i: int| prune_shard(shards[i], end, batch_size).0)
}

/// The first shard, in shard order, whose pruning to `end` fails.
pub open spec fn first_failure(shards: Seq<ShardState>, end: Version, batch_size: nat) -> Option<
    u8,
>
    decreases shards.len(),
{
    if shards.len() == 0 {
        None
    } else {
        match first_failure(shards.drop_last(), end, batch_size) {
            Some(id) => Some(id),
            None => if prune_shard(shards.last(), end, batch_size).1 is Some {
                Some((shards.len() - 1) as u8)
            } else {
                None
            },
        }
    }
}

/// What `first_failure` names: the least shard that fails.
pub proof fn lemma_first_failure(shards: Seq<ShardState>, end: Version, batch_size: nat)
    requires
        shards.len() <= MAX_NUM_SHARDS,
    ensures
        match first_failure(shards, end, batch_size) {
            Some(id) => id < shards.len() && prune_shard(shards[id as int], end, batch_size).1
                is Some && forall|j: int|
                0 <= j < id ==> (#[trigger] prune_shard(shards[j], end, batch_size)).1 is None,
            None => forall|j: int|
                0 <= j < shards.len() ==> (#[trigger] prune_shard(shards[j], end, batch_size)).1
                    is None,
        },
    decreases shards.len(),
{
    if shards.len() > 0 {
        let t = shards.drop_last();
        lemma_first_failure(t, end, batch_size);
        assert forall|j: int| 0 <= j < t.len() implies t[j] == shards[j] by {}
        match first_failure(t, end, batch_size) {
            Some(id) => {
                assert(t[id as int] == shards[id as int]);
                assert forall|j: int| 0 <= j < id implies (#[trigger] prune_shard(
                    shards[j],
                    end,
                    batch_size,
                )).1 is None by {
                    assert(t[j] == shards[j]);
                }
            },
            None => {
                assert forall|j: int| 0 <= j < shards.len() - 1 implies (#[trigger] prune_shard(
                    shards[j],
                    end,
                    batch_size,
                )).1 is None by {
                    assert(t[j] == shards[j]);
                }
            },
        }
    }
}

/// The boundary of the first window of a call: where the last scan of the
/// top levels stopped, or the overall progress where no scan has run; but
/// not below the progress of the metadata shard, nor above the target.
pub open spec fn first_window_end(st: PrunerState) -> Version {
    let base = match st.next_version {
        Some(v) => v,
        None => st.progress,
    };
    if base < st.db.metadata.progress_or_zero() {
        st.db.metadata.progress_or_zero()
    } else if base > st.target_version {
        st.target_version
    } else {
        base
    }
}

/// The boundary of the window that follows the one up to `window_end`:
/// where the scan of the top levels stopped, if that is further on and
/// below the target; the target otherwise.
pub open spec fn next_window_end(window_end: Version, next: Option<Version>, target: Version) -> Version {
    match next {
        Some(v) => if window_end < v && v < target {
            v
        } else {
            target
        },
        None => target,
    }
}

/// The coordinator after one window, from its overall progress to
/// `window_end`, and the error that ended the window early, if one did:
/// the top levels are pruned first; if that fails nothing else is done;
/// then every data shard is pruned to `window_end`, whether or not another
/// one fails; and the boundary becomes the overall progress if none failed.
pub open spec fn prune_window(st: PrunerState, window_end: Version, batch_size: nat) -> (
    PrunerState,
    Option<PrunerError>,
) {
    match top_levels_error(st.db.metadata, st.progress, window_end) {
        Some(e) => (st, Some(e)),
        None => {
            let db = DbState {
                metadata: after_top_levels(st.db.metadata, st.progress, window_end),
                shards: prune_all(st.db.shards, window_end, batch_size),
            };
            let next_version = top_levels_next(st.db.metadata, st.progress, window_end);
            match first_failure(st.db.shards, window_end, batch_size) {
                Some(shard_id) => (
                    PrunerState { db, next_version, ..st },
                    Some(PrunerError::WorkerFailure { shard_id }),
                ),
                None => (PrunerState { db, next_version, progress: window_end, ..st }, None),
            }
        },
    }
}

/// The coordinator after the windows from the one up to `window_end` to
/// the one up to the target, and the error that ended them early, if one
/// did.
pub open spec fn run_windows(st: PrunerState, window_end: Version, batch_size: nat) -> (
    PrunerState,
    Option<PrunerError>,
)
    decreases st.target_version - window_end,
{
    let after = prune_window(st, window_end, batch_size);
    if after.1 is Some || window_end >= st.target_version {
        after
    } else {
        run_windows(
            after.0,
            next_window_end(window_end, after.0.next_version, st.target_version),
            batch_size,
        )
    }
}

/// What a call of `prune` leaves, and the error that ended it, if one did.
/// Where the progress is at the target, nothing is done.
pub open spec fn prune_outcome(st: PrunerState, batch_size: nat) -> (PrunerState, Option<
    PrunerError,
>) {
    if st.progress == st.target_version {
        (st, None)
    } else {
        run_windows(st, first_window_end(st), batch_size)
    }
}

/// The pruner that takes the store `db` over, and the error that keeps it
/// from doing so, if one does: the overall progress and the target start at
/// the progress marker of the metadata shard, and every data shard that
/// lags behind is brought up to it.
pub open spec fn new_outcome(db: DbState) -> (PrunerState, Option<PrunerError>) {
    let progress = db.metadata.progress_or_zero();
    (
        PrunerState {
            db: DbState { shards: prune_all(db.shards, progress, usize::MAX as nat), ..db },
            target_version: progress,
            progress,
            next_version: None,
        },
        match first_failure(db.shards, progress, usize::MAX as nat) {
            Some(shard_id) => Some(PrunerError::WorkerFailure { shard_id }),
            None => None,
        },
    )
}

/// The pruner `st` after it was given the target `target_version`: a
/// target never goes down.
pub open spec fn with_target(st: PrunerState, target_version: Version) -> PrunerState {
    PrunerState {
        target_version: if target_version >= st.target_version {
            target_version
        } else {
            st.target_version
        },
        ..st
    }
}

/// Whether going from `before` to `after` erased, in every shard, nothing
/// that is stale since later than `bound`.
pub open spec fn db_erased_within(before: DbState, after: DbState, bound: Version) -> bool {
    &&& after.shards.len() == before.shards.len()
    &&& erased_within(before.metadata, after.metadata, bound)
    &&& forall|i: int|
        0 <= i < before.shards.len() ==> erased_within(
            #[trigger] before.shards[i],
            after.shards[i],
            bound,
        )
}

/// Whether no progress marker and no target is lower in `after` than in
/// `before`.
pub open spec fn never_back(before: PrunerState, after: PrunerState) -> bool {
    &&& before.progress <= after.progress
    &&& before.target_version <= after.target_version
    &&& before.db.metadata.progress_or_zero() <= after.db.metadata.progress_or_zero()
    &&& after.db.shards.len() == before.db.shards.len()
    &&& forall|i: int|
        0 <= i < before.db.shards.len() ==> (#[trigger] before.db.shards[i]).progress_or_zero()
            <= after.db.shards[i].progress_or_zero()
}

/// Whether a cycle is complete: the overall progress, the metadata shard
/// and every data shard stand at the target.
pub open spec fn caught_up(st: PrunerState) -> bool {
    &&& st.progress == st.target_version
    &&& st.db.metadata.progress_or_zero() == st.target_version
    &&& forall|i: int|
        0 <= i < st.db.shards.len() ==> (#[trigger] st.db.shards[i]).progress_or_zero()
            == st.target_version
}

/// Pruning the top levels keeps the metadata shard well formed, erases
/// nothing that is stale since later than `end`, and sets the progress
/// marker to `end` unless it fails.
pub proof fn lemma_after_top_levels(meta: ShardState, start: Version, end: Version)
    requires
        meta.wf(),
    ensures
        after_top_levels(meta, start, end).wf(),
        erased_within(meta, after_top_levels(meta, start, end), end),
        after_top_levels(meta, start, end).write_quota <= meta.write_quota,
        top_levels_error(meta, start, end) is None ==> after_top_levels(
            meta,
            start,
            end,
        ).progress == Some(end),
        top_levels_error(meta, start, end) is Some ==> after_top_levels(meta, start, end) == meta,
        after_top_levels(meta, start, end).stale_index.len() <= meta.stale_index.len(),
        top_levels_error(meta, start, end) is None && meta.stale_index.len() <= usize::MAX ==> {
            &&& same_content(after_top_levels(meta, start, end), pruned_from(meta, start, end))
            &&& start <= end
            &&& forall|i: int|
                0 <= i < after_top_levels(meta, start, end).stale_index.len() ==> !(start <= (
                #[trigger] after_top_levels(meta, start, end).stale_index[i]).stale_since_version
                    <= end)
        },
{
    lemma_pruned_batch(meta, start, end, usize::MAX as nat, end);
    lemma_erased_within_weaken(meta, pruned_batch(meta, start, end, usize::MAX as nat, end), end, end);
    lemma_window(meta.stale_index, start, end);
    lemma_count_below(meta.stale_index, start as int);
    lemma_count_below(meta.stale_index, end + 1);
    if top_levels_error(meta, start, end) is None && meta.stale_index.len() <= usize::MAX {
        let index = meta.stale_index;
        let t = after_top_levels(meta, start, end).stale_index;
        let lo = count_below(index, start as int) as int;
        let n = window_len(index, start, end) as int;
        assert(scan_batch(index, start, end, usize::MAX as nat) =~= window(index, start, end));
        assert forall|i: int| 0 <= i < t.len() implies !(start <= (
        #[trigger] t[i]).stale_since_version <= end) by {
            if i < lo {
                assert(t[i] == index[i]);
            } else {
                assert(t[i] == index[i + n]);
            }
        }
    }
}

/// What one window keeps and brings about.
pub proof fn lemma_prune_window(st: PrunerState, window_end: Version, batch_size: nat)
    requires
        st.wf(),
        st.db.metadata.progress_or_zero() <= window_end <= st.target_version,
    ensures
        prune_window(st, window_end, batch_size).0.wf(),
        prune_window(st, window_end, batch_size).0.target_version == st.target_version,
        never_back(st, prune_window(st, window_end, batch_size).0),
        db_erased_within(st.db, prune_window(st, window_end, batch_size).0.db, window_end),
        prune_window(st, window_end, batch_size).0.db.metadata.progress_or_zero() <= window_end,
        prune_window(st, window_end, batch_size).1 is None ==> ({
            let after = prune_window(st, window_end, batch_size).0;
            &&& after.progress == window_end
            &&& after.db.metadata.progress_or_zero() == window_end
            &&& forall|i: int|
                0 <= i < after.db.shards.len() ==> (#[trigger] after.db.shards[i]).progress_or_zero()
                    == window_end
        }),
{
    let after = prune_window(st, window_end, batch_size).0;
    lemma_after_top_levels(st.db.metadata, st.progress, window_end);
    if top_levels_error(st.db.metadata, st.progress, window_end) is None {
        lemma_first_failure(st.db.shards, window_end, batch_size);
        assert forall|i: int| 0 <= i < st.db.shards.len() implies {
            &&& (#[trigger] after.db.shards[i]).wf()
            &&& erased_within(st.db.shards[i], after.db.shards[i], window_end)
            &&& st.db.shards[i].progress_or_zero() <= after.db.shards[i].progress_or_zero()
            &&& after.db.shards[i].progress_or_zero() <= window_end
            &&& prune_shard(st.db.shards[i], window_end, batch_size).1 is None
                ==> after.db.shards[i].progress_or_zero() == window_end
        } by {
            lemma_prune_shard(st.db.shards[i], window_end, batch_size);
        }
        assert forall|i: int| 0 <= i < st.db.shards.len() implies erased_within(
            #[trigger] st.db.shards[i],
            after.db.shards[i],
            window_end,
        ) by {
            assert(after.db.shards[i].wf());
        }
        assert forall|i: int| 0 <= i < st.db.shards.len() implies (
        #[trigger] st.db.shards[i]).progress_or_zero() <= after.db.shards[i].progress_or_zero() by {
            assert(after.db.shards[i].wf());
        }
    } else {
        assert forall|i: int| 0 <= i < st.db.shards.len() implies erased_within(
            #[trigger] st.db.shards[i],
            after.db.shards[i],
            window_end,
        ) by {
            lemma_erased_within_weaken(st.db.shards[i], st.db.shards[i], window_end, window_end);
        }
    }
}

/// What the windows of one call keep and bring about: the coordinator
/// stays well formed; no progress marker moves back; nothing is erased
/// that is stale since later than the target; and when no window fails,
/// the cycle is complete.
pub proof fn lemma_run_windows(st: PrunerState, window_end: Version, batch_size: nat)
    requires
        st.wf(),
        st.db.metadata.progress_or_zero() <= window_end <= st.target_version,
    ensures
        run_windows(st, window_end, batch_size).0.wf(),
        run_windows(st, window_end, batch_size).0.target_version == st.target_version,
        never_back(st, run_windows(st, window_end, batch_size).0),
        db_erased_within(st.db, run_windows(st, window_end, batch_size).0.db, st.target_version),
        run_windows(st, window_end, batch_size).1 is None ==> caught_up(
            run_windows(st, window_end, batch_size).0,
        ),
    decreases st.target_version - window_end,
{
    let after = prune_window(st, window_end, batch_size);
    lemma_prune_window(st, window_end, batch_size);
    lemma_db_erased_within_weaken(st.db, after.0.db, window_end, st.target_version);
    if after.1 is Some || window_end >= st.target_version {
    } else {
        let next = next_window_end(window_end, after.0.next_version, st.target_version);
        lemma_run_windows(after.0, next, batch_size);
        let last = run_windows(after.0, next, batch_size).0;
        lemma_db_erased_within_trans(st.db, after.0.db, last.db, st.target_version);
        assert forall|i: int| 0 <= i < st.db.shards.len() implies (
        #[trigger] st.db.shards[i]).progress_or_zero() <= last.db.shards[i].progress_or_zero() by {
            assert(after.0.db.shards[i].progress_or_zero() <= last.db.shards[i].progress_or_zero());
        }
    }
}

/// What pruning leaves of a data shard that is pruned to `end` in one
/// window or in several: the shard as it is where its progress marker
/// stands at `end` already, and else the shard without the records that are
/// stale since a version from its progress marker to `end`.
pub open spec fn shard_pruned_to(s: ShardState, end: Version) -> ShardState {
    if s.progress_or_zero() == end {
        s
    } else {
        fully_pruned(s, end)
    }
}

/// What the windows of a call leave when none of them fails: the top
/// levels without the records that are stale since a version from the
/// overall progress to the target, and each data shard as `shard_pruned_to`
/// says, whatever the windows were.
pub proof fn lemma_run_windows_completes(st: PrunerState, window_end: Version, batch_size: nat)
    requires
        st.wf(),
        st.db.metadata.progress_or_zero() <= window_end <= st.target_version,
        run_windows(st, window_end, batch_size).1 is None,
    ensures
        same_content(
            run_windows(st, window_end, batch_size).0.db.metadata,
            pruned_from(st.db.metadata, st.progress, st.target_version),
        ),
        run_windows(st, window_end, batch_size).0.db.shards.len() == st.db.shards.len(),
        forall|i: int|
            0 <= i < st.db.shards.len() ==> same_content(
                #[trigger] run_windows(st, window_end, batch_size).0.db.shards[i],
                shard_pruned_to(st.db.shards[i], st.target_version),
            ),
    decreases st.target_version - window_end,
{
    let target = st.target_version;
    let after = prune_window(st, window_end, batch_size).0;
    let meta = st.db.metadata;
    lemma_prune_window(st, window_end, batch_size);
    lemma_after_top_levels(meta, st.progress, window_end);
    lemma_first_failure(st.db.shards, window_end, batch_size);
    assert forall|i: int| 0 <= i < st.db.shards.len() implies same_content(
        #[trigger] after.db.shards[i],
        shard_pruned_to(st.db.shards[i], window_end),
    ) by {
        assert(prune_shard(st.db.shards[i], window_end, batch_size).1 is None);
        lemma_prune_shard(st.db.shards[i], window_end, batch_size);
    }
    if window_end < target {
        let next = next_window_end(window_end, after.next_version, target);
        let last = run_windows(after, next, batch_size).0;
        lemma_run_windows_completes(after, next, batch_size);
        lemma_pruned_is_partly(meta, st.progress, window_end, target);
        lemma_partly_fully(meta, st.progress, after.db.metadata, window_end, target);
        assert forall|i: int| 0 <= i < st.db.shards.len() implies same_content(
            #[trigger] last.db.shards[i],
            shard_pruned_to(st.db.shards[i], target),
        ) by {
            let s = st.db.shards[i];
            let s1 = after.db.shards[i];
            assert(same_content(last.db.shards[i], shard_pruned_to(s1, target)));
            assert(s1.progress_or_zero() == window_end);
            if s.progress_or_zero() != window_end {
                lemma_pruned_is_partly(s, s.progress_or_zero(), window_end, target);
                lemma_partly_fully(s, s.progress_or_zero(), s1, window_end, target);
            }
        }
    }
}

/// `db_erased_within` for a later bound.
pub proof fn lemma_db_erased_within_weaken(a: DbState, b: DbState, bound: Version, later: Version)
    requires
        db_erased_within(a, b, bound),
        bound <= later,
    ensures
        db_erased_within(a, b, later),
{
    lemma_erased_within_weaken(a.metadata, b.metadata, bound, later);
    assert forall|i: int| 0 <= i < a.shards.len() implies erased_within(
        #[trigger] a.shards[i],
        b.shards[i],
        later,
    ) by {
        lemma_erased_within_weaken(a.shards[i], b.shards[i], bound, later);
    }
}

/// `db_erased_within` over two steps.
pub proof fn lemma_db_erased_within_trans(a: DbState, b: DbState, c: DbState, bound: Version)
    requires
        db_erased_within(a, b, bound),
        db_erased_within(b, c, bound),
    ensures
        db_erased_within(a, c, bound),
{
    lemma_erased_within_trans(a.metadata, b.metadata, c.metadata, bound);
    assert forall|i: int| 0 <= i < a.shards.len() implies erased_within(
        #[trigger] a.shards[i],
        c.shards[i],
        bound,
    ) by {
        assert(erased_within(b.shards[i], c.shards[i], bound));
        lemma_erased_within_trans(a.shards[i], b.shards[i], c.shards[i], bound);
    }
}

/// The most workers that prune data shards at one time.
pub const MAX_PRUNER_WORKERS: usize = 16;

/// The number of workers for a store of `num_shards` data shards: one for
/// each shard, but no more than `MAX_PRUNER_WORKERS`.
pub fn worker_pool_size(num_shards: u8) -> (workers: usize)
    ensures
        workers == (if num_shards <= MAX_PRUNER_WORKERS {
            num_shards as usize
        } else {
            MAX_PRUNER_WORKERS
        }),
{
    if num_shards as usize <= MAX_PRUNER_WORKERS {
        num_shards as usize
    } else {
        MAX_PRUNER_WORKERS
    }
}

/// The position of the first failure among `results`.
pub open spec fn first_failed(results: Seq<Result<(), PrunerError>>) -> Option<u8>
    decreases results.len(),
{
    if results.len() == 0 {
        None
    } else {
        match first_failed(results.drop_last()) {
            Some(id) => Some(id),
            None => if results.last() is Err {
                Some((results.len() - 1) as u8)
            } else {
                None
            },
        }
    }
}

/// What pruning the shard `s` to `end` returns.
pub open spec fn shard_result(s: ShardState, end: Version, batch_size: nat) -> Result<
    (),
    PrunerError,
> {
    match prune_shard(s, end, batch_size).1 {
        Some(e) => Err(e),
        None => Ok(()),
    }
}

/// The first failure among the results of the shards is the first shard
/// that fails.
pub proof fn lemma_first_failed(shards: Seq<ShardState>, end: Version, batch_size: nat)
    ensures
        first_failed(Seq::new(shards.len(), |i: int| shard_result(shards[i], end, batch_size)))
            == first_failure(shards, end, batch_size),
    decreases shards.len(),
{
    let results = Seq::new(shards.len(), |i: int| shard_result(shards[i], end, batch_size));
    if shards.len() > 0 {
        let t = shards.drop_last();
        lemma_first_failed(t, end, batch_size);
        assert(results.drop_last() =~= Seq::new(
            t.len(),
            |i: int| shard_result(t[i], end, batch_size),
        ));
    }
}

/// Gathers the results of the shards, given by shard id, into the result
/// of the cycle: the cycle fails if any shard failed, and names the first
/// one that did.
pub fn gather(results: &Vec<Result<(), PrunerError>>) -> (r: Result<(), PrunerError>)
    requires
        results@.len() <= MAX_NUM_SHARDS,
    ensures
        r == (match first_failed(results@) {
            Some(shard_id) => Err::<(), PrunerError>(PrunerError::WorkerFailure { shard_id }),
            None => Ok(()),
        }),
{
    let mut failed: Option<u8> = None;
    let mut i: usize = 0;
    while i < results.len()
        invariant
            i <= results@.len() <= MAX_NUM_SHARDS,
            failed == first_failed(results@.take(i as int)),
        decreases results@.len() - i,
    {
        if failed.is_none() && results[i].is_err() {
            failed = Some(i as u8);
        }
        i += 1;
        assert(results@.take(i as int).drop_last() == results@.take(i - 1));
    }
    assert(results@.take(i as int) == results@);
    match failed {
        Some(shard_id) => Err(PrunerError::WorkerFailure { shard_id }),
        None => Ok(()),
    }
}

/// Prunes the top levels of the tree, which the metadata shard holds, from
/// `min_readable_version` to `target_version`: one atomic write erases
/// every record of that window with its node and sets the progress marker
/// of the metadata shard to `target_version`. The scan is not bounded by a
/// batch size: the top levels are few. Returns where the scan stopped.
pub fn prune_top_levels(
    db: &mut StateMerkleDb,
    min_readable_version: Version,
    target_version: Version,
) -> (r: Result<Option<Version>, PrunerError>)
    requires
        old(db).wf(),
    ensures
        final(db).wf(),
        final(db)@ == (DbState {
            metadata: after_top_levels(old(db)@.metadata, min_readable_version, target_version),
            ..old(db)@
        }),
        r == (match top_levels_error(old(db)@.metadata, min_readable_version, target_version) {
            Some(e) => Err::<Option<Version>, PrunerError>(e),
            None => Ok(top_levels_next(old(db)@.metadata, min_readable_version, target_version)),
        }),
        db_erased_within(old(db)@, final(db)@, target_version),
{
    proof {
        db.lemma_parts();
        db.lemma_wf();
        lemma_after_top_levels(db@.metadata, min_readable_version, target_version);
        assert forall|j: int| 0 <= j < db@.shards.len() implies erased_within(
            #[trigger] db@.shards[j],
            db@.shards[j],
            target_version,
        ) by {
            lemma_erased_within_weaken(db@.shards[j], db@.shards[j], target_version, target_version);
        }
    }
    let mut batch = SchemaBatch::new();
    let next_version = match prune_state_merkle_shard(
        &db.metadata_db,
        min_readable_version,
        target_version,
        usize::MAX,
        &mut batch,
    ) {
        Ok(next_version) => next_version,
        Err(e) => {
            return Err(e);
        },
    };
    batch.put_progress(target_version);
    proof {
        db.metadata_db.lemma_wf();
        if db.metadata_db@.accepts_write() {
            lemma_commit_batch(
                db.metadata_db@,
                min_readable_version,
                target_version,
                usize::MAX as nat,
                target_version,
            );
        }
    }
    let ghost before = *db;
    let written = db.metadata_db.write_schemas(&batch);
    proof {
        db.lemma_parts();
        before.lemma_parts();
        assert(db@.shards =~= before@.shards);
    }
    match written {
        Ok(()) => Ok(next_version),
        Err(e) => Err(e),
    }
}

/// Prunes every data shard to `target_version`, in batches of up to
/// `batch_size` records. A shard that fails does not keep the others from
/// being pruned; the call then fails with the first shard that did.
pub fn prune_shards(db: &mut StateMerkleDb, target_version: Version, batch_size: usize) -> (r:
    Result<(), PrunerError>)
    requires
        old(db).wf(),
    ensures
        final(db).wf(),
        final(db)@ == (DbState {
            shards: prune_all(old(db)@.shards, target_version, batch_size as nat),
            ..old(db)@
        }),
        r == (match first_failure(old(db)@.shards, target_version, batch_size as nat) {
            Some(shard_id) => Err::<(), PrunerError>(PrunerError::WorkerFailure { shard_id }),
            None => Ok(()),
        }),
        db_erased_within(old(db)@, final(db)@, target_version),
{
    let ghost initial = *db;
    proof {
        db.lemma_parts();
    }
    let n: usize = db.shards.len();
    let mut results: Vec<Result<(), PrunerError>> = Vec::new();
    let mut i: usize = 0;
    while i < n
        invariant
            i <= n,
            n == db.shards@.len(),
            n == initial.shards@.len(),
            n <= MAX_NUM_SHARDS,
            db.metadata_db == initial.metadata_db,
            forall|j: int| 0 <= j < n ==> (#[trigger] db.shards@[j]).wf(),
            forall|j: int|
                0 <= j < i ==> (#[trigger] db.shards@[j])@ == prune_shard(
                    initial.shards@[j]@,
                    target_version,
                    batch_size as nat,
                ).0,
            forall|j: int| i <= j < n ==> (#[trigger] db.shards@[j]) == initial.shards@[j],
            results@.len() == i,
            forall|j: int|
                0 <= j < i ==> #[trigger] results@[j] == shard_result(
                    initial.shards@[j]@,
                    target_version,
                    batch_size as nat,
                ),
        decreases n - i,
    {
        let pruned = prune_single_shard(&mut db.shards[i], target_version, batch_size);
        results.push(pruned);
        i += 1;
    }
    proof {
        db.lemma_parts();
        initial.lemma_parts();
        initial.lemma_wf();
        assert(db@.shards =~= prune_all(initial@.shards, target_version, batch_size as nat));
        lemma_first_failed(initial@.shards, target_version, batch_size as nat);
        assert(results@ =~= Seq::new(
            initial@.shards.len(),
            |j: int| shard_result(initial@.shards[j], target_version, batch_size as nat),
        ));
        assert forall|j: int| 0 <= j < initial@.shards.len() implies erased_within(
            #[trigger] initial@.shards[j],
            db@.shards[j],
            target_version,
        ) by {
            lemma_prune_shard(initial@.shards[j], target_version, batch_size as nat);
        }
        lemma_erased_within_weaken(
            initial@.metadata,
            initial@.metadata,
            target_version,
            target_version,
        );
    }
    gather(&results)
}

/// Brings every data shard that lags behind `min_readable_version` up to
/// it, however many records that takes.
pub fn finish_pending_pruning(db: &mut StateMerkleDb, min_readable_version: Version) -> (r: Result<
    (),
    PrunerError,
>)
    requires
        old(db).wf(),
    ensures
        final(db).wf(),
        final(db)@ == (DbState {
            shards: prune_all(old(db)@.shards, min_readable_version, usize::MAX as nat),
            ..old(db)@
        }),
        r == (match first_failure(old(db)@.shards, min_readable_version, usize::MAX as nat) {
            Some(shard_id) => Err::<(), PrunerError>(PrunerError::WorkerFailure { shard_id }),
            None => Ok(()),
        }),
        db_erased_within(old(db)@, final(db)@, min_readable_version),
{
    prune_shards(db, min_readable_version, usize::MAX)
}

/// The pruner of a state tree: the coordinator, and the store that it
/// prunes.
#[derive(Clone, Debug, PartialEq, Eq)]
pub struct StateMerklePruner {
    /// The store that is pruned.
    state_merkle_db: StateMerkleDb,
    /// The version up to which the pruner was asked to prune.
    target_version: Version,
    /// The boundary of the last window that was pruned in every shard.
    progress: Version,
    /// Where the last scan of the top levels stopped.
    next_version: Option<Version>,
}

impl View for StateMerklePruner {
    type V = PrunerState;

    closed spec fn view(&self) -> PrunerState {
        PrunerState {
            db: self.state_merkle_db@,
            target_version: self.target_version,
            progress: self.progress,
            next_version: self.next_version,
        }
    }
}

impl StateMerklePruner {
    /// The invariant of the representation.
    pub closed spec fn wf(&self) -> bool {
        &&& self.state_merkle_db.wf()
        &&& self@.wf()
    }

    /// A well-formed pruner has a well-formed model.
    pub proof fn lemma_wf(&self)
        requires
            self.wf(),
        ensures
            self@.wf(),
    {
    }

    /// Takes over `state_merkle_db`. The overall progress and the target
    /// start at the progress marker of the metadata shard (0 where none was
    /// written), and every data shard that lags behind it is brought up to
    /// it before the pruner is handed out.
    ///
    /// Fails where a data shard cannot be brought up, with the first shard
    /// that could not.
    pub fn new(state_merkle_db: StateMerkleDb) -> (r: Result<StateMerklePruner, PrunerError>)
        requires
            state_merkle_db.wf(),
        ensures
            match new_outcome(state_merkle_db@).1 {
                Some(e) => r == Err::<StateMerklePruner, PrunerError>(e),
                None => r matches Ok(pruner) && pruner.wf() && pruner@ == new_outcome(
                    state_merkle_db@,
                ).0 && caught_up(pruner@),
            },
    {
        let ghost initial = state_merkle_db@;
        proof {
            state_merkle_db.lemma_wf();
        }
        let mut state_merkle_db = state_merkle_db;
        let overall_progress: Version = get_progress(state_merkle_db.metadata_db());
        match finish_pending_pruning(&mut state_merkle_db, overall_progress) {
            Ok(()) => {},
            Err(e) => {
                return Err(e);
            },
        }
        proof {
            state_merkle_db.lemma_wf();
            lemma_first_failure(initial.shards, overall_progress, usize::MAX as nat);
            assert forall|i: int| 0 <= i < initial.shards.len() implies (
            #[trigger] state_merkle_db@.shards[i]).progress_or_zero() == overall_progress by {
                assert(prune_shard(initial.shards[i], overall_progress, usize::MAX as nat).1 is None);
                assert(state_merkle_db@.shards[i] == prune_shard(
                    initial.shards[i],
                    overall_progress,
                    usize::MAX as nat,
                ).0);
                initial_shard_wf(initial, i);
                lemma_prune_shard(initial.shards[i], overall_progress, usize::MAX as nat);
            }
        }
        Ok(
            StateMerklePruner {
                state_merkle_db,
                target_version: overall_progress,
                progress: overall_progress,
                next_version: None,
            },
        )
    }

    /// The name under which the pruner reports its progress and its
    /// target.
    pub fn name(&self) -> (name: &'static str)
        ensures
            name@ == "state_merkle_pruner"@,
    {
        "state_merkle_pruner"
    }

    /// The version up to which every shard was pruned.
    pub fn progress(&self) -> (version: Version)
        ensures
            version == self@.progress,
    {
        self.progress
    }

    /// The version up to which the pruner was asked to prune.
    pub fn target_version(&self) -> (version: Version)
        ensures
            version == self@.target_version,
    {
        self.target_version
    }

    /// Whether the progress has not reached the target yet.
    pub fn is_pruning_pending(&self) -> (pending: bool)
        ensures
            pending == (self@.progress != self@.target_version),
    {
        self.progress != self.target_version
    }

    /// Raises the target to `target_version`. A target never goes down: a
    /// version below the current target is ignored.
    pub fn set_target_version(&mut self, target_version: Version)
        requires
            old(self).wf(),
        ensures
            final(self).wf(),
            final(self)@ == with_target(old(self)@, target_version),
    {
        if target_version >= self.target_version {
            self.target_version = target_version;
        }
    }

    /// The progress marker of the data shard `shard_id`, or 0 where none
    /// was written.
    pub fn get_shard_progress(&self, shard_id: u8) -> (version: Version)
        requires
            self.wf(),
            shard_id < self@.db.shards.len(),
        ensures
            version == self@.db.shards[shard_id as int].progress_or_zero(),
    {
        get_progress(self.state_merkle_db.db_shard(shard_id))
    }

    /// The store, to look at.
    pub fn state_merkle_db(&self) -> (db: &StateMerkleDb)
        requires
            self.wf(),
        ensures
            db.wf(),
            db@ == self@.db,
    {
        &self.state_merkle_db
    }

    /// Gives the store back.
    pub fn into_db(self) -> (db: StateMerkleDb)
        requires
            self.wf(),
        ensures
            db.wf(),
            db@ == self@.db,
    {
        self.state_merkle_db
    }

    /// Records `progress` as the overall progress.
    fn record_progress(&mut self, progress: Version)
        requires
            old(self).state_merkle_db.wf(),
        ensures
            final(self).state_merkle_db == old(self).state_merkle_db,
            final(self)@ == (PrunerState { progress, ..old(self)@ }),
    {
        self.progress = progress;
    }

    /// Prunes one window: the top levels, then every data shard, up to
    /// `window_end`; and records `window_end` as the overall progress if
    /// nothing failed.
    fn prune_one_window(&mut self, window_end: Version, batch_size: usize) -> (r: Result<
        (),
        PrunerError,
    >)
        requires
            old(self).wf(),
            old(self)@.db.metadata.progress_or_zero() <= window_end <= old(self)@.target_version,
        ensures
            final(self).wf(),
            final(self)@ == prune_window(old(self)@, window_end, batch_size as nat).0,
            r == (match prune_window(old(self)@, window_end, batch_size as nat).1 {
                Some(e) => Err::<(), PrunerError>(e),
                None => Ok(()),
            }),
    {
        proof {
            lemma_prune_window(self@, window_end, batch_size as nat);
        }
        let min_readable_version: Version = self.progress;
        let next_version = match prune_top_levels(
            &mut self.state_merkle_db,
            min_readable_version,
            window_end,
        ) {
            Ok(next_version) => next_version,
            Err(e) => {
                return Err(e);
            },
        };
        self.next_version = next_version;
        match prune_shards(&mut self.state_merkle_db, window_end, batch_size) {
            Ok(()) => {},
            Err(e) => {
                return Err(e);
            },
        }
        self.record_progress(window_end);
        Ok(())
    }

    /// Prunes from `min_readable_version` to `target_version`, window by
    /// window.
    fn prune_state_merkle(
        &mut self,
        min_readable_version: Version,
        target_version: Version,
        batch_size: usize,
    ) -> (r: Result<Version, PrunerError>)
        requires
            old(self).wf(),
            min_readable_version == old(self)@.progress,
            target_version == old(self)@.target_version,
        ensures
            final(self).wf(),
            final(self)@ == run_windows(
                old(self)@,
                first_window_end(old(self)@),
                batch_size as nat,
            ).0,
            r == (match run_windows(old(self)@, first_window_end(old(self)@), batch_size as nat).1 {
                Some(e) => Err::<Version, PrunerError>(e),
                None => Ok(target_version),
            }),
    {
        let ghost initial = self@;
        let persisted: Version = get_progress(self.state_merkle_db.metadata_db());
        let base: Version = match self.next_version {
            Some(v) => v,
            None => min_readable_version,
        };
        let mut window_end: Version = if base < persisted {
            persisted
        } else if base > target_version {
            target_version
        } else {
            base
        };
        loop
            invariant
                self.wf(),
                initial == old(self)@,
                self@.target_version == target_version,
                self@.db.metadata.progress_or_zero() <= window_end <= target_version,
                run_windows(self@, window_end, batch_size as nat) == run_windows(
                    initial,
                    first_window_end(initial),
                    batch_size as nat,
                ),
            decreases target_version - window_end,
        {
            proof {
                lemma_prune_window(self@, window_end, batch_size as nat);
            }
            match self.prune_one_window(window_end, batch_size) {
                Ok(()) => {},
                Err(e) => {
                    return Err(e);
                },
            }
            if window_end >= target_version {
                return Ok(target_version);
            }
            window_end = match self.next_version {
                Some(v) => if window_end < v && v < target_version {
                    v
                } else {
                    target_version
                },
                None => target_version,
            };
        }
    }

    /// Prunes every shard of the store up to the target version.
    ///
    /// Where the progress is at the target already, nothing is read,
    /// erased or written. Otherwise the pruner walks to the target in
    /// windows; in each it prunes the top levels, then every data shard in
    /// batches of up to `batch_size` records, and then records the window's
    /// boundary as the progress. Returns the version reached, which is the
    /// target.
    ///
    /// A failure ends the call at once; what was committed before it stays
    /// committed, and the next call goes on from there.
    pub fn prune(&mut self, batch_size: usize) -> (r: Result<Version, PrunerError>)
        requires
            old(self).wf(),
        ensures
            final(self).wf(),
            final(self)@ == prune_outcome(old(self)@, batch_size as nat).0,
            r == (match prune_outcome(old(self)@, batch_size as nat).1 {
                Some(e) => Err::<Version, PrunerError>(e),
                None => Ok(old(self)@.target_version),
            }),
            old(self)@.progress == old(self)@.target_version ==> final(self)@ == old(self)@ && r
                == Ok::<Version, PrunerError>(old(self)@.progress),
            never_back(old(self)@, final(self)@),
            db_erased_within(old(self)@.db, final(self)@.db, old(self)@.target_version),
            r is Ok ==> caught_up(final(self)@),
            r is Ok && old(self)@.progress != old(self)@.target_version ==> {
                &&& same_content(
                    final(self)@.db.metadata,
                    pruned_from(
                        old(self)@.db.metadata,
                        old(self)@.progress,
                        old(self)@.target_version,
                    ),
                )
                &&& forall|i: int|
                    0 <= i < old(self)@.db.shards.len() ==> same_content(
                        #[trigger] final(self)@.db.shards[i],
                        shard_pruned_to(old(self)@.db.shards[i], old(self)@.target_version),
                    )
            },
    {
        proof {
            crate::laws::lemma_prune(self@, batch_size as nat);
            if self@.progress != self@.target_version && prune_outcome(self@, batch_size as nat).1
                is None {
                crate::laws::lemma_prune_completes(self@, batch_size as nat);
            }
        }
        if !self.is_pruning_pending() {
            return Ok(self.progress());
        }
        let progress: Version = self.progress();
        let target_version: Version = self.target_version();
        self.prune_state_merkle(progress, target_version, batch_size)
    }
}

/// Each data shard of a well-formed store is well formed.
proof fn initial_shard_wf(db: DbState, i: int)
    requires
        db.wf(),
        0 <= i < db.shards.len(),
    ensures
        db.shards[i].wf(),
{
}

} // verus!
