//! What holds of the pruner over any number of calls.
//!
//! The contracts of the pruning functions say exactly what each call
//! leaves. The laws below are what a user of the pruner relies on without
//! following a call step by step: progress never moves back, nothing is
//! erased that the target has not passed, a call on a pruner that has
//! caught up does nothing, and pruning that was cut short and taken up
//! again ends where pruning that was never cut short ends.

use vstd::prelude::*;
use crate::error::PrunerError;
use crate::executor::{
    after_batch, batch_continues, batch_error, cut, fully_pruned, lemma_after_batch,
    lemma_batch_shrinks, lemma_batch_window, lemma_cut_sorted, lemma_prune_shard,
    lemma_prune_shard_succeeds, lemma_sound_earlier, lemma_writes_bound, node_keys, prune_shard,
    pruned_from, run_batches, sound_from, window_is_sound,
};
use crate::merkle_db::DbState;
use crate::model::{
    count_below, erased_within, lemma_count_below, lemma_count_below_at, same_content,
    ShardState,
};
use crate::node::{NodeKey, Version};
use crate::pruner::{
    after_top_levels, caught_up, db_erased_within, first_failure, first_window_end,
    lemma_after_top_levels, lemma_first_failure, lemma_prune_window, lemma_run_windows,
    lemma_run_windows_completes, never_back, new_outcome, next_window_end, prune_outcome,
    prune_window, run_windows, shard_pruned_to, top_levels_error, top_levels_pruned,
    with_target, PrunerState,
};
use crate::scanner::{lemma_window, scan_batch, window, window_len};

verus! {

/// Idempotence, monotonicity and safety of a call of `prune`.
///
/// A call on a pruner whose progress is at its target leaves everything as
/// it is: nothing is erased, and no shard is written (each keeps its write
/// quota). Any call leaves the pruner well formed; moves no progress
/// marker back; and erases, in whatever shard, only records that are
/// stale since the target or earlier, and only nodes that such a record
/// names. A call that succeeds leaves the overall progress, the metadata
/// shard and every data shard at the target.
pub proof fn lemma_prune(st: PrunerState, batch_size: nat)
    requires
        st.wf(),
    ensures
        st.progress == st.target_version ==> prune_outcome(st, batch_size) == (
            st,
            None::<PrunerError>,
        ),
        prune_outcome(st, batch_size).0.wf(),
        prune_outcome(st, batch_size).0.target_version == st.target_version,
        never_back(st, prune_outcome(st, batch_size).0),
        db_erased_within(st.db, prune_outcome(st, batch_size).0.db, st.target_version),
        prune_outcome(st, batch_size).1 is None ==> caught_up(prune_outcome(st, batch_size).0),
{
    if st.progress != st.target_version {
        lemma_run_windows(st, first_window_end(st), batch_size);
    } else {
        crate::model::lemma_erased_within_weaken(
            st.db.metadata,
            st.db.metadata,
            st.target_version,
            st.target_version,
        );
        assert forall|i: int| 0 <= i < st.db.shards.len() implies erased_within(
            #[trigger] st.db.shards[i],
            st.db.shards[i],
            st.target_version,
        ) by {
            crate::model::lemma_erased_within_weaken(
                st.db.shards[i],
                st.db.shards[i],
                st.target_version,
                st.target_version,
            );
        }
    }
}

/// A second call of `prune`, with no new target in between, does nothing
/// where the first one succeeded.
pub proof fn lemma_prune_twice(st: PrunerState, batch_size: nat, batch_size_again: nat)
    requires
        st.wf(),
        prune_outcome(st, batch_size).1 is None,
    ensures
        prune_outcome(prune_outcome(st, batch_size).0, batch_size_again) == (
            prune_outcome(st, batch_size).0,
            None::<PrunerError>,
        ),
{
    lemma_prune(st, batch_size);
}

/// One call on a pruner: a new target, or a call of `prune` with a batch
/// size.
#[derive(Clone, Copy, Debug, PartialEq, Eq, Structural)]
pub enum Call {
    /// `set_target_version`, with the version.
    SetTarget(Version),
    /// `prune`, with the batch size.
    Prune(usize),
}

/// The pruner after one call, whether or not the call succeeded.
pub open spec fn after_call(st: PrunerState, call: Call) -> PrunerState {
    match call {
        Call::SetTarget(target_version) => with_target(st, target_version),
        Call::Prune(batch_size) => prune_outcome(st, batch_size as nat).0,
    }
}

/// The pruner after the calls `calls`, one after the other.
pub open spec fn after_calls(st: PrunerState, calls: Seq<Call>) -> PrunerState
    decreases calls.len(),
{
    if calls.len() == 0 {
        st
    } else {
        after_call(after_calls(st, calls.drop_last()), calls.last())
    }
}

/// Monotonicity and safety over any sequence of calls.
///
/// Whatever is called on a pruner, in whatever order, and whichever of the
/// calls fail: the pruner stays well formed; neither the target, nor the
/// overall progress, nor the progress marker of any shard ever moves back;
/// and what is erased in a shard is a record that is stale since the target
/// of that time or earlier, or the node that such a record names. The
/// target of that time is no later than the last target, by which the law
/// states it.
pub proof fn lemma_any_calls(st: PrunerState, calls: Seq<Call>)
    requires
        st.wf(),
    ensures
        after_calls(st, calls).wf(),
        never_back(st, after_calls(st, calls)),
        db_erased_within(st.db, after_calls(st, calls).db, after_calls(st, calls).target_version),
    decreases calls.len(),
{
    if calls.len() == 0 {
        assert(db_erased_within(st.db, st.db, st.target_version)) by {
            crate::model::lemma_erased_within_weaken(
                st.db.metadata,
                st.db.metadata,
                st.target_version,
                st.target_version,
            );
            assert forall|i: int| 0 <= i < st.db.shards.len() implies erased_within(
                #[trigger] st.db.shards[i],
                st.db.shards[i],
                st.target_version,
            ) by {
                crate::model::lemma_erased_within_weaken(
                    st.db.shards[i],
                    st.db.shards[i],
                    st.target_version,
                    st.target_version,
                );
            }
        }
    } else {
        let before = after_calls(st, calls.drop_last());
        let after = after_calls(st, calls);
        lemma_any_calls(st, calls.drop_last());
        match calls.last() {
            Call::SetTarget(target_version) => {
                crate::pruner::lemma_db_erased_within_weaken(
                    st.db,
                    before.db,
                    before.target_version,
                    after.target_version,
                );
            },
            Call::Prune(batch_size) => {
                lemma_prune(before, batch_size as nat);
                crate::pruner::lemma_db_erased_within_trans(
                    st.db,
                    before.db,
                    after.db,
                    after.target_version,
                );
                assert forall|i: int| 0 <= i < st.db.shards.len() implies (
                #[trigger] st.db.shards[i]).progress_or_zero()
                    <= after.db.shards[i].progress_or_zero() by {
                    assert(before.db.shards[i].progress_or_zero()
                        <= after.db.shards[i].progress_or_zero());
                }
            },
        }
    }
}

/// What a call of `prune` that succeeds leaves, whatever its windows were
/// and whatever the batch size: the top levels without the records that
/// are stale since a version from the overall progress to the target, and
/// each data shard without the records that are stale since a version from
/// its own progress marker to the target; none of the nodes that those
/// records name; and every progress marker at the target.
pub proof fn lemma_prune_completes(st: PrunerState, batch_size: nat)
    requires
        st.wf(),
        st.progress != st.target_version,
        prune_outcome(st, batch_size).1 is None,
    ensures
        same_content(
            prune_outcome(st, batch_size).0.db.metadata,
            pruned_from(st.db.metadata, st.progress, st.target_version),
        ),
        prune_outcome(st, batch_size).0.db.shards.len() == st.db.shards.len(),
        forall|i: int|
            0 <= i < st.db.shards.len() ==> same_content(
                #[trigger] prune_outcome(st, batch_size).0.db.shards[i],
                shard_pruned_to(st.db.shards[i], st.target_version),
            ),
{
    lemma_run_windows_completes(st, first_window_end(st), batch_size);
}

/// When a call of `prune` succeeds.
///
/// It does where the batch size is not zero; every record of the top
/// levels that is stale since a version from the overall progress to the
/// target names a node that the metadata shard holds, and no two of them
/// the same; the same holds of every data shard, from its own progress
/// marker on; the metadata shard accepts one write for each version from
/// the overall progress to the target; and each data shard accepts as many,
/// and one more for each record that it has to erase.
pub proof fn lemma_prune_succeeds(st: PrunerState, batch_size: nat)
    requires
        st.wf(),
        batch_size >= 1,
        sound_from(st.db.metadata, st.progress, st.target_version),
        st.db.metadata.write_quota > st.target_version - st.progress,
        forall|i: int|
            0 <= i < st.db.shards.len() ==> window_is_sound(
                #[trigger] st.db.shards[i],
                st.target_version,
            ) && st.db.shards[i].write_quota > window_len(
                st.db.shards[i].stale_index,
                st.db.shards[i].progress_or_zero(),
                st.target_version,
            ) + (st.target_version - st.progress),
    ensures
        prune_outcome(st, batch_size).1 is None,
{
    if st.progress != st.target_version {
        lemma_run_windows_succeeds(st, first_window_end(st), batch_size);
    }
}

/// Whether two stores hold the same in every shard. Their write quotas
/// may differ.
pub open spec fn same_db_content(a: DbState, b: DbState) -> bool {
    &&& a.shards.len() == b.shards.len()
    &&& same_content(a.metadata, b.metadata)
    &&& forall|i: int| 0 <= i < a.shards.len() ==> same_content(#[trigger] a.shards[i], b.shards[i])
}

/// Whether the pruning of the data shard `s` to `end`, which left
/// `crashed`, stopped right behind a batch that set the progress marker to
/// `end` while records that are stale since exactly `end` were still to be
/// erased.
pub open spec fn stopped_at_the_marker(s: ShardState, crashed: ShardState, end: Version) -> bool {
    &&& s.progress_or_zero() != end
    &&& crashed.progress_or_zero() == end
    &&& window_len(crashed.stale_index, end, end) > 0
}

/// Resumability of a shard.
///
/// Let the pruning of the shard `s` to `end` stop wherever it stops, for
/// instance at a refused write, and let it leave `crashed`. Let the shard be
/// taken up again with a write quota of `quota_resumed` and pruned to `end`
/// once more, with whatever batch size, and let that succeed. Then the
/// shard ends with the stale node index, the nodes and the progress marker
/// with which it ends when the pruning of `s` runs through, with a quota
/// of `quota_whole`, without being cut short.
///
/// One state is left out: a batch has set the progress marker to `end`
/// while records that are stale since exactly `end` were still to be
/// erased, and the pruning stopped right behind it. The shard then counts
/// as pruned to `end`, and keeps those records until it is pruned to a
/// later version.
pub proof fn lemma_shard_resumes(
    s: ShardState,
    end: Version,
    batch_size: nat,
    quota_resumed: u64,
    batch_size_resumed: nat,
    quota_whole: u64,
    batch_size_whole: nat,
)
    requires
        s.wf(),
        ({
            let crashed = prune_shard(s, end, batch_size).0;
            s.progress_or_zero() == end || crashed.progress_or_zero() != end || window_len(
                crashed.stale_index,
                end,
                end,
            ) == 0
        }),
        prune_shard(
            ShardState { write_quota: quota_resumed, ..prune_shard(s, end, batch_size).0 },
            end,
            batch_size_resumed,
        ).1 is None,
        prune_shard(ShardState { write_quota: quota_whole, ..s }, end, batch_size_whole).1 is None,
    ensures
        ({
            let crashed = prune_shard(s, end, batch_size).0;
            let resumed = prune_shard(
                ShardState { write_quota: quota_resumed, ..crashed },
                end,
                batch_size_resumed,
            ).0;
            let whole = prune_shard(
                ShardState { write_quota: quota_whole, ..s },
                end,
                batch_size_whole,
            ).0;
            &&& resumed.stale_index == whole.stale_index
            &&& resumed.nodes == whole.nodes
            &&& resumed.progress == whole.progress
        }),
{
    let crashed = prune_shard(s, end, batch_size).0;
    let again = ShardState { write_quota: quota_resumed, ..crashed };
    let fresh = ShardState { write_quota: quota_whole, ..s };
    if s.progress_or_zero() != end {
        lemma_run_batches_partly(s, end, batch_size);
        lemma_partly_fully(s, s.progress_or_zero(), crashed, crashed.progress_or_zero(), end);
        lemma_prune_shard(fresh, end, batch_size_whole);
        lemma_prune_shard(again, end, batch_size_resumed);
        if crashed.progress_or_zero() == end {
            let start = s.progress_or_zero();
            let lo = count_below(s.stale_index, start as int) as int;
            let w = window(s.stale_index, start, end);
            let m = s.stale_index.len() - crashed.stale_index.len();
            lemma_window(s.stale_index, start, end);
            lemma_window(crashed.stale_index, end, end);
            assert(w.skip(m).len() == 0);
            assert(w.take(m) =~= w);
        }
    }
}

/// Resumability of the pruner.
///
/// Let a call of `prune` on the pruner `st` stop wherever it stops, at a
/// refused write or elsewhere. Let the process start again on the store as
/// the call left it, `restored`, whose shards may have their write quotas
/// set anew: a new pruner takes the store over, is given the target again,
/// and is called; with whatever batch size; and let that succeed. Then the
/// store holds, in every shard, the records, the nodes and the progress
/// marker that it holds when `prune` runs through undisturbed on `whole`,
/// the pruner that `st` is but for its write quotas.
///
/// One state is left out, that of `stopped_at_the_marker`. A data shard in
/// that state counts as pruned to the target, and keeps its records at the
/// target until the target moves on.
pub proof fn lemma_pruner_resumes(
    st: PrunerState,
    batch_size: nat,
    restored: DbState,
    batch_size_resumed: nat,
    whole: PrunerState,
    batch_size_whole: nat,
)
    requires
        st.wf(),
        restored.wf(),
        same_db_content(restored, prune_outcome(st, batch_size).0.db),
        forall|i: int|
            0 <= i < st.db.shards.len() ==> !stopped_at_the_marker(
                #[trigger] st.db.shards[i],
                prune_outcome(st, batch_size).0.db.shards[i],
                st.target_version,
            ),
        new_outcome(restored).1 is None,
        prune_outcome(
            with_target(new_outcome(restored).0, st.target_version),
            batch_size_resumed,
        ).1 is None,
        whole.wf(),
        same_db_content(whole.db, st.db),
        whole.progress == st.progress,
        whole.target_version == st.target_version,
        prune_outcome(whole, batch_size_whole).1 is None,
    ensures
        same_db_content(
            prune_outcome(
                with_target(new_outcome(restored).0, st.target_version),
                batch_size_resumed,
            ).0.db,
            prune_outcome(whole, batch_size_whole).0.db,
        ),
{
    let target = st.target_version;
    let crashed = prune_outcome(st, batch_size).0;
    let marker = restored.metadata.progress_or_zero();
    let fresh = new_outcome(restored).0;
    let again = with_target(fresh, target);
    let resumed = prune_outcome(again, batch_size_resumed).0;
    let undisturbed = prune_outcome(whole, batch_size_whole).0;
    let meta = st.db.metadata;
    lemma_prune(st, batch_size);
    lemma_new_outcome(restored, target);
    if st.progress == target {
        assert forall|i: int| 0 <= i < st.db.shards.len() implies same_content(
            #[trigger] resumed.db.shards[i],
            undisturbed.db.shards[i],
        ) by {
            assert(st.db.shards[i].progress_or_zero() == target);
            assert(same_content(restored.shards[i], st.db.shards[i]));
            assert(same_content(whole.db.shards[i], st.db.shards[i]));
        }
    } else {
        lemma_run_windows_partly(st, first_window_end(st), batch_size);
        lemma_prune_completes(whole, batch_size_whole);
        assert(same_content(
            pruned_from(whole.db.metadata, st.progress, target),
            pruned_from(meta, st.progress, target),
        ));
        assert(partly_pruned_from(meta, st.progress, restored.metadata, marker, target));
        if marker == target {
            assert(resumed == again);
            if crashed.progress == target {
                lemma_progress_at_target(st, first_window_end(st), batch_size);
                lemma_prune_completes(st, batch_size);
            } else {
                lemma_top_levels_done(crashed.db.metadata, crashed.progress);
                lemma_partly_done(meta, st.progress, restored.metadata, target);
            }
            assert forall|i: int| 0 <= i < st.db.shards.len() implies same_content(
                #[trigger] resumed.db.shards[i],
                undisturbed.db.shards[i],
            ) by {
                assert(same_content(restored.shards[i], crashed.db.shards[i]));
                assert(same_content(whole.db.shards[i], st.db.shards[i]));
                assert(same_content(
                    undisturbed.db.shards[i],
                    shard_pruned_to(whole.db.shards[i], target),
                ));
                assert(!stopped_at_the_marker(st.db.shards[i], crashed.db.shards[i], target));
                lemma_resumed_shard_at_target(
                    st.db.shards[i],
                    crashed.db.shards[i],
                    restored.shards[i],
                    target,
                );
            }
        } else {
            lemma_prune_completes(again, batch_size_resumed);
            lemma_partly_fully(meta, st.progress, restored.metadata, marker, target);
            assert forall|i: int| 0 <= i < st.db.shards.len() implies same_content(
                #[trigger] resumed.db.shards[i],
                undisturbed.db.shards[i],
            ) by {
                assert(same_content(restored.shards[i], crashed.db.shards[i]));
                assert(same_content(whole.db.shards[i], st.db.shards[i]));
                assert(same_content(
                    undisturbed.db.shards[i],
                    shard_pruned_to(whole.db.shards[i], target),
                ));
                assert(same_content(
                    resumed.db.shards[i],
                    shard_pruned_to(again.db.shards[i], target),
                ));
                assert(crashed.db.shards[i].progress_or_zero()
                    <= crashed.db.metadata.progress_or_zero());
                lemma_resumed_shard_below_target(
                    st.db.shards[i],
                    crashed.db.shards[i],
                    restored.shards[i],
                    fresh.db.shards[i],
                    target,
                );
            }
        }
    }
}

/// Whether `f` is `s` part of the way to being pruned from `start` to
/// `end`: `f` lacks some of the first records of the window of `s`, and the
/// nodes that they name, and nothing else; and a scan of `f` from `resume`
/// finds the rest of that window.
pub open spec fn partly_pruned_from(
    s: ShardState,
    start: Version,
    f: ShardState,
    resume: Version,
    end: Version,
) -> bool {
    let lo = count_below(s.stale_index, start as int) as int;
    let w = window(s.stale_index, start, end);
    let m = s.stale_index.len() - f.stale_index.len();
    &&& 0 <= m <= w.len()
    &&& f.stale_index == cut(s.stale_index, lo, m)
    &&& f.nodes == s.nodes.difference(node_keys(w.take(m)))
    &&& count_below(f.stale_index, resume as int) == lo
    &&& window(f.stale_index, resume, end) == w.skip(m)
}

/// Whether `f` is `s` part of the way to being pruned to `end`, each
/// scanned from its own progress marker.
pub open spec fn partly_pruned(s: ShardState, f: ShardState, end: Version) -> bool {
    &&& partly_pruned_from(s, s.progress_or_zero(), f, f.progress_or_zero(), end)
    &&& (f.progress is None ==> s.progress is None)
}

/// A shard stands at the start of the way to being pruned.
pub proof fn lemma_partly_refl(s: ShardState, start: Version, end: Version)
    requires
        s.wf(),
    ensures
        partly_pruned_from(s, start, s, start, end),
{
    let lo = count_below(s.stale_index, start as int) as int;
    let w = window(s.stale_index, start, end);
    lemma_window(s.stale_index, start, end);
    assert(cut(s.stale_index, lo, 0) =~= s.stale_index);
    assert(s.nodes.difference(node_keys(w.take(0))) =~= s.nodes);
    assert(w.skip(0) =~= w);
}

/// Part of the way, and then part of the rest of the way, is part of the
/// way.
pub proof fn lemma_partly_trans(
    s: ShardState,
    start: Version,
    s1: ShardState,
    resume1: Version,
    f: ShardState,
    resume: Version,
    end: Version,
)
    requires
        s.wf(),
        partly_pruned_from(s, start, s1, resume1, end),
        partly_pruned_from(s1, resume1, f, resume, end),
    ensures
        partly_pruned_from(s, start, f, resume, end),
{
    let index = s.stale_index;
    let lo = count_below(index, start as int) as int;
    let w = window(index, start, end);
    let w1 = window(s1.stale_index, resume1, end);
    let m1 = index.len() - s1.stale_index.len();
    let m2 = s1.stale_index.len() - f.stale_index.len();
    lemma_window(index, start, end);
    assert(w1 == w.skip(m1));
    assert(cut(cut(index, lo, m1), lo, m2) =~= cut(index, lo, m1 + m2));
    assert(w.skip(m1).skip(m2) =~= w.skip(m1 + m2));
    let a = w.take(m1);
    let b = w1.take(m2);
    let c = w.take(m1 + m2);
    assert forall|k: NodeKey|
        s.nodes.difference(node_keys(a)).difference(node_keys(b)).contains(k)
            <==> s.nodes.difference(node_keys(c)).contains(k) by {
        if node_keys(c).contains(k) {
            let i = choose|i: int| 0 <= i < c.len() && (#[trigger] c[i]).node_key == k;
            if i < m1 {
                assert(a[i].node_key == k);
            } else {
                assert(b[i - m1].node_key == k);
            }
        }
        if node_keys(a).contains(k) {
            let i = choose|i: int| 0 <= i < a.len() && (#[trigger] a[i]).node_key == k;
            assert(c[i].node_key == k);
        }
        if node_keys(b).contains(k) {
            let i = choose|i: int| 0 <= i < b.len() && (#[trigger] b[i]).node_key == k;
            assert(c[i + m1].node_key == k);
        }
    }
    assert(s.nodes.difference(node_keys(a)).difference(node_keys(b)) =~= s.nodes.difference(
        node_keys(c),
    ));
}

/// What is part of the way to one version is part of the way to every
/// later one.
pub proof fn lemma_partly_later(
    s: ShardState,
    start: Version,
    f: ShardState,
    resume: Version,
    end: Version,
    later: Version,
)
    requires
        s.wf(),
        f.wf(),
        partly_pruned_from(s, start, f, resume, end),
        end <= later,
    ensures
        partly_pruned_from(s, start, f, resume, later),
{
    let index = s.stale_index;
    let t = f.stale_index;
    let lo = count_below(index, start as int) as int;
    let w = window(index, start, end);
    let wl = window(index, start, later);
    let m = index.len() - t.len();
    lemma_window(index, start, end);
    lemma_window(index, start, later);
    lemma_window(t, resume, later);
    lemma_count_below(index, start as int);
    lemma_count_below(index, end + 1);
    lemma_count_below(index, later + 1);
    lemma_count_below(t, resume as int);
    let hi = count_below(index, later + 1) as int;
    if m > 0 {
        assert(w[m - 1] == index[lo + m - 1]);
        assert(start <= index[lo + m - 1].stale_since_version <= end);
        assert(lo + m <= hi);
        assert(w.take(m) =~= wl.take(m));
        assert forall|i: int| 0 <= i < hi - m implies (#[trigger] t[i]).stale_since_version < later
            + 1 by {
            if i < lo {
                assert(t[i] == index[i]);
            } else {
                assert(t[i] == index[i + m]);
            }
        }
        assert forall|i: int| hi - m <= i < t.len() implies (#[trigger] t[i]).stale_since_version
            >= later + 1 by {
            assert(t[i] == index[i + m]);
        }
        lemma_count_below_at(t, later + 1, hi - m);
        assert(window(t, resume, later) =~= wl.skip(m));
    } else {
        assert(t =~= index);
        assert(w.take(0) =~= wl.take(0));
        assert(window(t, resume, later) =~= wl.skip(0));
    }
}

/// Pruning a shard that is part of the way ends where pruning the shard
/// from the start ends.
pub proof fn lemma_partly_fully(
    s: ShardState,
    start: Version,
    f: ShardState,
    resume: Version,
    end: Version,
)
    requires
        s.wf(),
        f.wf(),
        partly_pruned_from(s, start, f, resume, end),
    ensures
        same_content(pruned_from(f, resume, end), pruned_from(s, start, end)),
{
    let index = s.stale_index;
    let lo = count_below(index, start as int) as int;
    let w = window(index, start, end);
    let m = index.len() - f.stale_index.len();
    let wf = window(f.stale_index, resume, end);
    lemma_window(index, start, end);
    lemma_window(f.stale_index, resume, end);
    assert(wf.len() == window_len(f.stale_index, resume, end));
    assert(w.len() == window_len(index, start, end));
    assert(cut(cut(index, lo, m), lo, w.len() - m) =~= cut(index, lo, w.len() as int));
    let a = w.take(m);
    assert forall|k: NodeKey|
        s.nodes.difference(node_keys(a)).difference(node_keys(wf)).contains(k)
            <==> s.nodes.difference(node_keys(w)).contains(k) by {
        if node_keys(w).contains(k) {
            let i = choose|i: int| 0 <= i < w.len() && (#[trigger] w[i]).node_key == k;
            if i < m {
                assert(a[i].node_key == k);
            } else {
                assert(wf[i - m].node_key == k);
            }
        }
        if node_keys(a).contains(k) {
            let i = choose|i: int| 0 <= i < a.len() && (#[trigger] a[i]).node_key == k;
            assert(w[i].node_key == k);
        }
        if node_keys(wf).contains(k) {
            let i = choose|i: int| 0 <= i < wf.len() && (#[trigger] wf[i]).node_key == k;
            assert(w[i + m].node_key == k);
        }
    }
    assert(s.nodes.difference(node_keys(a)).difference(node_keys(wf)) =~= s.nodes.difference(
        node_keys(w),
    ));
}

/// A shard that is part of the way to `end`, and of whose window nothing
/// is left, is pruned to `end`.
proof fn lemma_partly_done(s: ShardState, start: Version, f: ShardState, end: Version)
    requires
        s.wf(),
        f.wf(),
        partly_pruned_from(s, start, f, end, end),
        window_len(f.stale_index, end, end) == 0,
        f.progress == Some(end),
    ensures
        same_content(f, pruned_from(s, start, end)),
{
    let w = window(s.stale_index, start, end);
    let m = s.stale_index.len() - f.stale_index.len();
    lemma_window(s.stale_index, start, end);
    lemma_window(f.stale_index, end, end);
    assert(w.skip(m).len() == 0);
    assert(w.take(m) =~= w);
}

/// A shard that is part of the way through a sound window has a sound
/// window left, shorter by the records that it lacks.
pub proof fn lemma_partly_sound(
    s: ShardState,
    start: Version,
    f: ShardState,
    resume: Version,
    end: Version,
)
    requires
        s.wf(),
        f.wf(),
        partly_pruned_from(s, start, f, resume, end),
        sound_from(s, start, end),
    ensures
        sound_from(f, resume, end),
        window_len(f.stale_index, resume, end) + s.stale_index.len() - f.stale_index.len()
            == window_len(s.stale_index, start, end),
{
    let w = window(s.stale_index, start, end);
    let w1 = window(f.stale_index, resume, end);
    let m = s.stale_index.len() - f.stale_index.len();
    let gone = w.take(m);
    lemma_window(s.stale_index, start, end);
    lemma_window(f.stale_index, resume, end);
    assert forall|i: int| 0 <= i < w1.len() implies f.nodes.contains((#[trigger] w1[i]).node_key) by {
        assert(w1[i] == w[i + m]);
        if node_keys(gone).contains(w1[i].node_key) {
            let j = choose|j: int|
                0 <= j < gone.len() && (#[trigger] gone[j]).node_key == w1[i].node_key;
            assert(gone[j] == w[j]);
        }
    }
    assert forall|i: int, j: int| 0 <= i < j < w1.len() implies (#[trigger] w1[i]).node_key != (
    #[trigger] w1[j]).node_key by {
        assert(w1[i] == w[i + m] && w1[j] == w[j + m]);
    }
}

/// A shard that was pruned from `start` to `end` is part of the way to
/// being pruned from `start` to any later version, and a scan of it from
/// `end` finds the rest.
pub proof fn lemma_pruned_is_partly(s: ShardState, start: Version, end: Version, later: Version)
    requires
        s.wf(),
        start <= end <= later,
    ensures
        pruned_from(s, start, end).wf(),
        partly_pruned_from(s, start, pruned_from(s, start, end), end, later),
{
    let index = s.stale_index;
    let f = pruned_from(s, start, end);
    let t = f.stale_index;
    let lo = count_below(index, start as int) as int;
    let hi = count_below(index, end + 1) as int;
    let w = window(index, start, end);
    lemma_window(index, start, end);
    lemma_count_below(index, start as int);
    lemma_count_below(index, end + 1);
    if lo > hi {
        assert(index[hi].stale_since_version < start);
    }
    let n = w.len() as int;
    lemma_cut_sorted(index, lo, n);
    assert forall|i: int| 0 <= i < lo implies (#[trigger] t[i]).stale_since_version < end by {
        assert(t[i] == index[i]);
    }
    assert forall|i: int| lo <= i < t.len() implies (#[trigger] t[i]).stale_since_version >= end
        + 1 by {
        assert(t[i] == index[i + n]);
    }
    lemma_count_below_at(t, end as int, lo);
    lemma_count_below_at(t, end + 1, lo);
    assert(window(t, end, end) =~= w.skip(n));
    assert(w.take(n) =~= w);
    lemma_partly_later(s, start, f, end, end, later);
}

/// One committed batch leaves the shard part of the way to being pruned.
proof fn lemma_partly_step(s: ShardState, end: Version, batch_size: nat)
    requires
        s.wf(),
        batch_error(s, end, batch_size) is None,
    ensures
        partly_pruned(s, after_batch(s, end, batch_size), end),
{
    let index = s.stale_index;
    let start = s.progress_or_zero();
    let after = after_batch(s, end, batch_size);
    let w = window(index, start, end);
    let lo = count_below(index, start as int) as int;
    let hi = count_below(index, end + 1) as int;
    let n = scan_batch(index, start, end, batch_size).len() as int;
    lemma_batch_window(s, end, batch_size);
    lemma_after_batch(s, end, batch_size);
    lemma_window(index, start, end);
    lemma_count_below(index, start as int);
    lemma_count_below(index, end + 1);
    if !batch_continues(s, end, batch_size) {
        let t = after.stale_index;
        if lo > hi {
            assert(index[hi].stale_since_version < start);
        }
        assert forall|i: int| 0 <= i < lo implies (#[trigger] t[i]).stale_since_version < end by {
            assert(t[i] == index[i]);
        }
        assert forall|i: int| lo <= i < t.len() implies (#[trigger] t[i]).stale_since_version
            >= end + 1 by {
            assert(t[i] == index[i + n]);
        }
        lemma_count_below_at(t, end as int, lo);
        lemma_count_below_at(t, end + 1, lo);
        assert(window(t, end, end) =~= w.skip(n));
    }
}

/// However far the batches get, they leave the shard part of the way to
/// being pruned to `end`: a batch that fails leaves the shard at the batch
/// committed before it.
pub proof fn lemma_run_batches_partly(s: ShardState, end: Version, batch_size: nat)
    requires
        s.wf(),
    ensures
        run_batches(s, end, batch_size).0.wf(),
        partly_pruned(s, run_batches(s, end, batch_size).0, end),
    decreases s.stale_index.len(),
{
    lemma_after_batch(s, end, batch_size);
    if batch_error(s, end, batch_size) is Some {
        lemma_partly_refl(s, s.progress_or_zero(), end);
    } else {
        lemma_partly_step(s, end, batch_size);
        if batch_continues(s, end, batch_size) {
            let s1 = after_batch(s, end, batch_size);
            let f = run_batches(s1, end, batch_size).0;
            lemma_batch_shrinks(s, end, batch_size);
            lemma_run_batches_partly(s1, end, batch_size);
            lemma_partly_trans(
                s,
                s.progress_or_zero(),
                s1,
                s1.progress_or_zero(),
                f,
                f.progress_or_zero(),
                end,
            );
        }
    }
}

/// Wherever the pruning of a shard to `end` stops, it leaves the shard
/// part of the way to being pruned to `end`, and to any later version.
pub proof fn lemma_prune_shard_partly(s: ShardState, end: Version, batch_size: nat, later: Version)
    requires
        s.wf(),
        end <= later,
    ensures
        prune_shard(s, end, batch_size).0.wf(),
        partly_pruned(s, prune_shard(s, end, batch_size).0, later),
        s.progress_or_zero() >= end ==> prune_shard(s, end, batch_size).0 == s,
{
    let f = prune_shard(s, end, batch_size).0;
    if s.progress_or_zero() == end {
        lemma_partly_refl(s, s.progress_or_zero(), later);
    } else {
        lemma_run_batches_partly(s, end, batch_size);
        lemma_partly_later(s, s.progress_or_zero(), f, f.progress_or_zero(), end, later);
    }
}

/// A scan of the top levels from the progress marker of the metadata shard
/// finds what a scan from the overall progress finds: between the two the
/// top levels are pruned.
proof fn lemma_top_levels_resume(meta: ShardState, progress: Version, end: Version)
    requires
        meta.wf(),
        top_levels_pruned(meta, progress),
        progress <= meta.progress_or_zero(),
    ensures
        partly_pruned_from(meta, progress, meta, meta.progress_or_zero(), end),
{
    let index = meta.stale_index;
    let marker = meta.progress_or_zero();
    lemma_partly_refl(meta, progress, end);
    lemma_count_below(index, progress as int);
    lemma_count_below(index, marker as int);
    lemma_count_below(index, end + 1);
    let lo = count_below(index, progress as int) as int;
    let lo2 = count_below(index, marker as int) as int;
    if lo < lo2 {
        assert(progress <= index[lo].stale_since_version < marker);
    }
    if lo2 < lo {
        assert(index[lo2].stale_since_version < progress);
    }
    assert(window(index, marker, end) =~= window(index, progress, end)) by {
        lemma_window(index, marker, end);
        lemma_window(index, progress, end);
        let hi = count_below(index, end + 1) as int;
        if hi < lo && marker <= end {
            assert(index[hi].stale_since_version < progress);
        }
    }
}

/// The top levels hold no record at the marker of the metadata shard,
/// where that marker is ahead of the overall progress.
proof fn lemma_top_levels_done(meta: ShardState, progress: Version)
    requires
        meta.wf(),
        top_levels_pruned(meta, progress),
        progress < meta.progress_or_zero(),
    ensures
        window_len(meta.stale_index, meta.progress_or_zero(), meta.progress_or_zero()) == 0,
{
    let t = meta.stale_index;
    let marker = meta.progress_or_zero();
    lemma_count_below(t, marker as int);
    lemma_count_below(t, marker + 1);
    let a = count_below(t, marker as int) as int;
    let b = count_below(t, marker + 1) as int;
    if a < b {
        assert(t[a].stale_since_version == marker);
    }
}

/// Wherever a window stops, it leaves every shard part of the way to being
/// pruned to the target; and it leaves a data shard that stands at the
/// target as it is.
proof fn lemma_prune_window_partly(st: PrunerState, window_end: Version, batch_size: nat)
    requires
        st.wf(),
        st.db.metadata.progress_or_zero() <= window_end <= st.target_version,
    ensures
        ({
            let after = prune_window(st, window_end, batch_size).0;
            &&& partly_pruned_from(
                st.db.metadata,
                st.progress,
                after.db.metadata,
                after.db.metadata.progress_or_zero(),
                st.target_version,
            )
            &&& after.db.shards.len() == st.db.shards.len()
            &&& forall|i: int|
                0 <= i < st.db.shards.len() ==> partly_pruned(
                    #[trigger] st.db.shards[i],
                    after.db.shards[i],
                    st.target_version,
                )
            &&& forall|i: int|
                0 <= i < st.db.shards.len() && (#[trigger] st.db.shards[i]).progress_or_zero()
                    == st.target_version ==> after.db.shards[i] == st.db.shards[i]
        }),
{
    let target = st.target_version;
    let meta = st.db.metadata;
    let after = prune_window(st, window_end, batch_size).0;
    lemma_after_top_levels(meta, st.progress, window_end);
    if top_levels_error(meta, st.progress, window_end) is Some {
        lemma_top_levels_resume(meta, st.progress, target);
        assert forall|i: int| 0 <= i < st.db.shards.len() implies partly_pruned(
            #[trigger] st.db.shards[i],
            after.db.shards[i],
            target,
        ) by {
            lemma_partly_refl(st.db.shards[i], st.db.shards[i].progress_or_zero(), target);
        }
    } else {
        lemma_pruned_is_partly(meta, st.progress, window_end, target);
        assert forall|i: int| 0 <= i < st.db.shards.len() implies partly_pruned(
            #[trigger] st.db.shards[i],
            after.db.shards[i],
            target,
        ) && (st.db.shards[i].progress_or_zero() == target ==> after.db.shards[i]
            == st.db.shards[i]) by {
            lemma_prune_shard_partly(st.db.shards[i], window_end, batch_size, target);
        }
    }
}

/// Wherever the windows of a call stop, they leave every shard part of the
/// way to being pruned to the target, and a data shard that stands at the
/// target as it is.
pub proof fn lemma_run_windows_partly(st: PrunerState, window_end: Version, batch_size: nat)
    requires
        st.wf(),
        st.db.metadata.progress_or_zero() <= window_end <= st.target_version,
    ensures
        ({
            let last = run_windows(st, window_end, batch_size).0;
            &&& partly_pruned_from(
                st.db.metadata,
                st.progress,
                last.db.metadata,
                last.db.metadata.progress_or_zero(),
                st.target_version,
            )
            &&& last.db.shards.len() == st.db.shards.len()
            &&& forall|i: int|
                0 <= i < st.db.shards.len() ==> partly_pruned(
                    #[trigger] st.db.shards[i],
                    last.db.shards[i],
                    st.target_version,
                )
            &&& forall|i: int|
                0 <= i < st.db.shards.len() && (#[trigger] st.db.shards[i]).progress_or_zero()
                    == st.target_version ==> last.db.shards[i] == st.db.shards[i]
        }),
    decreases st.target_version - window_end,
{
    let target = st.target_version;
    let after = prune_window(st, window_end, batch_size);
    lemma_prune_window(st, window_end, batch_size);
    lemma_prune_window_partly(st, window_end, batch_size);
    if after.1 is Some || window_end >= target {
    } else {
        let next = next_window_end(window_end, after.0.next_version, target);
        let last = run_windows(after.0, next, batch_size).0;
        lemma_run_windows_partly(after.0, next, batch_size);
        lemma_partly_trans(
            st.db.metadata,
            st.progress,
            after.0.db.metadata,
            window_end,
            last.db.metadata,
            last.db.metadata.progress_or_zero(),
            target,
        );
        assert forall|i: int| 0 <= i < st.db.shards.len() implies partly_pruned(
            #[trigger] st.db.shards[i],
            last.db.shards[i],
            target,
        ) && (st.db.shards[i].progress_or_zero() == target ==> last.db.shards[i]
            == st.db.shards[i]) by {
            let s = st.db.shards[i];
            let s1 = after.0.db.shards[i];
            let f = last.db.shards[i];
            assert(partly_pruned(s, s1, target));
            assert(partly_pruned(s1, f, target));
            lemma_partly_trans(
                s,
                s.progress_or_zero(),
                s1,
                s1.progress_or_zero(),
                f,
                f.progress_or_zero(),
                target,
            );
        }
    }
}

/// The overall progress reaches the target only where every window
/// succeeds.
proof fn lemma_progress_at_target(st: PrunerState, window_end: Version, batch_size: nat)
    requires
        st.wf(),
        st.db.metadata.progress_or_zero() <= window_end <= st.target_version,
        st.progress < st.target_version,
    ensures
        run_windows(st, window_end, batch_size).0.progress == st.target_version ==> run_windows(
            st,
            window_end,
            batch_size,
        ).1 is None,
    decreases st.target_version - window_end,
{
    let after = prune_window(st, window_end, batch_size);
    lemma_prune_window(st, window_end, batch_size);
    if after.1 is Some || window_end >= st.target_version {
    } else {
        lemma_progress_at_target(
            after.0,
            next_window_end(window_end, after.0.next_version, st.target_version),
            batch_size,
        );
    }
}

/// The pruner that takes a store over is well formed, and has brought each
/// data shard part of the way to any later version.
proof fn lemma_new_outcome(db: DbState, later: Version)
    requires
        db.wf(),
        db.metadata.stale_index.len() <= usize::MAX,
        new_outcome(db).1 is None,
        db.metadata.progress_or_zero() <= later,
    ensures
        new_outcome(db).0.wf(),
        with_target(new_outcome(db).0, later).wf(),
        new_outcome(db).0.db.metadata == db.metadata,
        new_outcome(db).0.db.shards.len() == db.shards.len(),
        forall|i: int|
            0 <= i < db.shards.len() ==> {
                &&& (#[trigger] new_outcome(db).0.db.shards[i]).wf()
                &&& new_outcome(db).0.db.shards[i] == prune_shard(
                    db.shards[i],
                    db.metadata.progress_or_zero(),
                    usize::MAX as nat,
                ).0
                &&& prune_shard(
                    db.shards[i],
                    db.metadata.progress_or_zero(),
                    usize::MAX as nat,
                ).1 is None
                &&& new_outcome(db).0.db.shards[i].progress_or_zero()
                    == db.metadata.progress_or_zero()
                &&& partly_pruned(db.shards[i], new_outcome(db).0.db.shards[i], later)
            },
{
    let marker = db.metadata.progress_or_zero();
    let fresh = new_outcome(db).0;
    lemma_first_failure(db.shards, marker, usize::MAX as nat);
    assert forall|i: int| 0 <= i < db.shards.len() implies {
        &&& (#[trigger] fresh.db.shards[i]).wf()
        &&& fresh.db.shards[i] == prune_shard(db.shards[i], marker, usize::MAX as nat).0
        &&& prune_shard(db.shards[i], marker, usize::MAX as nat).1 is None
        &&& fresh.db.shards[i].progress_or_zero() == marker
        &&& partly_pruned(db.shards[i], fresh.db.shards[i], later)
    } by {
        assert(prune_shard(db.shards[i], marker, usize::MAX as nat).1 is None);
        lemma_prune_shard(db.shards[i], marker, usize::MAX as nat);
        lemma_prune_shard_partly(db.shards[i], marker, usize::MAX as nat, later);
    }
}

/// The data shard of a pruner that was taken up again at the target ends
/// where the shard of the undisturbed pruner ends.
proof fn lemma_resumed_shard_at_target(
    s: ShardState,
    c: ShardState,
    r: ShardState,
    target: Version,
)
    requires
        s.wf(),
        r.wf(),
        same_content(r, c),
        partly_pruned(s, c, target),
        s.progress_or_zero() == target ==> c == s,
        !stopped_at_the_marker(s, c, target),
        prune_shard(r, target, usize::MAX as nat).1 is None,
    ensures
        same_content(prune_shard(r, target, usize::MAX as nat).0, shard_pruned_to(s, target)),
{
    if s.progress_or_zero() == target {
    } else if c.progress_or_zero() == target {
        lemma_partly_done(s, s.progress_or_zero(), r, target);
    } else {
        lemma_prune_shard(r, target, usize::MAX as nat);
        lemma_partly_fully(s, s.progress_or_zero(), r, r.progress_or_zero(), target);
    }
}

/// The data shard of a pruner that was taken up again below the target
/// ends where the shard of the undisturbed pruner ends.
proof fn lemma_resumed_shard_below_target(
    s: ShardState,
    c: ShardState,
    r: ShardState,
    f: ShardState,
    target: Version,
)
    requires
        s.wf(),
        r.wf(),
        f.wf(),
        same_content(r, c),
        partly_pruned(s, c, target),
        partly_pruned(r, f, target),
        s.progress_or_zero() <= f.progress_or_zero() < target,
    ensures
        same_content(shard_pruned_to(f, target), shard_pruned_to(s, target)),
{
    lemma_partly_trans(
        s,
        s.progress_or_zero(),
        r,
        r.progress_or_zero(),
        f,
        f.progress_or_zero(),
        target,
    );
    lemma_partly_fully(s, s.progress_or_zero(), f, f.progress_or_zero(), target);
}

/// When the windows of a call succeed: see `lemma_prune_succeeds`.
proof fn lemma_run_windows_succeeds(st: PrunerState, window_end: Version, batch_size: nat)
    requires
        st.wf(),
        st.db.metadata.progress_or_zero() <= window_end <= st.target_version,
        batch_size >= 1,
        sound_from(st.db.metadata, st.progress, st.target_version),
        st.db.metadata.write_quota > st.target_version - window_end,
        forall|i: int|
            0 <= i < st.db.shards.len() ==> window_is_sound(
                #[trigger] st.db.shards[i],
                st.target_version,
            ) && st.db.shards[i].write_quota > window_len(
                st.db.shards[i].stale_index,
                st.db.shards[i].progress_or_zero(),
                st.target_version,
            ) + (st.target_version - window_end),
    ensures
        run_windows(st, window_end, batch_size).1 is None,
    decreases st.target_version - window_end,
{
    let target = st.target_version;
    let meta = st.db.metadata;
    let after = prune_window(st, window_end, batch_size);
    lemma_prune_window(st, window_end, batch_size);
    lemma_prune_window_partly(st, window_end, batch_size);
    lemma_sound_earlier(meta, st.progress, window_end, target);
    lemma_window(meta.stale_index, st.progress, window_end);
    assert(top_levels_error(meta, st.progress, window_end) is None) by {
        let w = window(meta.stale_index, st.progress, window_end);
        let indices = scan_batch(meta.stale_index, st.progress, window_end, usize::MAX as nat);
        assert forall|i: int| 0 <= i < indices.len() implies meta.nodes.contains(
            (#[trigger] indices[i]).node_key,
        ) by {
            assert(indices[i] == w[i]);
        }
    }
    assert forall|i: int| 0 <= i < st.db.shards.len() implies (#[trigger] prune_shard(
        st.db.shards[i],
        window_end,
        batch_size,
    )).1 is None by {
        let s = st.db.shards[i];
        assert(window_is_sound(s, target));
        lemma_sound_earlier(s, s.progress_or_zero(), window_end, target);
        lemma_prune_shard_succeeds(s, window_end, batch_size);
    }
    lemma_first_failure(st.db.shards, window_end, batch_size);
    assert(after.1 is None);
    if window_end < target {
        let next = next_window_end(window_end, after.0.next_version, target);
        lemma_after_top_levels(meta, st.progress, window_end);
        lemma_partly_sound(meta, st.progress, after.0.db.metadata, window_end, target);
        assert forall|i: int| 0 <= i < st.db.shards.len() implies window_is_sound(
            #[trigger] after.0.db.shards[i],
            target,
        ) && after.0.db.shards[i].write_quota > window_len(
            after.0.db.shards[i].stale_index,
            after.0.db.shards[i].progress_or_zero(),
            target,
        ) + (target - next) by {
            let s = st.db.shards[i];
            let f = after.0.db.shards[i];
            assert(window_is_sound(s, target));
            assert(partly_pruned(s, f, target));
            lemma_partly_sound(s, s.progress_or_zero(), f, f.progress_or_zero(), target);
            if s.progress_or_zero() != window_end {
                lemma_writes_bound(s, window_end, batch_size);
            }
        }
        lemma_run_windows_succeeds(after.0, next, batch_size);
    }
}

} // verus!
