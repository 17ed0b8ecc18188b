//! The stale index scanner.
//!
//! A scan reads a shard's stale node index in storage order, from the first
//! record that is stale since `start_version`, and collects the records that
//! are stale since `target_version` at the latest. It reads one record more
//! than it may return: the version of the last record it has read tells the
//! caller where the next scan starts.

use vstd::prelude::*;
use crate::model::{count_below, is_sorted, lemma_count_below, lemma_count_below_at};
use crate::node::{StaleNodeIndex, Version};
use crate::shard::DbShard;

verus! {

/// The number of records of `index` that are stale since a version from
/// `start` to `end`, both included.
pub open spec fn window_len(index: Seq<StaleNodeIndex>, start: Version, end: Version) -> nat {
    let lo = count_below(index, start as int);
    let hi = count_below(index, end + 1);
    if hi >= lo {
        (hi - lo) as nat
    } else {
        0
    }
}

/// The records of `index` that are stale since a version from `start` to
/// `end`, in storage order.
pub open spec fn window(index: Seq<StaleNodeIndex>, start: Version, end: Version) -> Seq<
    StaleNodeIndex,
> {
    let lo = count_below(index, start as int) as int;
    index.subrange(lo, lo + window_len(index, start, end))
}

/// What a scan returns: the first `batch_size` records of the window, or
/// all of them where there are fewer.
pub open spec fn scan_batch(
    index: Seq<StaleNodeIndex>,
    start: Version,
    end: Version,
    batch_size: nat,
) -> Seq<StaleNodeIndex> {
    let w = window(index, start, end);
    if w.len() <= batch_size {
        w
    } else {
        w.take(batch_size as int)
    }
}

/// The number of records that a scan reads: it stops behind the first
/// record outside the window, behind record `batch_size + 1`, or at the end
/// of the index.
pub open spec fn scan_examined(
    index: Seq<StaleNodeIndex>,
    start: Version,
    end: Version,
    batch_size: nat,
) -> nat {
    let rest = (index.len() - count_below(index, start as int)) as nat;
    let wanted = if window_len(index, start, end) <= batch_size {
        window_len(index, start, end) + 1
    } else {
        batch_size + 1
    };
    if rest <= wanted {
        rest
    } else {
        wanted
    }
}

/// The version from which the next scan starts: that of the last record
/// read, whether or not it was returned; `None` where the index holds no
/// record from `start` on.
pub open spec fn scan_resume(
    index: Seq<StaleNodeIndex>,
    start: Version,
    end: Version,
    batch_size: nat,
) -> Option<Version> {
    let examined = scan_examined(index, start, end, batch_size);
    if examined == 0 {
        None
    } else {
        Some(index[count_below(index, start as int) + examined - 1].stale_since_version)
    }
}

/// The window of an ordered index holds exactly the records of the index
/// that are stale since a version from `start` to `end`.
pub proof fn lemma_window(index: Seq<StaleNodeIndex>, start: Version, end: Version)
    requires
        is_sorted(index),
    ensures
        count_below(index, start as int) + window_len(index, start, end) <= index.len(),
        forall|i: int|
            0 <= i < window_len(index, start, end) ==> #[trigger] window(index, start, end)[i]
                == index[count_below(index, start as int) + i],
        forall|i: int|
            0 <= i < index.len() ==> ((count_below(index, start as int) <= i < count_below(
                index,
                start as int,
            ) + window_len(index, start, end)) <==> start <= (
            #[trigger] index[i]).stale_since_version <= end),
        forall|x: StaleNodeIndex|
            window(index, start, end).contains(x) <==> (index.contains(x) && start
                <= x.stale_since_version <= end),
{
    lemma_count_below(index, start as int);
    lemma_count_below(index, end + 1);
    let lo = count_below(index, start as int) as int;
    let n = window_len(index, start, end) as int;
    let w = window(index, start, end);
    assert forall|x: StaleNodeIndex| w.contains(x) <==> (index.contains(x) && start
        <= x.stale_since_version <= end) by {
        if w.contains(x) {
            let i = choose|i: int| 0 <= i < w.len() && w[i] == x;
            assert(index[lo + i] == x);
        }
        if index.contains(x) && start <= x.stale_since_version <= end {
            let i = choose|i: int| 0 <= i < index.len() && index[i] == x;
            assert(w[i - lo] == x);
        }
    }
}

/// The number of records that a scan with `batch_size` reads at most: one
/// more than it may return.
pub fn read_limit(batch_size: usize) -> (limit: usize)
    ensures
        limit == (if batch_size < usize::MAX {
            batch_size + 1
        } else {
            usize::MAX as int
        }),
{
    if batch_size < usize::MAX {
        batch_size + 1
    } else {
        usize::MAX
    }
}

/// A scan looks at no more than the first `batch_size + 1` records from
/// `start` on: it returns of them alone what it returns of the whole index.
pub proof fn lemma_scan_reads_a_prefix(
    index: Seq<StaleNodeIndex>,
    start: Version,
    end: Version,
    batch_size: nat,
    read: nat,
)
    requires
        is_sorted(index),
        read == batch_size + 1 || (read >= batch_size && count_below(index, start as int) + read
            >= index.len()),
    ensures
        ({
            let lo = count_below(index, start as int) as int;
            let upto = if lo + read <= index.len() {
                lo + read
            } else {
                index.len() as int
            };
            let prefix = index.subrange(lo, upto);
            &&& is_sorted(prefix)
            &&& scan_batch(prefix, start, end, batch_size) == scan_batch(
                index,
                start,
                end,
                batch_size,
            )
            &&& scan_resume(prefix, start, end, batch_size) == scan_resume(
                index,
                start,
                end,
                batch_size,
            )
        }),
{
    lemma_count_below(index, start as int);
    lemma_count_below(index, end + 1);
    lemma_window(index, start, end);
    let lo = count_below(index, start as int) as int;
    let hi = count_below(index, end + 1) as int;
    let upto = if lo + read <= index.len() {
        lo + read
    } else {
        index.len() as int
    };
    let prefix = index.subrange(lo, upto);
    let k = upto - lo;
    assert forall|i: int, j: int| 0 <= i < j < prefix.len() implies (#[trigger] prefix[i]).lt(
        #[trigger] prefix[j],
    ) by {
        assert(prefix[i] == index[lo + i] && prefix[j] == index[lo + j]);
    }
    assert forall|i: int| 0 <= i < prefix.len() implies (#[trigger] prefix[i]).stale_since_version
        >= start by {
        assert(prefix[i] == index[lo + i]);
    }
    lemma_count_below_at(prefix, start as int, 0);
    let wl = window_len(index, start, end) as int;
    let split = if wl <= k {
        wl
    } else {
        k
    };
    assert forall|i: int| 0 <= i < split implies (#[trigger] prefix[i]).stale_since_version < end
        + 1 by {
        assert(prefix[i] == index[lo + i]);
    }
    assert forall|i: int| split <= i < prefix.len() implies (
    #[trigger] prefix[i]).stale_since_version >= end + 1 by {
        assert(prefix[i] == index[lo + i]);
    }
    lemma_count_below_at(prefix, end + 1, split);
    lemma_window(prefix, start, end);
    assert(scan_batch(prefix, start, end, batch_size) =~= scan_batch(
        index,
        start,
        end,
        batch_size,
    ));
}

/// Scans the stale node index of `shard` from `start_version`.
///
/// Returns the records that are stale since a version from `start_version`
/// to `target_version`, in storage order, but no more than `batch_size` of
/// them; and the version at which the next scan starts.
pub fn get_stale_node_indices(
    shard: &DbShard,
    start_version: Version,
    target_version: Version,
    batch_size: usize,
) -> (r: (Vec<StaleNodeIndex>, Option<Version>))
    requires
        shard.wf(),
    ensures
        r.0@ == scan_batch(
            shard@.stale_index,
            start_version,
            target_version,
            batch_size as nat,
        ),
        r.1 == scan_resume(shard@.stale_index, start_version, target_version, batch_size as nat),
        r.0@.len() <= batch_size,
        forall|i: int|
            0 <= i < r.0@.len() ==> shard@.stale_index.contains(#[trigger] r.0@[i])
                && start_version <= r.0@[i].stale_since_version <= target_version,
{
    let ghost index = shard@.stale_index;
    proof {
        shard.lemma_wf();
        lemma_window(index, start_version, target_version);
        lemma_count_below(index, start_version as int);
        lemma_count_below(index, target_version + 1);
    }
    let n: usize = shard.num_stale_node_indices();
    let first: usize = shard.seek(start_version);
    let mut pos: usize = first;
    let mut indices: Vec<StaleNodeIndex> = Vec::new();
    let mut next_version: Option<Version> = None;
    let mut open: bool = true;
    while open && indices.len() <= batch_size
        invariant
            shard.wf(),
            index == shard@.stale_index,
            first == count_below(index, start_version as int),
            n == index.len(),
            first <= pos <= index.len(),
            pos - first == indices@.len(),
            indices@.len() <= batch_size + 1,
            indices@ == index.subrange(first as int, pos as int),
            forall|i: int| first <= i < pos ==> (#[trigger] index[i]).stale_since_version
                <= target_version,
            open ==> next_version == (if pos == first {
                None
            } else {
                Some(index[pos - 1].stale_since_version)
            }),
            !open ==> (pos == index.len() && next_version == (if pos == first {
                None
            } else {
                Some(index[pos - 1].stale_since_version)
            })) || (pos < index.len() && index[pos as int].stale_since_version > target_version
                && next_version == Some(index[pos as int].stale_since_version)),
            !open ==> indices@.len() <= batch_size,
        decreases index.len() - pos + if open { 1nat } else { 0nat },
    {
        match shard.stale_node_index_at(pos) {
            Some(record) => {
                next_version = Some(record.stale_since_version);
                if record.stale_since_version <= target_version {
                    indices.push(record);
                    pos = pos + 1;
                    assert(indices@ == index.subrange(first as int, pos as int));
                } else {
                    open = false;
                }
            },
            None => {
                open = false;
            },
        }
    }
    proof {
        let lo = first as int;
        let hi = count_below(index, target_version + 1) as int;
        if pos > first {
            assert(index[pos - 1].stale_since_version <= target_version);
            assert(pos - 1 < hi);
        }
        if pos < index.len() && index[pos as int].stale_since_version > target_version {
            assert(hi <= pos);
        }
        if open {
            assert(indices@.len() == batch_size + 1);
            if hi > pos {
            } else {
                assert(hi == pos);
            }
        } else {
            if pos == index.len() {
                assert(hi <= index.len());
                if first < pos {
                    assert(hi == pos);
                } else {
                    assert(index.len() - lo == 0);
                }
            } else {
                if first < pos {
                    assert(hi == pos);
                } else {
                    assert(hi <= lo);
                }
            }
        }
    }
    if indices.len() > batch_size {
        indices.pop();
        proof {
            let w = window(index, start_version, target_version);
            assert(w.len() > batch_size);
            assert(indices@ =~= w.take(batch_size as int));
        }
    } else {
        proof {
            let w = window(index, start_version, target_version);
            assert(indices@ =~= w);
        }
    }
    proof {
        assert forall|i: int| 0 <= i < indices@.len() implies index.contains(
            #[trigger] indices@[i],
        ) && start_version <= indices@[i].stale_since_version <= target_version by {
            assert(indices@[i] == index[first + i]);
        }
    }
    (indices, next_version)
}

} // verus!
