//! The mathematical model of one shard.
//!
//! A shard is an ordered table of stale node index records, a set of node
//! keys, a progress marker, and the number of atomic writes that it will
//! still accept. Everything that the pruner promises is stated over this
//! model.

use vstd::prelude::*;
use crate::batch::BatchOp;
use crate::node::{NodeKey, StaleNodeIndex, Version};

verus! {

/// Whether the records are in storage order. The order is strict, so no
/// record occurs twice.
pub open spec fn is_sorted(s: Seq<StaleNodeIndex>) -> bool {
    forall|i: int, j: int| 0 <= i < j < s.len() ==> (#[trigger] s[i]).lt(#[trigger] s[j])
}

/// The number of records of `s` that became stale before version `v`.
pub open spec fn count_below(s: Seq<StaleNodeIndex>, v: int) -> nat
    decreases s.len(),
{
    if s.len() == 0 {
        0
    } else {
        count_below(s.drop_last(), v) + if s.last().stale_since_version < v {
            1nat
        } else {
            0nat
        }
    }
}

/// The number of records of `s` that are stored before `x`.
pub open spec fn rank(s: Seq<StaleNodeIndex>, x: StaleNodeIndex) -> nat
    decreases s.len(),
{
    if s.len() == 0 {
        0
    } else {
        rank(s.drop_last(), x) + if s.last().lt(x) {
            1nat
        } else {
            0nat
        }
    }
}

/// The least record that can be stale since `v`: the place at which a scan
/// from version `v` starts.
pub open spec fn seek_key(v: Version) -> StaleNodeIndex {
    StaleNodeIndex { stale_since_version: v, node_key: NodeKey { version: 0, path: 0 } }
}

/// `s` with `x` put at its place in storage order; `s` itself where it
/// holds `x` already.
pub open spec fn with_record(s: Seq<StaleNodeIndex>, x: StaleNodeIndex) -> Seq<StaleNodeIndex> {
    if s.contains(x) {
        s
    } else {
        s.insert(rank(s, x) as int, x)
    }
}

/// `s` without `x`.
pub open spec fn without_record(s: Seq<StaleNodeIndex>, x: StaleNodeIndex) -> Seq<
    StaleNodeIndex,
> {
    if s.contains(x) {
        s.remove(rank(s, x) as int)
    } else {
        s
    }
}

/// Whether the node keys are in storage order. The order is strict, so no
/// key occurs twice.
pub open spec fn keys_sorted(s: Seq<NodeKey>) -> bool {
    forall|i: int, j: int| 0 <= i < j < s.len() ==> (#[trigger] s[i]).lt(#[trigger] s[j])
}

/// The number of keys of `s` that are stored before `k`.
pub open spec fn key_rank(s: Seq<NodeKey>, k: NodeKey) -> nat
    decreases s.len(),
{
    if s.len() == 0 {
        0
    } else {
        key_rank(s.drop_last(), k) + if s.last().lt(k) {
            1nat
        } else {
            0nat
        }
    }
}

/// In an ordered sequence of keys the keys stored before `k` are exactly
/// its first `key_rank` keys.
pub proof fn lemma_key_rank(s: Seq<NodeKey>, k: NodeKey)
    requires
        keys_sorted(s),
    ensures
        key_rank(s, k) <= s.len(),
        forall|i: int| 0 <= i < s.len() ==> (i < key_rank(s, k) <==> (#[trigger] s[i]).lt(k)),
        s.contains(k) <==> (key_rank(s, k) < s.len() && s[key_rank(s, k) as int] == k),
        s.no_duplicates(),
    decreases s.len(),
{
    if s.len() > 0 {
        let t = s.drop_last();
        lemma_key_rank(t, k);
        assert forall|i: int| 0 <= i < s.len() implies (i < key_rank(s, k) <==> (
        #[trigger] s[i]).lt(k)) by {
            if i < s.len() - 1 {
                assert(s[i] == t[i]);
                assert(s[i].lt(s[s.len() - 1]));
            }
        }
        if s.contains(k) {
            let j = choose|j: int| 0 <= j < s.len() && s[j] == k;
            assert(!s[j].lt(k));
            assert(j >= key_rank(s, k));
            if j > key_rank(s, k) {
                assert(s[key_rank(s, k) as int].lt(s[j]));
                assert(!s[key_rank(s, k) as int].lt(k));
            }
        }
    }
    assert forall|i: int, j: int| 0 <= i < s.len() && 0 <= j < s.len() && i != j implies s[i]
        != s[j] by {
        if i < j {
            assert(s[i].lt(s[j]));
        } else {
            assert(s[j].lt(s[i]));
        }
    }
}

/// Putting a new key at its place into an ordered sequence of keys keeps
/// the sequence ordered, and adds that key to the set of its keys.
pub proof fn lemma_key_insert(s: Seq<NodeKey>, k: NodeKey)
    requires
        keys_sorted(s),
        !s.contains(k),
    ensures
        keys_sorted(s.insert(key_rank(s, k) as int, k)),
        s.insert(key_rank(s, k) as int, k).to_set() == s.to_set().insert(k),
{
    lemma_key_rank(s, k);
    let r = key_rank(s, k) as int;
    let t = s.insert(r, k);
    assert forall|i: int, j: int| 0 <= i < j < t.len() implies (#[trigger] t[i]).lt(
        #[trigger] t[j],
    ) by {
        if j < r {
            assert(t[i] == s[i] && t[j] == s[j]);
        } else if j == r {
            assert(t[i] == s[i]);
        } else if i < r {
            assert(t[i] == s[i] && t[j] == s[j - 1]);
            if j - 1 != i {
                assert(s[i].lt(s[j - 1]));
            }
        } else if i == r {
            assert(t[j] == s[j - 1]);
            assert(!s[j - 1].lt(k));
            assert(s[j - 1] != k);
        } else {
            assert(t[i] == s[i - 1] && t[j] == s[j - 1]);
        }
    }
    assert forall|x: NodeKey| t.to_set().contains(x) <==> s.to_set().insert(k).contains(x) by {
        if t.contains(x) {
            let a = choose|a: int| 0 <= a < t.len() && t[a] == x;
            if a < r {
                assert(s[a] == x);
            } else if a > r {
                assert(s[a - 1] == x);
            }
        }
        if s.contains(x) {
            let a = choose|a: int| 0 <= a < s.len() && s[a] == x;
            if a < r {
                assert(t[a] == x);
            } else {
                assert(t[a + 1] == x);
            }
        }
        if x == k {
            assert(t[r] == k);
        }
    }
    assert(t.to_set() =~= s.to_set().insert(k));
}

/// Taking the key at a position out of an ordered sequence of keys keeps
/// the sequence ordered, and takes that key from the set of its keys.
pub proof fn lemma_key_remove(s: Seq<NodeKey>, j: int)
    requires
        keys_sorted(s),
        0 <= j < s.len(),
    ensures
        keys_sorted(s.remove(j)),
        s.remove(j).to_set() == s.to_set().remove(s[j]),
{
    let t = s.remove(j);
    assert forall|a: int, b: int| 0 <= a < b < t.len() implies (#[trigger] t[a]).lt(
        #[trigger] t[b],
    ) by {
        let a2 = if a < j { a } else { a + 1 };
        let b2 = if b < j { b } else { b + 1 };
        assert(t[a] == s[a2] && t[b] == s[b2]);
    }
    assert forall|k: NodeKey| t.to_set().contains(k) <==> s.to_set().remove(s[j]).contains(
        k,
    ) by {
        if t.contains(k) {
            let a = choose|a: int| 0 <= a < t.len() && t[a] == k;
            let a2 = if a < j { a } else { a + 1 };
            assert(s[a2] == k);
            if a2 < j {
                assert(s[a2].lt(s[j]));
            } else {
                assert(s[j].lt(s[a2]));
            }
        }
        if s.contains(k) && k != s[j] {
            let a = choose|a: int| 0 <= a < s.len() && s[a] == k;
            let a2 = if a < j { a } else { a - 1 };
            assert(t[a2] == k);
        }
    }
    assert(t.to_set() =~= s.to_set().remove(s[j]));
}

/// What one shard holds.
pub struct ShardState {
    /// The stale node index, in storage order.
    pub stale_index: Seq<StaleNodeIndex>,
    /// The keys of the nodes that the shard stores.
    pub nodes: Set<NodeKey>,
    /// The persisted progress marker; `None` before the first pruning.
    pub progress: Option<Version>,
    /// How many atomic writes the shard still accepts.
    pub write_quota: u64,
}

impl ShardState {
    /// A shard that holds nothing and was never pruned, with the largest
    /// write quota.
    pub open spec fn empty() -> ShardState {
        ShardState {
            stale_index: Seq::empty(),
            nodes: Set::empty(),
            progress: None,
            write_quota: u64::MAX,
        }
    }

    /// The invariant of a shard: its index is in storage order, and it
    /// holds finitely many nodes.
    pub open spec fn wf(self) -> bool {
        &&& is_sorted(self.stale_index)
        &&& self.nodes.finite()
    }

    /// The version up to which the shard counts as pruned: the persisted
    /// marker, or 0 where none was ever written.
    pub open spec fn progress_or_zero(self) -> Version {
        match self.progress {
            Some(v) => v,
            None => 0,
        }
    }

    /// The shard after one operation of a batch.
    pub open spec fn apply(self, op: BatchOp) -> ShardState {
        match op {
            BatchOp::DeleteNode(key) => ShardState { nodes: self.nodes.remove(key), ..self },
            BatchOp::DeleteStaleNodeIndex(index) => ShardState {
                stale_index: without_record(self.stale_index, index),
                ..self
            },
            BatchOp::PutProgress(version) => ShardState { progress: Some(version), ..self },
        }
    }

    /// The shard after the operations `ops`, in their order.
    pub open spec fn apply_all(self, ops: Seq<BatchOp>) -> ShardState
        decreases ops.len(),
    {
        if ops.len() == 0 {
            self
        } else {
            self.apply_all(ops.drop_last()).apply(ops.last())
        }
    }

    /// Whether the shard accepts one more atomic write.
    pub open spec fn accepts_write(self) -> bool {
        self.write_quota > 0
    }

    /// The shard after the atomic write of `ops`: all of it, at the cost
    /// of one write of the quota; or nothing, where the quota is used up.
    pub open spec fn commit(self, ops: Seq<BatchOp>) -> ShardState {
        if self.accepts_write() {
            ShardState { write_quota: (self.write_quota - 1) as u64, ..self.apply_all(ops) }
        } else {
            self
        }
    }
}

/// In an ordered index the records below a version are exactly its first
/// `count_below` records.
pub proof fn lemma_count_below(s: Seq<StaleNodeIndex>, v: int)
    requires
        is_sorted(s),
    ensures
        count_below(s, v) <= s.len(),
        forall|i: int|
            0 <= i < s.len() ==> (i < count_below(s, v) <==> (#[trigger] s[i]).stale_since_version
                < v),
    decreases s.len(),
{
    if s.len() > 0 {
        let t = s.drop_last();
        lemma_count_below(t, v);
        assert forall|i: int| 0 <= i < s.len() implies (i < count_below(s, v) <==> (
        #[trigger] s[i]).stale_since_version < v) by {
            if i < s.len() - 1 {
                assert(s[i] == t[i]);
                assert(s[i].lt(s[s.len() - 1]));
            }
        }
    }
}

/// In an ordered index the records stored before `x` are exactly its first
/// `rank` records.
pub proof fn lemma_rank(s: Seq<StaleNodeIndex>, x: StaleNodeIndex)
    requires
        is_sorted(s),
    ensures
        rank(s, x) <= s.len(),
        forall|i: int| 0 <= i < s.len() ==> (i < rank(s, x) <==> (#[trigger] s[i]).lt(x)),
        s.contains(x) <==> (rank(s, x) < s.len() && s[rank(s, x) as int] == x),
    decreases s.len(),
{
    if s.len() > 0 {
        let t = s.drop_last();
        lemma_rank(t, x);
        assert forall|i: int| 0 <= i < s.len() implies (i < rank(s, x) <==> (#[trigger] s[i]).lt(
            x,
        )) by {
            if i < s.len() - 1 {
                assert(s[i] == t[i]);
                assert(s[i].lt(s[s.len() - 1]));
            }
        }
        if s.contains(x) {
            let j = choose|j: int| 0 <= j < s.len() && s[j] == x;
            assert(!s[j].lt(x));
            assert(j >= rank(s, x));
            if j > rank(s, x) {
                assert(s[rank(s, x) as int].lt(s[j]));
                assert(!s[rank(s, x) as int].lt(x));
            }
        }
    }
}

/// A scan from version `v` starts behind the records below `v`.
pub proof fn lemma_rank_seek_key(s: Seq<StaleNodeIndex>, v: Version)
    ensures
        rank(s, seek_key(v)) == count_below(s, v as int),
    decreases s.len(),
{
    if s.len() > 0 {
        lemma_rank_seek_key(s.drop_last(), v);
    }
}

/// Putting a record into an ordered index keeps it ordered, and adds that
/// record and no other.
pub proof fn lemma_with_record(s: Seq<StaleNodeIndex>, x: StaleNodeIndex)
    requires
        is_sorted(s),
    ensures
        is_sorted(with_record(s, x)),
        forall|y: StaleNodeIndex| with_record(s, x).contains(y) <==> (s.contains(y) || y == x),
{
    lemma_rank(s, x);
    let r = rank(s, x) as int;
    let t = with_record(s, x);
    if !s.contains(x) {
        assert forall|i: int, j: int| 0 <= i < j < t.len() implies (#[trigger] t[i]).lt(
            #[trigger] t[j],
        ) by {
            if j < r {
                assert(t[i] == s[i] && t[j] == s[j]);
            } else if j == r {
                assert(t[i] == s[i]);
            } else if i < r {
                assert(t[i] == s[i] && t[j] == s[j - 1]);
                if j - 1 == i {
                } else {
                    assert(s[i].lt(s[j - 1]));
                }
            } else if i == r {
                assert(t[j] == s[j - 1]);
                assert(!s[j - 1].lt(x));
                assert(s[j - 1] != x);
            } else {
                assert(t[i] == s[i - 1] && t[j] == s[j - 1]);
            }
        }
        assert forall|y: StaleNodeIndex| t.contains(y) <==> (s.contains(y) || y == x) by {
            if t.contains(y) {
                let k = choose|k: int| 0 <= k < t.len() && t[k] == y;
                if k < r {
                    assert(s[k] == y);
                } else if k > r {
                    assert(s[k - 1] == y);
                }
            }
            if s.contains(y) {
                let k = choose|k: int| 0 <= k < s.len() && s[k] == y;
                if k < r {
                    assert(t[k] == y);
                } else {
                    assert(t[k + 1] == y);
                }
            }
            if y == x {
                assert(t[r] == x);
            }
        }
    }
}

/// Taking a record out of an ordered index keeps it ordered, and removes
/// that record and no other.
pub proof fn lemma_without_record(s: Seq<StaleNodeIndex>, x: StaleNodeIndex)
    requires
        is_sorted(s),
    ensures
        is_sorted(without_record(s, x)),
        forall|y: StaleNodeIndex| without_record(s, x).contains(y) <==> (s.contains(y) && y != x),
{
    lemma_rank(s, x);
    let r = rank(s, x) as int;
    let t = without_record(s, x);
    if s.contains(x) {
        assert forall|i: int, j: int| 0 <= i < j < t.len() implies (#[trigger] t[i]).lt(
            #[trigger] t[j],
        ) by {
            let a = if i < r { i } else { i + 1 };
            let b = if j < r { j } else { j + 1 };
            assert(t[i] == s[a] && t[j] == s[b]);
        }
        assert forall|y: StaleNodeIndex| t.contains(y) <==> (s.contains(y) && y != x) by {
            if t.contains(y) {
                let k = choose|k: int| 0 <= k < t.len() && t[k] == y;
                let a = if k < r { k } else { k + 1 };
                assert(s[a] == y);
                if a < r {
                    assert(s[a].lt(s[r]));
                } else {
                    assert(s[r].lt(s[a]));
                }
            }
            if s.contains(y) && y != x {
                let k = choose|k: int| 0 <= k < s.len() && s[k] == y;
                if k < r {
                    assert(t[k] == y);
                } else {
                    assert(t[k - 1] == y);
                }
            }
        }
    } else {
        assert forall|y: StaleNodeIndex| s.contains(y) implies y != x by {}
    }
}

/// One operation of a batch keeps a shard well formed.
pub proof fn lemma_apply_wf(s: ShardState, op: BatchOp)
    requires
        s.wf(),
    ensures
        s.apply(op).wf(),
{
    match op {
        BatchOp::DeleteStaleNodeIndex(index) => {
            lemma_without_record(s.stale_index, index);
        },
        _ => {},
    }
}

/// A batch keeps a shard well formed, whether or not it is accepted.
pub proof fn lemma_commit_wf(s: ShardState, ops: Seq<BatchOp>)
    requires
        s.wf(),
    ensures
        s.apply_all(ops).wf(),
        s.commit(ops).wf(),
    decreases ops.len(),
{
    if ops.len() > 0 {
        lemma_commit_wf(s, ops.drop_last());
        lemma_apply_wf(s.apply_all(ops.drop_last()), ops.last());
    }
}

/// Whether two shards hold the same records and the same nodes and have
/// the same progress marker. Their write quotas may differ.
pub open spec fn same_content(a: ShardState, b: ShardState) -> bool {
    &&& a.stale_index == b.stale_index
    &&& a.nodes == b.nodes
    &&& a.progress == b.progress
}

/// Whether going from `before` to `after` erased nothing that it may not:
/// nothing was added; every record that is gone was stale since `bound` or
/// earlier; and every node that is gone was named by a record of `before`
/// that was stale since `bound` or earlier.
pub open spec fn erased_within(before: ShardState, after: ShardState, bound: Version) -> bool {
    &&& forall|r: StaleNodeIndex| #[trigger]
        after.stale_index.contains(r) ==> before.stale_index.contains(r)
    &&& forall|k: NodeKey| #[trigger] after.nodes.contains(k) ==> before.nodes.contains(k)
    &&& forall|r: StaleNodeIndex|
        #![trigger before.stale_index.contains(r)]
        before.stale_index.contains(r) && !after.stale_index.contains(r)
            ==> r.stale_since_version <= bound
    &&& forall|k: NodeKey|
        #![trigger before.nodes.contains(k)]
        before.nodes.contains(k) && !after.nodes.contains(k) ==> exists|r: StaleNodeIndex|
            #![trigger before.stale_index.contains(r)]
            before.stale_index.contains(r) && r.node_key == k && r.stale_since_version <= bound
}

/// What was erased within a bound in two steps was erased within it.
pub proof fn lemma_erased_within_trans(a: ShardState, b: ShardState, c: ShardState, bound: Version)
    requires
        erased_within(a, b, bound),
        erased_within(b, c, bound),
    ensures
        erased_within(a, c, bound),
{
    assert forall|k: NodeKey|
        #![trigger a.nodes.contains(k)]
        a.nodes.contains(k) && !c.nodes.contains(k) implies exists|r: StaleNodeIndex|
        #![trigger a.stale_index.contains(r)]
        a.stale_index.contains(r) && r.node_key == k && r.stale_since_version <= bound by {
        if b.nodes.contains(k) {
            let r = choose|r: StaleNodeIndex|
                #![trigger b.stale_index.contains(r)]
                b.stale_index.contains(r) && r.node_key == k && r.stale_since_version <= bound;
            assert(a.stale_index.contains(r));
        }
    }
}

/// The position that splits an ordered index at a version is the number of
/// its records below that version.
pub proof fn lemma_count_below_at(s: Seq<StaleNodeIndex>, v: int, p: int)
    requires
        is_sorted(s),
        0 <= p <= s.len(),
        forall|i: int| 0 <= i < p ==> (#[trigger] s[i]).stale_since_version < v,
        forall|i: int| p <= i < s.len() ==> (#[trigger] s[i]).stale_since_version >= v,
    ensures
        count_below(s, v) == p,
{
    lemma_count_below(s, v);
    let c = count_below(s, v) as int;
    if c < p {
        assert(s[c].stale_since_version < v);
    }
    if c > p {
        assert(s[p].stale_since_version >= v);
    }
}

/// What was erased within a bound was erased within every later bound; and
/// a shard that stays as it is has erased nothing.
pub proof fn lemma_erased_within_weaken(a: ShardState, b: ShardState, bound: Version, later: Version)
    requires
        erased_within(a, b, bound),
        bound <= later,
    ensures
        erased_within(a, b, later),
        erased_within(a, a, bound),
{
    assert forall|k: NodeKey|
        #![trigger a.nodes.contains(k)]
        a.nodes.contains(k) && !b.nodes.contains(k) implies exists|r: StaleNodeIndex|
        #![trigger a.stale_index.contains(r)]
        a.stale_index.contains(r) && r.node_key == k && r.stale_since_version <= later by {
        let r = choose|r: StaleNodeIndex|
            #![trigger a.stale_index.contains(r)]
            a.stale_index.contains(r) && r.node_key == k && r.stale_since_version <= bound;
        assert(a.stale_index.contains(r));
    }
}

} // verus!
