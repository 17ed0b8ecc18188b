//! Versions, node keys and stale node index records.

use vstd::prelude::*;

verus! {

/// Identifies one committed snapshot of the whole store.
pub type Version = u64;

/// Identifies one node of the tree: the version at which the node was
/// written, and its position within the tree of that version.
#[derive(Clone, Copy, Debug, PartialEq, Eq, Structural, Hash)]
pub struct NodeKey {
    pub version: Version,
    pub path: u64,
}

/// Records that the node `node_key` stopped being part of the live tree as
/// of `stale_since_version`.
#[derive(Clone, Copy, Debug, PartialEq, Eq, Structural, Hash)]
pub struct StaleNodeIndex {
    pub stale_since_version: Version,
    pub node_key: NodeKey,
}

impl NodeKey {
    /// The order in which a shard stores node keys: by version, then by
    /// path.
    pub open spec fn lt(self, other: NodeKey) -> bool {
        self.version < other.version || (self.version == other.version && self.path
            < other.path)
    }

    pub fn new(version: Version, path: u64) -> (key: NodeKey)
        ensures
            key == (NodeKey { version, path }),
    {
        NodeKey { version, path }
    }

    /// The key of the root of the tree written at `version`: the least key
    /// of that version.
    pub fn new_empty_path(version: Version) -> (key: NodeKey)
        ensures
            key == (NodeKey { version, path: 0 }),
    {
        NodeKey { version, path: 0 }
    }

    /// Whether `self` is stored before `other`.
    pub fn precedes(&self, other: &NodeKey) -> (r: bool)
        ensures
            r == self.lt(*other),
    {
        self.version < other.version || (self.version == other.version && self.path
            < other.path)
    }
}

impl StaleNodeIndex {
    /// The order in which a shard stores its stale node index: by
    /// `stale_since_version`, then by node key.
    pub open spec fn lt(self, other: StaleNodeIndex) -> bool {
        self.stale_since_version < other.stale_since_version || (self.stale_since_version
            == other.stale_since_version && self.node_key.lt(other.node_key))
    }

    pub fn new(stale_since_version: Version, node_key: NodeKey) -> (index: StaleNodeIndex)
        ensures
            index == (StaleNodeIndex { stale_since_version, node_key }),
    {
        StaleNodeIndex { stale_since_version, node_key }
    }

    /// The least record that can be stale since `version`: the place at
    /// which a scan from `version` starts.
    pub fn first_at(version: Version) -> (index: StaleNodeIndex)
        ensures
            index == (StaleNodeIndex {
                stale_since_version: version,
                node_key: NodeKey { version: 0, path: 0 },
            }),
    {
        StaleNodeIndex { stale_since_version: version, node_key: NodeKey::new_empty_path(0) }
    }

    /// Whether `self` is stored before `other`.
    pub fn precedes(&self, other: &StaleNodeIndex) -> (r: bool)
        ensures
            r == self.lt(*other),
    {
        self.stale_since_version < other.stale_since_version || (self.stale_since_version
            == other.stale_since_version && self.node_key.precedes(&other.node_key))
    }
}

/// The storage order of stale node index records is a strict total order.
pub proof fn lemma_stale_index_order(a: StaleNodeIndex, b: StaleNodeIndex, c: StaleNodeIndex)
    ensures
        !a.lt(a),
        a.lt(b) && b.lt(c) ==> a.lt(c),
        a.lt(b) || b.lt(a) || a == b,
        !(a.lt(b) && b.lt(a)),
{
}

} // verus!
