//! Cluster membership: the versioned layout of node roles, the ring that
//! maps partitions to replica nodes, the gossip decisions, and the
//! cluster health summary. The network loops live outside and feed
//! events to the decision functions here.

use vstd::prelude::*;
use vstd::string::StringExecFns;

use crate::data::{fb32_eq, BlockHash, Uuid};

verus! {

/// The number of partitions of the key space.
pub const PARTITION_COUNT: usize = 256;

/// The role a node plays in the cluster.
pub struct NodeRole {
    /// The failure zone the node stands in
    pub zone: String,
    /// Storage capacity weight; `None` for a gateway node that stores
    /// nothing
    pub capacity: Option<u64>,
    /// Free-form tags
    pub tags: Vec<String>,
}

pub struct NodeRoleV {
    pub zone: Seq<char>,
    pub capacity: Option<u64>,
    pub tags: Seq<Seq<char>>,
}

impl View for NodeRole {
    type V = NodeRoleV;

    open spec fn view(&self) -> NodeRoleV {
        NodeRoleV {
            zone: self.zone@,
            capacity: self.capacity,
            tags: Seq::new(self.tags@.len(), |i: int| self.tags@[i]@),
        }
    }
}

impl Clone for NodeRole {
    fn clone(&self) -> (r: Self)
        ensures
            r@ == self@,
    {
        let mut tags: Vec<String> = Vec::new();
        let mut i: usize = 0;
        while i < self.tags.len()
            invariant
                0 <= i <= self.tags@.len(),
                tags@.len() == i,
                forall|j: int| 0 <= j < i ==> (#[trigger] tags@[j])@ == self.tags@[j]@,
            decreases self.tags@.len() - i,
        {
            tags.push(self.tags[i].clone());
            i = i + 1;
        }
        let r = NodeRole { zone: self.zone.clone(), capacity: self.capacity, tags };
        proof {
            assert(r@.tags =~= self@.tags);
        }
        r
    }
}

/// One entry of the role table: a node, the time its role last changed,
/// and the role (`None` marks removal).
pub struct RoleEntry {
    pub node: Uuid,
    pub ts: u64,
    pub role: Option<NodeRole>,
}

pub struct RoleEntryV {
    pub node: Seq<u8>,
    pub ts: u64,
    pub role: Option<NodeRoleV>,
}

impl View for RoleEntry {
    type V = RoleEntryV;

    open spec fn view(&self) -> RoleEntryV {
        RoleEntryV {
            node: self.node@,
            ts: self.ts,
            role: match &self.role {
                Some(nr) => Some(nr@),
                None => None,
            },
        }
    }
}

impl Clone for RoleEntry {
    fn clone(&self) -> (r: Self)
        ensures
            r@ == self@,
    {
        RoleEntry {
            node: self.node,
            ts: self.ts,
            role: match &self.role {
                Some(nr) => Some(nr.clone()),
                None => None,
            },
        }
    }
}

/// The role table of a layout, as abstract values.
pub open spec fn roles_view(roles: Seq<RoleEntry>) -> Seq<RoleEntryV> {
    Seq::new(roles.len(), |i: int| roles[i]@)
}

/// The authoritative, versioned assignment of roles to nodes. Merging two
/// copies converges: the higher committed version wins outright, and at
/// equal versions the role table merges key by key, newest change first.
pub struct ClusterLayout {
    /// Version of the committed layout; the highest version wins
    pub version: u64,
    /// Replication factor the layout was computed for
    pub replication_factor: usize,
    /// The last-writer-wins role table, one entry per node
    pub roles: Vec<RoleEntry>,
    /// Hash of the staged (not yet committed) changes, used to detect
    /// that a peer has staged edits this node has not seen
    pub staging_hash: BlockHash,
}

pub open spec fn roles_unique(s: Seq<RoleEntry>) -> bool {
    forall|i: int, j: int|
        0 <= i < s.len() && 0 <= j < s.len() && i != j ==> (#[trigger] s[i]).node@ != (
        #[trigger] s[j]).node@
}

pub open spec fn roles_unique_v(s: Seq<RoleEntryV>) -> bool {
    forall|i: int, j: int|
        0 <= i < s.len() && 0 <= j < s.len() && i != j ==> (#[trigger] s[i]).node != (
        #[trigger] s[j]).node
}

/// Is a node listed in a role table?
pub open spec fn roles_contains_v(s: Seq<RoleEntryV>, node: Seq<u8>) -> bool {
    exists|i: int| 0 <= i < s.len() && (#[trigger] s[i]).node == node
}

/// The position of a node's entry in a role table.
pub open spec fn role_index_v(s: Seq<RoleEntryV>, node: Seq<u8>) -> int {
    choose|i: int| 0 <= i < s.len() && (#[trigger] s[i]).node == node
}

/// The last-writer-wins merge of two role tables: entries of `s2` with a
/// strictly newer change time replace the local entry for the same node,
/// and entries for new nodes are appended, in order.
pub open spec fn merge_role_lists(s1: Seq<RoleEntryV>, s2: Seq<RoleEntryV>) -> Seq<RoleEntryV>
    decreases s2.len(),
{
    if s2.len() == 0 {
        s1
    } else {
        let prev = merge_role_lists(s1, s2.drop_last());
        let e = s2.last();
        if roles_contains_v(prev, e.node) {
            if e.ts > prev[role_index_v(prev, e.node)].ts {
                prev.update(role_index_v(prev, e.node), e)
            } else {
                prev
            }
        } else {
            prev.push(e)
        }
    }
}

/// Would folding `s2` into `s1` change anything: some entry names a new
/// node, or carries a strictly newer change for a known one.
pub open spec fn spec_roles_changed(s1: Seq<RoleEntryV>, s2: Seq<RoleEntryV>) -> bool {
    exists|i: int|
        0 <= i < s2.len() && (!roles_contains_v(s1, (#[trigger] s2[i]).node) || s1[role_index_v(
            s1,
            s2[i].node,
        )].ts < s2[i].ts)
}

impl Clone for ClusterLayout {
    fn clone(&self) -> (r: Self)
        ensures
            r.version == self.version,
            r.replication_factor == self.replication_factor,
            r.staging_hash@ == self.staging_hash@,
            roles_view(r.roles@) =~= roles_view(self.roles@),
    {
        let mut roles: Vec<RoleEntry> = Vec::new();
        let mut i: usize = 0;
        while i < self.roles.len()
            invariant
                0 <= i <= self.roles@.len(),
                roles@.len() == i,
                forall|j: int| 0 <= j < i ==> (#[trigger] roles@[j])@ == self.roles@[j]@,
            decreases self.roles@.len() - i,
        {
            roles.push(self.roles[i].clone());
            i = i + 1;
        }
        let r = ClusterLayout {
            version: self.version,
            replication_factor: self.replication_factor,
            roles,
            staging_hash: self.staging_hash,
        };
        proof {
            assert(roles_view(r.roles@) =~= roles_view(self.roles@));
        }
        r
    }
}

/// Merging preserves uniqueness of the node column, and introduces no
/// node that neither side names.
proof fn lemma_merge_roles_unique(s1: Seq<RoleEntryV>, s2: Seq<RoleEntryV>)
    requires
        roles_unique_v(s1),
    ensures
        roles_unique_v(merge_role_lists(s1, s2)),
        forall|n: Seq<u8>| #[trigger]
            roles_contains_v(merge_role_lists(s1, s2), n) ==> (roles_contains_v(s1, n) || exists|
                j: int,
            | 0 <= j < s2.len() && (#[trigger] s2[j]).node == n),
    decreases s2.len(),
{
    if s2.len() > 0 {
        lemma_merge_roles_unique(s1, s2.drop_last());
        let prev = merge_role_lists(s1, s2.drop_last());
        let e = s2.last();
        let m = merge_role_lists(s1, s2);
        if roles_contains_v(prev, e.node) {
            let p = role_index_v(prev, e.node);
            if e.ts > prev[p].ts {
                assert forall|a: int, b: int|
                    0 <= a < m.len() && 0 <= b < m.len() && a != b implies (#[trigger] m[a]).node
                    != (#[trigger] m[b]).node by {
                    assert(m[a].node == prev[a].node && m[b].node == prev[b].node);
                };
            }
            assert forall|n: Seq<u8>| #[trigger] roles_contains_v(m, n) implies (roles_contains_v(
                s1,
                n,
            ) || exists|j: int| 0 <= j < s2.len() && (#[trigger] s2[j]).node == n) by {
                let q = choose|q: int| 0 <= q < m.len() && (#[trigger] m[q]).node == n;
                assert(m[q].node == prev[q].node);
                assert(roles_contains_v(prev, n));
                if !roles_contains_v(s1, n) {
                    let j = choose|j: int|
                        0 <= j < s2.drop_last().len() && (#[trigger] s2.drop_last()[j]).node == n;
                    assert(s2[j] == s2.drop_last()[j]);
                    assert(0 <= j < s2.len() && s2[j].node == n);
                }
            };
        } else {
            assert forall|a: int, b: int|
                0 <= a < m.len() && 0 <= b < m.len() && a != b implies (#[trigger] m[a]).node != (
            #[trigger] m[b]).node by {
                if a < prev.len() && b < prev.len() {
                    assert(m[a] == prev[a] && m[b] == prev[b]);
                } else if a == prev.len() && b < prev.len() {
                    assert(m[b] == prev[b]);
                    if m[a].node == m[b].node {
                        assert(roles_contains_v(prev, e.node));
                    }
                } else if b == prev.len() && a < prev.len() {
                    assert(m[a] == prev[a]);
                    if m[a].node == m[b].node {
                        assert(roles_contains_v(prev, e.node));
                    }
                }
            };
            assert forall|n: Seq<u8>| #[trigger] roles_contains_v(m, n) implies (roles_contains_v(
                s1,
                n,
            ) || exists|j: int| 0 <= j < s2.len() && (#[trigger] s2[j]).node == n) by {
                let q = choose|q: int| 0 <= q < m.len() && (#[trigger] m[q]).node == n;
                if q < prev.len() {
                    assert(m[q] == prev[q]);
                    assert(roles_contains_v(prev, n));
                    if !roles_contains_v(s1, n) {
                        let j = choose|j: int|
                            0 <= j < s2.drop_last().len() && (#[trigger] s2.drop_last()[j]).node
                                == n;
                        assert(s2[j] == s2.drop_last()[j]);
                        assert(0 <= j < s2.len() && s2[j].node == n);
                    }
                } else {
                    assert(q == prev.len());
                    assert(m[q] == e);
                    assert(0 <= s2.len() - 1 < s2.len() && s2[s2.len() - 1].node == n);
                }
            };
        }
    }
}

/// The ids of the storage nodes of a role table: the nodes holding a
/// role with declared capacity, in table order. Gateway nodes (no
/// capacity) store no blocks.
pub open spec fn spec_storage_nodes(s: Seq<RoleEntryV>) -> Seq<Seq<u8>>
    decreases s.len(),
{
    if s.len() == 0 {
        Seq::empty()
    } else {
        spec_storage_nodes(s.drop_last()) + (match s.last().role {
            Option::Some(nr) => if nr.capacity is Some {
                seq![s.last().node]
            } else {
                Seq::empty()
            },
            Option::None => Seq::empty(),
        })
    }
}

/// A node that no entry of `s2` names keeps its `s1` entry through the
/// merge.
proof fn lemma_merge_roles_frame(s1: Seq<RoleEntryV>, s2: Seq<RoleEntryV>, n: Seq<u8>)
    requires
        roles_unique_v(s1),
        forall|j: int| 0 <= j < s2.len() ==> (#[trigger] s2[j]).node != n,
    ensures
        roles_contains_v(merge_role_lists(s1, s2), n) == roles_contains_v(s1, n),
        roles_contains_v(s1, n) ==> merge_role_lists(s1, s2)[role_index_v(
            merge_role_lists(s1, s2),
            n,
        )] == s1[role_index_v(s1, n)],
    decreases s2.len(),
{
    if s2.len() > 0 {
        assert(forall|j: int|
            0 <= j < s2.drop_last().len() ==> (#[trigger] s2.drop_last()[j]) == s2[j]);
        lemma_merge_roles_frame(s1, s2.drop_last(), n);
        lemma_merge_roles_unique(s1, s2.drop_last());
        let prev = merge_role_lists(s1, s2.drop_last());
        let e = s2.last();
        let m = merge_role_lists(s1, s2);
        assert(e.node != n);
        if roles_contains_v(prev, e.node) {
            let p = role_index_v(prev, e.node);
            if e.ts > prev[p].ts {
                // Updating the entry of e.node touches no other node.
                assert forall|q: int| 0 <= q < m.len() && q != p implies #[trigger] m[q] == prev[
                    q
                ] by {};
                if roles_contains_v(prev, n) {
                    let w = role_index_v(prev, n);
                    assert(0 <= w < prev.len() && prev[w].node == n);
                    assert(w != p);
                    assert(m[w] == prev[w]);
                    assert(roles_contains_v(m, n));
                    let w2 = role_index_v(m, n);
                    lemma_merge_roles_unique(s1, s2);
                    assert(m[w2].node == n && m[w].node == n);
                    assert(w2 == w);
                }
                if roles_contains_v(m, n) {
                    let w2 = role_index_v(m, n);
                    assert(m[w2].node == n);
                    assert(w2 != p);
                    assert(prev[w2].node == n);
                    assert(roles_contains_v(prev, n));
                }
            }
        } else {
            if roles_contains_v(prev, n) {
                let w = role_index_v(prev, n);
                assert(m[w] == prev[w]);
                assert(roles_contains_v(m, n));
                let w2 = role_index_v(m, n);
                lemma_merge_roles_unique(s1, s2);
                assert(m[w2].node == n && m[w].node == n);
                assert(w2 == w);
            }
            if roles_contains_v(m, n) {
                let w2 = role_index_v(m, n);
                assert(m[w2].node == n);
                assert(w2 != prev.len());
                assert(prev[w2].node == n);
                assert(roles_contains_v(prev, n));
            }
        }
    }
}

impl ClusterLayout {
    pub open spec fn wf(&self) -> bool {
        roles_unique(self.roles@)
    }

    /// A fresh, empty layout for a cluster of the given replication
    /// factor.
    pub fn new(replication_factor: usize) -> (r: ClusterLayout)
        ensures
            r.wf(),
            r.version == 0,
            r.replication_factor == replication_factor,
            r.roles@.len() == 0,
    {
        ClusterLayout {
            version: 0,
            replication_factor,
            roles: Vec::new(),
            staging_hash: BlockHash { bytes: [0u8; 32] },
        }
    }

    /// Number of storage nodes: nodes holding a role with declared
    /// capacity.
    pub fn num_nodes(&self) -> (r: usize)
        ensures
            r == spec_storage_nodes(roles_view(self.roles@)).len(),
    {
        let ghost rv = roles_view(self.roles@);
        let mut count: usize = 0;
        let mut i: usize = 0;
        proof {
            assert(rv.take(0) =~= Seq::<RoleEntryV>::empty());
        }
        while i < self.roles.len()
            invariant
                0 <= i <= rv.len(),
                rv == roles_view(self.roles@),
                count == spec_storage_nodes(rv.take(i as int)).len(),
                count <= i,
            decreases rv.len() - i,
        {
            proof {
                assert(rv.take(i + 1).drop_last() =~= rv.take(i as int));
                assert(rv.take(i + 1).last() == rv[i as int]);
            }
            let is_storage = match &self.roles[i].role {
                Some(nr) => nr.capacity.is_some(),
                None => false,
            };
            if is_storage {
                count = count + 1;
            }
            i = i + 1;
        }
        proof {
            assert(rv.take(rv.len() as int) =~= rv);
        }
        count
    }

    /// Whether this layout can serve a cluster: the replication factor is
    /// sensible and enough storage nodes exist to place that many
    /// replicas.
    pub fn check(&self) -> (r: bool)
        ensures
            r == (self.replication_factor >= 1 && spec_storage_nodes(
                roles_view(self.roles@),
            ).len() >= self.replication_factor),
    {
        self.replication_factor >= 1 && self.num_nodes() >= self.replication_factor
    }

    /// CRDT merge with a layout received from a peer. Returns whether
    /// anything changed. The higher committed version wins outright
    /// (roles, staging and all); at equal versions the role entries merge
    /// last-writer-wins per node and a differing staging hash is adopted;
    /// an older layout changes nothing.
    pub fn merge(&mut self, other: &ClusterLayout) -> (changed: bool)
        requires
            old(self).wf(),
            other.wf(),
        ensures
            final(self).wf(),
            final(self).replication_factor == old(self).replication_factor,
            other.version > old(self).version ==> (final(self).version == other.version
                && roles_view(final(self).roles@) =~= roles_view(other.roles@)
                && final(self).staging_hash@ == other.staging_hash@),
            other.version < old(self).version ==> *final(self) == *old(self),
            other.version == old(self).version ==> (final(self).version == old(self).version
                && roles_view(final(self).roles@) =~= merge_role_lists(
                roles_view(old(self).roles@),
                roles_view(other.roles@),
            ) && final(self).staging_hash@ == other.staging_hash@),
            changed == (other.version > old(self).version || (other.version == old(self).version
                && (spec_roles_changed(roles_view(old(self).roles@), roles_view(other.roles@))
                || old(self).staging_hash@ != other.staging_hash@))),
    {
        if other.version > self.version {
            let mut adopted = other.clone();
            self.version = adopted.version;
            core::mem::swap(&mut self.roles, &mut adopted.roles);
            self.staging_hash = other.staging_hash;
            proof {
                assert(roles_view(self.roles@) =~= roles_view(other.roles@));
                assert(roles_unique(self.roles@)) by {
                    assert forall|i: int, j: int|
                        0 <= i < self.roles@.len() && 0 <= j < self.roles@.len() && i
                            != j implies (#[trigger] self.roles@[i]).node@ != (
                    #[trigger] self.roles@[j]).node@ by {
                        assert(roles_view(self.roles@)[i] == roles_view(other.roles@)[i]);
                        assert(roles_view(self.roles@)[j] == roles_view(other.roles@)[j]);
                    };
                };
            }
            return true;
        }
        if other.version < self.version {
            return false;
        }
        // Same committed version: merge the role table per node.
        let ghost rv1 = roles_view(old(self).roles@);
        let ghost rv2 = roles_view(other.roles@);
        let mut changed: bool = false;
        let mut i: usize = 0;
        proof {
            assert(rv2.take(0) =~= Seq::<RoleEntryV>::empty());
            assert(roles_view(self.roles@) =~= merge_role_lists(rv1, rv2.take(0)));
            assert(roles_unique_v(rv1)) by {
                assert forall|a: int, b: int|
                    0 <= a < rv1.len() && 0 <= b < rv1.len() && a != b implies (
                #[trigger] rv1[a]).node != (#[trigger] rv1[b]).node by {
                    assert(rv1[a].node == old(self).roles@[a].node@);
                    assert(rv1[b].node == old(self).roles@[b].node@);
                };
            };
            assert(roles_unique_v(rv2)) by {
                assert forall|a: int, b: int|
                    0 <= a < rv2.len() && 0 <= b < rv2.len() && a != b implies (
                #[trigger] rv2[a]).node != (#[trigger] rv2[b]).node by {
                    assert(rv2[a].node == other.roles@[a].node@);
                    assert(rv2[b].node == other.roles@[b].node@);
                };
            };
            if spec_roles_changed(rv1, rv2.take(0)) {
                let w = choose|w: int|
                    0 <= w < rv2.take(0).len() && (!roles_contains_v(
                        rv1,
                        (#[trigger] rv2.take(0)[w]).node,
                    ) || rv1[role_index_v(rv1, rv2.take(0)[w].node)].ts < rv2.take(0)[w].ts);
                assert(false);
            }
        }
        while i < other.roles.len()
            invariant
                0 <= i <= rv2.len(),
                rv2 == roles_view(other.roles@),
                rv1 == roles_view(old(self).roles@),
                roles_unique_v(rv1),
                roles_unique_v(rv2),
                other.wf(),
                self.wf(),
                self.version == old(self).version,
                self.replication_factor == old(self).replication_factor,
                self.staging_hash@ == old(self).staging_hash@,
                roles_view(self.roles@) =~= merge_role_lists(rv1, rv2.take(i as int)),
                changed == spec_roles_changed(rv1, rv2.take(i as int)),
            decreases rv2.len() - i,
        {
            let theirs = &other.roles[i];
            let ghost e = rv2[i as int];
            let ghost acc = roles_view(self.roles@);
            proof {
                assert(e == theirs@);
                assert(rv2.take(i + 1).drop_last() =~= rv2.take(i as int));
                assert(rv2.take(i + 1).last() == e);
                // Earlier entries of the peer table name other nodes, so
                // the accumulator still carries the local entry for this
                // node, if any.
                assert forall|j: int| 0 <= j < rv2.take(i as int).len() implies (
                #[trigger] rv2.take(i as int)[j]).node != e.node by {
                    assert(rv2.take(i as int)[j] == rv2[j]);
                };
                lemma_merge_roles_frame(rv1, rv2.take(i as int), e.node);
                lemma_merge_roles_unique(rv1, rv2.take(i as int));
            }
            let found = roles_find(&self.roles, &theirs.node);
            proof {
                match found {
                    Some(j) => {
                        assert(acc[j as int].node == e.node);
                        assert(roles_contains_v(acc, e.node));
                        let w = role_index_v(acc, e.node);
                        assert(acc[w].node == e.node);
                        assert(w == j);
                    }
                    None => {
                        if roles_contains_v(acc, e.node) {
                            let w = role_index_v(acc, e.node);
                            assert(self.roles@[w].node@ == e.node);
                            assert(false);
                        }
                    }
                }
            }
            if let Some(j) = found {
                if theirs.ts > self.roles[j].ts {
                    let ghost prev = self.roles@;
                    self.roles[j] = theirs.clone();
                    changed = true;
                    proof {
                        assert(prev[j as int].node@ == theirs.node@);
                        assert forall|a: int, b: int|
                            0 <= a < self.roles@.len() && 0 <= b < self.roles@.len() && a
                                != b implies (#[trigger] self.roles@[a]).node@ != (
                        #[trigger] self.roles@[b]).node@ by {
                            if a != j && b != j {
                                assert(self.roles@[a] == prev[a] && self.roles@[b] == prev[b]);
                            } else if a == j {
                                assert(self.roles@[a].node@ == prev[a].node@);
                                assert(self.roles@[b] == prev[b]);
                            } else {
                                assert(self.roles@[b].node@ == prev[b].node@);
                                assert(self.roles@[a] == prev[a]);
                            }
                        };
                        assert(roles_view(self.roles@) =~= acc.update(j as int, e));
                        assert(roles_view(self.roles@) =~= merge_role_lists(
                            rv1,
                            rv2.take(i + 1),
                        ));
                        // The local entry equalled the original one, so
                        // this replace is a change the peer carries.
                        assert(acc[j as int] == rv1[role_index_v(rv1, e.node)]);
                        assert(spec_roles_changed(rv1, rv2.take(i + 1))) by {
                            assert(rv2.take(i + 1)[i as int] == e);
                        };
                    }
                } else {
                    proof {
                        assert(roles_view(self.roles@) =~= merge_role_lists(
                            rv1,
                            rv2.take(i + 1),
                        ));
                        assert(acc[j as int] == rv1[role_index_v(rv1, e.node)]);
                        assert(spec_roles_changed(rv1, rv2.take(i + 1)) == spec_roles_changed(
                            rv1,
                            rv2.take(i as int),
                        )) by {
                            if spec_roles_changed(rv1, rv2.take(i + 1)) {
                                let w = choose|w: int|
                                    0 <= w < rv2.take(i + 1).len() && (!roles_contains_v(
                                        rv1,
                                        (#[trigger] rv2.take(i + 1)[w]).node,
                                    ) || rv1[role_index_v(rv1, rv2.take(i + 1)[w].node)].ts
                                        < rv2.take(i + 1)[w].ts);
                                if w < i {
                                    assert(rv2.take(i as int)[w] == rv2.take(i + 1)[w]);
                                    assert(spec_roles_changed(rv1, rv2.take(i as int)));
                                }
                            }
                            if spec_roles_changed(rv1, rv2.take(i as int)) {
                                let w = choose|w: int|
                                    0 <= w < rv2.take(i as int).len() && (!roles_contains_v(
                                        rv1,
                                        (#[trigger] rv2.take(i as int)[w]).node,
                                    ) || rv1[role_index_v(rv1, rv2.take(i as int)[w].node)].ts
                                        < rv2.take(i as int)[w].ts);
                                assert(rv2.take(i + 1)[w] == rv2.take(i as int)[w]);
                                assert(spec_roles_changed(rv1, rv2.take(i + 1)));
                            }
                        };
                    }
                }
            } else {
                let ghost prev = self.roles@;
                self.roles.push(theirs.clone());
                changed = true;
                proof {
                    assert forall|a: int, b: int|
                        0 <= a < self.roles@.len() && 0 <= b < self.roles@.len() && a
                            != b implies (#[trigger] self.roles@[a]).node@ != (
                    #[trigger] self.roles@[b]).node@ by {
                        if a < prev.len() && b < prev.len() {
                            assert(self.roles@[a] == prev[a] && self.roles@[b] == prev[b]);
                        } else if a == prev.len() {
                            assert(self.roles@[a].node@ == theirs.node@);
                            assert(self.roles@[b] == prev[b]);
                        } else {
                            assert(self.roles@[b].node@ == theirs.node@);
                            assert(self.roles@[a] == prev[a]);
                        }
                    };
                    assert(roles_view(self.roles@) =~= acc.push(e));
                    assert(roles_view(self.roles@) =~= merge_role_lists(rv1, rv2.take(i + 1)));
                    assert(!roles_contains_v(rv1, e.node));
                    assert(spec_roles_changed(rv1, rv2.take(i + 1))) by {
                        assert(rv2.take(i + 1)[i as int] == e);
                    };
                }
            }
            i = i + 1;
        }
        proof {
            assert(rv2.take(rv2.len() as int) =~= rv2);
        }
        if !fb32_eq(&self.staging_hash, &other.staging_hash) {
            self.staging_hash = other.staging_hash;
            changed = true;
        }
        changed
    }
}

/// Where a node sits in a role table, if anywhere.
fn roles_find(roles: &Vec<RoleEntry>, node: &Uuid) -> (r: Option<usize>)
    ensures
        r matches Some(i) ==> i < roles@.len() && roles@[i as int].node@ == node@,
        r is None ==> forall|q: int| 0 <= q < roles@.len() ==> (#[trigger] roles@[q]).node@
            != node@,
{
    let mut j: usize = 0;
    while j < roles.len()
        invariant
            0 <= j <= roles@.len(),
            forall|q: int| 0 <= q < j ==> (#[trigger] roles@[q]).node@ != node@,
        decreases roles@.len() - j,
    {
        if fb32_eq(&roles[j].node, node) {
            return Some(j);
        }
        j = j + 1;
    }
    None
}

/// The derived lookup structure: for each of the 256 partitions, the
/// ordered replica nodes. All nodes compute the identical ring from the
/// identical layout, since the assignment below is deterministic.
pub struct Ring {
    /// Replication factor the ring was computed for
    pub replication_factor: usize,
    /// The replica nodes of each partition, in read/write order
    pub partitions: Vec<Vec<Uuid>>,
}

impl Ring {
    /// Derive the ring from a layout: the storage nodes, in role-table
    /// order, are dealt to each partition round-robin starting at the
    /// partition's index — replica `a` of partition `p` is storage node
    /// `(p + a) mod n`.
    ///
    /// When the layout passes its check, every partition holds exactly
    /// `replication_factor` distinct replicas, each a storage node of the
    /// layout.
    pub fn new(layout: &ClusterLayout) -> (r: Ring)
        requires
            layout.wf(),
            layout.roles@.len() + PARTITION_COUNT < usize::MAX,
        ensures
            r.replication_factor == layout.replication_factor,
            ({
                let sn = spec_storage_nodes(roles_view(layout.roles@));
                &&& (layout.replication_factor >= 1 && sn.len() >= layout.replication_factor)
                    ==> (r.partitions@.len() == PARTITION_COUNT && (forall|p: int|
                    0 <= p < PARTITION_COUNT ==> (#[trigger] r.partitions@[p])@.len()
                        == layout.replication_factor) && (forall|p: int, a: int|
                    #![trigger r.partitions@[p]@[a]]
                    0 <= p < PARTITION_COUNT && 0 <= a < layout.replication_factor ==> (
                    r.partitions@[p]@[a])@ == sn[(p + a) % (sn.len() as int)]) && (forall|
                    p: int,
                    a: int,
                    b: int,
                |
                    #![trigger r.partitions@[p]@[a], r.partitions@[p]@[b]]
                    0 <= p < PARTITION_COUNT && 0 <= a < layout.replication_factor && 0 <= b
                        < layout.replication_factor && a != b ==> (r.partitions@[p]@[a])@ != (
                    r.partitions@[p]@[b])@))
                &&& !(layout.replication_factor >= 1 && sn.len() >= layout.replication_factor)
                    ==> r.partitions@.len() == 0
            }),
    {
        let rf = layout.replication_factor;
        if !layout.check() {
            return Ring { replication_factor: rf, partitions: Vec::new() };
        }
        let ghost rv = roles_view(layout.roles@);
        let ghost sn = spec_storage_nodes(rv);
        // Collect the storage nodes in role-table order.
        let mut nodes: Vec<Uuid> = Vec::new();
        let mut i: usize = 0;
        proof {
            assert(rv.take(0) =~= Seq::<RoleEntryV>::empty());
            assert(Seq::new(nodes@.len(), |a: int| nodes@[a]@) =~= spec_storage_nodes(rv.take(0)));
        }
        while i < layout.roles.len()
            invariant
                0 <= i <= rv.len(),
                rv == roles_view(layout.roles@),
                layout.wf(),
                nodes@.len() <= i,
                Seq::new(nodes@.len(), |a: int| nodes@[a]@) =~= spec_storage_nodes(
                    rv.take(i as int),
                ),
                forall|a: int|
                    0 <= a < nodes@.len() ==> exists|q: int|
                        0 <= q < i && (#[trigger] nodes@[a])@ == layout.roles@[q].node@,
                forall|a: int, b: int|
                    0 <= a < nodes@.len() && 0 <= b < nodes@.len() && a != b ==> (
                    #[trigger] nodes@[a])@ != (#[trigger] nodes@[b])@,
            decreases rv.len() - i,
        {
            proof {
                assert(rv.take(i + 1).drop_last() =~= rv.take(i as int));
                assert(rv.take(i + 1).last() == rv[i as int]);
            }
            let is_storage = match &layout.roles[i].role {
                Some(nr) => nr.capacity.is_some(),
                None => false,
            };
            if is_storage {
                let ghost prev = nodes@;
                nodes.push(layout.roles[i].node);
                proof {
                    lemma_nodes_push_distinct(layout.roles@, prev, nodes@, i as int);
                }
            }
            proof {
                assert(Seq::new(nodes@.len(), |a: int| nodes@[a]@) =~= spec_storage_nodes(
                    rv.take(i + 1),
                ));
            }
            i = i + 1;
        }
        proof {
            assert(rv.take(rv.len() as int) =~= rv);
            assert(Seq::new(nodes@.len(), |a: int| nodes@[a]@) =~= sn);
        }
        let n = nodes.len();
        // Deal the nodes to the partitions round-robin.
        let mut partitions: Vec<Vec<Uuid>> = Vec::new();
        let mut p: usize = 0;
        while p < PARTITION_COUNT
            invariant
                0 <= p <= PARTITION_COUNT,
                n == nodes@.len(),
                n + PARTITION_COUNT < usize::MAX,
                rf <= n,
                rf >= 1,
                Seq::new(nodes@.len(), |a: int| nodes@[a]@) =~= sn,
                forall|a: int, b: int|
                    0 <= a < nodes@.len() && 0 <= b < nodes@.len() && a != b ==> (
                    #[trigger] nodes@[a])@ != (#[trigger] nodes@[b])@,
                partitions@.len() == p,
                forall|q: int| 0 <= q < p ==> (#[trigger] partitions@[q])@.len() == rf,
                forall|q: int, a: int|
                    #![trigger partitions@[q]@[a]]
                    0 <= q < p && 0 <= a < rf ==> (partitions@[q]@[a])@ == sn[(q + a) % (
                    sn.len() as int)],
                forall|q: int, a: int, b: int|
                    #![trigger partitions@[q]@[a], partitions@[q]@[b]]
                    0 <= q < p && 0 <= a < rf && 0 <= b < rf && a != b ==> (partitions@[q]@[a])@
                        != (partitions@[q]@[b])@,
            decreases PARTITION_COUNT - p,
        {
            let mut replicas: Vec<Uuid> = Vec::new();
            let mut k: usize = 0;
            while k < rf
                invariant
                    0 <= k <= rf <= n,
                    p < PARTITION_COUNT,
                    n + PARTITION_COUNT < usize::MAX,
                    n == nodes@.len(),
                    replicas@.len() == k,
                    Seq::new(nodes@.len(), |a: int| nodes@[a]@) =~= sn,
                    forall|a: int, b: int|
                        0 <= a < nodes@.len() && 0 <= b < nodes@.len() && a != b ==> (
                        #[trigger] nodes@[a])@ != (#[trigger] nodes@[b])@,
                    forall|a: int|
                        0 <= a < k ==> (#[trigger] replicas@[a])@ == nodes@[(p + a) % (
                        n as int)]@,
                decreases rf - k,
            {
                let idx = (p + k) % n;
                replicas.push(nodes[idx]);
                proof {
                    assert(replicas@[k as int]@ == nodes@[(p + k) % (n as int)]@);
                }
                k = k + 1;
            }
            proof {
                assert forall|a: int, b: int|
                    0 <= a < rf && 0 <= b < rf && a != b implies (#[trigger] replicas@[a])@ != (
                #[trigger] replicas@[b])@ by {
                    lemma_mod_distinct(p as int, a, b, n as int);
                };
                assert forall|a: int| 0 <= a < rf implies (#[trigger] replicas@[a])@ == sn[(
                p + a) % (sn.len() as int)] by {
                    assert(replicas@[a]@ == nodes@[(p + a) % (n as int)]@);
                    assert(sn[(p + a) % (n as int)] == nodes@[(p + a) % (n as int)]@);
                };
            }
            partitions.push(replicas);
            p = p + 1;
        }
        Ring { replication_factor: rf, partitions }
    }

    /// The partition a content hash belongs to: its first byte.
    pub fn partition_of(&self, hash: &BlockHash) -> (r: usize)
        ensures
            r == hash@[0],
            r < PARTITION_COUNT,
    {
        hash.bytes[0] as usize
    }

    /// The nodes responsible for a hash, in write (and read) order.
    pub fn write_nodes(&self, hash: &BlockHash) -> (r: Vec<Uuid>)
        requires
            self.partitions@.len() == PARTITION_COUNT,
        ensures
            r@ == self.partitions@[hash@[0] as int]@,
    {
        let p = self.partition_of(hash);
        let mut out: Vec<Uuid> = Vec::new();
        let mut i: usize = 0;
        while i < self.partitions[p].len()
            invariant
                hash@[0] < self.partitions@.len(),
                p == hash@[0] as int,
                0 <= i <= self.partitions@[p as int]@.len(),
                out@.len() == i,
                forall|j: int| 0 <= j < i ==> out@[j] == self.partitions@[p as int]@[j],
            decreases self.partitions@[p as int]@.len() - i,
        {
            out.push(self.partitions[p][i]);
            i = i + 1;
        }
        proof {
            assert(out@ =~= self.partitions@[hash@[0] as int]@);
        }
        out
    }

    /// The nodes to ask when reading a hash: the same, in the same order.
    pub fn read_nodes(&self, hash: &BlockHash) -> (r: Vec<Uuid>)
        requires
            self.partitions@.len() == PARTITION_COUNT,
        ensures
            r@ == self.partitions@[hash@[0] as int]@,
    {
        self.write_nodes(hash)
    }
}

proof fn lemma_nodes_push_distinct(roles: Seq<RoleEntry>, prev: Seq<Uuid>, now: Seq<Uuid>, i: int)
    requires
        roles_unique(roles),
        0 <= i < roles.len(),
        now == prev.push(roles[i].node),
        forall|a: int|
            0 <= a < prev.len() ==> exists|q: int|
                0 <= q < i && (#[trigger] prev[a])@ == roles[q].node@,
        forall|a: int, b: int|
            0 <= a < prev.len() && 0 <= b < prev.len() && a != b ==> (#[trigger] prev[a])@ != (
            #[trigger] prev[b])@,
    ensures
        forall|a: int|
            0 <= a < now.len() ==> exists|q: int|
                0 <= q < i + 1 && (#[trigger] now[a])@ == roles[q].node@,
        forall|a: int, b: int|
            0 <= a < now.len() && 0 <= b < now.len() && a != b ==> (#[trigger] now[a])@ != (
            #[trigger] now[b])@,
{
    assert forall|a: int| 0 <= a < now.len() implies exists|q: int|
        0 <= q < i + 1 && (#[trigger] now[a])@ == roles[q].node@ by {
        if a < prev.len() {
            assert(now[a] == prev[a]);
            let q = choose|q: int| 0 <= q < i && (#[trigger] prev[a])@ == roles[q].node@;
            assert(0 <= q < i + 1 && now[a]@ == roles[q].node@);
        } else {
            assert(now[a] == roles[i].node);
            assert(0 <= i < i + 1 && now[a]@ == roles[i].node@);
        }
    };
    assert forall|a: int, b: int|
        0 <= a < now.len() && 0 <= b < now.len() && a != b implies (#[trigger] now[a])@ != (
    #[trigger] now[b])@ by {
        if a < prev.len() && b < prev.len() {
            assert(now[a] == prev[a] && now[b] == prev[b]);
        } else if a == prev.len() && b < prev.len() {
            let q = choose|q: int| 0 <= q < i && (#[trigger] prev[b])@ == roles[q].node@;
            assert(now[a]@ == roles[i].node@ && now[b]@ == roles[q].node@);
            assert(roles[q].node@ != roles[i].node@);
        } else if b == prev.len() && a < prev.len() {
            let q = choose|q: int| 0 <= q < i && (#[trigger] prev[a])@ == roles[q].node@;
            assert(now[b]@ == roles[i].node@ && now[a]@ == roles[q].node@);
            assert(roles[q].node@ != roles[i].node@);
        }
    };
}

/// Two round-robin picks within one window land on different nodes.
proof fn lemma_mod_distinct(p: int, a: int, b: int, n: int)
    requires
        n >= 1,
        0 <= a < n,
        0 <= b < n,
        a != b,
        p >= 0,
    ensures
        (p + a) % n != (p + b) % n,
{
    let x = p + a;
    let y = p + b;
    assert((p + a) % n != (p + b) % n) by (nonlinear_arith)
        requires
            n >= 1,
            0 <= a < n,
            0 <= b < n,
            a != b,
            p >= 0,
            x == p + a,
            y == p + b,
    ;
}


// ---- Node status and gossip decisions ----------------------------------

/// What a node says of itself in the periodic status exchange.
pub struct NodeStatus {
    /// Hostname of the node
    pub hostname: String,
    /// Replication factor configured on the node
    pub replication_factor: usize,
    /// Cluster layout version
    pub cluster_layout_version: u64,
    /// Hash of cluster layout staging data
    pub cluster_layout_staging_hash: BlockHash,
    /// Disk usage of the partition holding the metadata directory, as
    /// `(available, total)` bytes
    pub meta_disk_avail: Option<(u64, u64)>,
    /// Disk usage of the partition holding the data directory
    pub data_disk_avail: Option<(u64, u64)>,
}

impl NodeStatus {
    /// This node's own status at boot.
    pub fn initial(replication_factor: usize, layout: &ClusterLayout, hostname: String) -> (r:
        NodeStatus)
        ensures
            r.hostname@ == hostname@,
            r.replication_factor == replication_factor,
            r.cluster_layout_version == layout.version,
            r.cluster_layout_staging_hash@ == layout.staging_hash@,
            r.meta_disk_avail is None && r.data_disk_avail is None,
    {
        NodeStatus {
            hostname,
            replication_factor,
            cluster_layout_version: layout.version,
            cluster_layout_staging_hash: layout.staging_hash,
            meta_disk_avail: None,
            data_disk_avail: None,
        }
    }

    /// The placeholder status of a peer nothing has been heard from.
    pub fn unknown() -> (r: NodeStatus)
        ensures
            r.replication_factor == 0,
            r.cluster_layout_version == 0,
            r.meta_disk_avail is None && r.data_disk_avail is None,
    {
        NodeStatus {
            hostname: String::from_str("?"),
            replication_factor: 0,
            cluster_layout_version: 0,
            cluster_layout_staging_hash: BlockHash { bytes: [0u8; 32] },
            meta_disk_avail: None,
            data_disk_avail: None,
        }
    }
}

/// Sum of `(available, total)` disk sizes over the mounts that hold data
/// directories, one entry per distinct filesystem.
pub open spec fn spec_disk_sum(mounts: Seq<(u64, u64)>) -> (int, int)
    decreases mounts.len(),
{
    if mounts.len() == 0 {
        (0, 0)
    } else {
        let rest = spec_disk_sum(mounts.drop_last());
        (rest.0 + mounts.last().0 as int, rest.1 + mounts.last().1 as int)
    }
}

impl NodeStatus {
    /// Refresh the disk-usage figures from the mounts the store reported:
    /// the metadata partition as it stands, and the data directories'
    /// distinct filesystems summed. `None` stands for a partition that
    /// could not be measured.
    pub fn update_disk_usage(
        &mut self,
        meta_mount: Option<(u64, u64)>,
        data_mounts: Option<&Vec<(u64, u64)>>,
    )
        requires
            data_mounts matches Some(m) ==> spec_disk_sum(m@).0 <= u64::MAX && spec_disk_sum(
                m@,
            ).1 <= u64::MAX,
        ensures
            final(self).meta_disk_avail == meta_mount,
            final(self).data_disk_avail == (match data_mounts {
                Some(m) => Some(
                    (spec_disk_sum(m@).0 as u64, spec_disk_sum(m@).1 as u64),
                ),
                None => None,
            }),
            final(self).hostname@ == old(self).hostname@,
            final(self).replication_factor == old(self).replication_factor,
            final(self).cluster_layout_version == old(self).cluster_layout_version,
            final(self).cluster_layout_staging_hash@ == old(self).cluster_layout_staging_hash@,
    {
        self.meta_disk_avail = meta_mount;
        self.data_disk_avail = match data_mounts {
            Some(mounts) => {
                let mut avail: u64 = 0;
                let mut total: u64 = 0;
                let mut i: usize = 0;
                proof {
                    assert(mounts@.take(0) =~= Seq::<(u64, u64)>::empty());
                }
                while i < mounts.len()
                    invariant
                        0 <= i <= mounts@.len(),
                        spec_disk_sum(mounts@).0 <= u64::MAX,
                        spec_disk_sum(mounts@).1 <= u64::MAX,
                        avail == spec_disk_sum(mounts@.take(i as int)).0,
                        total == spec_disk_sum(mounts@.take(i as int)).1,
                    decreases mounts@.len() - i,
                {
                    proof {
                        assert(mounts@.take(i + 1).drop_last() =~= mounts@.take(i as int));
                        assert(mounts@.take(i + 1).last() == mounts@[i as int]);
                        lemma_disk_sum_prefix(mounts@, i + 1);
                        lemma_disk_sum_nonneg(mounts@.take(i as int));
                    }
                    avail = avail + mounts[i].0;
                    total = total + mounts[i].1;
                    i = i + 1;
                }
                proof {
                    assert(mounts@.take(mounts@.len() as int) =~= mounts@);
                }
                Some((avail, total))
            }
            None => None,
        };
    }
}

proof fn lemma_disk_sum_nonneg(mounts: Seq<(u64, u64)>)
    ensures
        0 <= spec_disk_sum(mounts).0,
        0 <= spec_disk_sum(mounts).1,
    decreases mounts.len(),
{
    if mounts.len() > 0 {
        lemma_disk_sum_nonneg(mounts.drop_last());
    }
}

proof fn lemma_disk_sum_prefix(mounts: Seq<(u64, u64)>, i: int)
    requires
        0 <= i <= mounts.len(),
    ensures
        spec_disk_sum(mounts.take(i)).0 <= spec_disk_sum(mounts).0,
        spec_disk_sum(mounts.take(i)).1 <= spec_disk_sum(mounts).1,
    decreases mounts.len() - i,
{
    if i == mounts.len() {
        assert(mounts.take(i) =~= mounts);
    } else {
        lemma_disk_sum_prefix(mounts, i + 1);
        assert(mounts.take(i + 1).drop_last() =~= mounts.take(i));
        assert(mounts.take(i + 1).last() == mounts[i]);
        lemma_disk_sum_nonneg(mounts.take(i));
    }
}

/// Everything known about one peer.
pub struct KnownNodeInfo {
    pub id: Uuid,
    /// The peer's address, as text
    pub addr: String,
    pub is_up: bool,
    pub last_seen_secs_ago: Option<u64>,
    pub status: NodeStatus,
}

/// A summary of how healthy the cluster is.
#[derive(Clone, Copy, Debug)]
pub struct ClusterHealth {
    /// The overall status (see below)
    pub status: ClusterHealthStatus,
    /// Number of nodes already seen once in the cluster
    pub known_nodes: usize,
    /// Number of nodes currently connected
    pub connected_nodes: usize,
    /// Number of storage nodes declared in the current layout
    pub storage_nodes: usize,
    /// Number of storage nodes currently connected
    pub storage_nodes_ok: usize,
    /// Number of partitions in the layout
    pub partitions: usize,
    /// Number of partitions with a quorum of connected nodes
    pub partitions_quorum: usize,
    /// Number of partitions with all replicas connected
    pub partitions_all_ok: usize,
}

#[derive(Clone, Copy, Debug)]
pub enum ClusterHealthStatus {
    /// All storage nodes are connected, and every partition has all its
    /// replicas
    Healthy,
    /// Some storage nodes are unavailable, but every partition still has
    /// a quorum
    Degraded,
    /// Some partitions are missing their quorum
    Unavailable,
}

/// RPC messages related to membership.
pub enum SystemRpc {
    /// Response to a successful advertisement
    Ack,
    /// Ask a node to connect to a peer, given as `<pubkey>@<host>:<port>`
    Connect(String),
    /// Ask another node for its cluster layout
    PullClusterLayout,
    /// Advertise this node's status, exchanged periodically
    AdvertiseStatus(NodeStatus),
    /// Advertise the cluster layout, spontaneously or as an answer
    AdvertiseClusterLayout(ClusterLayout),
    /// Ask for the states of the known nodes
    GetKnownNodes,
    /// The states of the known nodes
    ReturnKnownNodes(Vec<KnownNodeInfo>),
}

/// What to do with a status advertisement from a peer.
#[derive(Clone, Copy, Debug)]
pub enum StatusAction {
    /// The peer runs a higher replication factor: continuing is unsafe,
    /// the process must stop
    ShutdownIncompatible,
    /// Record the status, and pull the peer's layout, which is newer or
    /// differently staged than ours
    RecordAndPullLayout,
    /// Record the status
    Record,
}

/// Decide on a peer's `AdvertiseStatus`: a peer with a higher replication
/// factor makes this node shut down for safety; a peer with a newer
/// layout version or different staged edits triggers a layout pull; any
/// other status is merely recorded.
pub fn handle_advertise_status(local: &NodeStatus, info: &NodeStatus) -> (r: StatusAction)
    ensures
        info.replication_factor > local.replication_factor <==> r is ShutdownIncompatible,
        (info.replication_factor <= local.replication_factor && (info.cluster_layout_version
            > local.cluster_layout_version || info.cluster_layout_staging_hash@
            != local.cluster_layout_staging_hash@)) <==> r is RecordAndPullLayout,
        (info.replication_factor <= local.replication_factor && info.cluster_layout_version
            <= local.cluster_layout_version && info.cluster_layout_staging_hash@
            == local.cluster_layout_staging_hash@) <==> r is Record,
{
    if info.replication_factor > local.replication_factor {
        StatusAction::ShutdownIncompatible
    } else if info.cluster_layout_version > local.cluster_layout_version || !fb32_eq(
        &info.cluster_layout_staging_hash,
        &local.cluster_layout_staging_hash,
    ) {
        StatusAction::RecordAndPullLayout
    } else {
        StatusAction::Record
    }
}

/// What to do with a layout advertised by a peer.
pub enum LayoutAction {
    /// The layout comes from an incompatible cluster configuration
    RejectDifferentReplication,
    /// Merging would break a layout that was healthy before
    RejectInvalid,
    /// Nothing new
    Unchanged,
    /// The merged layout: persist it, rebuild the ring, and re-broadcast
    Update,
}

/// Would merging the advertised layout change anything here?
pub open spec fn spec_layout_would_change(c: &ClusterLayout, adv: &ClusterLayout) -> bool {
    adv.version > c.version || (adv.version == c.version && (spec_roles_changed(
        roles_view(c.roles@),
        roles_view(adv.roles@),
    ) || c.staging_hash@ != adv.staging_hash@))
}

/// The layout's own check, as a predicate.
pub open spec fn spec_layout_check(c: &ClusterLayout) -> bool {
    c.replication_factor >= 1 && spec_storage_nodes(roles_view(c.roles@)).len()
        >= c.replication_factor
}

/// The role table that merging the advertised layout would yield.
pub open spec fn spec_merged_roles(c: &ClusterLayout, adv: &ClusterLayout) -> Seq<RoleEntryV> {
    if adv.version > c.version {
        roles_view(adv.roles@)
    } else {
        merge_role_lists(roles_view(c.roles@), roles_view(adv.roles@))
    }
}

/// Would the merged layout still pass the check?
pub open spec fn spec_merged_check(c: &ClusterLayout, adv: &ClusterLayout) -> bool {
    c.replication_factor >= 1 && spec_storage_nodes(spec_merged_roles(c, adv)).len()
        >= c.replication_factor
}

/// Decide on a peer's `AdvertiseClusterLayout`, merging it into the
/// current layout. A layout for a different replication factor is
/// refused outright; one that changes nothing is ignored; a change that
/// would break a previously passing layout check is rolled back and
/// refused; any other change installs the merged layout, to be
/// persisted, re-broadcast, and turned into a fresh ring.
pub fn handle_advertise_cluster_layout(
    current: &mut ClusterLayout,
    adv: &ClusterLayout,
    local_replication_factor: usize,
) -> (r: LayoutAction)
    requires
        old(current).wf(),
        adv.wf(),
    ensures
        final(current).wf(),
        (adv.replication_factor != local_replication_factor) <==> r
            is RejectDifferentReplication,
        (adv.replication_factor == local_replication_factor && !spec_layout_would_change(
            old(current),
            adv,
        )) <==> r is Unchanged,
        (adv.replication_factor == local_replication_factor && spec_layout_would_change(
            old(current),
            adv,
        ) && spec_layout_check(old(current)) && !spec_merged_check(old(current), adv)) <==> r
            is RejectInvalid,
        (adv.replication_factor == local_replication_factor && spec_layout_would_change(
            old(current),
            adv,
        ) && !(spec_layout_check(old(current)) && !spec_merged_check(old(current), adv))) <==> r
            is Update,
        !(r is Update) ==> *final(current) == *old(current),
        r is Update ==> (final(current).replication_factor == old(current).replication_factor
            && roles_view(final(current).roles@) =~= spec_merged_roles(old(current), adv)
            && final(current).staging_hash@ == adv.staging_hash@ && final(current).version == (
        if adv.version > old(current).version {
            adv.version
        } else {
            old(current).version
        })),
{
    if adv.replication_factor != local_replication_factor {
        return LayoutAction::RejectDifferentReplication;
    }
    let prev_check = current.check();
    let mut merged = current.clone();
    proof {
        assert(roles_unique(merged.roles@)) by {
            assert forall|a: int, b: int|
                0 <= a < merged.roles@.len() && 0 <= b < merged.roles@.len() && a != b implies (
            #[trigger] merged.roles@[a]).node@ != (#[trigger] merged.roles@[b]).node@ by {
                assert(roles_view(merged.roles@)[a] == roles_view(current.roles@)[a]);
                assert(roles_view(merged.roles@)[b] == roles_view(current.roles@)[b]);
            };
        };
        assert(roles_view(merged.roles@) =~= roles_view(current.roles@));
    }
    let changed = merged.merge(adv);
    proof {
        assert(changed == spec_layout_would_change(old(current), adv));
    }
    if !changed {
        return LayoutAction::Unchanged;
    }
    if prev_check && !merged.check() {
        return LayoutAction::RejectInvalid;
    }
    proof {
        assert(roles_view(merged.roles@) =~= spec_merged_roles(old(current), adv));
    }
    core::mem::swap(current, &mut merged);
    LayoutAction::Update
}

/// Number of entries whose `is_up` flag is set./// Number of entries whose `is_up` flag is set.
pub open spec fn spec_count_up(s: Seq<bool>) -> int
    decreases s.len(),
{
    if s.len() == 0 {
        0
    } else {
        spec_count_up(s.drop_last()) + if s.last() {
            1int
        } else {
            0int
        }
    }
}

/// Compute the cluster health summary from the known nodes and the
/// up-status of each partition's replicas, as the status handlers
/// collected them.
///
/// `partition_up_counts[p]` is the number of connected replicas of
/// partition `p`; the summary is healthy when every partition has all
/// its replicas and every storage node is connected, degraded while all
/// partitions keep a quorum, and unavailable otherwise.
pub fn health(
    known_nodes_up: &Vec<bool>,
    storage_nodes_up: &Vec<bool>,
    partition_up_counts: &Vec<usize>,
    replication_factor: usize,
    quorum: usize,
) -> (r: ClusterHealth)
    ensures
        r.known_nodes == known_nodes_up@.len(),
        r.connected_nodes == spec_count_up(known_nodes_up@),
        r.storage_nodes == storage_nodes_up@.len(),
        r.storage_nodes_ok == spec_count_up(storage_nodes_up@),
        r.partitions == partition_up_counts@.len(),
        r.partitions_quorum == spec_count_ge(partition_up_counts@, quorum as int),
        r.partitions_all_ok == spec_count_ge(partition_up_counts@, replication_factor as int),
        (r.status is Healthy) <==> (r.partitions_quorum == r.partitions && r.storage_nodes_ok
            == r.storage_nodes),
        (r.status is Degraded) <==> (r.partitions_quorum == r.partitions && r.storage_nodes_ok
            != r.storage_nodes),
        (r.status is Unavailable) <==> r.partitions_quorum != r.partitions,
{
    let connected_nodes = count_up(known_nodes_up);
    let storage_nodes_ok = count_up(storage_nodes_up);
    let partitions_quorum = count_ge(partition_up_counts, quorum);
    let partitions_all_ok = count_ge(partition_up_counts, replication_factor);
    let status = if partitions_quorum == partition_up_counts.len() && storage_nodes_ok
        == storage_nodes_up.len() {
        ClusterHealthStatus::Healthy
    } else if partitions_quorum == partition_up_counts.len() {
        ClusterHealthStatus::Degraded
    } else {
        ClusterHealthStatus::Unavailable
    };
    proof {
        lemma_count_ge_bound(partition_up_counts@, quorum as int);
    }
    ClusterHealth {
        status,
        known_nodes: known_nodes_up.len(),
        connected_nodes,
        storage_nodes: storage_nodes_up.len(),
        storage_nodes_ok,
        partitions: partition_up_counts.len(),
        partitions_quorum,
        partitions_all_ok,
    }
}

pub open spec fn spec_count_ge(s: Seq<usize>, bound: int) -> int
    decreases s.len(),
{
    if s.len() == 0 {
        0
    } else {
        spec_count_ge(s.drop_last(), bound) + if s.last() >= bound {
            1int
        } else {
            0int
        }
    }
}

fn count_up(s: &Vec<bool>) -> (r: usize)
    ensures
        r == spec_count_up(s@),
        r <= s@.len(),
{
    let mut count: usize = 0;
    let mut i: usize = 0;
    proof {
        assert(s@.take(0) =~= Seq::<bool>::empty());
    }
    while i < s.len()
        invariant
            0 <= i <= s@.len(),
            count == spec_count_up(s@.take(i as int)),
            count <= i,
        decreases s@.len() - i,
    {
        proof {
            assert(s@.take(i + 1).drop_last() =~= s@.take(i as int));
            assert(s@.take(i + 1).last() == s@[i as int]);
        }
        if s[i] {
            count = count + 1;
        }
        i = i + 1;
    }
    proof {
        assert(s@.take(s@.len() as int) =~= s@);
    }
    count
}

fn count_ge(s: &Vec<usize>, bound: usize) -> (r: usize)
    ensures
        r == spec_count_ge(s@, bound as int),
        r <= s@.len(),
{
    let mut count: usize = 0;
    let mut i: usize = 0;
    proof {
        assert(s@.take(0) =~= Seq::<usize>::empty());
    }
    while i < s.len()
        invariant
            0 <= i <= s@.len(),
            count == spec_count_ge(s@.take(i as int), bound as int),
            count <= i,
        decreases s@.len() - i,
    {
        proof {
            assert(s@.take(i + 1).drop_last() =~= s@.take(i as int));
            assert(s@.take(i + 1).last() == s@[i as int]);
        }
        if s[i] >= bound {
            count = count + 1;
        }
        i = i + 1;
    }
    proof {
        assert(s@.take(s@.len() as int) =~= s@);
    }
    count
}

proof fn lemma_count_ge_bound(s: Seq<usize>, bound: int)
    ensures
        0 <= spec_count_ge(s, bound) <= s.len(),
    decreases s.len(),
{
    if s.len() > 0 {
        lemma_count_ge_bound(s.drop_last(), bound);
    }
}

/// Does the discovery loop need a bootstrap step: the layout does not
/// pass its check yet, or fewer peers are known than replicas needed, or
/// not every expected node is up.
pub fn should_discover(
    layout_check_ok: bool,
    known_peers: usize,
    replication_factor: usize,
    nodes_up: usize,
    expected_nodes: usize,
) -> (r: bool)
    ensures
        r == (!layout_check_ok || known_peers < replication_factor || nodes_up != expected_nodes),
{
    !layout_check_ok || known_peers < replication_factor || nodes_up != expected_nodes
}

/// Every peer id of `prev` appears somewhere in `r`.
pub open spec fn peers_all_kept(prev: Seq<(Uuid, String)>, r: Seq<(Uuid, String)>) -> bool {
    forall|i: int|
        0 <= i < prev.len() ==> exists|j: int|
            0 <= j < r.len() && (#[trigger] r[j]).0@ == (#[trigger] prev[i]).0@
}

/// Merge the connected peers with the previously saved peer list, for
/// persisting: every currently connected peer is kept, and saved peers
/// whose id is not among them are appended, so no peer id is lost.
pub fn merge_peer_lists(current: Vec<(Uuid, String)>, previous: &Vec<(Uuid, String)>) -> (r: Vec<
    (Uuid, String),
>)
    ensures
        r@.len() >= current@.len(),
        forall|i: int|
            0 <= i < current@.len() ==> (#[trigger] r@[i]).0@ == current@[i].0@ && r@[i].1@
                == current@[i].1@,
        peers_all_kept(previous@, r@),
{
    let ghost curv = current@;
    let mut r = current;
    proof {
        assert(r@ == curv);
    }
    let mut i: usize = 0;
    proof {
        assert(peers_all_kept(previous@.take(0), r@)) by {
            assert(previous@.take(0).len() == 0);
        };
    }
    while i < previous.len()
        invariant
            0 <= i <= previous@.len(),
            r@.len() >= curv.len(),
            forall|a: int| 0 <= a < curv.len() ==> #[trigger] r@[a] == curv[a],
            peers_all_kept(previous@.take(i as int), r@),
        decreases previous@.len() - i,
    {
        let (id, addr) = (previous[i].0, previous[i].1.clone());
        let ghost prev_r = r@;
        let mut present: bool = false;
        let mut j: usize = 0;
        while j < r.len()
            invariant
                0 <= j <= r@.len(),
                present ==> exists|q: int| 0 <= q < r@.len() && (#[trigger] r@[q]).0@ == id@,
                r@ == prev_r,
                !present ==> forall|q: int| 0 <= q < j ==> (#[trigger] r@[q]).0@ != id@,
            decreases r@.len() - j,
        {
            if fb32_eq(&r[j].0, &id) {
                present = true;
                proof {
                    assert(r@[j as int].0@ == id@);
                }
                break;
            }
            j = j + 1;
        }
        if !present {
            r.push((id, addr));
            proof {
                assert(r@[prev_r.len() as int].0@ == previous@[i as int].0@);
                assert(forall|a: int| 0 <= a < prev_r.len() ==> #[trigger] r@[a] == prev_r[a]);
            }
        }
        proof {
            assert forall|a: int| 0 <= a < i + 1 implies exists|j: int|
                0 <= j < r@.len() && (#[trigger] r@[j]).0@ == (
                #[trigger] previous@.take(i + 1)[a]).0@ by {
                assert(previous@.take(i + 1)[a] == previous@[a]);
                if a < i {
                    assert(previous@.take(i as int)[a] == previous@[a]);
                    let j = choose|j: int|
                        0 <= j < prev_r.len() && (#[trigger] prev_r[j]).0@ == previous@.take(
                            i as int,
                        )[a].0@;
                    assert(r@[j].0@ == previous@[a].0@);
                } else {
                    if present {
                        let q = choose|q: int|
                            0 <= q < prev_r.len() && (#[trigger] prev_r[q]).0@ == id@;
                        assert(r@[q].0@ == previous@[a].0@);
                    } else {
                        assert(r@[prev_r.len() as int].0@ == previous@[a].0@);
                    }
                }
            };
            assert(peers_all_kept(previous@.take(i + 1), r@));
        }
        i = i + 1;
    }
    proof {
        assert(previous@.take(previous@.len() as int) =~= previous@);
    }
    r
}

} // verus!
