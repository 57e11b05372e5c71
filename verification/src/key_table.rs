//! The table of API access keys: a CRDT row per key, holding its secret,
//! its name, and the buckets it may touch.

use vstd::prelude::*;
use vstd::string::{StrSliceExecFns, StringExecFns};

use crate::crdt::Lww;
use crate::data::{fb32_cmp, fb32_eq, hex_encode, hex_of, is_hex_char, Uuid};
use crate::error::Error;

verus! {

/// Permission given to a key in a bucket (ancestral form with two flags;
/// the richer `BucketKeyPerm` carries the owner flag and a timestamp).
#[derive(Clone, Copy, Debug)]
pub struct PermissionSet {
    /// The key can be used to read the bucket
    pub allow_read: bool,
    /// The key can be used to write in the bucket
    pub allow_write: bool,
}

/// Permission given to a key in a bucket, with the timestamp of its last
/// change: permissions merge by last-writer-wins, ties lean towards
/// granting.
#[derive(Clone, Copy, Debug)]
pub struct BucketKeyPerm {
    /// Timestamp of the last change, in milliseconds
    pub timestamp: u64,
    pub allow_read: bool,
    pub allow_write: bool,
    pub allow_owner: bool,
}

pub open spec fn spec_perm_join(a: BucketKeyPerm, b: BucketKeyPerm) -> BucketKeyPerm {
    if b.timestamp > a.timestamp {
        b
    } else if b.timestamp == a.timestamp {
        BucketKeyPerm {
            timestamp: a.timestamp,
            allow_read: a.allow_read || b.allow_read,
            allow_write: a.allow_write || b.allow_write,
            allow_owner: a.allow_owner || b.allow_owner,
        }
    } else {
        a
    }
}

/// Merging permissions is commutative.
pub proof fn lemma_perm_join_commutes(a: BucketKeyPerm, b: BucketKeyPerm)
    ensures
        spec_perm_join(a, b) == spec_perm_join(b, a),
{
}

/// Merging a permission with itself changes nothing.
pub proof fn lemma_perm_join_idempotent(a: BucketKeyPerm)
    ensures
        spec_perm_join(a, a) == a,
{
}

impl BucketKeyPerm {
    /// No permission at all.
    pub fn no_permissions() -> (r: BucketKeyPerm)
        ensures
            !r.allow_read && !r.allow_write && !r.allow_owner && r.timestamp == 0,
    {
        BucketKeyPerm { timestamp: 0, allow_read: false, allow_write: false, allow_owner: false }
    }

    pub fn merge(&mut self, other: &BucketKeyPerm)
        ensures
            *final(self) == spec_perm_join(*old(self), *other),
    {
        if other.timestamp > self.timestamp {
            *self = *other;
        } else if other.timestamp == self.timestamp {
            self.allow_read = self.allow_read || other.allow_read;
            self.allow_write = self.allow_write || other.allow_write;
            self.allow_owner = self.allow_owner || other.allow_owner;
        }
    }
}

// ---- The per-key bucket permission map ---------------------------------

/// Is a bucket present in the permission list?
pub open spec fn ab_contains(s: Seq<(Seq<u8>, BucketKeyPerm)>, k: Seq<u8>) -> bool {
    exists|i: int| 0 <= i < s.len() && (#[trigger] s[i]).0 == k
}

/// The permission recorded for a bucket.
pub open spec fn ab_at(s: Seq<(Seq<u8>, BucketKeyPerm)>, k: Seq<u8>) -> BucketKeyPerm {
    s[choose|i: int| 0 <= i < s.len() && (#[trigger] s[i]).0 == k].1
}

/// `m` is the CRDT union of `m1` and `m2`: the bucket sets union, and a
/// bucket present on both sides carries the join of the two permissions.
pub open spec fn ab_merged(
    m1: Seq<(Seq<u8>, BucketKeyPerm)>,
    m2: Seq<(Seq<u8>, BucketKeyPerm)>,
    m: Seq<(Seq<u8>, BucketKeyPerm)>,
) -> bool {
    forall|k: Seq<u8>|
        #![trigger ab_contains(m, k)]
        (ab_contains(m, k) == (ab_contains(m1, k) || ab_contains(m2, k)) && (ab_contains(m1, k)
            && ab_contains(m2, k) ==> ab_at(m, k) == spec_perm_join(ab_at(m1, k), ab_at(m2, k)))
            && (ab_contains(m1, k) && !ab_contains(m2, k) ==> ab_at(m, k) == ab_at(m1, k)) && (
        !ab_contains(m1, k) && ab_contains(m2, k) ==> ab_at(m, k) == ab_at(m2, k)))
}

/// Every bucket other than `k` keeps its entry when `s0` becomes `s1`.
pub open spec fn ab_frame(
    s0: Seq<(Seq<u8>, BucketKeyPerm)>,
    s1: Seq<(Seq<u8>, BucketKeyPerm)>,
    k: Seq<u8>,
) -> bool {
    forall|k2: Seq<u8>|
        k2 != k ==> (#[trigger] ab_contains(s1, k2) == ab_contains(s0, k2) && (ab_contains(s0, k2)
            ==> ab_at(s1, k2) == ab_at(s0, k2)))
}

/// The buckets a key is authorized in, with the permission for each.
pub struct AuthorizedBuckets {
    /// One entry per bucket id; the methods keep the ids unique.
    pub entries: Vec<(Uuid, BucketKeyPerm)>,
}

impl View for AuthorizedBuckets {
    type V = Seq<(Seq<u8>, BucketKeyPerm)>;

    open spec fn view(&self) -> Seq<(Seq<u8>, BucketKeyPerm)> {
        Seq::new(self.entries@.len(), |i: int| (self.entries@[i].0@, self.entries@[i].1))
    }
}

impl Clone for AuthorizedBuckets {
    fn clone(&self) -> (r: Self)
        ensures
            r@ == self@,
    {
        let mut entries: Vec<(Uuid, BucketKeyPerm)> = Vec::new();
        let mut i: usize = 0;
        while i < self.entries.len()
            invariant
                0 <= i <= self.entries@.len(),
                entries@.len() == i,
                forall|j: int| 0 <= j < i ==> entries@[j] == self.entries@[j],
            decreases self.entries@.len() - i,
        {
            entries.push(self.entries[i]);
            i = i + 1;
        }
        let r = AuthorizedBuckets { entries };
        proof {
            assert(r@ =~= self@);
        }
        r
    }
}

impl AuthorizedBuckets {
    pub open spec fn wf(&self) -> bool {
        forall|i: int, j: int|
            0 <= i < self@.len() && 0 <= j < self@.len() && i != j ==> (#[trigger] self@[i]).0 != (
            #[trigger] self@[j]).0
    }

    pub fn new() -> (r: AuthorizedBuckets)
        ensures
            r.wf(),
            r@.len() == 0,
    {
        let r = AuthorizedBuckets { entries: Vec::new() };
        proof {
            assert(r@ =~= Seq::<(Seq<u8>, BucketKeyPerm)>::empty());
        }
        r
    }

    fn find(&self, bucket: &Uuid) -> (r: Option<usize>)
        ensures
            r matches Some(i) ==> i < self@.len() && self@[i as int].0 == bucket@,
            r is Some <==> ab_contains(self@, bucket@),
    {
        let mut i: usize = 0;
        while i < self.entries.len()
            invariant
                0 <= i <= self@.len(),
                forall|j: int| 0 <= j < i ==> (#[trigger] self@[j]).0 != bucket@,
            decreases self@.len() - i,
        {
            if fb32_eq(&self.entries[i].0, bucket) {
                proof {
                    assert(self@[i as int].0 == bucket@);
                }
                return Some(i);
            }
            i = i + 1;
        }
        None
    }

    /// The permission recorded for a bucket, if any.
    pub fn get(&self, bucket: &Uuid) -> (r: Option<BucketKeyPerm>)
        requires
            self.wf(),
        ensures
            r is Some <==> ab_contains(self@, bucket@),
            r matches Some(p) ==> p == ab_at(self@, bucket@),
    {
        match self.find(bucket) {
            Some(i) => {
                proof {
                    let w = choose|w: int| 0 <= w < self@.len() && (#[trigger] self@[w]).0
                        == bucket@;
                    assert(w == i);
                }
                Some(self.entries[i].1)
            }
            None => None,
        }
    }

    /// Record a permission, replacing the entry for the same bucket.
    pub fn put(&mut self, bucket: Uuid, perm: BucketKeyPerm)
        requires
            old(self).wf(),
        ensures
            final(self).wf(),
            ab_contains(final(self)@, bucket@),
            ab_at(final(self)@, bucket@) == perm,
            ab_frame(old(self)@, final(self)@, bucket@),
    {
        let ghost s0 = self@;
        match self.find(&bucket) {
            Some(i) => {
                proof {
                    let w = choose|w: int| 0 <= w < s0.len() && (#[trigger] s0[w]).0 == bucket@;
                    assert(w == i);
                }
                self.entries[i] = (bucket, perm);
                proof {
                    assert(self@[i as int] == (bucket@, perm));
                    assert(forall|q: int|
                        0 <= q < s0.len() && q != i ==> #[trigger] self@[q] == s0[q]);
                    lemma_ab_update(s0, self@, i as int, bucket@);
                }
            }
            None => {
                self.entries.push((bucket, perm));
                proof {
                    assert(self@ =~= s0.push((bucket@, perm)));
                    lemma_ab_push(s0, self@, bucket@);
                }
            }
        }
        proof {
            assert forall|k2: Seq<u8>|
                k2 != bucket@ implies (#[trigger] ab_contains(self@, k2) == ab_contains(s0, k2) && (
            ab_contains(s0, k2) ==> ab_at(self@, k2) == ab_at(s0, k2))) by {};
            assert(ab_frame(s0, self@, bucket@));
        }
    }

    /// CRDT merge: union of the bucket sets; a bucket present on both
    /// sides keeps the last-writer-wins join of the two permissions.
    pub fn merge(&mut self, other: &AuthorizedBuckets)
        requires
            old(self).wf(),
            other.wf(),
        ensures
            final(self).wf(),
            ab_merged(old(self)@, other@, final(self)@),
    {
        let ghost m1 = old(self)@;
        let ghost m2 = other@;
        let mut i: usize = 0;
        proof {
            lemma_ab_distinct_views(other);
        }
        while i < other.entries.len()
            invariant
                0 <= i <= m2.len(),
                m2 == other@,
                other.wf(),
                self.wf(),
                forall|a: int, b: int|
                    0 <= a < m2.len() && 0 <= b < m2.len() && a != b ==> (#[trigger] m2[a]).0 != (
                    #[trigger] m2[b]).0,
                forall|k: Seq<u8>|
                    #![trigger ab_contains(self@, k)]
                    (ab_contains(self@, k) == (ab_contains(m1, k) || exists|j: int|
                        0 <= j < i && (#[trigger] m2[j]).0 == k) && (ab_contains(m1, k)
                        && !ab_contains(m2, k) ==> ab_at(self@, k) == ab_at(m1, k)) && (
                    ab_contains(m1, k) && ab_contains(m2, k) && (exists|j: int|
                        0 <= j < i && (#[trigger] m2[j]).0 == k) ==> ab_at(self@, k)
                        == spec_perm_join(ab_at(m1, k), ab_at(m2, k))) && (ab_contains(m1, k)
                        && ab_contains(m2, k) && !(exists|j: int|
                        0 <= j < i && (#[trigger] m2[j]).0 == k) ==> ab_at(self@, k) == ab_at(
                        m1,
                        k,
                    )) && (!ab_contains(m1, k) && (exists|j: int|
                        0 <= j < i && (#[trigger] m2[j]).0 == k) ==> ab_at(self@, k) == ab_at(
                        m2,
                        k,
                    ))),
            decreases m2.len() - i,
        {
            let (bucket, operm) = other.entries[i];
            let ghost k = bucket@;
            proof {
                assert(m2[i as int].0 == k);
                assert(ab_contains(m2, k));
                let w = choose|w: int| 0 <= w < m2.len() && (#[trigger] m2[w]).0 == k;
                assert(w == i);
                assert(ab_at(m2, k) == operm);
                assert forall|j: int| 0 <= j < i implies (#[trigger] m2[j]).0 != k by {};
            }
            let cur = self.get(&bucket);
            let ghost before = self@;
            let newperm = match cur {
                Some(mine) => {
                    let mut merged = mine;
                    merged.merge(&operm);
                    merged
                }
                None => operm,
            };
            self.put(bucket, newperm);
            proof {
                if ab_contains(m1, k) {
                    assert(ab_contains(before, k));
                    assert(ab_at(before, k) == ab_at(m1, k));
                    assert(cur == Some(ab_at(m1, k)));
                    assert(newperm == spec_perm_join(ab_at(m1, k), ab_at(m2, k)));
                } else {
                    if ab_contains(before, k) {
                        assert(false);
                    }
                    assert(cur is None);
                    assert(newperm == ab_at(m2, k));
                }
                assert(ab_at(self@, k) == newperm);
                assert forall|k2: Seq<u8>|
                    #![trigger ab_contains(self@, k2)]
                    (ab_contains(self@, k2) == (ab_contains(m1, k2) || exists|j: int|
                        0 <= j < i + 1 && (#[trigger] m2[j]).0 == k2) && (ab_contains(m1, k2)
                        && !ab_contains(m2, k2) ==> ab_at(self@, k2) == ab_at(m1, k2)) && (
                    ab_contains(m1, k2) && ab_contains(m2, k2) && (exists|j: int|
                        0 <= j < i + 1 && (#[trigger] m2[j]).0 == k2) ==> ab_at(self@, k2)
                        == spec_perm_join(ab_at(m1, k2), ab_at(m2, k2))) && (ab_contains(m1, k2)
                        && ab_contains(m2, k2) && !(exists|j: int|
                        0 <= j < i + 1 && (#[trigger] m2[j]).0 == k2) ==> ab_at(self@, k2) == ab_at(
                        m1,
                        k2,
                    )) && (!ab_contains(m1, k2) && (exists|j: int|
                        0 <= j < i + 1 && (#[trigger] m2[j]).0 == k2) ==> ab_at(self@, k2) == ab_at(
                        m2,
                        k2,
                    ))) by {
                    if k2 == k {
                    } else {
                        if exists|j: int| 0 <= j < i + 1 && (#[trigger] m2[j]).0 == k2 {
                            let j = choose|j: int| 0 <= j < i + 1 && (#[trigger] m2[j]).0 == k2;
                            assert(j < i);
                        }
                    }
                };
            }
            i = i + 1;
        }
        proof {
            assert forall|k: Seq<u8>|
                #![trigger ab_contains(self@, k)]
                (ab_contains(self@, k) == (ab_contains(m1, k) || ab_contains(m2, k)) && (
                ab_contains(m1, k) && ab_contains(m2, k) ==> ab_at(self@, k) == spec_perm_join(
                    ab_at(m1, k),
                    ab_at(m2, k),
                )) && (ab_contains(m1, k) && !ab_contains(m2, k) ==> ab_at(self@, k) == ab_at(
                    m1,
                    k,
                )) && (!ab_contains(m1, k) && ab_contains(m2, k) ==> ab_at(self@, k) == ab_at(
                    m2,
                    k,
                ))) by {
                assert(ab_contains(m2, k) == (exists|j: int|
                    0 <= j < m2.len() && (#[trigger] m2[j]).0 == k));
            };
            assert(ab_merged(m1, m2, self@));
        }
    }
}

proof fn lemma_ab_distinct_views(m: &AuthorizedBuckets)
    requires
        m.wf(),
    ensures
        forall|a: int, b: int|
            0 <= a < m@.len() && 0 <= b < m@.len() && a != b ==> (#[trigger] m@[a]).0 != (
            #[trigger] m@[b]).0,
{
}

proof fn lemma_ab_update(s0: Seq<(Seq<u8>, BucketKeyPerm)>, s1: Seq<(Seq<u8>, BucketKeyPerm)>, p: int, k: Seq<u8>)
    requires
        forall|i: int, j: int|
            0 <= i < s0.len() && 0 <= j < s0.len() && i != j ==> (#[trigger] s0[i]).0 != (
            #[trigger] s0[j]).0,
        0 <= p < s0.len(),
        s0[p].0 == k,
        s1.len() == s0.len(),
        s1[p].0 == k,
        forall|i: int| 0 <= i < s0.len() && i != p ==> #[trigger] s1[i] == s0[i],
    ensures
        forall|i: int, j: int|
            0 <= i < s1.len() && 0 <= j < s1.len() && i != j ==> (#[trigger] s1[i]).0 != (
            #[trigger] s1[j]).0,
        ab_contains(s1, k),
        ab_at(s1, k) == s1[p].1,
        forall|k2: Seq<u8>|
            k2 != k ==> (#[trigger] ab_contains(s1, k2) == ab_contains(s0, k2) && (ab_contains(
                s0,
                k2,
            ) ==> ab_at(s1, k2) == ab_at(s0, k2))),
{
    assert forall|i: int, j: int|
        0 <= i < s1.len() && 0 <= j < s1.len() && i != j implies (#[trigger] s1[i]).0 != (
    #[trigger] s1[j]).0 by {
        assert(s1[i].0 == s0[i].0 && s1[j].0 == s0[j].0);
    };
    let w = choose|i: int| 0 <= i < s1.len() && (#[trigger] s1[i]).0 == k;
    assert(w == p);
    assert forall|k2: Seq<u8>| k2 != k implies (#[trigger] ab_contains(s1, k2) == ab_contains(
        s0,
        k2,
    ) && (ab_contains(s0, k2) ==> ab_at(s1, k2) == ab_at(s0, k2))) by {
        if ab_contains(s0, k2) {
            let i = choose|i: int| 0 <= i < s0.len() && (#[trigger] s0[i]).0 == k2;
            assert(i != p);
            assert(s1[i].0 == k2);
            let i1 = choose|i1: int| 0 <= i1 < s1.len() && (#[trigger] s1[i1]).0 == k2;
            assert(i1 == i);
        }
        if ab_contains(s1, k2) {
            let i = choose|i: int| 0 <= i < s1.len() && (#[trigger] s1[i]).0 == k2;
            assert(i != p);
            assert(s0[i].0 == k2);
        }
    };
}

proof fn lemma_ab_push(s0: Seq<(Seq<u8>, BucketKeyPerm)>, s1: Seq<(Seq<u8>, BucketKeyPerm)>, k: Seq<u8>)
    requires
        forall|i: int, j: int|
            0 <= i < s0.len() && 0 <= j < s0.len() && i != j ==> (#[trigger] s0[i]).0 != (
            #[trigger] s0[j]).0,
        !ab_contains(s0, k),
        s1.len() == s0.len() + 1,
        s1[s0.len() as int].0 == k,
        forall|i: int| 0 <= i < s0.len() ==> #[trigger] s1[i] == s0[i],
    ensures
        forall|i: int, j: int|
            0 <= i < s1.len() && 0 <= j < s1.len() && i != j ==> (#[trigger] s1[i]).0 != (
            #[trigger] s1[j]).0,
        ab_contains(s1, k),
        ab_at(s1, k) == s1[s0.len() as int].1,
        forall|k2: Seq<u8>|
            k2 != k ==> (#[trigger] ab_contains(s1, k2) == ab_contains(s0, k2) && (ab_contains(
                s0,
                k2,
            ) ==> ab_at(s1, k2) == ab_at(s0, k2))),
{
    let p = s0.len() as int;
    assert forall|i: int, j: int|
        0 <= i < s1.len() && 0 <= j < s1.len() && i != j implies (#[trigger] s1[i]).0 != (
    #[trigger] s1[j]).0 by {
        if i < p && j < p {
        } else if i == p && j < p {
            assert(s1[j].0 == s0[j].0);
        } else if j == p && i < p {
            assert(s1[i].0 == s0[i].0);
        }
    };
    let w = choose|i: int| 0 <= i < s1.len() && (#[trigger] s1[i]).0 == k;
    assert(w == p);
    assert forall|k2: Seq<u8>| k2 != k implies (#[trigger] ab_contains(s1, k2) == ab_contains(
        s0,
        k2,
    ) && (ab_contains(s0, k2) ==> ab_at(s1, k2) == ab_at(s0, k2))) by {
        if ab_contains(s0, k2) {
            let i = choose|i: int| 0 <= i < s0.len() && (#[trigger] s0[i]).0 == k2;
            assert(s1[i].0 == k2);
            let i1 = choose|i1: int| 0 <= i1 < s1.len() && (#[trigger] s1[i1]).0 == k2;
            assert(i1 == i);
        }
        if ab_contains(s1, k2) {
            let i = choose|i: int| 0 <= i < s1.len() && (#[trigger] s1[i]).0 == k2;
            assert(i != p);
            assert(s0[i].0 == k2);
        }
    };
}

// ---- The per-key local alias map ----------------------------------------

/// One alias value with its change time: the bucket the alias points at,
/// or `None` once unset.
pub open spec fn spec_alias_lt(a: Option<Seq<u8>>, b: Option<Seq<u8>>) -> bool {
    match (a, b) {
        (Option::None, Option::Some(_)) => true,
        (Option::Some(x), Option::Some(y)) => crate::data::bytes_lt(x, y),
        _ => false,
    }
}

/// Last-writer-wins join of two alias values: the newest change wins,
/// ties broken towards the larger target.
pub open spec fn spec_alias_join(
    a: (u64, Option<Seq<u8>>),
    b: (u64, Option<Seq<u8>>),
) -> (u64, Option<Seq<u8>>) {
    if b.0 > a.0 {
        b
    } else if b.0 < a.0 {
        a
    } else if spec_alias_lt(a.1, b.1) {
        b
    } else {
        a
    }
}

pub open spec fn la_contains(s: Seq<(Seq<char>, u64, Option<Seq<u8>>)>, k: Seq<char>) -> bool {
    exists|i: int| 0 <= i < s.len() && (#[trigger] s[i]).0 == k
}

pub open spec fn la_at(s: Seq<(Seq<char>, u64, Option<Seq<u8>>)>, k: Seq<char>) -> (
    u64,
    Option<Seq<u8>>,
) {
    let e = s[choose|i: int| 0 <= i < s.len() && (#[trigger] s[i]).0 == k];
    (e.1, e.2)
}

/// `m` is the CRDT union of the alias maps `m1` and `m2`: alias names
/// union, and a name present on both sides carries the join of the two
/// entries.
/// The alias list as a map from alias name to its register.
pub open spec fn la_map(s: Seq<(Seq<char>, u64, Option<Seq<u8>>)>) -> Map<
    Seq<char>,
    (u64, Option<Seq<u8>>),
> {
    Map::new(|k: Seq<char>| la_contains(s, k), |k: Seq<char>| la_at(s, k))
}

/// Pointwise join of two alias maps: names union, and a name on both
/// sides carries the join of the two registers.
pub open spec fn alias_map_join(
    a: Map<Seq<char>, (u64, Option<Seq<u8>>)>,
    b: Map<Seq<char>, (u64, Option<Seq<u8>>)>,
) -> Map<Seq<char>, (u64, Option<Seq<u8>>)> {
    Map::new(
        |k: Seq<char>| a.dom().contains(k) || b.dom().contains(k),
        |k: Seq<char>|
            if a.dom().contains(k) && b.dom().contains(k) {
                spec_alias_join(a[k], b[k])
            } else if a.dom().contains(k) {
                a[k]
            } else {
                b[k]
            },
    )
}

/// `m` is the CRDT union of the alias maps `m1` and `m2`.
pub open spec fn la_merged(
    m1: Seq<(Seq<char>, u64, Option<Seq<u8>>)>,
    m2: Seq<(Seq<char>, u64, Option<Seq<u8>>)>,
    m: Seq<(Seq<char>, u64, Option<Seq<u8>>)>,
) -> bool {
    la_map(m) == alias_map_join(la_map(m1), la_map(m2))
}

/// Every alias other than `k` keeps its entry when `s0` becomes `s1`.
pub open spec fn la_frame(
    s0: Seq<(Seq<char>, u64, Option<Seq<u8>>)>,
    s1: Seq<(Seq<char>, u64, Option<Seq<u8>>)>,
    k: Seq<char>,
) -> bool {
    forall|k2: Seq<char>|
        k2 != k ==> (#[trigger] la_contains(s1, k2) == la_contains(s0, k2) && (la_contains(s0, k2)
            ==> la_at(s1, k2) == la_at(s0, k2)))
}

/// Folding one more alias entry into the prefix map inserts its
/// register under its name.
proof fn lemma_la_take_snoc(m2: Seq<(Seq<char>, u64, Option<Seq<u8>>)>, i: int)
    requires
        forall|a: int, b: int|
            0 <= a < m2.len() && 0 <= b < m2.len() && a != b ==> (#[trigger] m2[a]).0 != (
            #[trigger] m2[b]).0,
        0 <= i < m2.len(),
    ensures
        !la_contains(m2.take(i), m2[i].0),
        la_contains(m2, m2[i].0),
        la_at(m2, m2[i].0) == (m2[i].1, m2[i].2),
        la_map(m2.take(i + 1)) =~= la_map(m2.take(i)).insert(m2[i].0, (m2[i].1, m2[i].2)),
{
    let k = m2[i].0;
    let mv = (m2[i].1, m2[i].2);
    if la_contains(m2.take(i), k) {
        let j = choose|j: int| 0 <= j < m2.take(i).len() && (#[trigger] m2.take(i)[j]).0 == k;
        assert(m2[j] == m2.take(i)[j]);
        assert(false);
    }
    assert forall|k2: Seq<char>| #[trigger]
        la_contains(m2.take(i + 1), k2) == (la_contains(m2.take(i), k2) || k2 == k) by {
        if la_contains(m2.take(i + 1), k2) {
            let j = choose|j: int|
                0 <= j < m2.take(i + 1).len() && (#[trigger] m2.take(i + 1)[j]).0 == k2;
            if j < i {
                assert(m2.take(i)[j] == m2.take(i + 1)[j]);
            }
        }
        if la_contains(m2.take(i), k2) {
            let j = choose|j: int|
                0 <= j < m2.take(i).len() && (#[trigger] m2.take(i)[j]).0 == k2;
            assert(m2.take(i + 1)[j] == m2.take(i)[j]);
        }
        if k2 == k {
            assert(m2.take(i + 1)[i].0 == k2);
        }
    };
    assert forall|k2: Seq<char>|
        #[trigger] la_contains(m2.take(i + 1), k2) && k2 != k implies la_at(m2.take(i + 1), k2)
        == la_at(m2.take(i), k2) by {
        let j = choose|j: int|
            0 <= j < m2.take(i + 1).len() && (#[trigger] m2.take(i + 1)[j]).0 == k2;
        assert(j != i);
        assert(m2.take(i)[j] == m2.take(i + 1)[j]);
        let j0 = choose|j0: int|
            0 <= j0 < m2.take(i).len() && (#[trigger] m2.take(i)[j0]).0 == k2;
        assert(m2.take(i + 1)[j0] == m2.take(i)[j0]);
        assert(j0 == j);
    };
    assert(la_contains(m2.take(i + 1), k));
    let w = choose|w: int| 0 <= w < m2.take(i + 1).len() && (#[trigger] m2.take(i + 1)[w]).0 == k;
    assert(w == i);
    assert(la_at(m2.take(i + 1), k) == mv);
    assert(la_contains(m2, k));
    let w2 = choose|w2: int| 0 <= w2 < m2.len() && (#[trigger] m2[w2]).0 == k;
    assert(w2 == i);
    assert(la_at(m2, k) == mv);
    assert(la_map(m2.take(i + 1)) =~= la_map(m2.take(i)).insert(k, mv));
}

/// A key's private bucket-alias namespace: alias names it alone sees,
/// each a last-writer-wins register of an optional bucket id.
pub struct LocalAliases {
    /// One entry per alias name; the methods keep the names unique.
    pub entries: Vec<(String, u64, Option<Uuid>)>,
}

impl View for LocalAliases {
    type V = Seq<(Seq<char>, u64, Option<Seq<u8>>)>;

    open spec fn view(&self) -> Seq<(Seq<char>, u64, Option<Seq<u8>>)> {
        Seq::new(
            self.entries@.len(),
            |i: int|
                (
                    self.entries@[i].0@,
                    self.entries@[i].1,
                    match self.entries@[i].2 {
                        Option::Some(u) => Option::Some(u@),
                        Option::None => Option::None,
                    },
                ),
        )
    }
}

impl Clone for LocalAliases {
    fn clone(&self) -> (r: Self)
        ensures
            r@ == self@,
    {
        let mut entries: Vec<(String, u64, Option<Uuid>)> = Vec::new();
        let mut i: usize = 0;
        while i < self.entries.len()
            invariant
                0 <= i <= self.entries@.len(),
                entries@.len() == i,
                forall|j: int|
                    0 <= j < i ==> (#[trigger] entries@[j]).0@ == self.entries@[j].0@
                        && entries@[j].1 == self.entries@[j].1 && entries@[j].2
                        == self.entries@[j].2,
            decreases self.entries@.len() - i,
        {
            let (name, ts, target) = &self.entries[i];
            entries.push((name.clone(), *ts, *target));
            i = i + 1;
        }
        let r = LocalAliases { entries };
        proof {
            assert(r@ =~= self@);
        }
        r
    }
}

impl LocalAliases {
    pub open spec fn wf(&self) -> bool {
        forall|i: int, j: int|
            0 <= i < self@.len() && 0 <= j < self@.len() && i != j ==> (#[trigger] self@[i]).0 != (
            #[trigger] self@[j]).0
    }

    pub fn new() -> (r: LocalAliases)
        ensures
            r.wf(),
            r@.len() == 0,
    {
        let r = LocalAliases { entries: Vec::new() };
        proof {
            assert(r@ =~= Seq::<(Seq<char>, u64, Option<Seq<u8>>)>::empty());
        }
        r
    }

    fn find(&self, name: &String) -> (r: Option<usize>)
        ensures
            r matches Some(i) ==> i < self@.len() && self@[i as int].0 == name@,
            r is Some <==> la_contains(self@, name@),
    {
        let mut i: usize = 0;
        while i < self.entries.len()
            invariant
                0 <= i <= self@.len(),
                forall|j: int| 0 <= j < i ==> (#[trigger] self@[j]).0 != name@,
            decreases self@.len() - i,
        {
            if self.entries[i].0.eq(name) {
                proof {
                    assert(self@[i as int].0 == name@);
                }
                return Some(i);
            }
            i = i + 1;
        }
        None
    }

    /// The alias entry for a name, if one exists.
    pub fn get(&self, name: &String) -> (r: Option<(u64, Option<Uuid>)>)
        requires
            self.wf(),
        ensures
            r is Some <==> la_contains(self@, name@),
            r matches Some(e) ==> (e.0, match e.1 {
                Option::Some(u) => Option::Some(u@),
                Option::None => Option::None,
            }) == la_at(self@, name@),
    {
        match self.find(name) {
            Some(i) => {
                proof {
                    let w = choose|w: int| 0 <= w < self@.len() && (#[trigger] self@[w]).0
                        == name@;
                    assert(w == i);
                }
                Some((self.entries[i].1, self.entries[i].2))
            }
            None => None,
        }
    }

    /// Point an alias at a bucket (or unset it), at the given time,
    /// replacing the entry under the same name.
    pub fn put(&mut self, name: String, ts: u64, target: Option<Uuid>)
        requires
            old(self).wf(),
        ensures
            final(self).wf(),
            la_contains(final(self)@, name@),
            la_at(final(self)@, name@) == (ts, match target {
                Option::Some(u) => Option::Some(u@),
                Option::None => Option::<Seq<u8>>::None,
            }),
            la_frame(old(self)@, final(self)@, name@),
    {
        let ghost s0 = self@;
        let ghost k = name@;
        match self.find(&name) {
            Some(i) => {
                proof {
                    let w = choose|w: int| 0 <= w < s0.len() && (#[trigger] s0[w]).0 == k;
                    assert(w == i);
                }
                self.entries[i] = (name, ts, target);
                proof {
                    lemma_la_update(s0, self@, i as int, k);
                }
            }
            None => {
                self.entries.push((name, ts, target));
                proof {
                    let s1 = self@;
                    assert(s1.len() == s0.len() + 1);
                    assert(forall|q: int| 0 <= q < s0.len() ==> #[trigger] s1[q] == s0[q]);
                    assert(s1[s0.len() as int].0 == k);
                    lemma_la_push(s0, s1, k);
                }
            }
        }
        proof {
            assert forall|k2: Seq<char>|
                k2 != k implies (#[trigger] la_contains(self@, k2) == la_contains(s0, k2) && (
            la_contains(s0, k2) ==> la_at(self@, k2) == la_at(s0, k2))) by {};
            assert(la_frame(s0, self@, k));
        }
    }

    /// CRDT merge: union of the alias names; a name present on both sides
    /// keeps the last-writer-wins join of the two entries.
    pub fn merge(&mut self, other: &LocalAliases)
        requires
            old(self).wf(),
            other.wf(),
        ensures
            final(self).wf(),
            la_merged(old(self)@, other@, final(self)@),
    {
        let ghost m1 = old(self)@;
        let ghost m2 = other@;
        let mut i: usize = 0;
        proof {
            assert(m2.take(0) =~= Seq::<(Seq<char>, u64, Option<Seq<u8>>)>::empty());
            assert forall|k: Seq<char>| #[trigger]
                la_contains(m2.take(0), k) implies false by {
                let j = choose|j: int| 0 <= j < m2.take(0).len() && (#[trigger] m2.take(0)[j]).0
                    == k;
            };
            assert(la_map(self@) =~= alias_map_join(la_map(m1), la_map(m2.take(0))));
        }
        while i < other.entries.len()
            invariant
                0 <= i <= m2.len(),
                m2 == other@,
                other.wf(),
                self.wf(),
                m1 == old(self)@,
                la_map(self@) =~= alias_map_join(la_map(m1), la_map(m2.take(i as int))),
            decreases m2.len() - i,
        {
            let (name, ots, otarget) = &other.entries[i];
            let ghost k = name@;
            let ghost mv = (m2[i as int].1, m2[i as int].2);
            proof {
                assert forall|a: int, b: int|
                    0 <= a < m2.len() && 0 <= b < m2.len() && a != b implies (#[trigger] m2[a]).0
                    != (#[trigger] m2[b]).0 by {};
                assert(m2[i as int].0 == k);
                lemma_la_take_snoc(m2, i as int);
            }
            let cur = self.get(name);
            let ghost before = self@;
            let (new_ts, new_target) = match cur {
                Some((my_ts, my_target)) => {
                    let take_other = if *ots > my_ts {
                        true
                    } else if *ots < my_ts {
                        false
                    } else {
                        match (&my_target, otarget) {
                            (Option::None, Option::Some(_)) => true,
                            (Option::Some(u), Option::Some(v)) => fb32_cmp(u, v) == -1,
                            _ => false,
                        }
                    };
                    if take_other {
                        (*ots, *otarget)
                    } else {
                        (my_ts, my_target)
                    }
                }
                None => (*ots, *otarget),
            };
            self.put(name.clone(), new_ts, new_target);
            proof {
                let ghost nv = (new_ts, match new_target {
                    Option::Some(u) => Option::Some(u@),
                    Option::None => Option::<Seq<u8>>::None,
                });
                assert(la_at(self@, k) == nv);
                // Bridge the list-level facts to the map model at k.
                assert(la_map(before).dom().contains(k) == la_contains(before, k));
                assert(la_map(m1).dom().contains(k) == la_contains(m1, k));
                assert(la_map(m2.take(i as int)).dom().contains(k) == la_contains(
                    m2.take(i as int),
                    k,
                ));
                assert(!la_map(m2.take(i as int)).dom().contains(k));
                assert(la_map(before) == alias_map_join(la_map(m1), la_map(m2.take(i as int))));
                // The written register is the join of the two sides at k.
                if la_contains(m1, k) {
                    assert(la_contains(before, k));
                    assert(la_map(before)[k] == la_map(m1)[k]);
                    assert(la_map(before)[k] == la_at(before, k));
                    assert(la_map(m1)[k] == la_at(m1, k));
                    assert(la_at(before, k) == la_at(m1, k));
                    assert(nv == spec_alias_join(la_at(m1, k), mv));
                } else {
                    if la_contains(before, k) {
                        assert(la_map(before).dom().contains(k));
                        assert(false);
                    }
                    assert(cur is None);
                    assert(nv == mv);
                }
                // The new state is the old map with k overwritten.
                assert(la_map(self@) =~= la_map(before).insert(k, nv));
                assert(la_map(self@) =~= alias_map_join(
                    la_map(m1),
                    la_map(m2.take(i + 1)),
                ));
            }
            i = i + 1;
        }
        proof {
            assert(m2.take(m2.len() as int) =~= m2);
        }
    }
}

proof fn lemma_la_update(
    s0: Seq<(Seq<char>, u64, Option<Seq<u8>>)>,
    s1: Seq<(Seq<char>, u64, Option<Seq<u8>>)>,
    p: int,
    k: Seq<char>,
)
    requires
        forall|i: int, j: int|
            0 <= i < s0.len() && 0 <= j < s0.len() && i != j ==> (#[trigger] s0[i]).0 != (
            #[trigger] s0[j]).0,
        0 <= p < s0.len(),
        s0[p].0 == k,
        s1.len() == s0.len(),
        s1[p].0 == k,
        forall|i: int| 0 <= i < s0.len() && i != p ==> #[trigger] s1[i] == s0[i],
    ensures
        forall|i: int, j: int|
            0 <= i < s1.len() && 0 <= j < s1.len() && i != j ==> (#[trigger] s1[i]).0 != (
            #[trigger] s1[j]).0,
        la_contains(s1, k),
        la_at(s1, k) == (s1[p].1, s1[p].2),
        forall|k2: Seq<char>|
            k2 != k ==> (#[trigger] la_contains(s1, k2) == la_contains(s0, k2) && (la_contains(
                s0,
                k2,
            ) ==> la_at(s1, k2) == la_at(s0, k2))),
{
    assert forall|i: int, j: int|
        0 <= i < s1.len() && 0 <= j < s1.len() && i != j implies (#[trigger] s1[i]).0 != (
    #[trigger] s1[j]).0 by {
        assert(s1[i].0 == s0[i].0 && s1[j].0 == s0[j].0);
    };
    let w = choose|i: int| 0 <= i < s1.len() && (#[trigger] s1[i]).0 == k;
    assert(w == p);
    assert forall|k2: Seq<char>| k2 != k implies (#[trigger] la_contains(s1, k2) == la_contains(
        s0,
        k2,
    ) && (la_contains(s0, k2) ==> la_at(s1, k2) == la_at(s0, k2))) by {
        if la_contains(s0, k2) {
            let i = choose|i: int| 0 <= i < s0.len() && (#[trigger] s0[i]).0 == k2;
            assert(i != p);
            assert(s1[i].0 == k2);
            let i1 = choose|i1: int| 0 <= i1 < s1.len() && (#[trigger] s1[i1]).0 == k2;
            assert(i1 == i);
        }
        if la_contains(s1, k2) {
            let i = choose|i: int| 0 <= i < s1.len() && (#[trigger] s1[i]).0 == k2;
            assert(i != p);
            assert(s0[i].0 == k2);
        }
    };
}

proof fn lemma_la_push(
    s0: Seq<(Seq<char>, u64, Option<Seq<u8>>)>,
    s1: Seq<(Seq<char>, u64, Option<Seq<u8>>)>,
    k: Seq<char>,
)
    requires
        forall|i: int, j: int|
            0 <= i < s0.len() && 0 <= j < s0.len() && i != j ==> (#[trigger] s0[i]).0 != (
            #[trigger] s0[j]).0,
        !la_contains(s0, k),
        s1.len() == s0.len() + 1,
        s1[s0.len() as int].0 == k,
        forall|i: int| 0 <= i < s0.len() ==> #[trigger] s1[i] == s0[i],
    ensures
        forall|i: int, j: int|
            0 <= i < s1.len() && 0 <= j < s1.len() && i != j ==> (#[trigger] s1[i]).0 != (
            #[trigger] s1[j]).0,
        la_contains(s1, k),
        la_at(s1, k) == (s1[s0.len() as int].1, s1[s0.len() as int].2),
        forall|k2: Seq<char>|
            k2 != k ==> (#[trigger] la_contains(s1, k2) == la_contains(s0, k2) && (la_contains(
                s0,
                k2,
            ) ==> la_at(s1, k2) == la_at(s0, k2))),
{
    let p = s0.len() as int;
    assert forall|i: int, j: int|
        0 <= i < s1.len() && 0 <= j < s1.len() && i != j implies (#[trigger] s1[i]).0 != (
    #[trigger] s1[j]).0 by {
        if i < p && j < p {
        } else if i == p && j < p {
            assert(s1[j].0 == s0[j].0);
        } else if j == p && i < p {
            assert(s1[i].0 == s0[i].0);
        }
    };
    let w = choose|i: int| 0 <= i < s1.len() && (#[trigger] s1[i]).0 == k;
    assert(w == p);
    assert forall|k2: Seq<char>| k2 != k implies (#[trigger] la_contains(s1, k2) == la_contains(
        s0,
        k2,
    ) && (la_contains(s0, k2) ==> la_at(s1, k2) == la_at(s0, k2))) by {
        if la_contains(s0, k2) {
            let i = choose|i: int| 0 <= i < s0.len() && (#[trigger] s0[i]).0 == k2;
            assert(s1[i].0 == k2);
            let i1 = choose|i1: int| 0 <= i1 < s1.len() && (#[trigger] s1[i1]).0 == k2;
            assert(i1 == i);
        }
        if la_contains(s1, k2) {
            let i = choose|i: int| 0 <= i < s1.len() && (#[trigger] s1[i]).0 == k2;
            assert(i != p);
            assert(s0[i].0 == k2);
        }
    };
}

// ---- Key rows ----------------------------------------------------------

/// Configuration of an access key, while the key exists.
pub struct KeyParams {
    /// The secret key (immutable)
    pub secret_key: String,
    /// A name for the key
    pub name: Lww<String>,
    /// Whether bearers of this key may create buckets
    pub allow_create_bucket: Lww<bool>,
    /// The buckets this key is authorized in
    pub authorized_buckets: AuthorizedBuckets,
    /// The key's private bucket-alias namespace
    pub local_aliases: LocalAliases,
}

/// `pf` is the field-wise CRDT merge of two live key configurations:
/// the secret is immutable, the name and the create-bucket flag merge as
/// registers, and both maps merge per key.
pub open spec fn key_params_merged(p0: &KeyParams, p1: &KeyParams, pf: &KeyParams) -> bool {
    &&& pf.secret_key@ == p0.secret_key@
    &&& (pf.name.ts, pf.name.v@) == crate::crdt::spec_lww_str_join(
        (p0.name.ts, p0.name.v@),
        (p1.name.ts, p1.name.v@),
    )
    &&& pf.allow_create_bucket == crate::crdt::spec_lww_bool_join(
        p0.allow_create_bucket,
        p1.allow_create_bucket,
    )
    &&& ab_merged(p0.authorized_buckets@, p1.authorized_buckets@, pf.authorized_buckets@)
    &&& la_merged(p0.local_aliases@, p1.local_aliases@, pf.local_aliases@)
}

impl KeyParams {
    pub open spec fn wf(&self) -> bool {
        self.authorized_buckets.wf() && self.local_aliases.wf()
    }

    pub fn new(secret_key: &str, name: &str, now: u64) -> (r: KeyParams)
        ensures
            r.wf(),
            r.secret_key@ == secret_key@,
            r.name.ts == now && r.name.v@ == name@,
            r.allow_create_bucket.ts == now && !r.allow_create_bucket.v,
            r.authorized_buckets@.len() == 0,
            r.local_aliases@.len() == 0,
    {
        KeyParams {
            secret_key: secret_key.to_owned(),
            name: Lww { ts: now, v: name.to_owned() },
            allow_create_bucket: Lww { ts: now, v: false },
            authorized_buckets: AuthorizedBuckets::new(),
            local_aliases: LocalAliases::new(),
        }
    }

    /// CRDT merge of two states of one key's configuration, field by
    /// field.
    pub fn merge(&mut self, other: &KeyParams)
        requires
            old(self).wf(),
            other.wf(),
        ensures
            final(self).wf(),
            key_params_merged(old(self), other, final(self)),
    {
        self.name.merge(&other.name);
        self.allow_create_bucket.merge(&other.allow_create_bucket);
        self.authorized_buckets.merge(&other.authorized_buckets);
        self.local_aliases.merge(&other.local_aliases);
    }
}

/// An access key row: either live configuration, or a tombstone. The
/// tombstone absorbs every live state on merge.
pub struct Key {
    /// The id of the key (immutable), used as sort key
    pub key_id: String,
    /// The state of the key: present with its parameters, or deleted
    pub params: Option<KeyParams>,
}

/// A well-formed key id: `GK` followed by 12 hex-encoded bytes.
pub open spec fn spec_valid_key_id(s: Seq<char>) -> bool {
    s.len() == 26 && s[0] == 'G' && s[1] == 'K' && forall|i: int|
        2 <= i < 26 ==> is_hex_char(#[trigger] s[i])
}

/// A well-formed secret: 32 hex-encoded bytes.
pub open spec fn spec_valid_secret(s: Seq<char>) -> bool {
    s.len() == 64 && forall|i: int| 0 <= i < 64 ==> is_hex_char(#[trigger] s[i])
}

/// Relies on rand 0.8's `random` to draw a fresh value; nothing is
/// promised of the outcome.
pub assume_specification<T>[ rand::random::<T> ]() -> (r: T)
    where
        rand::distributions::Standard: rand::distributions::Distribution<T>,
;

fn check_all_hex(s: &str, from: usize, to: usize) -> (r: bool)
    requires
        from <= to <= s@.len(),
    ensures
        r == forall|i: int| from <= i < to ==> is_hex_char(#[trigger] s@[i]),
{
    let mut i: usize = from;
    while i < to
        invariant
            from <= i <= to <= s@.len(),
            forall|j: int| from <= j < i ==> is_hex_char(#[trigger] s@[j]),
        decreases to - i,
    {
        let c = s.get_char(i);
        let ok = ('0' <= c && c <= '9') || ('a' <= c && c <= 'f') || ('A' <= c && c <= 'F');
        if !ok {
            return false;
        }
        i = i + 1;
    }
    true
}

impl Key {
    pub open spec fn wf(&self) -> bool {
        match &self.params {
            Some(p) => p.wf(),
            None => true,
        }
    }

    /// Initialize a new key with a random identifier and secret.
    pub fn new(name: &str, now: u64) -> (r: Key)
        ensures
            r.wf(),
            spec_valid_key_id(r.key_id@),
            r.params matches Some(p) && spec_valid_secret(p.secret_key@) && p.name.v@ == name@
                && !p.allow_create_bucket.v && p.authorized_buckets@.len() == 0
                && p.local_aliases@.len() == 0,
    {
        let id_bytes: [u8; 12] = rand::random();
        let secret_bytes: [u8; 32] = rand::random();
        let id_hex = hex_encode(id_bytes.as_slice());
        let secret = hex_encode(secret_bytes.as_slice());
        let key_id = String::from_str("GK").concat(id_hex.as_str());
        proof {
            reveal_strlit("GK");
            assert(key_id@.len() == 26);
            assert(key_id@[0] == 'G' && key_id@[1] == 'K');
            assert forall|i: int| 2 <= i < 26 implies is_hex_char(#[trigger] key_id@[i]) by {
                assert(key_id@[i] == hex_of(id_bytes@)[i - 2]);
            };
            assert forall|i: int| 0 <= i < 64 implies is_hex_char(#[trigger] secret@[i]) by {};
        }
        let params = KeyParams::new(secret.as_str(), name, now);
        Key { key_id, params: Some(params) }
    }

    /// Import a key from its parts, checking their shape.
    pub fn import(key_id: &str, secret_key: &str, name: &str, now: u64) -> (r: Result<Key, Error>)
        ensures
            r is Ok <==> (spec_valid_key_id(key_id@) && spec_valid_secret(secret_key@)),
            r matches Ok(k) ==> k.wf() && k.key_id@ == key_id@ && (k.params matches Some(p)
                && p.secret_key@ == secret_key@ && p.name.v@ == name@
                && !p.allow_create_bucket.v && p.authorized_buckets@.len() == 0
                && p.local_aliases@.len() == 0),
            r matches Err(e) ==> e is BadRequest,
    {
        proof {
            reveal_strlit("G");
            reveal_strlit("K");
        }
        if key_id.unicode_len() != 26 {
            return Err(Error::BadRequest(String::from_str("invalid key ID")));
        }
        if key_id.get_char(0) != 'G' || key_id.get_char(1) != 'K' {
            return Err(Error::BadRequest(String::from_str("invalid key ID")));
        }
        if !check_all_hex(key_id, 2, 26) {
            return Err(Error::BadRequest(String::from_str("invalid key ID")));
        }
        if secret_key.unicode_len() != 64 {
            return Err(Error::BadRequest(String::from_str("invalid secret key")));
        }
        if !check_all_hex(secret_key, 0, 64) {
            return Err(Error::BadRequest(String::from_str("invalid secret key")));
        }
        Ok(
            Key {
                key_id: key_id.to_owned(),
                params: Some(KeyParams::new(secret_key, name, now)),
            },
        )
    }

    /// A tombstone row that, merged into an existing key, marks it
    /// deleted.
    pub fn delete(key_id: String) -> (r: Key)
        ensures
            r.wf(),
            r.key_id@ == key_id@,
            r.params is None,
    {
        Key { key_id, params: None }
    }

    /// Is the key deleted?
    pub fn is_deleted(&self) -> (r: bool)
        ensures
            r == (self.params is None),
    {
        self.params.is_none()
    }

    /// The parameters, while the key exists.
    pub fn params(&self) -> (r: Option<&KeyParams>)
        ensures
            r is Some <==> self.params is Some,
            r matches Some(p) ==> self.params matches Some(q) && p == q,
    {
        self.params.as_ref()
    }

    /// Mutable access to the parameters, while the key exists.
    pub fn params_mut(&mut self) -> (r: Option<&mut KeyParams>)
        ensures
            old(self).params is None ==> r is None && *final(self) == *old(self),
            old(self).params is Some ==> r is Some,
            final(self).key_id@ == old(self).key_id@,
    {
        self.params.as_mut()
    }

    /// The permission this key holds in a bucket; none when the key is
    /// deleted or the bucket is not listed.
    pub fn bucket_permissions(&self, bucket: &Uuid) -> (r: BucketKeyPerm)
        requires
            self.wf(),
        ensures
            r == spec_bucket_permissions(self, bucket@),
    {
        match &self.params {
            Some(p) => match p.authorized_buckets.get(bucket) {
                Some(perm) => perm,
                None => BucketKeyPerm::no_permissions(),
            },
            None => BucketKeyPerm::no_permissions(),
        }
    }

    /// May this key read the bucket?
    pub fn allow_read(&self, bucket: &Uuid) -> (r: bool)
        requires
            self.wf(),
        ensures
            r == spec_bucket_permissions(self, bucket@).allow_read,
    {
        self.bucket_permissions(bucket).allow_read
    }

    /// May this key write in the bucket?
    pub fn allow_write(&self, bucket: &Uuid) -> (r: bool)
        requires
            self.wf(),
        ensures
            r == spec_bucket_permissions(self, bucket@).allow_write,
    {
        self.bucket_permissions(bucket).allow_write
    }

    /// Does this key own the bucket?
    pub fn allow_owner(&self, bucket: &Uuid) -> (r: bool)
        requires
            self.wf(),
        ensures
            r == spec_bucket_permissions(self, bucket@).allow_owner,
    {
        self.bucket_permissions(bucket).allow_owner
    }

    /// CRDT merge of two rows of one key: a tombstone absorbs a live
    /// state (a deleted key never resurrects), and two live states merge
    /// field by field: name and create-bucket flag by last-writer-wins,
    /// the permission and alias maps per key.
    pub fn merge(&mut self, other: &Key)
        requires
            old(self).wf(),
            other.wf(),
        ensures
            final(self).wf(),
            final(self).key_id@ == old(self).key_id@,
            (final(self).params is None) == (old(self).params is None || other.params is None),
            match (&old(self).params, &other.params, &final(self).params) {
                (Some(p0), Some(p1), Some(pf)) => key_params_merged(p0, p1, pf),
                _ => true,
            },
    {
        if other.params.is_none() {
            self.params = None;
            return;
        }
        match (&mut self.params, &other.params) {
            (Some(mine), Some(theirs)) => {
                mine.merge(theirs);
            }
            _ => {}
        }
    }
}

pub open spec fn spec_bucket_permissions(k: &Key, bucket: Seq<u8>) -> BucketKeyPerm {
    match k.params {
        Some(p) => if ab_contains(p.authorized_buckets@, bucket) {
            ab_at(p.authorized_buckets@, bucket)
        } else {
            BucketKeyPerm {
                timestamp: 0,
                allow_read: false,
                allow_write: false,
                allow_owner: false,
            }
        },
        None => BucketKeyPerm {
            timestamp: 0,
            allow_read: false,
            allow_write: false,
            allow_owner: false,
        },
    }
}

// ---- Filters -----------------------------------------------------------

/// Filter on the deleted flag of a row.
#[derive(Clone, Copy, Debug)]
pub enum DeletedFilter {
    Any,
    Deleted,
    NotDeleted,
}

impl DeletedFilter {
    pub fn apply(&self, deleted: bool) -> (r: bool)
        ensures
            r == match *self {
                DeletedFilter::Any => true,
                DeletedFilter::Deleted => deleted,
                DeletedFilter::NotDeleted => !deleted,
            },
    {
        match self {
            DeletedFilter::Any => true,
            DeletedFilter::Deleted => deleted,
            DeletedFilter::NotDeleted => !deleted,
        }
    }
}

/// What lower-casing a string yields; the folding depends on the
/// characters alone.
pub uninterp spec fn lower_of(s: Seq<char>) -> Seq<char>;

/// Relies on str::to_lowercase: the result depends on the characters
/// alone, and an empty string stays empty.
#[verifier::external_body]
fn to_lowercase(s: &str) -> (r: String)
    ensures
        r@ == lower_of(s@),
        s@.len() == 0 ==> r@.len() == 0,
{
    s.to_lowercase()
}

/// Relies on str::starts_with: true exactly when the string begins with
/// the given prefix.
#[verifier::external_body]
fn str_starts_with(s: &str, prefix: &str) -> (r: bool)
    ensures
        r == (prefix@.len() <= s@.len() && s@.subrange(0, prefix@.len() as int) == prefix@),
{
    s.starts_with(prefix)
}

/// The schema of the key table: one row per key id, replicated on every
/// node.
pub struct KeyTable;

/// Filter on key rows, used when listing keys.
pub enum KeyFilter {
    /// Filter by the deleted flag
    Deleted(DeletedFilter),
    /// The key is live, and its id starts with the pattern or its name
    /// equals it, case-insensitively
    MatchesAndNotDeleted(String),
}

impl KeyTable {
    /// Does a key row match the given listing filter?
    pub fn matches_filter(entry: &Key, filter: &KeyFilter) -> (r: bool)
        ensures
            r == match filter {
                KeyFilter::Deleted(df) => match *df {
                    DeletedFilter::Any => true,
                    DeletedFilter::Deleted => entry.params is None,
                    DeletedFilter::NotDeleted => entry.params is Some,
                },
                KeyFilter::MatchesAndNotDeleted(pat) => match entry.params {
                    Some(p) => {
                        let lp = lower_of(pat@);
                        (lp.len() <= lower_of(entry.key_id@).len() && lower_of(
                            entry.key_id@,
                        ).subrange(0, lp.len() as int) == lp) || lower_of(p.name.v@) == lp
                    },
                    None => false,
                },
            },
    {
        match filter {
            KeyFilter::Deleted(df) => df.apply(entry.params.is_none()),
            KeyFilter::MatchesAndNotDeleted(pat) => {
                match &entry.params {
                    Some(p) => {
                        let lp = to_lowercase(pat.as_str());
                        let lid = to_lowercase(entry.key_id.as_str());
                        let lname = to_lowercase(p.name.v.as_str());
                        str_starts_with(lid.as_str(), lp.as_str()) || lname.eq(&lp)
                    }
                    None => false,
                }
            }
        }
    }
}


/// Import a key only when its id is still free: an existing row under the
/// same id refuses the import.
pub fn handle_import_key(
    existing: Option<&Key>,
    key_id: &str,
    secret_key: &str,
    name: &str,
    now: u64,
) -> (r: Result<Key, Error>)
    ensures
        existing is Some ==> (r matches Err(e) && e is KeyAlreadyExists),
        existing is None ==> (r is Ok <==> (spec_valid_key_id(key_id@) && spec_valid_secret(
            secret_key@,
        ))),
        r matches Ok(k) ==> k.wf() && k.key_id@ == key_id@ && (k.params matches Some(p)
            && p.secret_key@ == secret_key@ && p.name.v@ == name@ && !p.allow_create_bucket.v
            && p.authorized_buckets@.len() == 0 && p.local_aliases@.len() == 0),
        r matches Err(e) ==> e is KeyAlreadyExists || e is BadRequest,
{
    if existing.is_some() {
        return Err(Error::KeyAlreadyExists);
    }
    Key::import(key_id, secret_key, name, now)
}

/// Apply an admin key update: a new name, and grants or denials of the
/// create-bucket permission, all at the request's time.
pub fn handle_update_key(
    key: &mut Key,
    new_name: Option<String>,
    allow_create_bucket: bool,
    deny_create_bucket: bool,
    now: u64,
) -> (r: Result<(), Error>)
    requires
        old(key).wf(),
    ensures
        final(key).wf(),
        final(key).key_id@ == old(key).key_id@,
        r is Ok <==> old(key).params is Some,
        r matches Err(e) ==> e is NoSuchKey,
        old(key).params is None ==> *final(key) == *old(key),
        match (&old(key).params, &final(key).params) {
            (Some(p0), Some(p1)) => {
                &&& (match new_name {
                    Some(n) => p1.name.v@ == n@ && p1.name.ts == now,
                    None => p1.name == p0.name,
                })
                &&& (allow_create_bucket ==> p1.allow_create_bucket.v
                    && p1.allow_create_bucket.ts == now)
                &&& (!allow_create_bucket && deny_create_bucket ==> !p1.allow_create_bucket.v
                    && p1.allow_create_bucket.ts == now)
                &&& (!allow_create_bucket && !deny_create_bucket ==> p1.allow_create_bucket
                    == p0.allow_create_bucket)
                &&& p1.secret_key@ == p0.secret_key@
                &&& p1.authorized_buckets@ == p0.authorized_buckets@
                &&& p1.local_aliases@ == p0.local_aliases@
            },
            _ => true,
        },
{
    match &mut key.params {
        Some(params) => {
            match new_name {
                Some(n) => {
                    params.name.update(now, n);
                }
                None => {}
            }
            if allow_create_bucket {
                params.allow_create_bucket.update(now, true);
            } else if deny_create_bucket {
                params.allow_create_bucket.update(now, false);
            }
            Ok(())
        }
        None => Err(Error::NoSuchKey),
    }
}

} // verus!
