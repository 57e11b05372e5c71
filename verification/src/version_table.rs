//! Version rows (the block list of one object state or one multipart
//! upload), block references, and multipart-upload rows. All of them are
//! CRDTs: `deleted` flags are monotone, and block lists grow until their
//! version is deleted.

use vstd::prelude::*;

use crate::data::{fb32_eq, BlockHash, Uuid};

verus! {

// ---- Block lists -------------------------------------------------------

/// Position of a block inside a version: part number, then byte offset
/// inside the part.
#[derive(Clone, Copy, Debug)]
pub struct VersionBlockKey {
    /// Part number. For a plain streamed object this is 1.
    pub part_number: u64,
    /// Offset of this block within the part
    pub offset: u64,
}

/// Information about one data block of a version.
#[derive(Clone, Copy, Debug)]
pub struct VersionBlock {
    /// Hash of the block's content
    pub hash: BlockHash,
    /// Size of the block in bytes
    pub size: u64,
}

pub struct VersionBlockV {
    pub hash: Seq<u8>,
    pub size: u64,
}

impl View for VersionBlock {
    type V = VersionBlockV;

    open spec fn view(&self) -> VersionBlockV {
        VersionBlockV { hash: self.hash@, size: self.size }
    }
}

pub open spec fn bkey_lt(a: VersionBlockKey, b: VersionBlockKey) -> bool {
    a.part_number < b.part_number || (a.part_number == b.part_number && a.offset < b.offset)
}

pub open spec fn bkey_eq(a: VersionBlockKey, b: VersionBlockKey) -> bool {
    a.part_number == b.part_number && a.offset == b.offset
}

/// The ordered block list of a version: entries strictly sorted by
/// `(part_number, offset)`, so walking it in order walks the object's
/// bytes in order.
#[derive(Debug)]
pub struct VersionBlocks {
    /// The entries, strictly sorted by key. Use `put` to keep the order.
    pub items: Vec<(VersionBlockKey, VersionBlock)>,
}

pub open spec fn blocks_sorted(s: Seq<(VersionBlockKey, VersionBlockV)>) -> bool {
    forall|i: int, j: int| 0 <= i < j < s.len() ==> bkey_lt((#[trigger] s[i]).0, (#[trigger] s[j]).0)
}

impl View for VersionBlocks {
    type V = Seq<(VersionBlockKey, VersionBlockV)>;

    open spec fn view(&self) -> Seq<(VersionBlockKey, VersionBlockV)> {
        Seq::new(self.items@.len(), |i: int| (self.items@[i].0, self.items@[i].1@))
    }
}

impl Clone for VersionBlocks {
    fn clone(&self) -> (r: Self)
        ensures
            r@ == self@,
    {
        let mut items: Vec<(VersionBlockKey, VersionBlock)> = Vec::new();
        let mut i: usize = 0;
        while i < self.items.len()
            invariant
                0 <= i <= self.items@.len(),
                items@.len() == i,
                forall|j: int| 0 <= j < i ==> items@[j] == self.items@[j],
            decreases self.items@.len() - i,
        {
            items.push(self.items[i]);
            i = i + 1;
        }
        let r = VersionBlocks { items };
        proof {
            assert(r@ =~= self@);
        }
        r
    }
}

impl VersionBlocks {
    pub open spec fn wf(&self) -> bool {
        blocks_sorted(self@)
    }

    pub fn new() -> (r: VersionBlocks)
        ensures
            r.wf(),
            r@.len() == 0,
    {
        let r = VersionBlocks { items: Vec::new() };
        proof {
            assert(r@ =~= Seq::<(VersionBlockKey, VersionBlockV)>::empty());
        }
        r
    }

    pub fn len(&self) -> (r: usize)
        ensures
            r == self@.len(),
    {
        self.items.len()
    }

    pub fn is_empty(&self) -> (r: bool)
        ensures
            r == (self@.len() == 0),
    {
        self.items.len() == 0
    }

    /// The entry at one position of the ordered list.
    pub fn item(&self, i: usize) -> (r: &(VersionBlockKey, VersionBlock))
        requires
            i < self@.len(),
        ensures
            r.0 == self@[i as int].0,
            r.1@ == self@[i as int].1,
    {
        &self.items[i]
    }

    pub fn clear(&mut self)
        ensures
            final(self).wf(),
            final(self)@.len() == 0,
    {
        self.items.clear();
        proof {
            assert(self@ =~= Seq::<(VersionBlockKey, VersionBlockV)>::empty());
        }
    }

    /// Whether an entry with this key is present.
    pub fn contains_key(&self, k: VersionBlockKey) -> (r: bool)
        ensures
            r == exists|a: int| 0 <= a < self@.len() && bkey_eq((#[trigger] self@[a]).0, k),
    {
        let mut j: usize = 0;
        while j < self.items.len()
            invariant
                0 <= j <= self@.len(),
                forall|a: int| 0 <= a < j ==> !bkey_eq((#[trigger] self@[a]).0, k),
            decreases self@.len() - j,
        {
            let ck = self.items[j].0;
            if ck.part_number == k.part_number && ck.offset == k.offset {
                proof {
                    assert(bkey_eq(self@[j as int].0, k));
                }
                return true;
            }
            j = j + 1;
        }
        false
    }

    /// Insert a block at its key, or replace the entry that carries the
    /// same key.
    pub fn put(&mut self, k: VersionBlockKey, v: VersionBlock)
        requires
            old(self).wf(),
        ensures
            final(self).wf(),
            vb_contains_key(final(self)@, k),
            vb_at(final(self)@, k) == v@,
            forall|k2: VersionBlockKey|
                !bkey_eq(k2, k) ==> (vb_contains_key(final(self)@, k2) == vb_contains_key(
                    old(self)@,
                    k2,
                ) && (vb_contains_key(old(self)@, k2) ==> vb_at(final(self)@, k2) == vb_at(
                    old(self)@,
                    k2,
                ))),
            !vb_contains_key(old(self)@, k) ==> final(self)@.len() == old(self)@.len() + 1,
            vb_contains_key(old(self)@, k) ==> final(self)@.len() == old(self)@.len(),
            (forall|j: int| 0 <= j < old(self)@.len() ==> bkey_lt((#[trigger] old(self)@[j]).0, k))
                ==> final(self)@ =~= old(self)@.push((k, v@)),
    {
        let ghost s = self@;
        let mut i: usize = 0;
        while i < self.items.len()
            invariant
                0 <= i <= s.len(),
                s == self@,
                s == old(self)@,
                self.wf(),
                forall|j: int| 0 <= j < i ==> bkey_lt((#[trigger] s[j]).0, k),
            decreases self.items@.len() - i,
        {
            let ck = self.items[i].0;
            if ck.part_number == k.part_number && ck.offset == k.offset {
                self.items[i] = (k, v);
                proof {
                    assert(self@ =~= s.update(i as int, (k, v@)));
                    assert(bkey_eq(s[i as int].0, k));
                    lemma_vb_update(s, self@, i as int, k);
                    assert(self@.len() == s.len());
                    if forall|j: int| 0 <= j < s.len() ==> bkey_lt((#[trigger] s[j]).0, k) {
                        assert(bkey_lt(s[i as int].0, k));
                        assert(false);
                    }
                }
                return;
            }
            if k.part_number < ck.part_number || (k.part_number == ck.part_number && k.offset
                < ck.offset) {
                proof {
                    assert forall|j: int| i <= j < s.len() implies bkey_lt(
                        k,
                        (#[trigger] s[j]).0,
                    ) by {
                        if j > i {
                            assert(bkey_lt(s[i as int].0, s[j].0));
                        }
                    };
                }
                self.items.insert(i, (k, v));
                proof {
                    let t = self@;
                    assert(t =~= s.take(i as int) + seq![(k, v@)] + s.skip(i as int));
                    assert(t.len() == s.len() + 1);
                    assert(forall|q: int| 0 <= q < i ==> #[trigger] t[q] == s[q]);
                    assert(t[i as int] == (k, v@));
                    assert(forall|q: int| i < q < t.len() ==> #[trigger] t[q] == s[q - 1]);
                    lemma_vb_insert(s, t, i as int, k);
                    if forall|j: int| 0 <= j < s.len() ==> bkey_lt((#[trigger] s[j]).0, k) {
                        assert(bkey_lt(s[i as int].0, k));
                        assert(false);
                    }
                }
                return;
            }
            i = i + 1;
        }
        self.items.push((k, v));
        proof {
            let t = self@;
            assert(t =~= s + seq![(k, v@)]);
            assert(t.len() == s.len() + 1);
            assert(forall|q: int| 0 <= q < s.len() ==> #[trigger] t[q] == s[q]);
            assert(t[s.len() as int] == (k, v@));
            lemma_vb_insert(s, t, s.len() as int, k);
            assert(t =~= s.push((k, v@)));
        }
    }
}

/// The block list has an entry under this key.
pub open spec fn vb_contains_key(
    s: Seq<(VersionBlockKey, VersionBlockV)>,
    k: VersionBlockKey,
) -> bool {
    exists|i: int| 0 <= i < s.len() && bkey_eq((#[trigger] s[i]).0, k)
}

/// The block stored under this key.
pub open spec fn vb_at(
    s: Seq<(VersionBlockKey, VersionBlockV)>,
    k: VersionBlockKey,
) -> VersionBlockV {
    s[choose|i: int| 0 <= i < s.len() && bkey_eq((#[trigger] s[i]).0, k)].1
}

proof fn lemma_vb_sorted_distinct(s: Seq<(VersionBlockKey, VersionBlockV)>)
    requires
        blocks_sorted(s),
    ensures
        forall|i: int, j: int|
            0 <= i < s.len() && 0 <= j < s.len() && i != j ==> !bkey_eq(
                (#[trigger] s[i]).0,
                (#[trigger] s[j]).0,
            ),
{
}

proof fn lemma_vb_update(
    s0: Seq<(VersionBlockKey, VersionBlockV)>,
    s1: Seq<(VersionBlockKey, VersionBlockV)>,
    p: int,
    k: VersionBlockKey,
)
    requires
        blocks_sorted(s0),
        0 <= p < s0.len(),
        bkey_eq(s0[p].0, k),
        s1.len() == s0.len(),
        s1[p].0 == k,
        forall|i: int| 0 <= i < s0.len() && i != p ==> #[trigger] s1[i] == s0[i],
    ensures
        blocks_sorted(s1),
        vb_contains_key(s1, k),
        vb_at(s1, k) == s1[p].1,
        forall|k2: VersionBlockKey|
            !bkey_eq(k2, k) ==> (vb_contains_key(s1, k2) == vb_contains_key(s0, k2) && (
            vb_contains_key(s0, k2) ==> vb_at(s1, k2) == vb_at(s0, k2))),
        vb_contains_key(s0, k),
{
    lemma_vb_sorted_distinct(s0);
    assert forall|i: int, j: int| 0 <= i < j < s1.len() implies bkey_lt(
        (#[trigger] s1[i]).0,
        (#[trigger] s1[j]).0,
    ) by {
        assert(s1[i].0.part_number == s0[i].0.part_number && s1[i].0.offset == s0[i].0.offset);
        assert(s1[j].0.part_number == s0[j].0.part_number && s1[j].0.offset == s0[j].0.offset);
    };
    lemma_vb_sorted_distinct(s1);
    assert(bkey_eq(s1[p].0, k));
    let w = choose|i: int| 0 <= i < s1.len() && bkey_eq((#[trigger] s1[i]).0, k);
    assert(w == p);
    assert forall|k2: VersionBlockKey| !bkey_eq(k2, k) implies (vb_contains_key(s1, k2)
        == vb_contains_key(s0, k2) && (vb_contains_key(s0, k2) ==> vb_at(s1, k2) == vb_at(
        s0,
        k2,
    ))) by {
        if vb_contains_key(s0, k2) {
            let i = choose|i: int| 0 <= i < s0.len() && bkey_eq((#[trigger] s0[i]).0, k2);
            assert(i != p);
            assert(bkey_eq(s1[i].0, k2));
            let i1 = choose|i1: int| 0 <= i1 < s1.len() && bkey_eq((#[trigger] s1[i1]).0, k2);
            assert(i1 == i);
        }
        if vb_contains_key(s1, k2) {
            let i = choose|i: int| 0 <= i < s1.len() && bkey_eq((#[trigger] s1[i]).0, k2);
            assert(i != p);
            assert(bkey_eq(s0[i].0, k2));
        }
    };
}

proof fn lemma_vb_insert(
    s0: Seq<(VersionBlockKey, VersionBlockV)>,
    s1: Seq<(VersionBlockKey, VersionBlockV)>,
    p: int,
    k: VersionBlockKey,
)
    requires
        blocks_sorted(s0),
        0 <= p <= s0.len(),
        forall|j: int| 0 <= j < p ==> bkey_lt((#[trigger] s0[j]).0, k),
        forall|j: int| p <= j < s0.len() ==> bkey_lt(k, (#[trigger] s0[j]).0),
        s1.len() == s0.len() + 1,
        s1[p].0 == k,
        forall|i: int| 0 <= i < p ==> #[trigger] s1[i] == s0[i],
        forall|i: int| p < i < s1.len() ==> #[trigger] s1[i] == s0[i - 1],
    ensures
        blocks_sorted(s1),
        vb_contains_key(s1, k),
        vb_at(s1, k) == s1[p].1,
        forall|k2: VersionBlockKey|
            !bkey_eq(k2, k) ==> (vb_contains_key(s1, k2) == vb_contains_key(s0, k2) && (
            vb_contains_key(s0, k2) ==> vb_at(s1, k2) == vb_at(s0, k2))),
        !vb_contains_key(s0, k),
{
    assert forall|i: int, j: int| 0 <= i < j < s1.len() implies bkey_lt(
        (#[trigger] s1[i]).0,
        (#[trigger] s1[j]).0,
    ) by {
        if i < p && j == p {
        } else if i == p && j > p {
        } else if i < p && j > p {
            assert(bkey_lt(s1[i].0, k) && bkey_lt(k, s1[j].0));
        }
    };
    lemma_vb_sorted_distinct(s1);
    assert(bkey_eq(s1[p].0, k));
    let w = choose|i: int| 0 <= i < s1.len() && bkey_eq((#[trigger] s1[i]).0, k);
    assert(w == p);
    if vb_contains_key(s0, k) {
        let i = choose|i: int| 0 <= i < s0.len() && bkey_eq((#[trigger] s0[i]).0, k);
        assert(false);
    }
    assert forall|k2: VersionBlockKey| !bkey_eq(k2, k) implies (vb_contains_key(s1, k2)
        == vb_contains_key(s0, k2) && (vb_contains_key(s0, k2) ==> vb_at(s1, k2) == vb_at(
        s0,
        k2,
    ))) by {
        if vb_contains_key(s0, k2) {
            let i = choose|i: int| 0 <= i < s0.len() && bkey_eq((#[trigger] s0[i]).0, k2);
            let i2 = if i < p {
                i
            } else {
                i + 1
            };
            assert(bkey_eq(s1[i2].0, k2));
            let i1 = choose|i1: int| 0 <= i1 < s1.len() && bkey_eq((#[trigger] s1[i1]).0, k2);
            assert(i1 == i2);
            assert(s1[i2] == s0[i]);
        }
        if vb_contains_key(s1, k2) {
            let i = choose|i: int| 0 <= i < s1.len() && bkey_eq((#[trigger] s1[i]).0, k2);
            assert(i != p);
            if i < p {
                assert(bkey_eq(s0[i].0, k2));
            } else {
                assert(bkey_eq(s0[i - 1].0, k2));
            }
        }
    };
}

// ---- Version rows ------------------------------------------------------

/// What a version belongs to: either an object key, or a multipart upload
/// in progress.
#[derive(Debug)]
pub enum VersionBacklink {
    Object { bucket_id: Uuid, key: String },
    MultipartUpload { upload_id: Uuid },
}

pub enum VersionBacklinkV {
    Object { bucket_id: Seq<u8>, key: Seq<char> },
    MultipartUpload { upload_id: Seq<u8> },
}

impl View for VersionBacklink {
    type V = VersionBacklinkV;

    open spec fn view(&self) -> VersionBacklinkV {
        match self {
            VersionBacklink::Object { bucket_id, key } => VersionBacklinkV::Object {
                bucket_id: bucket_id@,
                key: key@,
            },
            VersionBacklink::MultipartUpload { upload_id } => VersionBacklinkV::MultipartUpload {
                upload_id: upload_id@,
            },
        }
    }
}

impl Clone for VersionBacklink {
    fn clone(&self) -> (r: Self)
        ensures
            r@ == self@,
    {
        match self {
            VersionBacklink::Object { bucket_id, key } => VersionBacklink::Object {
                bucket_id: *bucket_id,
                key: key.clone(),
            },
            VersionBacklink::MultipartUpload { upload_id } => VersionBacklink::MultipartUpload {
                upload_id: *upload_id,
            },
        }
    }
}

/// A version row: enumerates the blocks of one state of an object, or of
/// one part of a multipart upload.
#[derive(Debug)]
pub struct Version {
    /// UUID of the version, used as partition key
    pub uuid: Uuid,
    /// Whether this version has been deleted. Monotone: it only ever goes
    /// from false to true.
    pub deleted: bool,
    /// The blocks of the version. Append-only until the version is deleted,
    /// then cleared.
    pub blocks: VersionBlocks,
    /// What this version belongs to
    pub backlink: VersionBacklink,
}

pub struct VersionV {
    pub uuid: Seq<u8>,
    pub deleted: bool,
    pub blocks: Seq<(VersionBlockKey, VersionBlockV)>,
    pub backlink: VersionBacklinkV,
}

impl View for Version {
    type V = VersionV;

    open spec fn view(&self) -> VersionV {
        VersionV {
            uuid: self.uuid@,
            deleted: self.deleted,
            blocks: self.blocks@,
            backlink: self.backlink@,
        }
    }
}

impl Version {
    pub open spec fn wf(&self) -> bool {
        self.blocks.wf() && (self.deleted ==> self@.blocks.len() == 0)
    }

    pub fn new(uuid: Uuid, backlink: VersionBacklink, deleted: bool) -> (r: Version)
        ensures
            r.wf(),
            r@.uuid == uuid@,
            r@.deleted == deleted,
            r@.blocks.len() == 0,
            r@.backlink == backlink@,
    {
        Version { uuid, deleted, blocks: VersionBlocks::new(), backlink }
    }

    /// CRDT merge with a copy of this row from another node. The deleted
    /// flag is an OR; a deleted version drops its blocks; otherwise block
    /// lists are unioned by key (two entries under one key describe the
    /// same block, the local one is kept).
    pub fn merge(&mut self, other: &Version)
        requires
            old(self).wf(),
            other.wf(),
        ensures
            final(self).wf(),
            final(self)@.uuid == old(self)@.uuid,
            final(self)@.backlink == old(self)@.backlink,
            final(self)@.deleted == (old(self)@.deleted || other@.deleted),
            final(self)@.deleted ==> final(self)@.blocks.len() == 0,
            !final(self)@.deleted ==> forall|k: VersionBlockKey|
                #![trigger vb_contains_key(final(self)@.blocks, k)]
                (vb_contains_key(final(self)@.blocks, k) == (vb_contains_key(
                    old(self)@.blocks,
                    k,
                ) || vb_contains_key(other@.blocks, k)) && (vb_contains_key(old(self)@.blocks, k)
                    ==> vb_at(final(self)@.blocks, k) == vb_at(old(self)@.blocks, k)) && ((
                !vb_contains_key(old(self)@.blocks, k) && vb_contains_key(other@.blocks, k))
                    ==> vb_at(final(self)@.blocks, k) == vb_at(other@.blocks, k))),
    {
        if other.deleted {
            self.deleted = true;
        }
        if self.deleted {
            self.blocks.clear();
            return;
        }
        let ghost m1 = old(self)@.blocks;
        let ghost m2 = other@.blocks;
        proof {
            lemma_vb_sorted_distinct(m2);
        }
        let mut i: usize = 0;
        while i < other.blocks.len()
            invariant
                0 <= i <= m2.len(),
                m2 == other@.blocks,
                other.wf(),
                self.blocks.wf(),
                !self.deleted,
                self@.uuid == old(self)@.uuid,
                self@.backlink == old(self)@.backlink,
                self@.deleted == old(self)@.deleted,
                blocks_sorted(m2),
                forall|k: VersionBlockKey|
                    #![trigger vb_contains_key(self@.blocks, k)]
                    (vb_contains_key(self@.blocks, k) == (vb_contains_key(m1, k) || exists|j: int|
                        0 <= j < i && bkey_eq((#[trigger] m2[j]).0, k)) && (vb_contains_key(m1, k)
                        ==> vb_at(self@.blocks, k) == vb_at(m1, k)) && ((!vb_contains_key(m1, k)
                        && vb_contains_key(self@.blocks, k)) ==> (vb_contains_key(m2, k) && vb_at(
                        self@.blocks,
                        k,
                    ) == vb_at(m2, k)))),
            decreases m2.len() - i,
        {
            let (k, v) = *other.blocks.item(i);
            let ghost cur = self@.blocks;
            let present = self.blocks.contains_key(k);
            proof {
                assert(bkey_eq(m2[i as int].0, k));
                assert(vb_contains_key(m2, k));
                let w = choose|w: int| 0 <= w < m2.len() && bkey_eq((#[trigger] m2[w]).0, k);
                assert(w == i);
                assert(vb_at(m2, k) == m2[i as int].1);
                assert(m2[i as int].1 == v@);
            }
            if !present {
                self.blocks.put(k, v);
            }
            proof {
                let now_b = self@.blocks;
                assert forall|k2: VersionBlockKey|
                    #![trigger vb_contains_key(now_b, k2)]
                    (vb_contains_key(now_b, k2) == (vb_contains_key(m1, k2) || exists|j: int|
                        0 <= j < i + 1 && bkey_eq((#[trigger] m2[j]).0, k2)) && (vb_contains_key(
                        m1,
                        k2,
                    ) ==> vb_at(now_b, k2) == vb_at(m1, k2)) && ((!vb_contains_key(m1, k2)
                        && vb_contains_key(now_b, k2)) ==> (vb_contains_key(m2, k2) && vb_at(
                        now_b,
                        k2,
                    ) == vb_at(m2, k2)))) by {
                    if bkey_eq(k2, k) {
                        assert(vb_contains_key(now_b, k));
                        assert(vb_contains_key(m2, k2) == vb_contains_key(m2, k));
                        assert(vb_at(m2, k2) == vb_at(m2, k));
                        assert(vb_contains_key(now_b, k2) == vb_contains_key(now_b, k));
                        assert(vb_at(now_b, k2) == vb_at(now_b, k));
                        assert(vb_contains_key(m1, k2) == vb_contains_key(m1, k));
                        if vb_contains_key(m1, k) {
                            assert(vb_at(m1, k2) == vb_at(m1, k));
                        }
                        assert(0 <= i < i + 1 && bkey_eq(m2[i as int].0, k2));
                    } else {
                        if exists|j: int| 0 <= j < i + 1 && bkey_eq((#[trigger] m2[j]).0, k2) {
                            let j = choose|j: int|
                                0 <= j < i + 1 && bkey_eq((#[trigger] m2[j]).0, k2);
                            assert(j < i);
                        }
                    }
                };
            }
            i = i + 1;
        }
    }
}

/// The block list `s` has an entry `(k, v)`.
// ---- Block references --------------------------------------------------

/// A record stating "version V references block H". Its tombstone drives
/// garbage collection: a block's reference count is the number of
/// non-deleted block refs pointing at it.
#[derive(Clone, Copy, Debug)]
pub struct BlockRef {
    /// Hash of the block, used as partition key
    pub block: BlockHash,
    /// Id of the version that uses this block, used as sort key
    pub version: Uuid,
    /// Whether the ref is deleted. Monotone.
    pub deleted: bool,
}

pub struct BlockRefV {
    pub block: Seq<u8>,
    pub version: Seq<u8>,
    pub deleted: bool,
}

impl View for BlockRef {
    type V = BlockRefV;

    open spec fn view(&self) -> BlockRefV {
        BlockRefV { block: self.block@, version: self.version@, deleted: self.deleted }
    }
}

impl BlockRef {
    /// CRDT merge: the deleted flag is monotone, everything else is
    /// immutable.
    pub fn merge(&mut self, other: &BlockRef)
        ensures
            final(self)@.block == old(self)@.block,
            final(self)@.version == old(self)@.version,
            final(self)@.deleted == (old(self)@.deleted || other@.deleted),
    {
        if other.deleted {
            self.deleted = true;
        }
    }
}

// ---- Multipart uploads -------------------------------------------------

/// Key of one uploaded part: repeated uploads of the same part number get
/// fresh timestamps, and the reader takes the newest.
#[derive(Clone, Copy, Debug)]
pub struct MpuPartKey {
    /// Part number
    pub part_number: u64,
    /// Timestamp of the upload of this part
    pub timestamp: u64,
}

/// One uploaded part: the version that holds its blocks, and, once the
/// upload finished, its etag and size.
#[derive(Debug)]
pub struct MpuPart {
    /// The version that holds this part's blocks
    pub version: Uuid,
    /// ETag of the part's content, set when the part finished uploading
    pub etag: Option<String>,
    /// Size of the part, set when the part finished uploading
    pub size: Option<u64>,
}

pub struct MpuPartV {
    pub version: Seq<u8>,
    pub etag: Option<Seq<char>>,
    pub size: Option<u64>,
}

impl View for MpuPart {
    type V = MpuPartV;

    open spec fn view(&self) -> MpuPartV {
        MpuPartV {
            version: self.version@,
            etag: match &self.etag {
                Some(e) => Some(e@),
                None => None,
            },
            size: self.size,
        }
    }
}

impl Clone for MpuPart {
    fn clone(&self) -> (r: Self)
        ensures
            r@ == self@,
    {
        MpuPart {
            version: self.version,
            etag: match &self.etag {
                Some(e) => Some(e.clone()),
                None => None,
            },
            size: self.size,
        }
    }
}

pub open spec fn pkey_lt(a: MpuPartKey, b: MpuPartKey) -> bool {
    a.part_number < b.part_number || (a.part_number == b.part_number && a.timestamp < b.timestamp)
}

pub open spec fn pkey_eq(a: MpuPartKey, b: MpuPartKey) -> bool {
    a.part_number == b.part_number && a.timestamp == b.timestamp
}

/// A multipart upload in progress: a row keyed by the upload's uuid,
/// holding references to the uploaded parts.
#[derive(Debug)]
pub struct MultipartUpload {
    /// Id of the upload, used as partition key
    pub upload_id: Uuid,
    /// The timestamp at which the multipart upload was created
    pub timestamp: u64,
    /// Whether this upload is deleted. Monotone.
    pub deleted: bool,
    /// The uploaded parts, strictly sorted by `(part_number, timestamp)`
    pub parts: Vec<(MpuPartKey, MpuPart)>,
    /// The bucket in which the related object is stored
    pub bucket_id: Uuid,
    /// The key in which the related object is stored
    pub key: String,
}

impl MultipartUpload {
    pub open spec fn wf(&self) -> bool {
        (forall|i: int, j: int|
            0 <= i < j < self.parts@.len() ==> pkey_lt(
                (#[trigger] self.parts@[i]).0,
                (#[trigger] self.parts@[j]).0,
            )) && (self.deleted ==> self.parts@.len() == 0)
    }

    pub fn new(upload_id: Uuid, timestamp: u64, bucket_id: Uuid, key: String, deleted: bool) -> (r:
        MultipartUpload)
        ensures
            r.wf(),
            r.upload_id@ == upload_id@,
            r.timestamp == timestamp,
            r.deleted == deleted,
            r.parts@.len() == 0,
            r.bucket_id@ == bucket_id@,
            r.key@ == key@,
    {
        MultipartUpload { upload_id, timestamp, deleted, parts: Vec::new(), bucket_id, key }
    }

    /// A timestamp strictly above every stored timestamp of this part
    /// number, and not below `now`: repeated uploads of one part number are
    /// ordered even when the wall clock stands still.
    pub fn next_timestamp(&self, part_number: u64, now: u64) -> (r: u64)
        requires
            forall|i: int| 0 <= i < self.parts@.len() ==> (#[trigger] self.parts@[i]).0.timestamp
                < u64::MAX,
        ensures
            r >= now,
            forall|i: int|
                0 <= i < self.parts@.len() && (#[trigger] self.parts@[i]).0.part_number
                    == part_number ==> r > self.parts@[i].0.timestamp,
    {
        let mut best: u64 = 0;
        let mut i: usize = 0;
        while i < self.parts.len()
            invariant
                0 <= i <= self.parts@.len(),
                forall|j: int| 0 <= j < self.parts@.len() ==> (#[trigger] self.parts@[j]).0.timestamp
                    < u64::MAX,
                forall|j: int|
                    0 <= j < i && (#[trigger] self.parts@[j]).0.part_number == part_number ==> best
                        > self.parts@[j].0.timestamp,
            decreases self.parts@.len() - i,
        {
            let pk = self.parts[i].0;
            if pk.part_number == part_number && pk.timestamp + 1 > best {
                best = pk.timestamp + 1;
            }
            i = i + 1;
        }
        if now > best {
            now
        } else {
            best
        }
    }

    /// Record a part under its key, inserting or replacing.
    pub fn put_part(&mut self, k: MpuPartKey, v: MpuPart)
        requires
            old(self).wf(),
            !old(self).deleted,
        ensures
            final(self).wf(),
            final(self).upload_id@ == old(self).upload_id@,
            final(self).timestamp == old(self).timestamp,
            final(self).deleted == old(self).deleted,
            final(self).bucket_id@ == old(self).bucket_id@,
            final(self).key@ == old(self).key@,
            parts_contain_key(final(self).parts@, k),
            part_at(final(self).parts@, k) == v@,
            forall|k2: MpuPartKey|
                !pkey_eq(k2, k) ==> (parts_contain_key(final(self).parts@, k2)
                    == parts_contain_key(old(self).parts@, k2) && (parts_contain_key(
                    old(self).parts@,
                    k2,
                ) ==> part_at(final(self).parts@, k2) == part_at(old(self).parts@, k2))),
    {
        let ghost s0 = self.parts@;
        let mut i: usize = 0;
        while i < self.parts.len()
            invariant
                0 <= i <= s0.len(),
                s0 == self.parts@,
                old(self).wf(),
                self == old(self),
                forall|j: int| 0 <= j < i ==> pkey_lt((#[trigger] s0[j]).0, k),
            decreases s0.len() - i,
        {
            let ck = self.parts[i].0;
            if ck.part_number == k.part_number && ck.timestamp == k.timestamp {
                self.parts[i] = (k, v);
                proof {
                    lemma_parts_update(s0, self.parts@, i as int, k);
                }
                return;
            }
            if k.part_number < ck.part_number || (k.part_number == ck.part_number && k.timestamp
                < ck.timestamp) {
                self.parts.insert(i, (k, v));
                proof {
                    lemma_parts_insert(s0, self.parts@, i as int, k);
                }
                return;
            }
            i = i + 1;
        }
        self.parts.push((k, v));
        proof {
            lemma_parts_insert(s0, self.parts@, s0.len() as int, k);
        }
    }
}

pub open spec fn parts_contain_key(s: Seq<(MpuPartKey, MpuPart)>, k: MpuPartKey) -> bool {
    exists|i: int| 0 <= i < s.len() && pkey_eq((#[trigger] s[i]).0, k)
}

pub open spec fn part_at(s: Seq<(MpuPartKey, MpuPart)>, k: MpuPartKey) -> MpuPartV {
    (s[choose|i: int| 0 <= i < s.len() && pkey_eq((#[trigger] s[i]).0, k)].1)@
}

proof fn lemma_parts_sorted_distinct(s: Seq<(MpuPartKey, MpuPart)>)
    requires
        forall|i: int, j: int|
            0 <= i < j < s.len() ==> pkey_lt((#[trigger] s[i]).0, (#[trigger] s[j]).0),
    ensures
        forall|i: int, j: int|
            0 <= i < s.len() && 0 <= j < s.len() && i != j ==> !pkey_eq(
                (#[trigger] s[i]).0,
                (#[trigger] s[j]).0,
            ),
{
}

/// Updating position `p` (which carries key `k`) gives the map behaviour
/// that `put_part` promises.
proof fn lemma_parts_update(s0: Seq<(MpuPartKey, MpuPart)>, s1: Seq<(MpuPartKey, MpuPart)>, p: int, k: MpuPartKey)
    requires
        forall|i: int, j: int|
            0 <= i < j < s0.len() ==> pkey_lt((#[trigger] s0[i]).0, (#[trigger] s0[j]).0),
        0 <= p < s0.len(),
        pkey_eq(s0[p].0, k),
        s1.len() == s0.len(),
        s1[p].0 == k,
        forall|i: int| 0 <= i < s0.len() && i != p ==> #[trigger] s1[i] == s0[i],
    ensures
        forall|i: int, j: int|
            0 <= i < j < s1.len() ==> pkey_lt((#[trigger] s1[i]).0, (#[trigger] s1[j]).0),
        parts_contain_key(s1, k),
        part_at(s1, k) == (s1[p].1)@,
        forall|k2: MpuPartKey|
            !pkey_eq(k2, k) ==> (parts_contain_key(s1, k2) == parts_contain_key(s0, k2) && (
            parts_contain_key(s0, k2) ==> part_at(s1, k2) == part_at(s0, k2))),
{
    lemma_parts_sorted_distinct(s0);
    assert forall|i: int, j: int| 0 <= i < j < s1.len() implies pkey_lt(
        (#[trigger] s1[i]).0,
        (#[trigger] s1[j]).0,
    ) by {
        assert(s0[i].0.part_number == s1[i].0.part_number && s0[i].0.timestamp
            == s1[i].0.timestamp);
        assert(s0[j].0.part_number == s1[j].0.part_number && s0[j].0.timestamp
            == s1[j].0.timestamp);
    };
    lemma_parts_sorted_distinct(s1);
    assert(pkey_eq(s1[p].0, k));
    let w = choose|i: int| 0 <= i < s1.len() && pkey_eq((#[trigger] s1[i]).0, k);
    assert(w == p);
    assert forall|k2: MpuPartKey| !pkey_eq(k2, k) implies (parts_contain_key(s1, k2)
        == parts_contain_key(s0, k2) && (parts_contain_key(s0, k2) ==> part_at(s1, k2) == part_at(
        s0,
        k2,
    ))) by {
        if parts_contain_key(s0, k2) {
            let i = choose|i: int| 0 <= i < s0.len() && pkey_eq((#[trigger] s0[i]).0, k2);
            assert(i != p);
            assert(pkey_eq(s1[i].0, k2));
            let i1 = choose|i1: int| 0 <= i1 < s1.len() && pkey_eq((#[trigger] s1[i1]).0, k2);
            assert(i1 == i);
        }
        if parts_contain_key(s1, k2) {
            let i = choose|i: int| 0 <= i < s1.len() && pkey_eq((#[trigger] s1[i]).0, k2);
            assert(i != p);
            assert(pkey_eq(s0[i].0, k2));
        }
    };
}

/// Inserting a fresh key at its sorted position gives the map behaviour
/// that `put_part` promises.
proof fn lemma_parts_insert(s0: Seq<(MpuPartKey, MpuPart)>, s1: Seq<(MpuPartKey, MpuPart)>, p: int, k: MpuPartKey)
    requires
        forall|i: int, j: int|
            0 <= i < j < s0.len() ==> pkey_lt((#[trigger] s0[i]).0, (#[trigger] s0[j]).0),
        0 <= p <= s0.len(),
        forall|j: int| 0 <= j < p ==> pkey_lt((#[trigger] s0[j]).0, k),
        forall|j: int| p <= j < s0.len() ==> pkey_lt(k, (#[trigger] s0[j]).0),
        s1.len() == s0.len() + 1,
        s1[p].0 == k,
        forall|i: int| 0 <= i < p ==> #[trigger] s1[i] == s0[i],
        forall|i: int| p < i < s1.len() ==> #[trigger] s1[i] == s0[i - 1],
    ensures
        forall|i: int, j: int|
            0 <= i < j < s1.len() ==> pkey_lt((#[trigger] s1[i]).0, (#[trigger] s1[j]).0),
        parts_contain_key(s1, k),
        part_at(s1, k) == (s1[p].1)@,
        forall|k2: MpuPartKey|
            !pkey_eq(k2, k) ==> (parts_contain_key(s1, k2) == parts_contain_key(s0, k2) && (
            parts_contain_key(s0, k2) ==> part_at(s1, k2) == part_at(s0, k2))),
{
    assert forall|i: int, j: int| 0 <= i < j < s1.len() implies pkey_lt(
        (#[trigger] s1[i]).0,
        (#[trigger] s1[j]).0,
    ) by {
        if i < p && j == p {
        } else if i == p && j > p {
        } else if i < p && j > p {
            assert(pkey_lt(s1[i].0, k) && pkey_lt(k, s1[j].0));
        }
    };
    lemma_parts_sorted_distinct(s1);
    assert(pkey_eq(s1[p].0, k));
    let w = choose|i: int| 0 <= i < s1.len() && pkey_eq((#[trigger] s1[i]).0, k);
    assert(w == p);
    assert forall|k2: MpuPartKey| !pkey_eq(k2, k) implies (parts_contain_key(s1, k2)
        == parts_contain_key(s0, k2) && (parts_contain_key(s0, k2) ==> part_at(s1, k2) == part_at(
        s0,
        k2,
    ))) by {
        if parts_contain_key(s0, k2) {
            let i = choose|i: int| 0 <= i < s0.len() && pkey_eq((#[trigger] s0[i]).0, k2);
            let i2 = if i < p {
                i
            } else {
                i + 1
            };
            assert(pkey_eq(s1[i2].0, k2));
            let i1 = choose|i1: int| 0 <= i1 < s1.len() && pkey_eq((#[trigger] s1[i1]).0, k2);
            assert(i1 == i2);
            assert(s1[i2] == s0[i]);
        }
        if parts_contain_key(s1, k2) {
            let i = choose|i: int| 0 <= i < s1.len() && pkey_eq((#[trigger] s1[i]).0, k2);
            assert(i != p);
            if i < p {
                assert(pkey_eq(s0[i].0, k2));
            } else {
                assert(pkey_eq(s0[i - 1].0, k2));
            }
        }
    };
}

} // verus!
