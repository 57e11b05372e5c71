//! The local per-block reference counter. A block's count is the number
//! of non-deleted block references pointing at it; when it drops to zero
//! the block is kept for a grace delay before the resync loop may offload
//! and delete it.

use vstd::prelude::*;

use crate::data::{fb32_eq, BlockHash};
use crate::version_table::BlockRef;

verus! {

/// How long a block with reference count zero is retained before it
/// becomes deletable, in milliseconds.
pub const BLOCK_GC_DELAY_MSEC: u64 = 600000;

/// The state of one block's reference counter.
#[derive(Clone, Copy, Debug)]
pub enum RcEntry {
    /// The block is referenced at least once
    Present { count: u64 },
    /// The count dropped to zero; the block may be deleted once the clock
    /// passes `at_time`
    Deletable { at_time: u64 },
    /// Nothing is known about the block
    Absent,
}

impl RcEntry {
    pub open spec fn spec_count(self) -> int {
        match self {
            RcEntry::Present { count } => count as int,
            _ => 0,
        }
    }

    /// The block is referenced.
    pub fn is_nonzero(&self) -> (r: bool)
        ensures
            r == (self.spec_count() > 0),
    {
        match self {
            RcEntry::Present { count } => *count > 0,
            _ => false,
        }
    }

    /// The block is unreferenced and its grace delay has passed.
    pub fn is_deletable(&self, now: u64) -> (r: bool)
        ensures
            r == spec_deletable(*self, now),
    {
        match self {
            RcEntry::Present { .. } => false,
            RcEntry::Deletable { at_time } => now > *at_time,
            RcEntry::Absent => true,
        }
    }

    /// The node should hold the block.
    pub fn is_needed(&self) -> (r: bool)
        ensures
            r == (self.spec_count() > 0),
    {
        self.is_nonzero()
    }
}

pub open spec fn spec_deletable(e: RcEntry, now: u64) -> bool {
    match e {
        RcEntry::Present { .. } => false,
        RcEntry::Deletable { at_time } => now > at_time,
        RcEntry::Absent => true,
    }
}

/// The local reference-count table: one entry per known block hash.
pub struct BlockRc {
    /// The stored entries, one per hash. Use the methods to keep hashes
    /// unique.
    pub entries: Vec<(BlockHash, RcEntry)>,
}

/// Is some entry stored under this hash?
pub open spec fn rc_contains(s: Seq<(Seq<u8>, RcEntry)>, h: Seq<u8>) -> bool {
    exists|i: int| 0 <= i < s.len() && (#[trigger] s[i]).0 == h
}

/// The entry stored under a hash, `Absent` when none is.
pub open spec fn rc_entry_of(s: Seq<(Seq<u8>, RcEntry)>, h: Seq<u8>) -> RcEntry {
    if rc_contains(s, h) {
        s[choose|i: int| 0 <= i < s.len() && (#[trigger] s[i]).0 == h].1
    } else {
        RcEntry::Absent
    }
}

/// The reference count recorded for a hash.
pub open spec fn rc_count(s: Seq<(Seq<u8>, RcEntry)>, h: Seq<u8>) -> int {
    rc_entry_of(s, h).spec_count()
}

impl View for BlockRc {
    type V = Seq<(Seq<u8>, RcEntry)>;

    open spec fn view(&self) -> Seq<(Seq<u8>, RcEntry)> {
        Seq::new(self.entries@.len(), |i: int| (self.entries@[i].0@, self.entries@[i].1))
    }
}

impl BlockRc {
    /// Keys are unique, and a stored entry is never `Absent` (absence is
    /// expressed by not storing the hash).
    pub open spec fn wf(&self) -> bool {
        (forall|i: int, j: int|
            0 <= i < self@.len() && 0 <= j < self@.len() && i != j ==> (#[trigger] self@[i]).0 != (
            #[trigger] self@[j]).0) && (forall|i: int|
            0 <= i < self@.len() ==> match (#[trigger] self@[i]).1 {
                RcEntry::Present { count } => count >= 1,
                RcEntry::Deletable { .. } => true,
                RcEntry::Absent => false,
            })
    }

    pub fn new() -> (r: BlockRc)
        ensures
            r.wf(),
            r@.len() == 0,
    {
        let r = BlockRc { entries: Vec::new() };
        proof {
            assert(r@ =~= Seq::<(Seq<u8>, RcEntry)>::empty());
        }
        r
    }

    /// Number of hashes with a stored entry.
    pub fn len(&self) -> (r: usize)
        ensures
            r == self@.len(),
    {
        self.entries.len()
    }

    /// Where the hash sits in the table, if anywhere.
    fn find(&self, hash: &BlockHash) -> (r: Option<usize>)
        ensures
            r matches Some(i) ==> i < self@.len() && self@[i as int].0 == hash@,
            r is None ==> !rc_contains(self@, hash@),
            r is Some <==> rc_contains(self@, hash@),
    {
        let mut i: usize = 0;
        while i < self.entries.len()
            invariant
                0 <= i <= self@.len(),
                forall|j: int| 0 <= j < i ==> (#[trigger] self@[j]).0 != hash@,
            decreases self@.len() - i,
        {
            if fb32_eq(&self.entries[i].0, hash) {
                proof {
                    assert(self@[i as int].0 == hash@);
                }
                return Some(i);
            }
            i = i + 1;
        }
        None
    }

    /// The entry for a hash, `Absent` when none is stored.
    pub fn get_block_rc(&self, hash: &BlockHash) -> (r: RcEntry)
        requires
            self.wf(),
        ensures
            r == rc_entry_of(self@, hash@),
    {
        match self.find(hash) {
            Some(i) => {
                proof {
                    let w = choose|w: int| 0 <= w < self@.len() && (#[trigger] self@[w]).0 == hash@;
                    assert(w == i);
                }
                self.entries[i].1
            }
            None => RcEntry::Absent,
        }
    }

    /// Increment the reference count of a block. Returns true when the
    /// count rose from zero: the block is now needed here but may not have
    /// arrived yet, so the caller schedules an early resync check.
    pub fn block_incref(&mut self, hash: &BlockHash) -> (r: bool)
        requires
            old(self).wf(),
            rc_count(old(self)@, hash@) < u64::MAX,
        ensures
            final(self).wf(),
            r == (rc_count(old(self)@, hash@) == 0),
            rc_count(final(self)@, hash@) == rc_count(old(self)@, hash@) + 1,
            rc_entry_of(final(self)@, hash@) == (RcEntry::Present {
                count: (rc_count(old(self)@, hash@) + 1) as u64,
            }),
            forall|h2: Seq<u8>|
                h2 != hash@ ==> #[trigger] rc_entry_of(final(self)@, h2) == rc_entry_of(
                    old(self)@,
                    h2,
                ),
    {
        let ghost s0 = self@;
        match self.find(hash) {
            Some(i) => {
                proof {
                    let w = choose|w: int| 0 <= w < s0.len() && (#[trigger] s0[w]).0 == hash@;
                    assert(w == i);
                }
                let e = self.entries[i].1;
                let went_up = match e {
                    RcEntry::Present { count } => {
                        self.entries[i] = (self.entries[i].0, RcEntry::Present {
                            count: count + 1,
                        });
                        false
                    }
                    _ => {
                        self.entries[i] = (self.entries[i].0, RcEntry::Present { count: 1 });
                        true
                    }
                };
                proof {
                    lemma_rc_frame_update(s0, self@, i as int, hash@);
                    assert forall|q: int| 0 <= q < self@.len() implies match (
                    #[trigger] self@[q]).1 {
                        RcEntry::Present { count } => count >= 1,
                        RcEntry::Deletable { .. } => true,
                        RcEntry::Absent => false,
                    } by {
                        if q != i {
                            assert(self@[q] == s0[q]);
                        }
                    };
                }
                went_up
            }
            None => {
                self.entries.push((*hash, RcEntry::Present { count: 1 }));
                proof {
                    assert(self@ =~= s0.push((hash@, RcEntry::Present { count: 1 })));
                    lemma_rc_frame_push(s0, self@, hash@);
                    assert forall|q: int| 0 <= q < self@.len() implies match (
                    #[trigger] self@[q]).1 {
                        RcEntry::Present { count } => count >= 1,
                        RcEntry::Deletable { .. } => true,
                        RcEntry::Absent => false,
                    } by {
                        if q < s0.len() {
                            assert(self@[q] == s0[q]);
                        }
                    };
                }
                true
            }
        }
    }

    /// Decrement the reference count of a block. When it drops to zero the
    /// entry turns into a tombstone dated `now + BLOCK_GC_DELAY_MSEC`, and
    /// true is returned so that the caller schedules the deletion check.
    pub fn block_decref(&mut self, hash: &BlockHash, now: u64) -> (r: bool)
        requires
            old(self).wf(),
            now + BLOCK_GC_DELAY_MSEC <= u64::MAX,
        ensures
            final(self).wf(),
            r == (rc_count(old(self)@, hash@) == 1),
            rc_count(old(self)@, hash@) > 0 ==> rc_count(final(self)@, hash@) == rc_count(
                old(self)@,
                hash@,
            ) - 1,
            rc_count(old(self)@, hash@) == 0 ==> rc_entry_of(final(self)@, hash@) == rc_entry_of(
                old(self)@,
                hash@,
            ),
            rc_count(old(self)@, hash@) == 1 ==> rc_entry_of(final(self)@, hash@) == (
            RcEntry::Deletable { at_time: (now + BLOCK_GC_DELAY_MSEC) as u64 }),
            forall|h2: Seq<u8>|
                h2 != hash@ ==> #[trigger] rc_entry_of(final(self)@, h2) == rc_entry_of(
                    old(self)@,
                    h2,
                ),
    {
        let ghost s0 = self@;
        match self.find(hash) {
            Some(i) => {
                proof {
                    let w = choose|w: int| 0 <= w < s0.len() && (#[trigger] s0[w]).0 == hash@;
                    assert(w == i);
                }
                let e = self.entries[i].1;
                match e {
                    RcEntry::Present { count } => {
                        if count <= 1 {
                            self.entries[i] = (self.entries[i].0, RcEntry::Deletable {
                                at_time: now + BLOCK_GC_DELAY_MSEC,
                            });
                            proof {
                                lemma_rc_frame_update(s0, self@, i as int, hash@);
                                assert forall|q: int| 0 <= q < self@.len() implies match (
                                #[trigger] self@[q]).1 {
                                    RcEntry::Present { count } => count >= 1,
                                    RcEntry::Deletable { .. } => true,
                                    RcEntry::Absent => false,
                                } by {
                                    if q != i {
                                        assert(self@[q] == s0[q]);
                                    }
                                };
                            }
                            true
                        } else {
                            self.entries[i] = (self.entries[i].0, RcEntry::Present {
                                count: count - 1,
                            });
                            proof {
                                lemma_rc_frame_update(s0, self@, i as int, hash@);
                                assert forall|q: int| 0 <= q < self@.len() implies match (
                                #[trigger] self@[q]).1 {
                                    RcEntry::Present { count } => count >= 1,
                                    RcEntry::Deletable { .. } => true,
                                    RcEntry::Absent => false,
                                } by {
                                    if q != i {
                                        assert(self@[q] == s0[q]);
                                    }
                                };
                            }
                            false
                        }
                    }
                    _ => {
                        proof {
                            assert(self@ =~= s0);
                        }
                        false
                    }
                }
            }
            None => false,
        }
    }

    /// Drop the tombstone of a block whose deletion went through; a count
    /// that rose again in the meantime is left alone.
    pub fn clear_deleted_block_rc(&mut self, hash: &BlockHash)
        requires
            old(self).wf(),
        ensures
            final(self).wf(),
            rc_entry_of(old(self)@, hash@) is Deletable ==> rc_entry_of(final(self)@, hash@)
                is Absent,
            !(rc_entry_of(old(self)@, hash@) is Deletable) ==> rc_entry_of(final(self)@, hash@)
                == rc_entry_of(old(self)@, hash@),
            forall|h2: Seq<u8>|
                h2 != hash@ ==> #[trigger] rc_entry_of(final(self)@, h2) == rc_entry_of(
                    old(self)@,
                    h2,
                ),
    {
        let ghost s0 = self@;
        match self.find(hash) {
            Some(i) => {
                proof {
                    let w = choose|w: int| 0 <= w < s0.len() && (#[trigger] s0[w]).0 == hash@;
                    assert(w == i);
                }
                let is_tomb = match self.entries[i].1 {
                    RcEntry::Deletable { .. } => true,
                    _ => false,
                };
                if is_tomb {
                    self.entries.remove(i);
                    proof {
                        assert(self@ =~= s0.remove(i as int));
                        lemma_rc_frame_remove(s0, self@, i as int, hash@);
                    }
                }
            }
            None => {}
        }
    }
}

/// Updating position `p` (key `h`) leaves every other hash's entry alone.
proof fn lemma_rc_frame_update(s0: Seq<(Seq<u8>, RcEntry)>, s1: Seq<(Seq<u8>, RcEntry)>, p: int, h: Seq<u8>)
    requires
        forall|i: int, j: int|
            0 <= i < s0.len() && 0 <= j < s0.len() && i != j ==> (#[trigger] s0[i]).0 != (
            #[trigger] s0[j]).0,
        0 <= p < s0.len(),
        s0[p].0 == h,
        s1.len() == s0.len(),
        s1[p].0 == h,
        forall|i: int| 0 <= i < s0.len() && i != p ==> #[trigger] s1[i] == s0[i],
    ensures
        forall|i: int, j: int|
            0 <= i < s1.len() && 0 <= j < s1.len() && i != j ==> (#[trigger] s1[i]).0 != (
            #[trigger] s1[j]).0,
        rc_entry_of(s1, h) == s1[p].1,
        rc_entry_of(s0, h) == s0[p].1,
        forall|h2: Seq<u8>| h2 != h ==> #[trigger] rc_entry_of(s1, h2) == rc_entry_of(s0, h2),
{
    assert forall|i: int, j: int|
        0 <= i < s1.len() && 0 <= j < s1.len() && i != j implies (#[trigger] s1[i]).0 != (
    #[trigger] s1[j]).0 by {
        assert(s1[i].0 == s0[i].0 && s1[j].0 == s0[j].0);
    };
    assert(rc_contains(s1, h));
    let w1 = choose|i: int| 0 <= i < s1.len() && (#[trigger] s1[i]).0 == h;
    assert(w1 == p);
    let w0 = choose|i: int| 0 <= i < s0.len() && (#[trigger] s0[i]).0 == h;
    assert(w0 == p);
    assert forall|h2: Seq<u8>| h2 != h implies #[trigger] rc_entry_of(s1, h2) == rc_entry_of(
        s0,
        h2,
    ) by {
        if rc_contains(s0, h2) {
            let i = choose|i: int| 0 <= i < s0.len() && (#[trigger] s0[i]).0 == h2;
            assert(i != p);
            assert(s1[i].0 == h2);
            let i1 = choose|i1: int| 0 <= i1 < s1.len() && (#[trigger] s1[i1]).0 == h2;
            assert(i1 == i);
        }
        if rc_contains(s1, h2) {
            let i = choose|i: int| 0 <= i < s1.len() && (#[trigger] s1[i]).0 == h2;
            assert(i != p);
            assert(s0[i].0 == h2);
        }
    };
}

/// Appending a fresh hash leaves every other hash's entry alone.
proof fn lemma_rc_frame_push(s0: Seq<(Seq<u8>, RcEntry)>, s1: Seq<(Seq<u8>, RcEntry)>, h: Seq<u8>)
    requires
        forall|i: int, j: int|
            0 <= i < s0.len() && 0 <= j < s0.len() && i != j ==> (#[trigger] s0[i]).0 != (
            #[trigger] s0[j]).0,
        !rc_contains(s0, h),
        s1.len() == s0.len() + 1,
        s1[s0.len() as int].0 == h,
        forall|i: int| 0 <= i < s0.len() ==> #[trigger] s1[i] == s0[i],
    ensures
        forall|i: int, j: int|
            0 <= i < s1.len() && 0 <= j < s1.len() && i != j ==> (#[trigger] s1[i]).0 != (
            #[trigger] s1[j]).0,
        rc_entry_of(s1, h) == s1[s0.len() as int].1,
        rc_entry_of(s0, h) is Absent,
        forall|h2: Seq<u8>| h2 != h ==> #[trigger] rc_entry_of(s1, h2) == rc_entry_of(s0, h2),
{
    let p = s0.len() as int;
    assert forall|i: int, j: int|
        0 <= i < s1.len() && 0 <= j < s1.len() && i != j implies (#[trigger] s1[i]).0 != (
    #[trigger] s1[j]).0 by {
        if i < p && j < p {
        } else if i == p && j < p {
            assert(s1[j].0 == s0[j].0);
        } else if j == p && i < p {
            assert(s1[i].0 == s0[i].0);
        }
    };
    assert(rc_contains(s1, h));
    let w1 = choose|i: int| 0 <= i < s1.len() && (#[trigger] s1[i]).0 == h;
    assert(w1 == p);
    assert forall|h2: Seq<u8>| h2 != h implies #[trigger] rc_entry_of(s1, h2) == rc_entry_of(
        s0,
        h2,
    ) by {
        if rc_contains(s0, h2) {
            let i = choose|i: int| 0 <= i < s0.len() && (#[trigger] s0[i]).0 == h2;
            assert(s1[i].0 == h2);
            let i1 = choose|i1: int| 0 <= i1 < s1.len() && (#[trigger] s1[i1]).0 == h2;
            assert(i1 == i);
        }
        if rc_contains(s1, h2) {
            let i = choose|i: int| 0 <= i < s1.len() && (#[trigger] s1[i]).0 == h2;
            assert(i != p);
            assert(s0[i].0 == h2);
        }
    };
}

/// Removing the entry at `p` (key `h`) leaves every other hash's entry
/// alone.
proof fn lemma_rc_frame_remove(s0: Seq<(Seq<u8>, RcEntry)>, s1: Seq<(Seq<u8>, RcEntry)>, p: int, h: Seq<u8>)
    requires
        forall|i: int, j: int|
            0 <= i < s0.len() && 0 <= j < s0.len() && i != j ==> (#[trigger] s0[i]).0 != (
            #[trigger] s0[j]).0,
        0 <= p < s0.len(),
        s0[p].0 == h,
        s1 == s0.remove(p),
    ensures
        forall|i: int, j: int|
            0 <= i < s1.len() && 0 <= j < s1.len() && i != j ==> (#[trigger] s1[i]).0 != (
            #[trigger] s1[j]).0,
        rc_entry_of(s1, h) is Absent,
        forall|h2: Seq<u8>| h2 != h ==> #[trigger] rc_entry_of(s1, h2) == rc_entry_of(s0, h2),
{
    assert(s1.len() == s0.len() - 1);
    assert(forall|i: int| 0 <= i < p ==> #[trigger] s1[i] == s0[i]);
    assert(forall|i: int| p <= i < s1.len() ==> #[trigger] s1[i] == s0[i + 1]);
    assert forall|i: int, j: int|
        0 <= i < s1.len() && 0 <= j < s1.len() && i != j implies (#[trigger] s1[i]).0 != (
    #[trigger] s1[j]).0 by {
        let i0 = if i < p {
            i
        } else {
            i + 1
        };
        let j0 = if j < p {
            j
        } else {
            j + 1
        };
        assert(s1[i].0 == s0[i0].0 && s1[j].0 == s0[j0].0);
    };
    if rc_contains(s1, h) {
        let i = choose|i: int| 0 <= i < s1.len() && (#[trigger] s1[i]).0 == h;
        let i0 = if i < p {
            i
        } else {
            i + 1
        };
        assert(s0[i0].0 == h);
        assert(false);
    }
    assert forall|h2: Seq<u8>| h2 != h implies #[trigger] rc_entry_of(s1, h2) == rc_entry_of(
        s0,
        h2,
    ) by {
        if rc_contains(s0, h2) {
            let i = choose|i: int| 0 <= i < s0.len() && (#[trigger] s0[i]).0 == h2;
            assert(i != p);
            let i1 = if i < p {
                i
            } else {
                i - 1
            };
            assert(s1[i1].0 == h2);
            let w = choose|w: int| 0 <= w < s1.len() && (#[trigger] s1[w]).0 == h2;
            assert(w == i1);
            assert(s1[i1].1 == s0[i].1);
        }
        if rc_contains(s1, h2) {
            let i = choose|i: int| 0 <= i < s1.len() && (#[trigger] s1[i]).0 == h2;
            let i0 = if i < p {
                i
            } else {
                i + 1
            };
            assert(s0[i0].0 == h2);
        }
    };
}

// ---- Reference-count soundness -----------------------------------------

/// Number of non-deleted block references that point at a hash.
pub open spec fn spec_live_refs(refs: Seq<crate::version_table::BlockRefV>, h: Seq<u8>) -> int
    decreases refs.len(),
{
    if refs.len() == 0 {
        0
    } else {
        spec_live_refs(refs.drop_last(), h) + if refs.last().block == h && !refs.last().deleted {
            1int
        } else {
            0int
        }
    }
}

proof fn lemma_live_refs_nonneg(refs: Seq<crate::version_table::BlockRefV>, h: Seq<u8>)
    ensures
        0 <= spec_live_refs(refs, h) <= refs.len(),
    decreases refs.len(),
{
    if refs.len() > 0 {
        lemma_live_refs_nonneg(refs.drop_last(), h);
    }
}

/// Reference-count soundness: rebuilding the counter from a converged
/// block-reference table gives, for every hash, exactly the number of
/// non-deleted references pointing at it.
pub fn rc_from_refs(refs: &Vec<BlockRef>) -> (r: BlockRc)
    requires
        refs@.len() < u64::MAX,
    ensures
        r.wf(),
        forall|h: Seq<u8>| #[trigger]
            rc_count(r@, h) == spec_live_refs(
                Seq::new(refs@.len(), |i: int| refs@[i]@),
                h,
            ),
{
    let ghost rv = Seq::new(refs@.len(), |i: int| refs@[i]@);
    let mut rc = BlockRc::new();
    proof {
        assert forall|h: Seq<u8>| #[trigger] rc_count(rc@, h) == spec_live_refs(
            rv.take(0),
            h,
        ) by {
            assert(rv.take(0) =~= Seq::<crate::version_table::BlockRefV>::empty());
            if rc_contains(rc@, h) {
                let i = choose|i: int| 0 <= i < rc@.len() && (#[trigger] rc@[i]).0 == h;
                assert(false);
            }
        };
    }
    let mut i: usize = 0;
    while i < refs.len()
        invariant
            0 <= i <= rv.len(),
            rv == Seq::new(refs@.len(), |j: int| refs@[j]@),
            rv.len() < u64::MAX,
            rc.wf(),
            forall|h: Seq<u8>| #[trigger] rc_count(rc@, h) == spec_live_refs(rv.take(i as int), h),
        decreases refs@.len() - i,
    {
        let ghost before = rc@;
        proof {
            assert(rv.take(i + 1).drop_last() =~= rv.take(i as int));
            assert(rv.take(i + 1).last() == rv[i as int]);
            lemma_live_refs_nonneg(rv.take(i as int), refs@[i as int]@.block);
        }
        if !refs[i].deleted {
            let h = refs[i].block;
            proof {
                assert(rc_count(before, h@) == spec_live_refs(rv.take(i as int), h@));
                assert(spec_live_refs(rv.take(i as int), h@) <= i);
            }
            rc.block_incref(&h);
            proof {
                assert(rc_count(rc@, h@) == rc_count(before, h@) + 1);
            }
        }
        proof {
            assert forall|h: Seq<u8>| #[trigger] rc_count(rc@, h) == spec_live_refs(
                rv.take(i + 1),
                h,
            ) by {
                assert(rv[i as int] == refs@[i as int]@);
                if h != rv[i as int].block || rv[i as int].deleted {
                    assert(spec_live_refs(rv.take(i + 1), h) == spec_live_refs(
                        rv.take(i as int),
                        h,
                    ));
                    if !rv[i as int].deleted && h != rv[i as int].block {
                        assert(rc_entry_of(rc@, h) == rc_entry_of(before, h));
                        assert(rc_count(rc@, h) == rc_count(before, h));
                    }
                } else {
                    assert(spec_live_refs(rv.take(i + 1), h) == spec_live_refs(rv.take(i as int), h)
                        + 1);
                    assert(rc_count(rc@, h) == rc_count(before, h) + 1);
                }
            };
        }
        i = i + 1;
    }
    proof {
        assert(rv.take(rv.len() as int) =~= rv);
    }
    rc
}

} // verus!
