//! The block manager: local storage decisions for content-addressed
//! blocks, the reference-count hooks, and the resynchronization engine
//! that reconciles the local block set with what cluster peers expect
//! this node to hold. Disk and network I/O live outside; everything here
//! decides what to read, write, send or delete, and is verified.

use vstd::prelude::*;
use vstd::string::StringExecFns;

use crate::block::{blake2b_of, unpacked, DataBlock};
use crate::data::{bytes_lt, fb32_cmp, fb32_eq, hex_encode, hex_of, BlockHash, Uuid};
use crate::error::Error;
use crate::rc::{rc_count, rc_entry_of, spec_deletable, BlockRc, RcEntry, BLOCK_GC_DELAY_MSEC};
use crate::rpc_helper::{count_successes, RequestStrategy, PRIO_BACKGROUND, PRIO_NORMAL};

verus! {

/// Size under which object data is stored inline in the object table
/// instead of as blocks on disk.
pub const INLINE_THRESHOLD: usize = 3072;

/// Tranquility factor of the background resync worker.
pub const BACKGROUND_TRANQUILITY: u32 = 2;

/// Timeout for RPCs that read and write blocks on remote nodes, in
/// milliseconds.
pub const BLOCK_RW_TIMEOUT_MSEC: u64 = 30000;

/// Timeout for asking other nodes whether they need a block before it is
/// deleted locally, in milliseconds.
pub const NEED_BLOCK_QUERY_TIMEOUT_MSEC: u64 = 5000;

/// Base delay between a failed resync operation and its retry; doubled on
/// every consecutive failure, up to a cap.
pub const RESYNC_RETRY_DELAY_MSEC: u64 = 60000;

/// RPC messages used to share blocks of data between nodes.
pub enum BlockRpc {
    /// Plain acknowledgement of a write
    Ack,
    /// Ask for a block of data, by hash
    GetBlock(BlockHash),
    /// Carry a block of data, in answer to `GetBlock` or for first delivery
    PutBlock { hash: BlockHash, data: DataBlock },
    /// Ask another node whether it should have this block but lacks it
    NeedBlockQuery(BlockHash),
    /// Answer: whether the asked node requires the block
    NeedBlockReply(bool),
}

/// Replication parameters of the sharded tables and of block storage.
#[derive(Clone, Copy, Debug)]
pub struct TableShardedReplication {
    /// Number of replicas of each partition
    pub replication_factor: usize,
    /// Number of acknowledgements a write needs
    pub write_quorum: usize,
    /// Number of answers a read needs
    pub read_quorum: usize,
}

/// What is known locally about one block: whether a file for it is on
/// disk, and what the reference counter says.
pub struct BlockStatus {
    pub exists: bool,
    pub needed: RcEntry,
}

/// The on-disk form a block was found in.
#[derive(Clone, Copy, Debug)]
pub enum StoredForm {
    /// No file for this block
    Absent,
    /// A plain file
    Plain,
    /// A zstd-compressed file
    Compressed,
}

/// What a block write must do, given the form already on disk and the
/// form that arrived: compressed data replaces a plain file, everything
/// else that is already present is left alone, and writes go through a
/// temporary file so a crash never leaves a half-written block.
#[derive(Clone, Copy, Debug)]
pub enum WriteAction {
    /// The stored form is already at least as good: do nothing
    AlreadyStored,
    /// Write the incoming form; if `delete_plain`, remove the plain file
    /// that the compressed one replaces
    WriteNew { compressed: bool, delete_plain: bool },
}

/// The decision table of a block write.
pub fn write_block_plan(existing: StoredForm, incoming_compressed: bool) -> (r: WriteAction)
    ensures
        existing is Compressed ==> r is AlreadyStored,
        existing is Plain && !incoming_compressed ==> r is AlreadyStored,
        existing is Plain && incoming_compressed ==> r == (WriteAction::WriteNew {
            compressed: true,
            delete_plain: true,
        }),
        existing is Absent ==> r == (WriteAction::WriteNew {
            compressed: incoming_compressed,
            delete_plain: false,
        }),
{
    match (existing, incoming_compressed) {
        (StoredForm::Compressed, _) => WriteAction::AlreadyStored,
        (StoredForm::Plain, false) => WriteAction::AlreadyStored,
        (StoredForm::Plain, true) => WriteAction::WriteNew { compressed: true, delete_plain: true },
        (StoredForm::Absent, c) => WriteAction::WriteNew { compressed: c, delete_plain: false },
    }
}

// ---- Resync queue ------------------------------------------------------

/// Order of resync queue entries: by due time, ties broken by hash, as the
/// on-disk key `be64(when) || hash` orders them.
pub open spec fn qkey_lt(a: (u64, Seq<u8>), b: (u64, Seq<u8>)) -> bool {
    a.0 < b.0 || (a.0 == b.0 && bytes_lt(a.1, b.1))
}

pub open spec fn queue_contains(s: Seq<(u64, Seq<u8>)>, e: (u64, Seq<u8>)) -> bool {
    exists|i: int| 0 <= i < s.len() && #[trigger] s[i] == e
}

/// The resynchronization queue: hashes to re-examine, each at a due time.
/// Iterating in key order is iterating in time order.
pub struct ResyncQueue {
    /// The entries, strictly sorted by `(when, hash)`.
    pub entries: Vec<(u64, BlockHash)>,
}

impl View for ResyncQueue {
    type V = Seq<(u64, Seq<u8>)>;

    open spec fn view(&self) -> Seq<(u64, Seq<u8>)> {
        Seq::new(self.entries@.len(), |i: int| (self.entries@[i].0, self.entries@[i].1@))
    }
}

impl ResyncQueue {
    pub open spec fn wf(&self) -> bool {
        forall|i: int, j: int|
            0 <= i < j < self@.len() ==> qkey_lt(#[trigger] self@[i], #[trigger] self@[j])
    }

    pub fn new() -> (r: ResyncQueue)
        ensures
            r.wf(),
            r@.len() == 0,
    {
        let r = ResyncQueue { entries: Vec::new() };
        proof {
            assert(r@ =~= Seq::<(u64, Seq<u8>)>::empty());
        }
        r
    }

    pub fn len(&self) -> (r: usize)
        ensures
            r == self@.len(),
    {
        self.entries.len()
    }

    /// Schedule a hash for re-examination at an absolute time.
    pub fn put_to_resync_at(&mut self, hash: &BlockHash, when: u64)
        requires
            old(self).wf(),
        ensures
            final(self).wf(),
            queue_contains(final(self)@, (when, hash@)),
            forall|e: (u64, Seq<u8>)|
                #[trigger] queue_contains(final(self)@, e) == (queue_contains(old(self)@, e) || e
                    == (when, hash@)),
    {
        let ghost s0 = self@;
        let mut i: usize = 0;
        while i < self.entries.len()
            invariant
                0 <= i <= s0.len(),
                s0 == self@,
                s0 == old(self)@,
                self.wf(),
                forall|j: int| 0 <= j < i ==> qkey_lt(#[trigger] s0[j], (when, hash@)),
            decreases s0.len() - i,
        {
            let (w, h) = self.entries[i];
            let c = fb32_cmp(&h, hash);
            if w == when && c == 0 {
                proof {
                    assert(s0[i as int] == (when, hash@));
                    assert forall|e: (u64, Seq<u8>)|
                        #[trigger] queue_contains(self@, e) == (queue_contains(s0, e) || e == (
                            when,
                            hash@,
                        )) by {};
                }
                return;
            }
            if when < w || (when == w && c == 1) {
                // The new entry sorts before position i.
                proof {
                    assert(qkey_lt((when, hash@), s0[i as int]));
                    assert forall|j: int| i <= j < s0.len() implies qkey_lt(
                        (when, hash@),
                        #[trigger] s0[j],
                    ) by {
                        if j > i {
                            assert(qkey_lt(s0[i as int], s0[j]));
                            if (when, hash@).0 == s0[j].0 {
                                crate::data::lemma_bytes_lt_trans(hash@, s0[i as int].1, s0[j].1);
                            }
                        }
                    };
                }
                self.entries.insert(i, (when, *hash));
                proof {
                    let t = self@;
                    assert(t =~= s0.take(i as int) + seq![(when, hash@)] + s0.skip(i as int));
                    assert(t.len() == s0.len() + 1);
                    assert(forall|q: int| 0 <= q < i ==> #[trigger] t[q] == s0[q]);
                    assert(t[i as int] == (when, hash@));
                    assert(forall|q: int| i < q < t.len() ==> #[trigger] t[q] == s0[q - 1]);
                    assert forall|a: int, b: int| 0 <= a < b < t.len() implies qkey_lt(
                        #[trigger] t[a],
                        #[trigger] t[b],
                    ) by {
                        if a < i && b == i {
                        } else if a == i && b > i {
                        } else if a < i && b > i {
                            assert(qkey_lt(t[a], (when, hash@)) && qkey_lt((when, hash@), t[b]));
                            if t[a].0 == t[b].0 {
                                crate::data::lemma_bytes_lt_trans(t[a].1, hash@, t[b].1);
                            }
                        }
                    };
                    assert forall|e: (u64, Seq<u8>)|
                        #[trigger] queue_contains(t, e) == (queue_contains(s0, e) || e == (
                            when,
                            hash@,
                        )) by {
                        if queue_contains(t, e) {
                            let q = choose|q: int| 0 <= q < t.len() && #[trigger] t[q] == e;
                            if q < i {
                                assert(s0[q] == e);
                            } else if q > i {
                                assert(s0[q - 1] == e);
                            }
                        }
                        if queue_contains(s0, e) {
                            let q = choose|q: int| 0 <= q < s0.len() && #[trigger] s0[q] == e;
                            if q < i {
                                assert(t[q] == e);
                            } else {
                                assert(t[q + 1] == e);
                            }
                        }
                    };
                }
                return;
            }
            proof {
                if !(qkey_lt(s0[i as int], (when, hash@))) {
                    crate::data::lemma_bytes_lt_total(s0[i as int].1, hash@);
                    assert(false);
                }
            }
            i = i + 1;
        }
        self.entries.push((when, *hash));
        proof {
            let t = self@;
            assert(t =~= s0.push((when, hash@)));
            assert(t[s0.len() as int] == (when, hash@));
            assert forall|e: (u64, Seq<u8>)|
                #[trigger] queue_contains(t, e) == (queue_contains(s0, e) || e == (
                    when,
                    hash@,
                )) by {
                if queue_contains(t, e) {
                    let q = choose|q: int| 0 <= q < t.len() && #[trigger] t[q] == e;
                    if q < s0.len() {
                        assert(s0[q] == e);
                    }
                }
                if queue_contains(s0, e) {
                    let q = choose|q: int| 0 <= q < s0.len() && #[trigger] s0[q] == e;
                    assert(t[q] == e);
                }
            };
        }
    }

    /// The earliest entry of the queue, if any.
    pub fn peek_first(&self) -> (r: Option<(u64, BlockHash)>)
        requires
            self.wf(),
        ensures
            r is None <==> self@.len() == 0,
            r matches Some(e) ==> self@.len() > 0 && (e.0, e.1@) == self@[0] && forall|j: int|
                0 < j < self@.len() ==> qkey_lt(self@[0], #[trigger] self@[j]),
    {
        if self.entries.len() == 0 {
            None
        } else {
            Some(self.entries[0])
        }
    }

    /// Drop the earliest entry.
    pub fn pop_first(&mut self)
        requires
            old(self).wf(),
            old(self)@.len() > 0,
        ensures
            final(self).wf(),
            final(self)@ =~= old(self)@.skip(1),
    {
        self.entries.remove(0);
        proof {
            assert(self@ =~= old(self)@.skip(1));
        }
    }
}

// ---- Resync decisions --------------------------------------------------

/// Counts consecutive resync failures of one block, with the time of the
/// last try; drives the exponential retry backoff.
#[derive(Clone, Copy, Debug)]
pub struct ErrorCounter {
    pub errors: u64,
    pub last_try: u64,
}

/// 2 to the `k`-th power.
pub open spec fn pow2(k: nat) -> nat
    decreases k,
{
    if k == 0 {
        1
    } else {
        2 * pow2((k - 1) as nat)
    }
}

/// The retry delay after `errors` consecutive failures:
/// `RESYNC_RETRY_DELAY_MSEC * 2^min(errors - 1, 10)`.
pub open spec fn spec_retry_delay(errors: u64) -> int
    recommends
        errors >= 1,
{
    RESYNC_RETRY_DELAY_MSEC * pow2(if errors - 1 < 10 {
        (errors - 1) as nat
    } else {
        10nat
    })
}

impl ErrorCounter {
    pub fn new(now: u64) -> (r: ErrorCounter)
        ensures
            r.errors == 1,
            r.last_try == now,
    {
        ErrorCounter { errors: 1, last_try: now }
    }

    /// One more failure, at time `now`.
    pub fn add1(self, now: u64) -> (r: ErrorCounter)
        requires
            self.errors < u64::MAX,
        ensures
            r.errors == self.errors + 1,
            r.last_try == now,
    {
        ErrorCounter { errors: self.errors + 1, last_try: now }
    }

    /// The backoff delay before the next try, in milliseconds: the base
    /// retry delay doubled for every consecutive failure, capped at
    /// 2 to the 10th (about 17 hours).
    pub fn delay_msec(&self) -> (r: u64)
        requires
            self.errors >= 1,
        ensures
            r == spec_retry_delay(self.errors),
    {
        let exp = if self.errors - 1 < 10 {
            self.errors - 1
        } else {
            10
        };
        let mut factor: u64 = 1;
        let mut k: u64 = 0;
        while k < exp
            invariant
                0 <= k <= exp <= 10,
                factor == pow2(k as nat),
                factor <= 1024,
            decreases exp - k,
        {
            proof {
                lemma_pow2_bounded((k + 1) as nat);
            }
            factor = factor * 2;
            k = k + 1;
        }
        RESYNC_RETRY_DELAY_MSEC * factor
    }

    /// When the next try is due.
    pub fn next_try(&self) -> (r: u64)
        requires
            self.errors >= 1,
            self.last_try + spec_retry_delay(self.errors) <= u64::MAX,
        ensures
            r == self.last_try + spec_retry_delay(self.errors),
    {
        self.last_try + self.delay_msec()
    }
}

proof fn lemma_pow2_pos(k: nat)
    ensures
        pow2(k) >= 1,
    decreases k,
{
    if k > 0 {
        lemma_pow2_pos((k - 1) as nat);
    }
}

proof fn lemma_pow2_mono(a: nat, b: nat)
    requires
        a <= b,
    ensures
        pow2(a) <= pow2(b),
    decreases b,
{
    if a < b {
        lemma_pow2_mono(a, (b - 1) as nat);
        lemma_pow2_pos((b - 1) as nat);
    }
}

proof fn lemma_pow2_bounded(k: nat)
    requires
        k <= 10,
    ensures
        pow2(k) <= 1024,
{
    lemma_pow2_mono(k, 10);
    assert(pow2(1) == 2 * pow2(0));
    assert(pow2(2) == 2 * pow2(1));
    assert(pow2(3) == 2 * pow2(2));
    assert(pow2(4) == 2 * pow2(3));
    assert(pow2(5) == 2 * pow2(4));
    assert(pow2(6) == 2 * pow2(5));
    assert(pow2(7) == 2 * pow2(6));
    assert(pow2(8) == 2 * pow2(7));
    assert(pow2(9) == 2 * pow2(8));
    assert(pow2(10) == 2 * pow2(9));
    assert(pow2(0) == 1);
    assert(pow2(10) == 1024);
}

/// The tranquilizer: background workers sleep `tranquility` times as
/// long as their last unit of work took, bounding their share of the
/// disk and CPU to roughly `1 / (tranquility + 1)`.
pub fn tranquilizer_delay_msec(work_ms: u64, tranquility: u32) -> (r: u64)
    ensures
        work_ms * tranquility <= u64::MAX ==> r == work_ms * tranquility,
        work_ms * tranquility > u64::MAX ==> r == u64::MAX,
{
    if tranquility == 0 {
        return 0;
    }
    let t = tranquility as u64;
    if work_ms > u64::MAX / t {
        proof {
            assert(work_ms * t > u64::MAX) by (nonlinear_arith)
                requires
                    t >= 1,
                    work_ms > u64::MAX / t,
                    u64::MAX / t == u64::MAX as int / t as int,
            ;
        }
        u64::MAX
    } else {
        proof {
            assert(work_ms * t <= u64::MAX) by (nonlinear_arith)
                requires
                    t >= 1,
                    work_ms <= u64::MAX / t,
                    u64::MAX / t == u64::MAX as int / t as int,
            ;
        }
        work_ms * t
    }
}

/// What one turn of the resync loop does, given the head of the queue.
pub enum ResyncIterStep {
    /// Nothing queued: wait for a notification
    EmptyQueue,
    /// The head entry is not due yet: sleep until then
    NotDue { wait_until: u64 },
    /// The block failed recently; keep it queued for its backoff time and
    /// do nothing now
    SkipErrorBackoff { requeue_at: u64 },
    /// Examine this block now
    Run { hash: BlockHash },
}

/// The decision at the top of each resync iteration: take the earliest
/// queue entry; if it is due, honour the error backoff before touching
/// the block again.
pub fn resync_iter_decision(
    first: Option<(u64, BlockHash)>,
    err: Option<ErrorCounter>,
    now: u64,
) -> (r: ResyncIterStep)
    requires
        err matches Some(ec) ==> ec.errors >= 1 && ec.last_try + spec_retry_delay(ec.errors)
            <= u64::MAX,
    ensures
        match first {
            None => r is EmptyQueue,
            Some(e) => if now < e.0 {
                r == (ResyncIterStep::NotDue { wait_until: e.0 })
            } else {
                match err {
                    Some(ec) => if now < ec.last_try + spec_retry_delay(ec.errors) {
                        r == (ResyncIterStep::SkipErrorBackoff {
                            requeue_at: (ec.last_try + spec_retry_delay(ec.errors)) as u64,
                        })
                    } else {
                        r == (ResyncIterStep::Run { hash: e.1 })
                    },
                    None => r == (ResyncIterStep::Run { hash: e.1 }),
                }
            },
        },
{
    match first {
        None => ResyncIterStep::EmptyQueue,
        Some((when, hash)) => {
            if now < when {
                ResyncIterStep::NotDue { wait_until: when }
            } else {
                match err {
                    Some(ec) => {
                        let nt = ec.next_try();
                        if now < nt {
                            ResyncIterStep::SkipErrorBackoff { requeue_at: nt }
                        } else {
                            ResyncIterStep::Run { hash }
                        }
                    }
                    None => ResyncIterStep::Run { hash },
                }
            }
        }
    }
}

/// What the resync of one block must do, from its local status.
#[derive(Clone, Copy, Debug)]
pub enum ResyncBlockAction {
    /// The block is stored here but unneeded past its grace delay: offer it
    /// to the other replicas, send it to those that need it, then delete
    /// the local file
    OffloadAndDelete,
    /// The block is needed here but missing: fetch it from a replica
    Fetch,
    /// Nothing to do
    Nothing,
}

/// The resync decision for one block: offload-and-delete exactly when a
/// file exists whose reference count is zero past the grace delay; fetch
/// exactly when references exist but the file does not.
pub fn resync_block_decision(exists: bool, needed: &RcEntry, now: u64) -> (r: ResyncBlockAction)
    ensures
        (r is OffloadAndDelete) <==> (exists && spec_deletable(*needed, now)),
        (r is Fetch) <==> (!exists && needed.spec_count() > 0),
        (r is Nothing) <==> !(exists && spec_deletable(*needed, now)) && !(!exists
            && needed.spec_count() > 0),
{
    if exists && needed.is_deletable(now) {
        ResyncBlockAction::OffloadAndDelete
    } else if !exists && needed.is_nonzero() {
        ResyncBlockAction::Fetch
    } else {
        ResyncBlockAction::Nothing
    }
}

/// The nodes that answered "yes, I need this block", in order.
pub open spec fn spec_needers(replies: Seq<(Seq<u8>, bool)>) -> Seq<Seq<u8>>
    decreases replies.len(),
{
    if replies.len() == 0 {
        Seq::empty()
    } else {
        spec_needers(replies.drop_last()) + if replies.last().1 {
            seq![replies.last().0]
        } else {
            Seq::empty()
        }
    }
}

/// From the `NeedBlockQuery` answers, the nodes the block must be sent to
/// before the local copy may be deleted.
pub fn offload_need_nodes(replies: &Vec<(Uuid, bool)>) -> (r: Vec<Uuid>)
    ensures
        Seq::new(r@.len(), |i: int| r@[i]@) =~= spec_needers(
            Seq::new(replies@.len(), |i: int| (replies@[i].0@, replies@[i].1)),
        ),
{
    let ghost rv = Seq::new(replies@.len(), |i: int| (replies@[i].0@, replies@[i].1));
    let mut r: Vec<Uuid> = Vec::new();
    let mut i: usize = 0;
    proof {
        assert(rv.take(0) =~= Seq::<(Seq<u8>, bool)>::empty());
        assert(Seq::new(r@.len(), |j: int| r@[j]@) =~= spec_needers(rv.take(0)));
    }
    while i < replies.len()
        invariant
            0 <= i <= rv.len(),
            rv == Seq::new(replies@.len(), |j: int| (replies@[j].0@, replies@[j].1)),
            Seq::new(r@.len(), |j: int| r@[j]@) =~= spec_needers(rv.take(i as int)),
        decreases rv.len() - i,
    {
        proof {
            assert(rv.take(i + 1).drop_last() =~= rv.take(i as int));
            assert(rv.take(i + 1).last() == rv[i as int]);
        }
        if replies[i].1 {
            r.push(replies[i].0);
        }
        proof {
            assert(Seq::new(r@.len(), |j: int| r@[j]@) =~= spec_needers(rv.take(i + 1)));
        }
        i = i + 1;
    }
    proof {
        assert(rv.take(rv.len() as int) =~= rv);
    }
    r
}

/// The send targets of an offload: every other replica of the block, or
/// a refusal when the cluster lacks a write quorum of replicas to offer
/// the block to (deleting would then risk the last copy).
pub open spec fn spec_other_nodes(nodes: Seq<Seq<u8>>, self_id: Seq<u8>) -> Seq<Seq<u8>>
    decreases nodes.len(),
{
    if nodes.len() == 0 {
        Seq::empty()
    } else {
        spec_other_nodes(nodes.drop_last(), self_id) + if nodes.last() == self_id {
            Seq::empty()
        } else {
            seq![nodes.last()]
        }
    }
}

impl BlockManager {
    /// Whom to offer an unneeded block before deleting it: the other
    /// replicas of its partition. Refused when fewer than a write quorum
    /// of replicas exist at all.
    pub fn offload_targets(&self, write_nodes: &Vec<Uuid>, self_id: &Uuid) -> (r: Result<
        Vec<Uuid>,
        Error,
    >)
        ensures
            r is Ok <==> write_nodes@.len() >= self.replication.write_quorum,
            r matches Ok(v) ==> Seq::new(v@.len(), |i: int| v@[i]@) =~= spec_other_nodes(
                Seq::new(write_nodes@.len(), |i: int| write_nodes@[i]@),
                self_id@,
            ),
            r matches Err(e) ==> e is Message,
    {
        if write_nodes.len() < self.replication.write_quorum {
            return Err(
                Error::Message(
                    String::from_str("not offloading: no quorum of nodes to write to"),
                ),
            );
        }
        let ghost wv = Seq::new(write_nodes@.len(), |i: int| write_nodes@[i]@);
        let mut out: Vec<Uuid> = Vec::new();
        let mut i: usize = 0;
        proof {
            assert(wv.take(0) =~= Seq::<Seq<u8>>::empty());
            assert(Seq::new(out@.len(), |j: int| out@[j]@) =~= spec_other_nodes(
                wv.take(0),
                self_id@,
            ));
        }
        while i < write_nodes.len()
            invariant
                0 <= i <= wv.len(),
                wv == Seq::new(write_nodes@.len(), |j: int| write_nodes@[j]@),
                Seq::new(out@.len(), |j: int| out@[j]@) =~= spec_other_nodes(
                    wv.take(i as int),
                    self_id@,
                ),
            decreases wv.len() - i,
        {
            proof {
                assert(wv.take(i + 1).drop_last() =~= wv.take(i as int));
                assert(wv.take(i + 1).last() == wv[i as int]);
            }
            if !fb32_eq(&write_nodes[i], self_id) {
                out.push(write_nodes[i]);
            }
            proof {
                assert(Seq::new(out@.len(), |j: int| out@[j]@) =~= spec_other_nodes(
                    wv.take(i + 1),
                    self_id@,
                ));
            }
            i = i + 1;
        }
        proof {
            assert(wv.take(wv.len() as int) =~= wv);
        }
        Ok(out)
    }
}

/// Offload before delete: when the block was offered to every needing
/// node with a full quorum (one acknowledgement per needer) and the send
/// succeeded, every needer holds the block; only then may the local file
/// go.
pub proof fn lemma_offload_before_delete<T>(outcomes: Seq<Option<T>>)
    requires
        count_successes(outcomes) >= outcomes.len(),
    ensures
        forall|i: int| 0 <= i < outcomes.len() ==> (#[trigger] outcomes[i]) is Some,
    decreases outcomes.len(),
{
    if outcomes.len() > 0 {
        lemma_successes_le(outcomes.drop_last());
        lemma_offload_before_delete(outcomes.drop_last());
        assert forall|i: int| 0 <= i < outcomes.len() implies (#[trigger] outcomes[i]) is Some by {
            if i < outcomes.len() - 1 {
                assert(outcomes.drop_last()[i] == outcomes[i]);
            }
        };
    }
}

proof fn lemma_successes_le<T>(s: Seq<Option<T>>)
    ensures
        count_successes(s) <= s.len(),
    decreases s.len(),
{
    if s.len() > 0 {
        lemma_successes_le(s.drop_last());
    }
}

/// Did any node answer the read with block data?
pub open spec fn has_block_answer(resps: Seq<BlockRpc>) -> bool {
    exists|i: int| 0 <= i < resps.len() && (#[trigger] resps[i]) is PutBlock
}

/// The position of the first data answer.
pub open spec fn first_put_block_index(resps: Seq<BlockRpc>) -> int {
    choose|i: int|
        0 <= i < resps.len() && (#[trigger] resps[i]) is PutBlock && (forall|j: int|
            0 <= j < i ==> !((#[trigger] resps[j]) is PutBlock))
}

/// The stored form carried by the first data answer.
pub open spec fn first_block_answer_data(resps: Seq<BlockRpc>) -> crate::block::DataBlockV {
    match resps[first_put_block_index(resps)] {
        BlockRpc::PutBlock { data, .. } => data@,
        _ => crate::block::DataBlockV::Plain(Seq::empty()),
    }
}

// ---- The manager itself ------------------------------------------------

/// The block manager: replication parameters, the data directory, the
/// local reference counter and the resync queue. Handling block exchange
/// between nodes and block storage on the local node is decided here; the
/// surrounding process performs the file and network operations.
pub struct BlockManager {
    /// Replication strategy, giving the nodes on which blocks belong
    pub replication: TableShardedReplication,
    /// Directory in which blocks are stored
    pub data_dir: String,
    /// Zstd compression level for newly stored blocks, `None` to store
    /// plain
    pub compression_level: Option<i32>,
    /// The local per-block reference counter
    pub rc: BlockRc,
    /// The local resynchronization queue
    pub resync_queue: ResyncQueue,
}

impl BlockManager {
    pub open spec fn wf(&self) -> bool {
        self.rc.wf() && self.resync_queue.wf()
    }

    pub fn new(
        data_dir: String,
        compression_level: Option<i32>,
        replication: TableShardedReplication,
    ) -> (r: BlockManager)
        ensures
            r.wf(),
            r.data_dir@ == data_dir@,
            r.compression_level == compression_level,
            r.replication == replication,
            r.rc@.len() == 0,
            r.resync_queue@.len() == 0,
    {
        BlockManager {
            replication,
            data_dir,
            compression_level,
            rc: BlockRc::new(),
            resync_queue: ResyncQueue::new(),
        }
    }

    /// Length of the resync queue.
    pub fn resync_queue_len(&self) -> (r: usize)
        ensures
            r == self.resync_queue@.len(),
    {
        self.resync_queue.len()
    }

    /// Number of entries in the reference-count table.
    pub fn rc_len(&self) -> (r: usize)
        ensures
            r == self.rc@.len(),
    {
        self.rc.len()
    }

    /// The directory in which a block's file sits: two levels of hex
    /// prefix under the data directory.
    pub fn block_dir(&self, hash: &BlockHash) -> (r: String)
        ensures
            r@ == self.data_dir@ + "/"@ + hex_of(hash@.take(1)) + "/"@ + hex_of(
                hash@.subrange(1, 2),
            ),
    {
        let mut p = self.data_dir.clone();
        let h0 = hex_encode(&self.hash_prefix(hash, 0));
        let h1 = hex_encode(&self.hash_prefix(hash, 1));
        p.append("/");
        p.append(h0.as_str());
        p.append("/");
        p.append(h1.as_str());
        p
    }

    /// One byte of the hash, as a one-byte slice for hex encoding.
    fn hash_prefix(&self, hash: &BlockHash, i: usize) -> (r: Vec<u8>)
        requires
            i < 32,
        ensures
            r@ =~= hash@.subrange(i as int, i + 1),
    {
        let mut v: Vec<u8> = Vec::new();
        v.push(hash.bytes[i]);
        v
    }

    /// The full path of a block's file, without the `.zst` extension that
    /// a compressed block carries.
    pub fn block_path(&self, hash: &BlockHash) -> (r: String)
        ensures
            r@ == self.data_dir@ + "/"@ + hex_of(hash@.take(1)) + "/"@ + hex_of(
                hash@.subrange(1, 2),
            ) + "/"@ + hex_of(hash@),
    {
        let mut p = self.block_dir(hash);
        let hfull = hex_encode(hash.bytes.as_slice());
        p.append("/");
        p.append(hfull.as_str());
        p
    }

    /// Increment the use count of a block; if it was unneeded before, the
    /// block must be checked for arrival soon, so it goes to the resync
    /// queue a little after the write timeout.
    pub fn block_incref(&mut self, hash: &BlockHash, now: u64)
        requires
            old(self).wf(),
            rc_count(old(self).rc@, hash@) < u64::MAX,
            now + 2 * BLOCK_RW_TIMEOUT_MSEC <= u64::MAX,
        ensures
            final(self).wf(),
            rc_count(final(self).rc@, hash@) == rc_count(old(self).rc@, hash@) + 1,
            forall|h2: Seq<u8>|
                h2 != hash@ ==> #[trigger] rc_entry_of(final(self).rc@, h2) == rc_entry_of(
                    old(self).rc@,
                    h2,
                ),
            rc_count(old(self).rc@, hash@) == 0 ==> queue_contains(
                final(self).resync_queue@,
                ((now + 2 * BLOCK_RW_TIMEOUT_MSEC) as u64, hash@),
            ),
            rc_count(old(self).rc@, hash@) != 0 ==> final(self).resync_queue@ == old(
                self,
            ).resync_queue@,
    {
        let went_up = self.rc.block_incref(hash);
        if went_up {
            self.resync_queue.put_to_resync_at(hash, now + 2 * BLOCK_RW_TIMEOUT_MSEC);
        }
    }

    /// Decrement the use count of a block; if it dropped to zero, the
    /// block becomes a deletion candidate once the grace delay has passed,
    /// so a resync is scheduled a little after that.
    pub fn block_decref(&mut self, hash: &BlockHash, now: u64)
        requires
            old(self).wf(),
            now + BLOCK_GC_DELAY_MSEC + 10000 <= u64::MAX,
        ensures
            final(self).wf(),
            rc_count(old(self).rc@, hash@) > 0 ==> rc_count(final(self).rc@, hash@) == rc_count(
                old(self).rc@,
                hash@,
            ) - 1,
            forall|h2: Seq<u8>|
                h2 != hash@ ==> #[trigger] rc_entry_of(final(self).rc@, h2) == rc_entry_of(
                    old(self).rc@,
                    h2,
                ),
            rc_count(old(self).rc@, hash@) == 1 ==> queue_contains(
                final(self).resync_queue@,
                ((now + BLOCK_GC_DELAY_MSEC + 10000) as u64, hash@),
            ),
            rc_count(old(self).rc@, hash@) != 1 ==> final(self).resync_queue@ == old(
                self,
            ).resync_queue@,
    {
        let dropped = self.rc.block_decref(hash, now);
        if dropped {
            self.resync_queue.put_to_resync_at(hash, now + BLOCK_GC_DELAY_MSEC + 10000);
        }
    }

    /// Does this node need the block: it is referenced locally but no file
    /// for it exists.
    pub fn need_block(&self, hash: &BlockHash, exists: bool) -> (r: bool)
        requires
            self.wf(),
        ensures
            r == (rc_count(self.rc@, hash@) > 0 && !exists),
    {
        let entry = self.rc.get_block_rc(hash);
        entry.is_nonzero() && !exists
    }

    /// The local status of a block, combining file presence (reported by
    /// the store) with the reference counter.
    pub fn check_block_status(&self, hash: &BlockHash, exists: bool) -> (r: BlockStatus)
        requires
            self.wf(),
        ensures
            r.exists == exists,
            r.needed == rc_entry_of(self.rc@, hash@),
    {
        BlockStatus { exists, needed: self.rc.get_block_rc(hash) }
    }

    /// How a batch of block-put RPCs is driven: normal priority, the
    /// configured write quorum, and the block read/write timeout.
    pub fn put_block_strategy(&self) -> (r: RequestStrategy)
        ensures
            r.priority == PRIO_NORMAL,
            r.quorum == self.replication.write_quorum,
            r.timeout_ms == Some(BLOCK_RW_TIMEOUT_MSEC),
            !r.interrupt_after_quorum,
    {
        RequestStrategy::with_priority(PRIO_NORMAL).with_quorum(self.replication.write_quorum)
            .with_timeout(BLOCK_RW_TIMEOUT_MSEC)
    }

    /// How a block fetch is driven: one answer suffices and the other
    /// requests are interrupted as soon as it arrives.
    pub fn get_block_strategy(&self) -> (r: RequestStrategy)
        ensures
            r.priority == PRIO_NORMAL,
            r.quorum == 1,
            r.timeout_ms == Some(BLOCK_RW_TIMEOUT_MSEC),
            r.interrupt_after_quorum,
    {
        RequestStrategy::with_priority(PRIO_NORMAL).with_quorum(1).with_timeout(
            BLOCK_RW_TIMEOUT_MSEC,
        ).interrupt_after_quorum(true)
    }

    /// How a need-block query is driven: background priority with its own
    /// short timeout.
    pub fn need_block_query_strategy(&self) -> (r: RequestStrategy)
        ensures
            r.priority == PRIO_BACKGROUND,
            r.timeout_ms == Some(NEED_BLOCK_QUERY_TIMEOUT_MSEC),
    {
        RequestStrategy::with_priority(PRIO_BACKGROUND).with_timeout(NEED_BLOCK_QUERY_TIMEOUT_MSEC)
    }

    /// Package a buffer as the block to store and send for `hash`:
    /// compressed iff configured and smaller.
    pub fn prepare_put_block(&self, data: Vec<u8>) -> (r: DataBlock)
        ensures
            unpacked(r@) == data@,
            crate::block::form_well_formed(r@),
    {
        DataBlock::from_buffer(data, self.compression_level)
    }

    /// Extract the block data from the answers to a `GetBlock` call: the
    /// first `PutBlock` answer wins; without one the read failed.
    pub fn first_block_answer(&self, resps: &Vec<BlockRpc>) -> (r: Result<DataBlock, Error>)
        ensures
            r is Ok <==> has_block_answer(resps@),
            r matches Ok(d) ==> d@ == first_block_answer_data(resps@),
            r matches Err(e) ==> e is Message,
    {
        let mut i: usize = 0;
        while i < resps.len()
            invariant
                0 <= i <= resps@.len(),
                forall|j: int| 0 <= j < i ==> !((#[trigger] resps@[j]) is PutBlock),
            decreases resps@.len() - i,
        {
            match &resps[i] {
                BlockRpc::PutBlock { hash: _, data } => {
                    proof {
                        assert((resps@[i as int]) is PutBlock);
                        let w = first_put_block_index(resps@);
                        if w != i {
                            assert(0 <= w < resps@.len() && resps@[w] is PutBlock && (forall|
                                j: int,
                            | 0 <= j < w ==> !((#[trigger] resps@[j]) is PutBlock)));
                            if w < i {
                            } else {
                                assert(!(resps@[i as int] is PutBlock));
                            }
                            assert(false);
                        }
                    }
                    return Ok(data.clone());
                }
                _ => {}
            }
            i = i + 1;
        }
        proof {
            if exists|j: int| 0 <= j < resps@.len() && (#[trigger] resps@[j]) is PutBlock {
                let j = choose|j: int| 0 <= j < resps@.len() && (#[trigger] resps@[j]) is PutBlock;
                assert(false);
            }
        }
        Err(Error::Message(String::from_str("no valid block answer received")))
    }

    /// Resolve a `GetBlock` round: take the first data answer and verify
    /// its integrity. The call succeeds exactly when some node answered
    /// with a block whose content hashes to `hash`, as judged on the
    /// first such answer; a corrupt first answer surfaces as
    /// `CorruptData` so the caller retries on another replica, and a
    /// round with no data answer at all fails outright.
    pub fn rpc_get_block(&self, hash: &BlockHash, resps: Vec<BlockRpc>) -> (r: Result<
        Vec<u8>,
        Error,
    >)
        ensures
            r is Ok <==> (has_block_answer(resps@) && crate::block::block_matches(
                first_block_answer_data(resps@),
                hash@,
            )),
            r matches Ok(d) ==> d@ == unpacked(first_block_answer_data(resps@)) && blake2b_of(d@)
                == hash@,
            r matches Err(e) ==> if has_block_answer(resps@) {
                e is CorruptData
            } else {
                e is Message
            },
    {
        let data = match self.first_block_answer(&resps) {
            Ok(d) => d,
            Err(e) => {
                return Err(e);
            }
        };
        data.verify_get(hash)
    }
}


/// The hashes among the listed files whose content does not match their
/// name.
pub open spec fn spec_corrupt_files(files: Seq<(Seq<u8>, crate::block::DataBlockV)>) -> Seq<
    Seq<u8>,
>
    decreases files.len(),
{
    if files.len() == 0 {
        Seq::empty()
    } else {
        spec_corrupt_files(files.drop_last()) + if crate::block::block_matches(
            files.last().1,
            files.last().0,
        ) {
            Seq::empty()
        } else {
            seq![files.last().0]
        }
    }
}

/// On a clean store the scrub reports nothing.
pub proof fn lemma_scrub_clean(files: Seq<(Seq<u8>, crate::block::DataBlockV)>)
    ensures
        (spec_corrupt_files(files).len() == 0) <==> (forall|i: int|
            0 <= i < files.len() ==> crate::block::block_matches(
                (#[trigger] files[i]).1,
                files[i].0,
            )),
    decreases files.len(),
{
    if files.len() > 0 {
        lemma_scrub_clean(files.drop_last());
        if spec_corrupt_files(files).len() == 0 {
            assert forall|i: int| 0 <= i < files.len() implies crate::block::block_matches(
                (#[trigger] files[i]).1,
                files[i].0,
            ) by {
                if i < files.len() - 1 {
                    assert(files.drop_last()[i] == files[i]);
                }
            };
        }
    }
}

impl BlockManager {
    /// Verify the integrity of every block on disk: the store hands each
    /// file's name and content, and back come the hashes whose content
    /// does not hash to its name. On a clean store the result is empty.
    pub fn scrub_data_store(&self, files: &Vec<(BlockHash, DataBlock)>) -> (r: Vec<BlockHash>)
        ensures
            Seq::new(r@.len(), |i: int| r@[i]@) =~= spec_corrupt_files(
                Seq::new(files@.len(), |i: int| (files@[i].0@, files@[i].1@)),
            ),
    {
        let ghost fv = Seq::new(files@.len(), |i: int| (files@[i].0@, files@[i].1@));
        let mut r: Vec<BlockHash> = Vec::new();
        let mut i: usize = 0;
        proof {
            assert(Seq::new(r@.len(), |j: int| r@[j]@) =~= spec_corrupt_files(fv.take(0)));
        }
        while i < files.len()
            invariant
                0 <= i <= fv.len(),
                fv == Seq::new(files@.len(), |j: int| (files@[j].0@, files@[j].1@)),
                Seq::new(r@.len(), |j: int| r@[j]@) =~= spec_corrupt_files(fv.take(i as int)),
            decreases fv.len() - i,
        {
            proof {
                assert(fv.take(i + 1).drop_last() =~= fv.take(i as int));
                assert(fv.take(i + 1).last() == fv[i as int]);
            }
            let (hash, data) = &files[i];
            if data.verify(hash).is_err() {
                r.push(*hash);
            }
            proof {
                assert(Seq::new(r@.len(), |j: int| r@[j]@) =~= spec_corrupt_files(fv.take(i + 1)));
            }
            i = i + 1;
        }
        proof {
            assert(fv.take(fv.len() as int) =~= fv);
        }
        r
    }

    /// Launch the repair procedure on the data store: every hash the
    /// reference counter knows, and every file actually on disk, goes to
    /// the resync queue for an immediate pass, so that missing blocks are
    /// fetched and unneeded ones offloaded.
    pub fn repair_data_store(&mut self, on_disk: &Vec<BlockHash>, now: u64)
        requires
            old(self).wf(),
        ensures
            final(self).wf(),
            forall|i: int|
                0 <= i < old(self).rc@.len() ==> queue_contains(
                    final(self).resync_queue@,
                    (now, (#[trigger] old(self).rc@[i]).0),
                ),
            forall|i: int|
                0 <= i < on_disk@.len() ==> queue_contains(
                    final(self).resync_queue@,
                    (now, (#[trigger] on_disk@[i])@),
                ),
            final(self).rc@ == old(self).rc@,
    {
        let ghost rcv = self.rc@;
        let n = self.rc.entries.len();
        let mut i: usize = 0;
        while i < n
            invariant
                0 <= i <= n,
                n == self.rc.entries@.len(),
                self.wf(),
                self.rc@ == rcv,
                rcv == old(self).rc@,
                self.resync_queue.wf(),
                forall|j: int|
                    0 <= j < i ==> queue_contains(
                        self.resync_queue@,
                        (now, (#[trigger] rcv[j]).0),
                    ),
            decreases n - i,
        {
            let h = self.rc.entries[i].0;
            proof {
                assert(rcv[i as int].0 == h@);
            }
            let ghost qbefore = self.resync_queue@;
            self.resync_queue.put_to_resync_at(&h, now);
            i = i + 1;
        }
        let mut k: usize = 0;
        while k < on_disk.len()
            invariant
                0 <= k <= on_disk@.len(),
                self.wf(),
                self.rc@ == rcv,
                rcv == old(self).rc@,
                forall|j: int|
                    0 <= j < rcv.len() ==> queue_contains(
                        self.resync_queue@,
                        (now, (#[trigger] rcv[j]).0),
                    ),
                forall|j: int|
                    0 <= j < k ==> queue_contains(
                        self.resync_queue@,
                        (now, (#[trigger] on_disk@[j])@),
                    ),
            decreases on_disk@.len() - k,
        {
            self.resync_queue.put_to_resync_at(&on_disk[k], now);
            k = k + 1;
        }
    }
}

} // verus!
