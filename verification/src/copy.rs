//! Server-side copy: the `if-*` precondition truth table, the choice of
//! source blocks for a ranged part copy, and the defragmenter that glues
//! sub-block fragments back into full blocks.

use vstd::prelude::*;

use crate::data::BlockHash;
use crate::error::Error;
use crate::version_table::{VersionBlockKey, VersionBlockV, VersionBlocks};

verus! {

// ---- Copy preconditions ------------------------------------------------

/// The `x-amz-copy-source-if-*` headers of a copy request, with dates as
/// milliseconds since the epoch.
pub struct CopyPreconditionHeaders {
    pub copy_source_if_match: Option<Vec<String>>,
    pub copy_source_if_modified_since: Option<u64>,
    pub copy_source_if_none_match: Option<Vec<String>>,
    pub copy_source_if_unmodified_since: Option<u64>,
}

/// Whether an etag list matches an etag: a literal match or the wildcard.
pub open spec fn spec_etag_match(list: Seq<Seq<char>>, etag: Seq<char>) -> bool {
    exists|i: int| 0 <= i < list.len() && ((#[trigger] list[i]) == etag || list[i] == "*"@)
}

/// The precondition truth table. `None` stands for an invalid header
/// combination; otherwise whether the copy may proceed.
///
/// When `if-match` is set together with `if-unmodified-since`, `if-match`
/// alone decides; when `if-none-match` is set together with
/// `if-modified-since`, both must hold. Any other combination of two or
/// more headers is a bad request.
pub open spec fn spec_precondition(
    im: Option<Seq<Seq<char>>>,
    ius: Option<u64>,
    inm: Option<Seq<Seq<char>>>,
    ims: Option<u64>,
    v_ts: u64,
    etag: Seq<char>,
) -> Option<bool> {
    match (im, ius, inm, ims) {
        (Some(im_l), _, None, None) => Some(spec_etag_match(im_l, etag)),
        (None, Some(ius_t), None, None) => Some(v_ts <= ius_t),
        (None, None, Some(inm_l), Some(ims_t)) => Some(
            !spec_etag_match(inm_l, etag) && v_ts > ims_t,
        ),
        (None, None, Some(inm_l), None) => Some(!spec_etag_match(inm_l, etag)),
        (None, None, None, Some(ims_t)) => Some(v_ts > ims_t),
        (None, None, None, None) => Some(true),
        _ => None,
    }
}

pub open spec fn spec_etags_view(l: Option<Vec<String>>) -> Option<Seq<Seq<char>>> {
    match l {
        Some(v) => Some(Seq::new(v@.len(), |i: int| v@[i]@)),
        None => None,
    }
}

fn etag_list_match(list: &Vec<String>, etag: &String) -> (r: bool)
    ensures
        r == spec_etag_match(Seq::new(list@.len(), |i: int| list@[i]@), etag@),
{
    let ghost lv = Seq::new(list@.len(), |i: int| list@[i]@);
    let star = String::from_str("*");
    let mut i: usize = 0;
    while i < list.len()
        invariant
            0 <= i <= lv.len(),
            lv == Seq::new(list@.len(), |j: int| list@[j]@),
            star@ == "*"@,
            forall|j: int| 0 <= j < i ==> (#[trigger] lv[j]) != etag@ && lv[j] != "*"@,
        decreases lv.len() - i,
    {
        if list[i].eq(etag) || list[i].eq(&star) {
            proof {
                assert(lv[i as int] == etag@ || lv[i as int] == "*"@);
            }
            return true;
        }
        i = i + 1;
    }
    false
}

impl CopyPreconditionHeaders {
    /// Evaluate the precondition headers against the source version's
    /// timestamp and etag: a bad combination is rejected, a failed
    /// condition stops the copy, and only a passing table row lets it
    /// proceed.
    pub fn check(&self, v_timestamp: u64, etag: &String) -> (r: Result<(), Error>)
        ensures
            match spec_precondition(
                spec_etags_view(self.copy_source_if_match),
                self.copy_source_if_unmodified_since,
                spec_etags_view(self.copy_source_if_none_match),
                self.copy_source_if_modified_since,
                v_timestamp,
                etag@,
            ) {
                Some(true) => r is Ok,
                Some(false) => r matches Err(e) && e is PreconditionFailed,
                None => r matches Err(e) && e is BadRequest,
            },
    {
        match (
            &self.copy_source_if_match,
            &self.copy_source_if_unmodified_since,
            &self.copy_source_if_none_match,
            &self.copy_source_if_modified_since,
        ) {
            (Some(im), _, None, None) => {
                if etag_list_match(im, etag) {
                    Ok(())
                } else {
                    Err(Error::PreconditionFailed)
                }
            }
            (None, Some(ius), None, None) => {
                if v_timestamp <= *ius {
                    Ok(())
                } else {
                    Err(Error::PreconditionFailed)
                }
            }
            (None, None, Some(inm), Some(ims)) => {
                if !etag_list_match(inm, etag) && v_timestamp > *ims {
                    Ok(())
                } else {
                    Err(Error::PreconditionFailed)
                }
            }
            (None, None, Some(inm), None) => {
                if !etag_list_match(inm, etag) {
                    Ok(())
                } else {
                    Err(Error::PreconditionFailed)
                }
            }
            (None, None, None, Some(ims)) => {
                if v_timestamp > *ims {
                    Ok(())
                } else {
                    Err(Error::PreconditionFailed)
                }
            }
            (None, None, None, None) => Ok(()),
            _ => Err(
                Error::BadRequest(
                    String::from_str("invalid combination of copy-source precondition headers"),
                ),
            ),
        }
    }
}

// ---- The whole-object copy plan ----------------------------------------

/// The rows a server-side copy writes, in the order they must be written.
pub enum CopyPlan {
    /// A small object travels inside its row: one final object row
    Inline { dest_object: crate::object_table::Object },
    /// A block object reuses the source blocks: first an uploading marker
    /// row (so repair does not collect the version), then the version row
    /// and the block references, and the final object row strictly last,
    /// so that a copy onto itself never lets the reference counts touch
    /// zero in between
    FirstBlock {
        tmp_object: crate::object_table::Object,
        dest_version: crate::version_table::Version,
        block_refs: Vec<crate::version_table::BlockRef>,
        final_object: crate::object_table::Object,
    },
}

/// Assemble the rows of a whole-object copy: the new version carries the
/// (possibly replaced) metadata under a fresh uuid and timestamp, inline
/// bytes are copied verbatim, and a block object reuses the source's
/// block list without moving any data.
pub fn handle_copy(
    source_data: &crate::object_table::ObjectVersionData,
    source_blocks: &VersionBlocks,
    new_meta: crate::object_table::ObjectVersionMeta,
    dest_bucket_id: crate::data::Uuid,
    dest_key: &String,
    new_uuid: crate::data::Uuid,
    new_timestamp: u64,
) -> (r: Result<CopyPlan, Error>)
    requires
        source_blocks.wf(),
    ensures
        (r is Ok) <==> !(source_data@ is DeleteMarker),
        r matches Ok(plan) ==> match plan {
            CopyPlan::Inline { dest_object } => {
                &&& source_data@ is Inline
                &&& dest_object.wf()
                &&& dest_object@.bucket_id == dest_bucket_id@
                &&& dest_object@.key == dest_key@
                &&& dest_object@.versions.len() == 1
                &&& dest_object@.versions[0].uuid == new_uuid@
                &&& dest_object@.versions[0].timestamp == new_timestamp
                &&& dest_object@.versions[0].state == (match source_data@ {
                    crate::object_table::DataV::Inline(_, bytes) => crate::object_table::StateV::Complete(
                        crate::object_table::DataV::Inline(new_meta@, bytes),
                    ),
                    _ => crate::object_table::StateV::Aborted,
                })
            },
            CopyPlan::FirstBlock { tmp_object, dest_version, block_refs, final_object } => {
                &&& source_data@ is FirstBlock
                &&& tmp_object.wf() && final_object.wf() && dest_version.wf()
                &&& tmp_object@.bucket_id == dest_bucket_id@ && tmp_object@.key == dest_key@
                &&& tmp_object@.versions.len() == 1
                &&& tmp_object@.versions[0].uuid == new_uuid@
                &&& tmp_object@.versions[0].state matches crate::object_table::StateV::Uploading {
                    multipart,
                    ..
                } && !multipart
                &&& dest_version@.uuid == new_uuid@ && !dest_version@.deleted
                &&& dest_version@.blocks == source_blocks@
                &&& block_refs@.len() == source_blocks@.len()
                &&& (forall|i: int|
                    0 <= i < block_refs@.len() ==> (#[trigger] block_refs@[i]).block@
                        == source_blocks@[i].1.hash && block_refs@[i].version@ == new_uuid@
                        && !block_refs@[i].deleted)
                &&& final_object@.bucket_id == dest_bucket_id@ && final_object@.key == dest_key@
                &&& final_object@.versions.len() == 1
                &&& final_object@.versions[0].uuid == new_uuid@
                &&& final_object@.versions[0].timestamp == new_timestamp
                &&& final_object@.versions[0].state == (match source_data@ {
                    crate::object_table::DataV::FirstBlock(_, h) => crate::object_table::StateV::Complete(
                        crate::object_table::DataV::FirstBlock(new_meta@, h),
                    ),
                    _ => crate::object_table::StateV::Aborted,
                })
            },
        },
        r matches Err(e) ==> e is NoSuchKey,
{
    match source_data {
        crate::object_table::ObjectVersionData::DeleteMarker => Err(Error::NoSuchKey),
        crate::object_table::ObjectVersionData::Inline(_, bytes) => {
            let dest_object_version = crate::object_table::ObjectVersion {
                uuid: new_uuid,
                timestamp: new_timestamp,
                state: crate::object_table::ObjectVersionState::Complete(
                    crate::object_table::ObjectVersionData::Inline(
                        new_meta,
                        crate::block::clone_bytes(bytes),
                    ),
                ),
            };
            let mut versions: Vec<crate::object_table::ObjectVersion> = Vec::new();
            versions.push(dest_object_version);
            let dest_object = crate::object_table::Object {
                bucket_id: dest_bucket_id,
                key: dest_key.clone(),
                versions,
            };
            proof {
                assert(dest_object.wf());
            }
            Ok(CopyPlan::Inline { dest_object })
        }
        crate::object_table::ObjectVersionData::FirstBlock(_, first_block_hash) => {
            let tmp_object_version = crate::object_table::ObjectVersion {
                uuid: new_uuid,
                timestamp: new_timestamp,
                state: crate::object_table::ObjectVersionState::Uploading {
                    multipart: false,
                    headers: new_meta.headers.clone(),
                },
            };
            let mut tmp_versions: Vec<crate::object_table::ObjectVersion> = Vec::new();
            tmp_versions.push(tmp_object_version);
            let tmp_object = crate::object_table::Object {
                bucket_id: dest_bucket_id,
                key: dest_key.clone(),
                versions: tmp_versions,
            };
            let mut dest_version = crate::version_table::Version::new(
                new_uuid,
                crate::version_table::VersionBacklink::Object {
                    bucket_id: dest_bucket_id,
                    key: dest_key.clone(),
                },
                false,
            );
            let cloned = source_blocks.clone();
            dest_version.blocks = cloned;
            let mut block_refs: Vec<crate::version_table::BlockRef> = Vec::new();
            let mut i: usize = 0;
            while i < source_blocks.len()
                invariant
                    0 <= i <= source_blocks@.len(),
                    block_refs@.len() == i,
                    forall|j: int|
                        0 <= j < i ==> (#[trigger] block_refs@[j]).block@ == source_blocks@[
                            j
                        ].1.hash && block_refs@[j].version@ == new_uuid@ && !block_refs@[j].deleted,
                decreases source_blocks@.len() - i,
            {
                let (_, vb) = *source_blocks.item(i);
                block_refs.push(
                    crate::version_table::BlockRef {
                        block: vb.hash,
                        version: new_uuid,
                        deleted: false,
                    },
                );
                i = i + 1;
            }
            let final_object_version = crate::object_table::ObjectVersion {
                uuid: new_uuid,
                timestamp: new_timestamp,
                state: crate::object_table::ObjectVersionState::Complete(
                    crate::object_table::ObjectVersionData::FirstBlock(
                        new_meta,
                        *first_block_hash,
                    ),
                ),
            };
            let mut final_versions: Vec<crate::object_table::ObjectVersion> = Vec::new();
            final_versions.push(final_object_version);
            let final_object = crate::object_table::Object {
                bucket_id: dest_bucket_id,
                key: dest_key.clone(),
                versions: final_versions,
            };
            proof {
                assert(tmp_object.wf() && final_object.wf());
            }
            Ok(
                CopyPlan::FirstBlock {
                    tmp_object,
                    dest_version,
                    block_refs,
                    final_object,
                },
            )
        }
    }
}

// ---- Choosing source blocks for a ranged copy --------------------------

/// One block to copy: its hash, and the byte range to take from it.
/// `sub` is `None` when the whole block is reused as it stands, so it
/// need not be re-uploaded.
pub struct CopyTask {
    pub hash: BlockHash,
    pub sub: Option<(u64, u64)>,
}

pub struct CopyTaskV {
    pub hash: Seq<u8>,
    pub sub: Option<(u64, u64)>,
}

impl View for CopyTask {
    type V = CopyTaskV;

    open spec fn view(&self) -> CopyTaskV {
        CopyTaskV {
            hash: self.hash@,
            sub: self.sub,
        }
    }
}

/// Total size of the first `i` blocks.
pub open spec fn off_sum(blocks: Seq<(VersionBlockKey, VersionBlockV)>, i: int) -> int
    decreases i,
{
    if i <= 0 {
        0
    } else {
        off_sum(blocks, i - 1) + blocks[i - 1].1.size as int
    }
}

/// Does block `i` overlap the byte range `[a, b)` of the source?
pub open spec fn block_overlaps(
    blocks: Seq<(VersionBlockKey, VersionBlockV)>,
    i: int,
    a: int,
    b: int,
) -> bool {
    off_sum(blocks, i) < b && off_sum(blocks, i) + blocks[i].1.size as int > a
}

/// The byte range to take out of block `i`, relative to the block.
pub open spec fn block_slice(
    blocks: Seq<(VersionBlockKey, VersionBlockV)>,
    i: int,
    a: int,
    b: int,
) -> (int, int) {
    let off = off_sum(blocks, i);
    let size = blocks[i].1.size as int;
    (if a > off {
        a - off
    } else {
        0
    }, if b < off + size {
        b - off
    } else {
        size
    })
}

/// The copy tasks of the first `i` blocks, in order: every overlapping
/// block contributes one task, whole blocks are marked reusable.
pub open spec fn spec_copy_tasks(
    blocks: Seq<(VersionBlockKey, VersionBlockV)>,
    i: int,
    a: int,
    b: int,
) -> Seq<CopyTaskV>
    decreases i,
{
    if i <= 0 {
        Seq::empty()
    } else {
        spec_copy_tasks(blocks, i - 1, a, b) + if block_overlaps(blocks, i - 1, a, b) {
            let sl = block_slice(blocks, i - 1, a, b);
            seq![
                CopyTaskV {
                    hash: blocks[i - 1].1.hash,
                    sub: if sl.0 == 0 && sl.1 == blocks[i - 1].1.size as int {
                        None
                    } else {
                        Some((sl.0 as u64, sl.1 as u64))
                    },
                },
            ]
        } else {
            Seq::empty()
        }
    }
}

/// Which source blocks a ranged copy must fetch, and which byte range of
/// each: exactly the blocks whose span overlaps `[range_begin, range_end)`,
/// each with the overlapping part of its span, whole blocks marked
/// reusable.
pub fn blocks_to_copy(blocks: &VersionBlocks, range_begin: u64, range_end: u64) -> (r: Vec<
    CopyTask,
>)
    requires
        off_sum(blocks@, blocks@.len() as int) <= u64::MAX,
    ensures
        Seq::new(r@.len(), |i: int| r@[i]@) =~= spec_copy_tasks(
            blocks@,
            blocks@.len() as int,
            range_begin as int,
            range_end as int,
        ),
{
    let ghost bs = blocks@;
    let ghost a = range_begin as int;
    let ghost b = range_end as int;
    let mut r: Vec<CopyTask> = Vec::new();
    let mut current_offset: u64 = 0;
    let mut i: usize = 0;
    proof {
        assert(Seq::new(r@.len(), |j: int| r@[j]@) =~= spec_copy_tasks(bs, 0, a, b));
        lemma_off_sum_bounds(bs, 0);
    }
    while i < blocks.len()
        invariant
            0 <= i <= bs.len(),
            bs == blocks@,
            a == range_begin as int,
            b == range_end as int,
            off_sum(bs, bs.len() as int) <= u64::MAX,
            current_offset == off_sum(bs, i as int),
            Seq::new(r@.len(), |j: int| r@[j]@) =~= spec_copy_tasks(bs, i as int, a, b),
        decreases bs.len() - i,
    {
        let (_, block) = *blocks.item(i);
        proof {
            lemma_off_sum_bounds(bs, i as int);
            lemma_off_sum_mono(bs, i + 1, bs.len() as int);
            assert(off_sum(bs, i + 1) == off_sum(bs, i as int) + bs[i as int].1.size as int);
        }
        let block_begin = current_offset;
        let block_end = current_offset + block.size;
        if block_begin < range_end && block_end > range_begin {
            let sub_begin: u64 = if range_begin > block_begin {
                range_begin - block_begin
            } else {
                0
            };
            let sub_end: u64 = if range_end < block_end {
                range_end - block_begin
            } else {
                block.size
            };
            let sub = if sub_begin == 0 && sub_end == block.size {
                None
            } else {
                Some((sub_begin, sub_end))
            };
            r.push(CopyTask { hash: block.hash, sub });
        }
        proof {
            assert(Seq::new(r@.len(), |j: int| r@[j]@) =~= spec_copy_tasks(bs, i + 1, a, b));
        }
        current_offset = block_end;
        i = i + 1;
    }
    r
}

pub proof fn lemma_off_sum_bounds(blocks: Seq<(VersionBlockKey, VersionBlockV)>, i: int)
    requires
        0 <= i <= blocks.len(),
    ensures
        0 <= off_sum(blocks, i),
        i < blocks.len() ==> off_sum(blocks, i) + blocks[i].1.size as int <= off_sum(
            blocks,
            blocks.len() as int,
        ),
    decreases blocks.len() - i,
{
    lemma_off_sum_nonneg(blocks, i);
    if i < blocks.len() {
        lemma_off_sum_mono(blocks, i + 1, blocks.len() as int);
    }
}

proof fn lemma_off_sum_nonneg(blocks: Seq<(VersionBlockKey, VersionBlockV)>, i: int)
    requires
        0 <= i,
    ensures
        0 <= off_sum(blocks, i),
    decreases i,
{
    if i > 0 {
        lemma_off_sum_nonneg(blocks, i - 1);
    }
}

pub proof fn lemma_off_sum_mono(blocks: Seq<(VersionBlockKey, VersionBlockV)>, i: int, j: int)
    requires
        0 <= i <= j,
    ensures
        off_sum(blocks, i) <= off_sum(blocks, j),
    decreases j - i,
{
    if i < j {
        lemma_off_sum_mono(blocks, i, j - 1);
    }
}

// ---- Range copy correctness --------------------------------------------

/// The concatenation of a list of byte strings.
pub open spec fn concat_all(cs: Seq<Seq<u8>>) -> Seq<u8>
    decreases cs.len(),
{
    if cs.len() == 0 {
        Seq::empty()
    } else {
        concat_all(cs.drop_last()) + cs.last()
    }
}

/// The bytes a list of copy tasks extracts, given the content of each
/// block in source order (task `k` reads block `sel(k)`; here tasks carry
/// their content directly).
pub open spec fn tasks_bytes(contents: Seq<Seq<u8>>, tasks: Seq<CopyTaskV>, slices: Seq<(int, int)>) -> Seq<u8>
    decreases tasks.len(),
{
    if tasks.len() == 0 {
        Seq::empty()
    } else {
        tasks_bytes(contents.drop_last(), tasks.drop_last(), slices.drop_last())
            + contents.last().subrange(slices.last().0, slices.last().1)
    }
}

/// The contents that the tasks of the first `i` blocks extract.
pub open spec fn extracted(
    contents: Seq<Seq<u8>>,
    blocks: Seq<(VersionBlockKey, VersionBlockV)>,
    i: int,
    a: int,
    b: int,
) -> Seq<u8>
    decreases i,
{
    if i <= 0 {
        Seq::empty()
    } else {
        extracted(contents, blocks, i - 1, a, b) + if block_overlaps(blocks, i - 1, a, b) {
            contents[i - 1].subrange(
                block_slice(blocks, i - 1, a, b).0,
                block_slice(blocks, i - 1, a, b).1,
            )
        } else {
            Seq::empty()
        }
    }
}

pub open spec fn spec_min(x: int, y: int) -> int {
    if x < y {
        x
    } else {
        y
    }
}

/// Byte `x` of the concatenation of the first `i` blocks sits in the
/// block whose span covers `x`.
proof fn lemma_concat_prefix_index(
    contents: Seq<Seq<u8>>,
    blocks: Seq<(VersionBlockKey, VersionBlockV)>,
    i: int,
)
    requires
        contents.len() == blocks.len(),
        forall|j: int| 0 <= j < blocks.len() ==> (#[trigger] contents[j]).len() == blocks[j].1.size,
        0 <= i <= blocks.len(),
    ensures
        concat_all(contents.take(i)).len() == off_sum(blocks, i),
        forall|j: int, k: int|
            #![trigger contents[j], concat_all(contents.take(i))[off_sum(blocks, j) + k]]
            0 <= j < i && 0 <= k < contents[j].len() ==> concat_all(contents.take(i))[off_sum(
                blocks,
                j,
            ) + k] == contents[j][k],
    decreases i,
{
    if i > 0 {
        lemma_concat_prefix_index(contents, blocks, i - 1);
        assert(contents.take(i).drop_last() =~= contents.take(i - 1));
        assert(contents.take(i).last() == contents[i - 1]);
        assert(concat_all(contents.take(i)) == concat_all(contents.take(i - 1)) + contents[i
            - 1]);
        lemma_off_sum_nonneg(blocks, i - 1);
        assert(concat_all(contents.take(i)).len() == off_sum(blocks, i));
        assert forall|j: int, k: int|
            #![trigger contents[j], concat_all(contents.take(i))[off_sum(blocks, j) + k]]
            0 <= j < i && 0 <= k < contents[j].len() implies concat_all(contents.take(i))[off_sum(
            blocks,
            j,
        ) + k] == contents[j][k] by {
            lemma_off_sum_nonneg(blocks, j);
            if j < i - 1 {
                lemma_off_sum_mono(blocks, j + 1, i - 1);
                assert(off_sum(blocks, j + 1) == off_sum(blocks, j) + blocks[j].1.size);
                assert(off_sum(blocks, j) + k < off_sum(blocks, i - 1));
                assert(concat_all(contents.take(i - 1))[off_sum(blocks, j) + k]
                    == contents[j][k]);
                assert((concat_all(contents.take(i - 1)) + contents[i - 1])[off_sum(blocks, j)
                    + k] == contents[j][k]);
            } else {
                assert((concat_all(contents.take(i - 1)) + contents[i - 1])[off_sum(blocks, i - 1)
                    + k] == contents[i - 1][k]);
            }
        };
    }
}

/// Range copy correctness: the bytes that the selected tasks extract are
/// exactly bytes `[a, b)` of the source object.
pub proof fn lemma_range_copy_correct(
    contents: Seq<Seq<u8>>,
    blocks: Seq<(VersionBlockKey, VersionBlockV)>,
    a: int,
    b: int,
)
    requires
        contents.len() == blocks.len(),
        forall|j: int| 0 <= j < blocks.len() ==> (#[trigger] contents[j]).len() == blocks[j].1.size,
        0 <= a <= b <= off_sum(blocks, blocks.len() as int),
    ensures
        extracted(contents, blocks, blocks.len() as int, a, b) =~= concat_all(contents).subrange(
            a,
            b,
        ),
{
    lemma_range_copy_prefix(contents, blocks, blocks.len() as int, a, b);
    assert(contents.take(blocks.len() as int) =~= contents);
    let n = blocks.len() as int;
    let total = off_sum(blocks, n);
    assert(spec_min(a, total) == a && spec_min(b, total) == b);
}

/// The tasks among the first `i` blocks extract bytes
/// `[min(a, off(i)), min(b, off(i)))` of the source.
proof fn lemma_range_copy_prefix(
    contents: Seq<Seq<u8>>,
    blocks: Seq<(VersionBlockKey, VersionBlockV)>,
    i: int,
    a: int,
    b: int,
)
    requires
        contents.len() == blocks.len(),
        forall|j: int| 0 <= j < blocks.len() ==> (#[trigger] contents[j]).len() == blocks[j].1.size,
        0 <= a <= b,
        0 <= i <= blocks.len(),
    ensures
        extracted(contents, blocks, i, a, b) =~= concat_all(contents).subrange(
            spec_min(a, off_sum(blocks, i)),
            spec_min(b, off_sum(blocks, i)),
        ),
    decreases i,
{
    lemma_concat_prefix_index(contents, blocks, blocks.len() as int);
    assert(contents.take(blocks.len() as int) =~= contents);
    if i == 0 {
        assert(extracted(contents, blocks, 0, a, b) =~= concat_all(contents).subrange(
            spec_min(a, 0),
            spec_min(b, 0),
        ));
    } else {
        lemma_range_copy_prefix(contents, blocks, i - 1, a, b);
        lemma_off_sum_nonneg(blocks, i - 1);
        let off = off_sum(blocks, i - 1);
        let size = blocks[i - 1].1.size as int;
        let lo0 = spec_min(a, off);
        let hi0 = spec_min(b, off);
        let lo1 = spec_min(a, off + size);
        let hi1 = spec_min(b, off + size);
        let full = concat_all(contents);
        lemma_off_sum_mono(blocks, i, blocks.len() as int);
        assert(full.len() == off_sum(blocks, blocks.len() as int));
        if block_overlaps(blocks, i - 1, a, b) {
            // This block contributes its overlap with [a, b): the bytes
            // already covered end exactly where the new slice begins.
            let sl = block_slice(blocks, i - 1, a, b);
            assert(extracted(contents, blocks, i, a, b) =~= extracted(contents, blocks, i - 1, a, b)
                + contents[i - 1].subrange(sl.0, sl.1));
            assert forall|k: int|
                0 <= k < sl.1 - sl.0 implies #[trigger] contents[i - 1].subrange(sl.0, sl.1)[k]
                == full[off + sl.0 + k] by {
                assert(full[off + (sl.0 + k)] == contents[i - 1][sl.0 + k]);
            };
            if a > off {
                // The earlier blocks contribute nothing; the slice starts
                // at byte a.
                assert(lo0 == off && hi0 == off);
                assert(lo1 == a && off + sl.0 == a);
            } else {
                // The earlier blocks covered [a, off); the slice continues
                // at off.
                assert(lo0 == a && hi0 == off);
                assert(lo1 == a && off + sl.0 == off);
            }
            assert(hi1 == off + sl.1);
            assert(extracted(contents, blocks, i, a, b) =~= full.subrange(lo1, hi1));
        } else {
            if b <= off {
                assert(lo1 == lo0 && hi1 == hi0);
            } else {
                assert(off + size <= a);
                assert(lo1 == off + size && hi1 == off + size && lo0 == off && hi0 == off);
                assert(full.subrange(lo0, hi0) =~= Seq::<u8>::empty());
                assert(full.subrange(lo1, hi1) =~= Seq::<u8>::empty());
            }
            assert(extracted(contents, blocks, i, a, b) =~= extracted(
                contents,
                blocks,
                i - 1,
                a,
                b,
            ));
            assert(extracted(contents, blocks, i, a, b) =~= full.subrange(lo1, hi1));
        }
    }
}

// ---- The defragmenter --------------------------------------------------

/// Glues consecutive sub-block fragments together, emitting buffers of at
/// most `block_size` bytes. A fragment that is a whole existing block
/// travels alone and keeps its hash, so it can be reused without
/// re-uploading; everything else is re-hashed by the caller.
pub struct Defragmenter {
    /// Maximum size of an emitted buffer
    pub block_size: usize,
    /// Bytes waiting to be emitted
    pub buffer: Vec<u8>,
    /// The hash of the buffered bytes, when they are one whole block
    pub buffer_hash: Option<BlockHash>,
}

impl Defragmenter {
    pub closed spec fn buffered(&self) -> Seq<u8> {
        self.buffer@
    }

    pub closed spec fn buffered_hash(&self) -> Option<Seq<u8>> {
        match self.buffer_hash {
            Some(h) => Some(h@),
            None => None,
        }
    }

    pub fn new(block_size: usize) -> (r: Defragmenter)
        ensures
            r.block_size == block_size,
            r.buffered() =~= Seq::<u8>::empty(),
            r.buffered_hash() is None,
    {
        Defragmenter { block_size, buffer: Vec::new(), buffer_hash: None }
    }

    /// Feed the next fragment. If it does not fit next to the buffered
    /// bytes, the buffer is flushed first and returned; the bytes handed
    /// out plus the bytes retained are exactly the bytes fed, in order.
    pub fn feed(&mut self, fragment: Vec<u8>, hash: Option<BlockHash>) -> (r: Option<(
        Vec<u8>,
        Option<BlockHash>,
    )>)
        ensures
            // Bytes are conserved and stay in order.
            (match r {
                Some(out) => out.0@,
                None => Seq::<u8>::empty(),
            }) + final(self).buffered() =~= old(self).buffered() + fragment@,
            // A flushed buffer carries the hash it was fed with.
            r matches Some(out) ==> out.0@ == old(self).buffered() && (match out.1 {
                Some(h) => Some(h@),
                None => None,
            }) == old(self).buffered_hash(),
            // After the call the buffer holds the new fragment alone, with
            // its hash, or the concatenation, unnamed.
            r is Some ==> final(self).buffered() == fragment@ && final(self).buffered_hash()
                == (match hash {
                Some(h) => Some(h@),
                None => None,
            }),
            // Merging never grows a buffer past the block size: when the
            // fragment was appended to a non-empty buffer, the result fits.
            (r is None && old(self).buffered().len() > 0) ==> final(self).buffered().len()
                <= old(self).block_size,
            final(self).block_size == old(self).block_size,
    {
        let fits = fragment.len() <= self.block_size && self.buffer.len() <= self.block_size
            - fragment.len();
        if self.buffer.len() == 0 {
            self.buffer = fragment;
            self.buffer_hash = hash;
            None
        } else if !fits {
            let mut out = fragment;
            core::mem::swap(&mut self.buffer, &mut out);
            let mut out_hash = hash;
            core::mem::swap(&mut self.buffer_hash, &mut out_hash);
            Some((out, out_hash))
        } else {
            let mut i: usize = 0;
            let ghost frag = fragment@;
            let ghost buf0 = self.buffer@;
            while i < fragment.len()
                invariant
                    0 <= i <= frag.len(),
                    frag == fragment@,
                    self.buffer@ =~= buf0 + frag.take(i as int),
                    self.block_size == old(self).block_size,
                    self.buffer_hash == old(self).buffer_hash,
                decreases frag.len() - i,
            {
                self.buffer.push(fragment[i]);
                proof {
                    assert(self.buffer@ =~= buf0 + frag.take(i + 1));
                }
                i = i + 1;
            }
            self.buffer_hash = None;
            proof {
                assert(frag.take(frag.len() as int) =~= frag);
                assert(self.buffer@ =~= buf0 + frag);
            }
            None
        }
    }

    /// Take whatever is buffered, ending the stream: the final buffer and
    /// its hash, if it was a single whole block.
    pub fn take_all(&mut self) -> (r: (Vec<u8>, Option<BlockHash>))
        ensures
            r.0@ == old(self).buffered(),
            (match r.1 {
                Some(h) => Some(h@),
                None => None,
            }) == old(self).buffered_hash(),
            final(self).buffered() =~= Seq::<u8>::empty(),
            final(self).buffered_hash() is None,
            final(self).block_size == old(self).block_size,
    {
        let mut out: Vec<u8> = Vec::new();
        core::mem::swap(&mut self.buffer, &mut out);
        let mut h: Option<BlockHash> = None;
        core::mem::swap(&mut self.buffer_hash, &mut h);
        (out, h)
    }
}

} // verus!
