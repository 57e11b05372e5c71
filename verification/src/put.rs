//! The streaming write pipeline: chunking a body into blocks, choosing
//! inline versus block storage, digests and quota checks, and the block,
//! version and block-reference rows a PUT installs before its final
//! object row.

use vstd::prelude::*;

use crate::block::{blake2b_of, blake2sum};
use crate::block_manager::INLINE_THRESHOLD;
use crate::data::{BlockHash, Uuid};
use crate::error::Error;
use crate::multipart::md5_of;
use crate::version_table::{BlockRef, VersionBlock, VersionBlockKey};
use vstd::string::StringExecFns;

verus! {

/// The SHA-256 digest of a byte string, as signature checking uses it.
pub uninterp spec fn sha256_of(data: Seq<u8>) -> Seq<u8>;

/// Relies on sha2::Sha256: the 32-byte digest depends on the input bytes
/// alone.
#[verifier::external_body]
pub fn sha256sum(data: &[u8]) -> (r: BlockHash)
    ensures
        r@ == sha256_of(data@),
{
    let mut h = <sha2::Sha256 as sha2::Digest>::new();
    sha2::Digest::update(&mut h, data);
    let out = sha2::Digest::finalize(h);
    let mut bytes = [0u8; 32];
    bytes.copy_from_slice(&out);
    BlockHash { bytes }
}

/// The chunks a body is cut into: full blocks of `bs` bytes, the last one
/// possibly shorter.
pub open spec fn spec_chunk(data: Seq<u8>, bs: int, i: int) -> Seq<u8> {
    data.subrange(i * bs, if (i + 1) * bs < data.len() {
        (i + 1) * bs
    } else {
        data.len() as int
    })
}

pub open spec fn spec_chunk_count(len: int, bs: int) -> int {
    (len + bs - 1) / bs
}

/// Cut a body into blocks of the configured block size. The chunks
/// concatenate back to the body: each one is the corresponding window of
/// the input.
pub fn chunk_bytes(data: &Vec<u8>, block_size: usize) -> (r: Vec<Vec<u8>>)
    requires
        block_size > 0,
    ensures
        r@.len() == spec_chunk_count(data@.len() as int, block_size as int),
        forall|i: int|
            0 <= i < r@.len() ==> (#[trigger] r@[i])@ == spec_chunk(
                data@,
                block_size as int,
                i,
            ),
{
    let ghost len = data@.len() as int;
    let ghost bs = block_size as int;
    let mut r: Vec<Vec<u8>> = Vec::new();
    let mut pos: usize = 0;
    proof {
        assert(r@.len() * bs == 0) by (nonlinear_arith)
            requires
                r@.len() == 0,
        ;
    }
    while pos < data.len()
        invariant
            block_size > 0,
            bs == block_size as int,
            len == data@.len() as int,
            0 <= pos <= len,
            pos == if r@.len() * bs < len {
                r@.len() * bs
            } else {
                len
            },
            r@.len() > 0 ==> (r@.len() - 1) * bs < len,
            forall|i: int|
                0 <= i < r@.len() ==> (#[trigger] r@[i])@ == spec_chunk(data@, bs, i),
        decreases len - pos,
    {
        let ghost n = r@.len() as int;
        proof {
            assert(pos == n * bs);
            assert((n + 1) * bs == n * bs + bs) by (nonlinear_arith);
        }
        let remaining = data.len() - pos;
        let take = if remaining < block_size {
            remaining
        } else {
            block_size
        };
        let mut chunk: Vec<u8> = Vec::new();
        let mut j: usize = 0;
        while j < take
            invariant
                0 <= j <= take,
                pos + take <= data@.len(),
                data@.len() <= usize::MAX,
                chunk@ =~= data@.subrange(pos as int, pos + j),
            decreases take - j,
        {
            chunk.push(data[pos + j]);
            proof {
                assert(chunk@ =~= data@.subrange(pos as int, pos + j + 1));
            }
            j = j + 1;
        }
        proof {
            assert(chunk@ =~= spec_chunk(data@, bs, n)) by {
                if (n + 1) * bs < len {
                    assert(take == block_size);
                } else {
                    assert(n * bs + bs >= len);
                    assert(pos + take == len);
                }
            };
        }
        r.push(chunk);
        pos = pos + take;
        proof {
            assert(r@.len() == n + 1);
            if (n + 1) * bs < len {
                assert(pos == (n + 1) * bs);
            } else {
                assert(pos == len);
            }
            assert(forall|i: int|
                0 <= i < n ==> (#[trigger] r@[i])@ == spec_chunk(data@, bs, i));
        }
    }
    proof {
        let n = r@.len() as int;
        if len == 0 {
            assert(n == 0);
            assert(spec_chunk_count(0, bs) == (bs - 1) / bs);
            assert((bs - 1) / bs == 0) by (nonlinear_arith)
                requires
                    bs > 0,
            ;
        } else {
            assert(n >= 1);
            assert(n * bs >= len);
            assert((n - 1) * bs < len);
            assert(n == (len + bs - 1) / bs) by (nonlinear_arith)
                requires
                    bs > 0,
                    len > 0,
                    n >= 1,
                    n * bs >= len,
                    (n - 1) * bs < len,
            ;
        }
    }
    r
}

/// Whether a PUT of this size stores its data inline in the object row
/// instead of as blocks.
pub fn use_inline_storage(size: usize) -> (r: bool)
    ensures
        r == (size <= INLINE_THRESHOLD),
{
    size <= INLINE_THRESHOLD
}

/// The rows a streaming PUT installs for its data blocks, before the
/// final object row is committed: one version-table block entry and one
/// block reference per chunk.
pub struct PutBlocksPlan {
    /// Key and descriptor of each block of the version, in stream order
    pub blocks: Vec<(VersionBlockKey, VersionBlock)>,
    /// The block references that hold the blocks alive
    pub block_refs: Vec<BlockRef>,
    /// Total number of bytes in the chunks
    pub total_size: u64,
}

/// Sum of the chunk lengths.
pub open spec fn chunks_total(chunks: Seq<Seq<u8>>) -> int
    decreases chunks.len(),
{
    if chunks.len() == 0 {
        0
    } else {
        chunks_total(chunks.drop_last()) + chunks.last().len()
    }
}

/// Lay out the blocks of one part of a version: chunk `i` becomes the
/// block at `(part_number, offset_i)` where `offset_i` is the number of
/// bytes before it, named by its Blake2b hash, and referenced by a block
/// ref carrying the version's uuid. Identical bytes always produce the
/// identical block set: the layout is a function of the chunks alone.
pub fn put_blocks_plan(version_uuid: Uuid, part_number: u64, chunks: &Vec<Vec<u8>>) -> (r:
    PutBlocksPlan)
    requires
        chunks_total(Seq::new(chunks@.len(), |i: int| chunks@[i]@)) <= u64::MAX,
    ensures
        r.blocks@.len() == chunks@.len(),
        r.block_refs@.len() == chunks@.len(),
        forall|i: int|
            0 <= i < chunks@.len() ==> {
                let cv = Seq::new(chunks@.len(), |j: int| chunks@[j]@);
                (#[trigger] r.blocks@[i]).0.part_number == part_number && r.blocks@[
                    i
                ].0.offset == chunks_total(cv.take(i)) && r.blocks@[i].1.hash@ == blake2b_of(
                    cv[i],
                ) && r.blocks@[i].1.size == cv[i].len()
            },
        forall|i: int|
            0 <= i < chunks@.len() ==> {
                let cv = Seq::new(chunks@.len(), |j: int| chunks@[j]@);
                (#[trigger] r.block_refs@[i]).block@ == blake2b_of(cv[i]) && r.block_refs@[
                    i
                ].version@ == version_uuid@ && !r.block_refs@[i].deleted
            },
        r.total_size == chunks_total(Seq::new(chunks@.len(), |i: int| chunks@[i]@)),
{
    let ghost cv = Seq::new(chunks@.len(), |i: int| chunks@[i]@);
    let mut blocks: Vec<(VersionBlockKey, VersionBlock)> = Vec::new();
    let mut refs: Vec<BlockRef> = Vec::new();
    let mut offset: u64 = 0;
    let mut i: usize = 0;
    proof {
        assert(cv.take(0) =~= Seq::<Seq<u8>>::empty());
    }
    while i < chunks.len()
        invariant
            0 <= i <= cv.len(),
            cv == Seq::new(chunks@.len(), |j: int| chunks@[j]@),
            chunks_total(cv) <= u64::MAX,
            blocks@.len() == i,
            refs@.len() == i,
            offset == chunks_total(cv.take(i as int)),
            forall|j: int|
                0 <= j < i ==> (#[trigger] blocks@[j]).0.part_number == part_number && blocks@[
                    j
                ].0.offset == chunks_total(cv.take(j)) && blocks@[j].1.hash@ == blake2b_of(cv[j])
                    && blocks@[j].1.size == cv[j].len(),
            forall|j: int|
                0 <= j < i ==> (#[trigger] refs@[j]).block@ == blake2b_of(cv[j]) && refs@[
                    j
                ].version@ == version_uuid@ && !refs@[j].deleted,
        decreases cv.len() - i,
    {
        proof {
            assert(cv.take(i + 1).drop_last() =~= cv.take(i as int));
            assert(cv.take(i + 1).last() == cv[i as int]);
            lemma_chunks_total_prefix(cv, i + 1);
            lemma_chunks_total_nonneg(cv.take(i as int));
        }
        let chunk = &chunks[i];
        let hash = blake2sum(chunk.as_slice());
        blocks.push(
            (
                VersionBlockKey { part_number, offset },
                VersionBlock { hash, size: chunk.len() as u64 },
            ),
        );
        refs.push(BlockRef { block: hash, version: version_uuid, deleted: false });
        offset = offset + chunk.len() as u64;
        i = i + 1;
    }
    proof {
        assert(cv.take(cv.len() as int) =~= cv);
    }
    PutBlocksPlan { blocks, block_refs: refs, total_size: offset }
}

proof fn lemma_chunks_total_nonneg(chunks: Seq<Seq<u8>>)
    ensures
        0 <= chunks_total(chunks),
    decreases chunks.len(),
{
    if chunks.len() > 0 {
        lemma_chunks_total_nonneg(chunks.drop_last());
    }
}

proof fn lemma_chunks_total_prefix(chunks: Seq<Seq<u8>>, i: int)
    requires
        0 <= i <= chunks.len(),
    ensures
        chunks_total(chunks.take(i)) <= chunks_total(chunks),
    decreases chunks.len() - i,
{
    if i == chunks.len() {
        assert(chunks.take(i) =~= chunks);
    } else {
        lemma_chunks_total_prefix(chunks, i + 1);
        assert(chunks.take(i + 1).drop_last() =~= chunks.take(i));
        assert(chunks.take(i + 1).last() == chunks[i]);
        lemma_chunks_total_nonneg(chunks.take(i));
    }
}

/// Compare the streamed body's digests with the ones the client
/// announced: a mismatch on either aborts the upload.
pub fn ensure_checksum_matches(
    data_md5sum: &Vec<u8>,
    data_sha256sum: &BlockHash,
    content_md5: Option<&Vec<u8>>,
    content_sha256: Option<&BlockHash>,
) -> (r: Result<(), Error>)
    ensures
        r is Ok <==> ((match content_md5 {
            Some(m) => m@ == data_md5sum@,
            None => true,
        }) && (match content_sha256 {
            Some(h) => h@ =~= data_sha256sum@,
            None => true,
        })),
        r matches Err(e) ==> e is BadRequest,
{
    match content_sha256 {
        Some(expected) => {
            if !crate::data::fb32_eq(expected, data_sha256sum) {
                return Err(
                    Error::BadRequest(
                        String::from_str("unable to verify x-amz-content-sha256"),
                    ),
                );
            }
        }
        None => {}
    }
    match content_md5 {
        Some(expected) => {
            if !bytes_eq(expected, data_md5sum) {
                return Err(
                    Error::BadRequest(String::from_str("unable to verify content-md5")),
                );
            }
        }
        None => {}
    }
    Ok(())
}

/// Elementwise comparison of two byte vectors.
pub fn bytes_eq(a: &Vec<u8>, b: &Vec<u8>) -> (r: bool)
    ensures
        r == (a@ =~= b@),
{
    if a.len() != b.len() {
        return false;
    }
    let mut i: usize = 0;
    while i < a.len()
        invariant
            0 <= i <= a@.len(),
            a@.len() == b@.len(),
            forall|j: int| 0 <= j < i ==> a@[j] == b@[j],
        decreases a@.len() - i,
    {
        if a[i] != b[i] {
            return false;
        }
        i = i + 1;
    }
    proof {
        assert(a@ =~= b@);
    }
    true
}

/// Enforce the bucket's quotas before committing a PUT: the object count
/// after the write must not exceed `max_objects`, nor the byte count
/// `max_size`.
pub fn check_quotas(
    current_objects: u64,
    current_bytes: u64,
    new_object: bool,
    size_added: u64,
    max_objects: Option<u64>,
    max_size: Option<u64>,
) -> (r: Result<(), Error>)
    requires
        current_objects < u64::MAX,
        current_bytes + size_added <= u64::MAX,
    ensures
        r is Ok <==> ((match max_objects {
            Some(m) => !new_object || current_objects + 1 <= m,
            None => true,
        }) && (match max_size {
            Some(m) => current_bytes + size_added <= m,
            None => true,
        })),
        r matches Err(e) ==> e is Forbidden,
{
    match max_objects {
        Some(m) => {
            if new_object && current_objects + 1 > m {
                return Err(
                    Error::Forbidden(
                        String::from_str("object quota of the bucket would be exceeded"),
                    ),
                );
            }
        }
        None => {}
    }
    match max_size {
        Some(m) => {
            if current_bytes + size_added > m {
                return Err(
                    Error::Forbidden(
                        String::from_str("size quota of the bucket would be exceeded"),
                    ),
                );
            }
        }
        None => {}
    }
    Ok(())
}

/// The etag of a plain (non-multipart) object: the hex MD5 of its bytes.
pub fn object_etag(data: &Vec<u8>) -> (r: String)
    ensures
        r@ == crate::data::hex_of(md5_of(data@)),
{
    let digest = crate::multipart::md5sum(data.as_slice());
    crate::data::hex_encode(digest.as_slice())
}


/// The chunks of a body, as a spec-level list.
pub open spec fn spec_chunks(data: Seq<u8>, bs: int) -> Seq<Seq<u8>> {
    Seq::new(spec_chunk_count(data.len() as int, bs) as nat, |i: int| spec_chunk(data, bs, i))
}

/// Everything one `UploadPart` writes, in order: the placeholder part
/// entry that links the fresh version from the upload, the version row,
/// the blocks and their references, and finally the finished part entry
/// carrying the part's etag and size.
pub struct PutPartPlan {
    /// Key of the part entry: the part number and a timestamp above every
    /// earlier upload of this part number
    pub mpu_part_key: crate::version_table::MpuPartKey,
    /// The placeholder entry written before the blocks, so an interrupted
    /// upload leaves a trace that cleanup can find
    pub initial_part: crate::version_table::MpuPart,
    /// The fresh version that will hold this part's blocks
    pub version: crate::version_table::Version,
    /// The blocks of the body and their references
    pub blocks: PutBlocksPlan,
    /// The part's etag: the hex MD5 of the body
    pub etag: String,
    /// The finished entry, written once all blocks are stored
    pub final_part: crate::version_table::MpuPart,
}

/// Accept one uploaded part: an empty body is refused; otherwise the
/// body is chunked into blocks and the part's rows are laid out.
pub fn handle_put_part(
    upload_id: Uuid,
    part_number: u64,
    version_uuid: Uuid,
    body: &Vec<u8>,
    block_size: usize,
    mpu: &crate::version_table::MultipartUpload,
    now: u64,
) -> (r: Result<PutPartPlan, Error>)
    requires
        block_size > 0,
        mpu.wf(),
        forall|i: int| 0 <= i < mpu.parts@.len() ==> (#[trigger] mpu.parts@[i]).0.timestamp
            < u64::MAX,
        chunks_total(spec_chunks(body@, block_size as int)) <= u64::MAX,
    ensures
        r is Ok <==> body@.len() > 0,
        r matches Err(e) ==> e is BadRequest,
        r matches Ok(plan) ==> {
            let cv = spec_chunks(body@, block_size as int);
            &&& plan.mpu_part_key.part_number == part_number
            &&& plan.mpu_part_key.timestamp >= now
            &&& (forall|i: int|
                0 <= i < mpu.parts@.len() && (#[trigger] mpu.parts@[i]).0.part_number
                    == part_number ==> plan.mpu_part_key.timestamp > mpu.parts@[i].0.timestamp)
            &&& plan.initial_part.version@ == version_uuid@ && plan.initial_part.etag is None
                && plan.initial_part.size is None
            &&& plan.version.wf() && !plan.version@.deleted && plan.version@.uuid == version_uuid@
            &&& plan.version@.backlink == (crate::version_table::VersionBacklinkV::MultipartUpload {
                upload_id: upload_id@,
            })
            &&& plan.blocks.blocks@.len() == cv.len()
            &&& (forall|i: int|
                0 <= i < cv.len() ==> (#[trigger] plan.blocks.blocks@[i]).0.part_number
                    == part_number && plan.blocks.blocks@[i].0.offset == chunks_total(cv.take(i))
                    && plan.blocks.blocks@[i].1.hash@ == blake2b_of(cv[i])
                    && plan.blocks.blocks@[i].1.size == cv[i].len())
            &&& (forall|i: int|
                0 <= i < cv.len() ==> (#[trigger] plan.blocks.block_refs@[i]).block@
                    == blake2b_of(cv[i]) && plan.blocks.block_refs@[i].version@ == version_uuid@
                    && !plan.blocks.block_refs@[i].deleted)
            &&& plan.etag@ == crate::data::hex_of(md5_of(body@))
            &&& plan.final_part.version@ == version_uuid@
            &&& plan.final_part.etag matches Some(e) && e@ == crate::data::hex_of(md5_of(body@))
            &&& plan.final_part.size == Some(plan.blocks.total_size)
            &&& plan.blocks.total_size == chunks_total(cv)
        },
{
    if body.len() == 0 {
        return Err(Error::BadRequest(String::from_str("empty body")));
    }
    let timestamp = mpu.next_timestamp(part_number, now);
    let mpu_part_key = crate::version_table::MpuPartKey { part_number, timestamp };
    let initial_part = crate::version_table::MpuPart {
        version: version_uuid,
        etag: None,
        size: None,
    };
    let version = crate::version_table::Version::new(
        version_uuid,
        crate::version_table::VersionBacklink::MultipartUpload { upload_id },
        false,
    );
    let chunks = chunk_bytes(body, block_size);
    proof {
        assert(Seq::new(chunks@.len(), |i: int| chunks@[i]@) =~= spec_chunks(
            body@,
            block_size as int,
        ));
    }
    let blocks = put_blocks_plan(version_uuid, part_number, &chunks);
    let digest = crate::multipart::md5sum(body.as_slice());
    let etag = crate::data::hex_encode(digest.as_slice());
    let final_part = crate::version_table::MpuPart {
        version: version_uuid,
        etag: Some(etag.clone()),
        size: Some(blocks.total_size),
    };
    Ok(PutPartPlan { mpu_part_key, initial_part, version, blocks, etag, final_part })
}

} // verus!
