//! Multipart uploads: decoding upload ids, accepting uploaded parts, and
//! completing an upload by checking the client's part list against the
//! stored parts and assembling the final version.

use vstd::prelude::*;
use vstd::string::StringExecFns;

use crate::data::{hex_decode, hex_encode, hex_of, is_hex_string, Uuid};
use crate::error::Error;
use crate::object_table::ObjectVersionHeaders;
use crate::version_table::{
    pkey_lt, MpuPart, MpuPartKey, MpuPartV, MultipartUpload, Version, VersionBacklink,
    VersionBlockKey, VersionBlockV, VersionV,
};

verus! {

/// The MD5 digest of a byte string, as the multipart etag scheme uses it.
pub uninterp spec fn md5_of(data: Seq<u8>) -> Seq<u8>;

/// Relies on md5::Md5 (the RustCrypto implementation): the 16-byte digest
/// depends on the input bytes alone.
#[verifier::external_body]
pub fn md5sum(data: &[u8]) -> (r: Vec<u8>)
    ensures
        r@ == md5_of(data@),
        r@.len() == 16,
{
    let mut h = <md5::Md5 as md5::Digest>::new();
    md5::Digest::update(&mut h, data);
    let out = md5::Digest::finalize(h);
    out.to_vec()
}

/// Decode an upload id: the hex form of the upload's 32-byte uuid.
/// Anything else does not name an upload.
pub fn decode_upload_id(id: &str) -> (r: Result<Uuid, Error>)
    ensures
        r is Ok <==> (is_hex_string(id@) && id@.len() == 64),
        r matches Ok(u) ==> hex_of(u@) == crate::data::lower_hex_of(id@),
        r matches Err(e) ==> e is NoSuchUpload,
{
    let bytes = match hex_decode(id) {
        Some(b) => b,
        None => {
            return Err(Error::NoSuchUpload);
        }
    };
    if bytes.len() != 32 {
        return Err(Error::NoSuchUpload);
    }
    Ok(crate::data::fb32_from_vec(&bytes))
}

/// Decoding inverts the hex upload ids this store mints: for any 32-byte
/// uuid, its hex form is a valid 64-character upload id, and the only
/// 32-byte value whose encoding folds to it is the uuid itself. Together
/// with the decoder's contract: `decode_upload_id(hex(u))` yields `u`.
pub proof fn lemma_upload_id_round_trip(uuid: Seq<u8>, decoded: Seq<u8>)
    requires
        uuid.len() == 32,
    ensures
        is_hex_string(hex_of(uuid)),
        hex_of(uuid).len() == 64,
        hex_of(decoded) == crate::data::lower_hex_of(hex_of(uuid)) ==> decoded =~= uuid,
{
    crate::data::lemma_hex_of_lowercase(uuid);
    if hex_of(decoded) == crate::data::lower_hex_of(hex_of(uuid)) {
        assert(hex_of(decoded) == hex_of(uuid));
        crate::data::lemma_hex_of_injective(decoded, uuid);
    }
}

/// One entry of the client's part list in a complete-multipart request.
pub struct CompleteMultipartUploadPart {
    pub etag: String,
    pub part_number: u64,
}

/// Check the client's part list: it must be non-empty and its part
/// numbers strictly increasing (they need not start at 1 nor be
/// contiguous).
pub fn check_part_list_order(parts: &Vec<CompleteMultipartUploadPart>) -> (r: Result<(), Error>)
    ensures
        r is Ok <==> (parts@.len() > 0 && forall|i: int, j: int|
            0 <= i < j < parts@.len() ==> (#[trigger] parts@[i]).part_number < (
            #[trigger] parts@[j]).part_number),
        r matches Err(e) ==> (e is EntityTooSmall ==> parts@.len() == 0) && (e is EntityTooSmall
            || e is InvalidPartOrder),
{
    if parts.len() == 0 {
        return Err(Error::EntityTooSmall);
    }
    let mut i: usize = 1;
    while i < parts.len()
        invariant
            1 <= i <= parts@.len(),
            parts@.len() > 0,
            forall|a: int, b: int|
                0 <= a < b < i ==> (#[trigger] parts@[a]).part_number < (
                #[trigger] parts@[b]).part_number,
        decreases parts@.len() - i,
    {
        if parts[i - 1].part_number >= parts[i].part_number {
            return Err(Error::InvalidPartOrder);
        }
        proof {
            assert forall|a: int, b: int|
                0 <= a < b < i + 1 implies (#[trigger] parts@[a]).part_number < (
            #[trigger] parts@[b]).part_number by {
                if b == i && a < i - 1 {
                    assert(parts@[a].part_number < parts@[i - 1].part_number);
                }
            };
        }
        i = i + 1;
    }
    Ok(())
}

/// The stored part that a part number names: the one with the newest
/// timestamp among the entries for that part number.
pub open spec fn spec_has_part(s: Seq<(MpuPartKey, MpuPart)>, pn: u64) -> bool {
    exists|i: int| 0 <= i < s.len() && (#[trigger] s[i]).0.part_number == pn
}

pub open spec fn spec_latest_part(s: Seq<(MpuPartKey, MpuPart)>, pn: u64) -> MpuPartV {
    (s[choose|i: int|
        0 <= i < s.len() && (#[trigger] s[i]).0.part_number == pn && (forall|j: int|
            0 <= j < s.len() && (#[trigger] s[j]).0.part_number == pn ==> s[j].0.timestamp
                <= s[i].0.timestamp)].1)@
}

impl MultipartUpload {
    /// The newest stored entry for a part number, if the part was
    /// uploaded at all.
    pub fn latest_part(&self, pn: u64) -> (r: Option<MpuPart>)
        requires
            self.wf(),
        ensures
            r is Some <==> spec_has_part(self.parts@, pn),
            r matches Some(p) ==> p@ == spec_latest_part(self.parts@, pn),
    {
        let mut found: Option<usize> = None;
        let mut i: usize = 0;
        while i < self.parts.len()
            invariant
                0 <= i <= self.parts@.len(),
                self.wf(),
                found is None ==> forall|j: int|
                    0 <= j < i ==> (#[trigger] self.parts@[j]).0.part_number != pn,
                found matches Some(f) ==> f < i && self.parts@[f as int].0.part_number == pn && (
                forall|j: int|
                    f < j < i ==> (#[trigger] self.parts@[j]).0.part_number != pn),
            decreases self.parts@.len() - i,
        {
            if self.parts[i].0.part_number == pn {
                found = Some(i);
            }
            i = i + 1;
        }
        match found {
            Some(f) => {
                proof {
                    let s = self.parts@;
                    assert forall|j: int|
                        0 <= j < s.len() && (#[trigger] s[j]).0.part_number == pn implies s[
                        j].0.timestamp <= s[f as int].0.timestamp by {
                        if j < f {
                            assert(pkey_lt(s[j].0, s[f as int].0));
                        }
                    };
                    let w = choose|w: int|
                        0 <= w < s.len() && (#[trigger] s[w]).0.part_number == pn && (forall|
                            j: int,
                        |
                            0 <= j < s.len() && (#[trigger] s[j]).0.part_number == pn ==> s[
                                j].0.timestamp <= s[w].0.timestamp);
                    if w != f {
                        assert(s[w].0.timestamp <= s[f as int].0.timestamp);
                        assert(s[f as int].0.timestamp <= s[w].0.timestamp);
                        if w < f {
                            assert(pkey_lt(s[w].0, s[f as int].0));
                        } else {
                            assert(pkey_lt(s[f as int].0, s[w].0));
                        }
                        assert(false);
                    }
                }
                Some(self.parts[f].1.clone())
            }
            None => None,
        }
    }
}

/// A requested part is acceptable when a stored part with its number
/// exists whose newest entry carries exactly the requested etag and a
/// recorded size.
pub open spec fn spec_part_acceptable(
    s: Seq<(MpuPartKey, MpuPart)>,
    pn: u64,
    etag: Seq<char>,
) -> bool {
    spec_has_part(s, pn) && spec_latest_part(s, pn).etag == Some(etag) && spec_latest_part(
        s,
        pn,
    ).size is Some
}

/// Check the client's part list against the stored parts: every listed
/// `(part_number, etag)` must name a finished stored part. On success the
/// matched parts come back in list order.
pub fn check_parts(mpu: &MultipartUpload, req: &Vec<CompleteMultipartUploadPart>) -> (r: Result<
    Vec<MpuPart>,
    Error,
>)
    requires
        mpu.wf(),
    ensures
        r is Ok <==> (forall|i: int|
            0 <= i < req@.len() ==> spec_part_acceptable(
                mpu.parts@,
                (#[trigger] req@[i]).part_number,
                req@[i].etag@,
            )),
        r matches Ok(v) ==> v@.len() == req@.len() && forall|i: int|
            0 <= i < req@.len() ==> (#[trigger] v@[i]@) == spec_latest_part(
                mpu.parts@,
                req@[i].part_number,
            ),
        r matches Err(e) ==> e is InvalidPart,
{
    let mut out: Vec<MpuPart> = Vec::new();
    let mut i: usize = 0;
    while i < req.len()
        invariant
            0 <= i <= req@.len(),
            mpu.wf(),
            out@.len() == i,
            forall|j: int|
                0 <= j < i ==> spec_part_acceptable(
                    mpu.parts@,
                    (#[trigger] req@[j]).part_number,
                    req@[j].etag@,
                ),
            forall|j: int|
                0 <= j < i ==> (#[trigger] out@[j]@) == spec_latest_part(
                    mpu.parts@,
                    req@[j].part_number,
                ),
        decreases req@.len() - i,
    {
        let part = match mpu.latest_part(req[i].part_number) {
            Some(p) => p,
            None => {
                return Err(Error::InvalidPart);
            }
        };
        let ok = match &part.etag {
            Some(e) => e.eq(&req[i].etag) && part.size.is_some(),
            None => false,
        };
        if !ok {
            return Err(Error::InvalidPart);
        }
        out.push(part);
        i = i + 1;
    }
    Ok(out)
}

/// The block list of part `k` (1-based), renumbered for the final
/// version: each block keeps its offset and gets part number `k`.
pub open spec fn renumbered(blocks: Seq<(VersionBlockKey, VersionBlockV)>, pn: u64) -> Seq<
    (VersionBlockKey, VersionBlockV),
> {
    Seq::new(
        blocks.len(),
        |i: int|
            (
                VersionBlockKey { part_number: pn, offset: blocks[i].0.offset },
                blocks[i].1,
            ),
    )
}

/// The block list of the final version: the parts' blocks concatenated,
/// part `k` of the final scheme holding the blocks of the `k`-th listed
/// part.
pub open spec fn assembled_blocks(parts: Seq<Seq<(VersionBlockKey, VersionBlockV)>>, n: int) -> Seq<
    (VersionBlockKey, VersionBlockV),
>
    decreases n,
{
    if n <= 0 {
        Seq::empty()
    } else {
        assembled_blocks(parts, n - 1) + renumbered(parts[n - 1], (n) as u64)
    }
}

/// Build the final version of a completed multipart upload: the parts'
/// blocks, in order, renumbered so the `k`-th accepted part becomes part
/// `k` of the final object. Fails with `InvalidPart` when a part's
/// version was deleted in the meantime.
pub fn assemble_final_version(
    upload_id: Uuid,
    bucket_id: Uuid,
    key: &String,
    parts_versions: &Vec<Version>,
) -> (r: Result<Version, Error>)
    requires
        forall|i: int| 0 <= i < parts_versions@.len() ==> (#[trigger] parts_versions@[i]).wf(),
        // Each part version lists the blocks of one uploaded part, at
        // strictly increasing offsets.
        forall|i: int, a: int, c: int|
            #![trigger parts_versions@[i]@.blocks[a], parts_versions@[i]@.blocks[c]]
            0 <= i < parts_versions@.len() && 0 <= a < c < parts_versions@[i]@.blocks.len()
                ==> parts_versions@[i]@.blocks[a].0.offset < parts_versions@[i]@.blocks[c].0.offset,
        parts_versions@.len() < u64::MAX,
    ensures
        r is Ok <==> (forall|i: int|
            0 <= i < parts_versions@.len() ==> !(#[trigger] parts_versions@[i]).deleted),
        r matches Ok(v) ==> v.wf() && !v@.deleted && v@.uuid == upload_id@ && v@.backlink
            == (crate::version_table::VersionBacklinkV::Object {
                bucket_id: bucket_id@,
                key: key@,
            }) && v@.blocks =~= assembled_blocks(
            Seq::new(parts_versions@.len(), |i: int| parts_versions@[i]@.blocks),
            parts_versions@.len() as int,
        ),
        r matches Err(e) ==> e is InvalidPart,
{
    let ghost pviews = Seq::new(
        parts_versions@.len(),
        |i: int| parts_versions@[i]@.blocks,
    );
    let mut final_version = Version::new(
        upload_id,
        VersionBacklink::Object { bucket_id, key: key.clone() },
        false,
    );
    proof {
        assert(final_version@.blocks =~= assembled_blocks(pviews, 0));
    }
    let mut k: usize = 0;
    while k < parts_versions.len()
        invariant
            0 <= k <= parts_versions@.len(),
            parts_versions@.len() < u64::MAX,
            pviews == Seq::new(
                parts_versions@.len(),
                |i: int| parts_versions@[i]@.blocks,
            ),
            forall|i: int| 0 <= i < parts_versions@.len() ==> (#[trigger] parts_versions@[i]).wf(),
            forall|i: int, a: int, c: int|
                #![trigger parts_versions@[i]@.blocks[a], parts_versions@[i]@.blocks[c]]
                0 <= i < parts_versions@.len() && 0 <= a < c < parts_versions@[i]@.blocks.len()
                    ==> parts_versions@[i]@.blocks[a].0.offset < parts_versions@[i]@.blocks[
                    c
                ].0.offset,
            forall|i: int| 0 <= i < k ==> !(#[trigger] parts_versions@[i]).deleted,
            final_version.wf(),
            !final_version.deleted,
            final_version@.uuid == upload_id@,
            final_version@.backlink == (crate::version_table::VersionBacklinkV::Object {
                bucket_id: bucket_id@,
                key: key@,
            }),
            final_version@.blocks =~= assembled_blocks(pviews, k as int),
            forall|e: int|
                0 <= e < final_version@.blocks.len() ==> (
                #[trigger] final_version@.blocks[e]).0.part_number <= k,
        decreases parts_versions@.len() - k,
    {
        let pv = &parts_versions[k];
        if pv.deleted {
            return Err(Error::InvalidPart);
        }
        let ghost pblocks = pv@.blocks;
        let mut b: usize = 0;
        while b < pv.blocks.len()
            invariant
                0 <= b <= pblocks.len(),
                pblocks == parts_versions@[k as int]@.blocks,
                pv == &parts_versions@[k as int],
                pv@.blocks == pblocks,
                forall|a: int, c: int|
                    0 <= a < c < pblocks.len() ==> (#[trigger] pblocks[a]).0.offset < (
                    #[trigger] pblocks[c]).0.offset,
                k < parts_versions@.len() < u64::MAX,
                parts_versions@[k as int].wf(),
                final_version.wf(),
                !final_version.deleted,
                final_version@.uuid == upload_id@,
                final_version@.backlink == (crate::version_table::VersionBacklinkV::Object {
                    bucket_id: bucket_id@,
                    key: key@,
                }),
                final_version@.blocks =~= assembled_blocks(pviews, k as int) + renumbered(
                    pblocks,
                    (k + 1) as u64,
                ).take(b as int),
                forall|e: int|
                    0 <= e < final_version@.blocks.len() ==> ((
                    #[trigger] final_version@.blocks[e]).0.part_number < k + 1 || (
                    final_version@.blocks[e].0.part_number == k + 1 && b > 0 && (
                    final_version@.blocks[e]).0.offset <= pblocks[b - 1].0.offset)),
            decreases pblocks.len() - b,
        {
            let (vbk, vb) = *pv.blocks.item(b);
            let new_key = VersionBlockKey { part_number: (k as u64) + 1, offset: vbk.offset };
            proof {
                assert(new_key.offset == pblocks[b as int].0.offset);
                assert forall|e: int|
                    0 <= e < final_version@.blocks.len() implies crate::version_table::bkey_lt(
                    (#[trigger] final_version@.blocks[e]).0,
                    new_key,
                ) by {
                    if final_version@.blocks[e].0.part_number == k + 1 && b > 0 {
                        assert((pblocks[b - 1]).0.offset < (pblocks[b as int]).0.offset);
                        assert(final_version@.blocks[e].0.offset < new_key.offset);
                    }
                };
            }
            let ghost before = final_version@.blocks;
            final_version.blocks.put(new_key, vb);
            proof {
                assert(final_version@.blocks =~= before.push((new_key, vb@)));
                assert(renumbered(pblocks, (k + 1) as u64).take(b + 1) =~= renumbered(
                    pblocks,
                    (k + 1) as u64,
                ).take(b as int).push((new_key, vb@)));
                assert(final_version@.blocks =~= assembled_blocks(pviews, k as int) + renumbered(
                    pblocks,
                    (k + 1) as u64,
                ).take(b + 1));
            }
            b = b + 1;
        }
        proof {
            assert(renumbered(pblocks, (k + 1) as u64).take(pblocks.len() as int) =~= renumbered(
                pblocks,
                (k + 1) as u64,
            ));
            assert(final_version@.blocks =~= assembled_blocks(pviews, k + 1));
        }
        k = k + 1;
    }
    Ok(final_version)
}

// ---- The multipart etag ------------------------------------------------

/// The decimal digits of a number.
pub open spec fn dec_digits(n: int) -> Seq<char>
    decreases n,
{
    if n < 0 {
        Seq::empty()
    } else if n < 10 {
        seq![dec_digit(n)]
    } else {
        dec_digits(n / 10).push(dec_digit(n % 10))
    }
}

pub open spec fn dec_digit(n: int) -> char {
    (48 + n) as char
}

fn digit_str(n: u64) -> (r: String)
    requires
        n < 10,
    ensures
        r@ =~= seq![dec_digit(n as int)],
{
    let r = match n {
        0 => String::from_str("0"),
        1 => String::from_str("1"),
        2 => String::from_str("2"),
        3 => String::from_str("3"),
        4 => String::from_str("4"),
        5 => String::from_str("5"),
        6 => String::from_str("6"),
        7 => String::from_str("7"),
        8 => String::from_str("8"),
        _ => String::from_str("9"),
    };
    proof {
        reveal_strlit("0");
        reveal_strlit("1");
        reveal_strlit("2");
        reveal_strlit("3");
        reveal_strlit("4");
        reveal_strlit("5");
        reveal_strlit("6");
        reveal_strlit("7");
        reveal_strlit("8");
        reveal_strlit("9");
    }
    r
}

/// The decimal form of a number.
pub fn u64_to_dec(n: u64) -> (r: String)
    ensures
        r@ == dec_digits(n as int),
    decreases n,
{
    if n < 10 {
        digit_str(n)
    } else {
        let head = u64_to_dec(n / 10);
        let tail = digit_str(n % 10);
        let r = head.concat(tail.as_str());
        proof {
            assert(r@ =~= dec_digits(n as int / 10).push(dec_digit(n as int % 10)));
        }
        r
    }
}

/// The bytes over which the multipart etag digest runs: the parts' etag
/// strings, as utf-8, concatenated in order.
pub open spec fn concat_etag_bytes(etags: Seq<Seq<char>>) -> Seq<u8>
    decreases etags.len(),
{
    if etags.len() == 0 {
        Seq::empty()
    } else {
        concat_etag_bytes(etags.drop_last()) + vstd::utf8::encode_utf8(etags.last())
    }
}

/// The etag of a completed multipart upload:
/// `hex(md5(etag_1 || ... || etag_n)) - n`.
pub fn multipart_etag(etags: &Vec<String>) -> (r: String)
    requires
        etags@.len() < u64::MAX,
    ensures
        r@ == hex_of(md5_of(concat_etag_bytes(Seq::new(etags@.len(), |i: int| etags@[i]@)))) + "-"@
            + dec_digits(etags@.len() as int),
{
    let ghost ev = Seq::new(etags@.len(), |i: int| etags@[i]@);
    let mut bytes: Vec<u8> = Vec::new();
    let mut i: usize = 0;
    proof {
        assert(bytes@ =~= concat_etag_bytes(ev.take(0)));
    }
    while i < etags.len()
        invariant
            0 <= i <= ev.len(),
            ev == Seq::new(etags@.len(), |j: int| etags@[j]@),
            bytes@ =~= concat_etag_bytes(ev.take(i as int)),
        decreases ev.len() - i,
    {
        proof {
            assert(ev.take(i + 1).drop_last() =~= ev.take(i as int));
            assert(ev.take(i + 1).last() == ev[i as int]);
        }
        let eb = etags[i].as_str().as_bytes();
        let ghost before = bytes@;
        let mut j: usize = 0;
        while j < eb.len()
            invariant
                0 <= j <= eb@.len(),
                eb@ == vstd::utf8::encode_utf8(etags@[i as int]@),
                i < etags@.len(),
                bytes@ =~= before + eb@.take(j as int),
            decreases eb@.len() - j,
        {
            bytes.push(eb[j]);
            proof {
                assert(bytes@ =~= before + eb@.take(j + 1));
            }
            j = j + 1;
        }
        proof {
            assert(eb@.take(eb@.len() as int) =~= eb@);
            assert(bytes@ =~= concat_etag_bytes(ev.take(i + 1)));
        }
        i = i + 1;
    }
    proof {
        assert(ev.take(ev.len() as int) =~= ev);
    }
    let digest = md5sum(bytes.as_slice());
    let hexpart = hex_encode(digest.as_slice());
    let dash = String::from_str("-");
    proof {
        reveal_strlit("-");
    }
    let count = u64_to_dec(etags.len() as u64);
    let r = hexpart.concat(dash.as_str()).concat(count.as_str());
    proof {
        assert(dash@ =~= "-"@);
    }
    r
}

/// Sum of the recorded sizes of the accepted parts.
pub open spec fn parts_total_size(parts: Seq<MpuPartV>) -> int
    decreases parts.len(),
{
    if parts.len() == 0 {
        0
    } else {
        parts_total_size(parts.drop_last()) + (match parts.last().size {
            Some(s) => s as int,
            None => 0,
        })
    }
}

/// Total size of a completed upload: the sum of its parts' sizes.
pub fn total_size_of_parts(parts: &Vec<MpuPart>) -> (r: u64)
    requires
        parts_total_size(Seq::new(parts@.len(), |i: int| parts@[i]@)) <= u64::MAX,
    ensures
        r == parts_total_size(Seq::new(parts@.len(), |i: int| parts@[i]@)),
{
    let ghost pv = Seq::new(parts@.len(), |i: int| parts@[i]@);
    let mut total: u64 = 0;
    let mut i: usize = 0;
    proof {
        assert(pv.take(0) =~= Seq::<MpuPartV>::empty());
    }
    while i < parts.len()
        invariant
            0 <= i <= pv.len(),
            pv == Seq::new(parts@.len(), |j: int| parts@[j]@),
            parts_total_size(pv) <= u64::MAX,
            total == parts_total_size(pv.take(i as int)),
        decreases pv.len() - i,
    {
        proof {
            assert(pv.take(i + 1).drop_last() =~= pv.take(i as int));
            assert(pv.take(i + 1).last() == pv[i as int]);
            lemma_parts_total_prefix(pv, i + 1);
            lemma_parts_total_nonneg(pv.take(i as int));
        }
        match parts[i].size {
            Some(s) => {
                total = total + s;
            }
            None => {}
        }
        i = i + 1;
    }
    proof {
        assert(pv.take(pv.len() as int) =~= pv);
    }
    total
}

proof fn lemma_parts_total_nonneg(parts: Seq<MpuPartV>)
    ensures
        0 <= parts_total_size(parts),
    decreases parts.len(),
{
    if parts.len() > 0 {
        lemma_parts_total_nonneg(parts.drop_last());
    }
}

proof fn lemma_parts_total_prefix(parts: Seq<MpuPartV>, i: int)
    requires
        0 <= i <= parts.len(),
    ensures
        parts_total_size(parts.take(i)) <= parts_total_size(parts),
    decreases parts.len() - i,
{
    if i == parts.len() {
        assert(parts.take(i) =~= parts);
    } else {
        lemma_parts_total_prefix(parts, i + 1);
        assert(parts.take(i + 1).drop_last() =~= parts.take(i));
        assert(parts.take(i + 1).last() == parts[i]);
        lemma_parts_total_nonneg(parts.take(i));
    }
}


// ---- The multipart entry points ----------------------------------------

/// The rows a `CreateMultipartUpload` writes: an uploading object version
/// marked multipart (so repair leaves the upload alone), and the upload's
/// own row that will hold the parts.
pub fn handle_create_multipart_upload(
    bucket_id: Uuid,
    key: &String,
    upload_id: Uuid,
    timestamp: u64,
    headers: ObjectVersionHeaders,
) -> (r: (crate::object_table::Object, MultipartUpload))
    ensures
        r.0.wf(),
        r.0@.bucket_id == bucket_id@ && r.0@.key == key@,
        r.0@.versions.len() == 1,
        r.0@.versions[0].uuid == upload_id@,
        r.0@.versions[0].timestamp == timestamp,
        r.0@.versions[0].state matches crate::object_table::StateV::Uploading {
            multipart,
            ..
        } && multipart,
        r.1.wf(),
        r.1.upload_id@ == upload_id@ && r.1.timestamp == timestamp && !r.1.deleted,
        r.1.bucket_id@ == bucket_id@ && r.1.key@ == key@,
        r.1.parts@.len() == 0,
{
    let object_version = crate::object_table::ObjectVersion {
        uuid: upload_id,
        timestamp,
        state: crate::object_table::ObjectVersionState::Uploading { multipart: true, headers },
    };
    let mut versions: Vec<crate::object_table::ObjectVersion> = Vec::new();
    versions.push(object_version);
    let object = crate::object_table::Object {
        bucket_id,
        key: key.clone(),
        versions,
    };
    proof {
        assert(object.wf());
    }
    let mpu = MultipartUpload::new(upload_id, timestamp, bucket_id, key.clone(), false);
    (object, mpu)
}

/// The rows an `AbortMultipartUpload` writes: the upload's object version
/// turned `Aborted`; the object table's update hook then enqueues the
/// version and mpu-row deletions.
pub fn handle_abort_multipart_upload(
    bucket_id: Uuid,
    key: &String,
    upload_id: Uuid,
    timestamp: u64,
) -> (r: crate::object_table::Object)
    ensures
        r.wf(),
        r@.bucket_id == bucket_id@ && r@.key == key@,
        r@.versions.len() == 1,
        r@.versions[0].uuid == upload_id@,
        r@.versions[0].timestamp == timestamp,
        r@.versions[0].state is Aborted,
{
    let object_version = crate::object_table::ObjectVersion {
        uuid: upload_id,
        timestamp,
        state: crate::object_table::ObjectVersionState::Aborted,
    };
    let mut versions: Vec<crate::object_table::ObjectVersion> = Vec::new();
    versions.push(object_version);
    let object = crate::object_table::Object { bucket_id, key: key.clone(), versions };
    proof {
        assert(object.wf());
    }
    object
}

/// The version row an interrupted `UploadPart` leaves behind on any
/// non-success exit: a tombstone for the part's version, so its blocks
/// are garbage-collected instead of leaking.
pub fn interrupted_cleanup_version(upload_id: Uuid, version_uuid: Uuid) -> (r: Version)
    ensures
        r.wf(),
        r@.uuid == version_uuid@,
        r@.deleted,
        r@.blocks.len() == 0,
        r@.backlink == (crate::version_table::VersionBacklinkV::MultipartUpload {
            upload_id: upload_id@,
        }),
{
    Version::new(version_uuid, VersionBacklink::MultipartUpload { upload_id }, true)
}

/// Everything a `CompleteMultipartUpload` writes once its inputs check
/// out.
pub struct CompleteMultipartPlan {
    /// The final version of the object, holding all parts' blocks
    pub final_version: Version,
    /// One reference per block of the final version, keyed by the upload
    pub block_refs: Vec<crate::version_table::BlockRef>,
    /// The multipart etag of the final object
    pub etag: String,
    /// Total size of the final object
    pub total_size: u64,
}

/// Complete a multipart upload: check the client's part list against the
/// stored parts, assemble the final version out of the parts' blocks,
/// and compute the multipart etag and total size. Each reject names its
/// cause: an upload with no parts is a bad request, an empty or
/// unordered part list is refused, and so is a part that does not match
/// a stored one or whose version was deleted meanwhile.
#[verifier::rlimit(100)]
pub fn handle_complete_multipart_upload(
    bucket_id: Uuid,
    key: &String,
    upload_id: Uuid,
    mpu: &MultipartUpload,
    body_list_of_parts: &Vec<CompleteMultipartUploadPart>,
    parts_versions: &Vec<Version>,
) -> (r: Result<CompleteMultipartPlan, Error>)
    requires
        mpu.wf(),
        forall|i: int| 0 <= i < parts_versions@.len() ==> (#[trigger] parts_versions@[i]).wf(),
        forall|i: int, a: int, c: int|
            #![trigger parts_versions@[i]@.blocks[a], parts_versions@[i]@.blocks[c]]
            0 <= i < parts_versions@.len() && 0 <= a < c < parts_versions@[i]@.blocks.len()
                ==> parts_versions@[i]@.blocks[a].0.offset < parts_versions@[i]@.blocks[c].0.offset,
        parts_versions@.len() == body_list_of_parts@.len(),
        parts_versions@.len() < u64::MAX,
        parts_total_size(
            Seq::new(
                body_list_of_parts@.len(),
                |i: int| spec_latest_part(mpu.parts@, body_list_of_parts@[i].part_number),
            ),
        ) <= u64::MAX,
    ensures
        // Success exactly when every check passes: some part was uploaded,
        // the listed part numbers are non-empty and strictly increasing,
        // every listed (part_number, etag) names a finished stored part,
        // and no part's version was deleted in the meantime.
        r is Ok <==> (mpu.parts@.len() > 0 && body_list_of_parts@.len() > 0 && (forall|
            a: int,
            b: int,
        |
            0 <= a < b < body_list_of_parts@.len() ==> (
            #[trigger] body_list_of_parts@[a]).part_number < (
            #[trigger] body_list_of_parts@[b]).part_number) && (forall|a: int|
            0 <= a < body_list_of_parts@.len() ==> spec_part_acceptable(
                mpu.parts@,
                (#[trigger] body_list_of_parts@[a]).part_number,
                body_list_of_parts@[a].etag@,
            )) && (forall|a: int|
            0 <= a < parts_versions@.len() ==> !(#[trigger] parts_versions@[a]).deleted)),
        mpu.parts@.len() == 0 ==> (r matches Err(e) && e is BadRequest),
        r matches Ok(plan) ==> {
            &&& plan.final_version.wf() && !plan.final_version@.deleted
            &&& plan.final_version@.uuid == upload_id@
            &&& plan.final_version@.blocks =~= assembled_blocks(
                Seq::new(parts_versions@.len(), |i: int| parts_versions@[i]@.blocks),
                parts_versions@.len() as int,
            )
            &&& plan.block_refs@.len() == plan.final_version@.blocks.len()
            &&& (forall|i: int|
                0 <= i < plan.block_refs@.len() ==> (#[trigger] plan.block_refs@[i]).block@
                    == plan.final_version@.blocks[i].1.hash && plan.block_refs@[i].version@
                    == upload_id@ && !plan.block_refs@[i].deleted)
            &&& plan.etag@ == crate::data::hex_of(
                md5_of(
                    concat_etag_bytes(
                        Seq::new(
                            body_list_of_parts@.len(),
                            |i: int| body_list_of_parts@[i].etag@,
                        ),
                    ),
                ),
            ) + "-"@ + dec_digits(body_list_of_parts@.len() as int)
            &&& plan.total_size == parts_total_size(
                Seq::new(
                    body_list_of_parts@.len(),
                    |i: int| spec_latest_part(mpu.parts@, body_list_of_parts@[i].part_number),
                ),
            )
        },
{
    if mpu.parts.len() == 0 {
        return Err(Error::BadRequest(String::from_str("no data was uploaded")));
    }
    // The part numbers must be non-empty and strictly increasing.
    match check_part_list_order(body_list_of_parts) {
        Err(e) => {
            return Err(e);
        }
        _ => {}
    }
    // Every listed part must name a finished stored part.
    let parts = match check_parts(mpu, body_list_of_parts) {
        Ok(p) => p,
        Err(e) => {
            return Err(e);
        }
    };
    // Assemble the final version; a part deleted in the meantime rejects.
    let final_version = match assemble_final_version(upload_id, bucket_id, key, parts_versions) {
        Ok(v) => v,
        Err(e) => {
            return Err(e);
        }
    };
    let ghost pviews = Seq::new(parts_versions@.len(), |i: int| parts_versions@[i]@.blocks);
    // One block reference per block of the final version.
    let mut block_refs: Vec<crate::version_table::BlockRef> = Vec::new();
    let mut i: usize = 0;
    while i < final_version.blocks.len()
        invariant
            0 <= i <= final_version@.blocks.len(),
            final_version.wf(),
            !final_version@.deleted,
            final_version@.uuid == upload_id@,
            final_version@.blocks =~= assembled_blocks(pviews, parts_versions@.len() as int),
            pviews == Seq::new(parts_versions@.len(), |q: int| parts_versions@[q]@.blocks),
            block_refs@.len() == i,
            forall|j: int|
                0 <= j < i ==> (#[trigger] block_refs@[j]).block@ == final_version@.blocks[
                    j
                ].1.hash && block_refs@[j].version@ == upload_id@ && !block_refs@[j].deleted,
        decreases final_version@.blocks.len() - i,
    {
        let (_, vb) = *final_version.blocks.item(i);
        block_refs.push(
            crate::version_table::BlockRef { block: vb.hash, version: upload_id, deleted: false },
        );
        i = i + 1;
    }
    // The multipart etag and the total size of the accepted parts.
    let mut etags: Vec<String> = Vec::new();
    let mut k: usize = 0;
    while k < parts.len()
        invariant
            0 <= k <= parts@.len(),
            mpu.wf(),
            mpu.parts@.len() > 0,
            body_list_of_parts@.len() > 0,
            final_version.wf(),
            !final_version@.deleted,
            final_version@.uuid == upload_id@,
            final_version@.blocks =~= assembled_blocks(pviews, parts_versions@.len() as int),
            pviews == Seq::new(parts_versions@.len(), |q: int| parts_versions@[q]@.blocks),
            block_refs@.len() == final_version@.blocks.len(),
            forall|j: int|
                0 <= j < block_refs@.len() ==> (#[trigger] block_refs@[j]).block@
                    == final_version@.blocks[j].1.hash && block_refs@[j].version@ == upload_id@
                    && !block_refs@[j].deleted,
            parts@.len() == body_list_of_parts@.len() < u64::MAX,
            etags@.len() == k,
            forall|j: int|
                0 <= j < parts@.len() ==> (#[trigger] parts@[j]@) == spec_latest_part(
                    mpu.parts@,
                    body_list_of_parts@[j].part_number,
                ) && spec_part_acceptable(
                    mpu.parts@,
                    body_list_of_parts@[j].part_number,
                    body_list_of_parts@[j].etag@,
                ),
            forall|j: int| 0 <= j < k ==> (#[trigger] etags@[j])@ == body_list_of_parts@[j].etag@,
        decreases parts@.len() - k,
    {
        proof {
            assert(parts@[k as int]@ == spec_latest_part(
                mpu.parts@,
                body_list_of_parts@[k as int].part_number,
            ));
            assert(spec_part_acceptable(
                mpu.parts@,
                body_list_of_parts@[k as int].part_number,
                body_list_of_parts@[k as int].etag@,
            ));
            assert(parts@[k as int]@.etag == Some(body_list_of_parts@[k as int].etag@));
        }
        match &parts[k].etag {
            Some(e) => {
                etags.push(e.clone());
            }
            None => {
                proof {
                    assert(false);
                }
                return Err(Error::InvalidPart);
            }
        }
        k = k + 1;
    }
    let etag = multipart_etag(&etags);
    proof {
        assert(Seq::new(etags@.len(), |j: int| etags@[j]@) =~= Seq::new(
            body_list_of_parts@.len(),
            |j: int| body_list_of_parts@[j].etag@,
        ));
    }
    proof {
        assert(Seq::new(parts@.len(), |j: int| parts@[j]@) =~= Seq::new(
            body_list_of_parts@.len(),
            |j: int| spec_latest_part(mpu.parts@, body_list_of_parts@[j].part_number),
        ));
    }
    let total_size = total_size_of_parts(&parts);
    Ok(CompleteMultipartPlan { final_version, block_refs, etag, total_size })
}

} // verus!
