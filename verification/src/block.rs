//! Data blocks: immutable byte chunks identified by their Blake2b-256
//! hash, stored plain or zstd-compressed. Whatever the form on the wire or
//! on disk, the unpacked bytes must hash to the block's name.

use vstd::prelude::*;

use crate::data::BlockHash;
use crate::error::Error;

verus! {

/// The Blake2b-256 digest of a byte string.
pub uninterp spec fn blake2b_of(data: Seq<u8>) -> Seq<u8>;

/// What zstd decompression yields on a compressed byte string.
pub uninterp spec fn zstd_decompress_of(data: Seq<u8>) -> Seq<u8>;

/// Whether a byte string is a well-formed zstd frame that decompression
/// accepts.
pub uninterp spec fn zstd_well_formed(data: Seq<u8>) -> bool;

/// Relies on blake2::Blake2b with a 32-byte output: the digest depends on
/// the input bytes alone and is 32 bytes long.
#[verifier::external_body]
pub fn blake2sum(data: &[u8]) -> (r: BlockHash)
    ensures
        r@ == blake2b_of(data@),
{
    let mut h = <blake2::Blake2b<blake2::digest::consts::U32> as blake2::digest::Digest>::new();
    blake2::digest::Digest::update(&mut h, data);
    let out = blake2::digest::Digest::finalize(h);
    let mut bytes = [0u8; 32];
    bytes.copy_from_slice(&out);
    BlockHash { bytes }
}

/// Relies on zstd::stream::encode_all: on success the output is a
/// well-formed frame whose decompression restores the input.
#[verifier::external_body]
fn zstd_encode(data: &[u8], level: i32) -> (r: Option<Vec<u8>>)
    ensures
        r matches Some(c) ==> zstd_well_formed(c@) && zstd_decompress_of(c@) == data@,
{
    zstd::stream::encode_all(data, level).ok()
}

/// Relies on zstd::stream::decode_all: it succeeds exactly on well-formed
/// frames and returns the decompressed bytes.
#[verifier::external_body]
fn zstd_decode(data: &[u8]) -> (r: Option<Vec<u8>>)
    ensures
        r is Some <==> zstd_well_formed(data@),
        r matches Some(d) ==> d@ == zstd_decompress_of(data@),
{
    zstd::stream::decode_all(data).ok()
}

/// A block of data, as stored on disk and sent between nodes.
pub enum DataBlock {
    /// Uncompressed data
    Plain(Vec<u8>),
    /// Data compressed with zstd
    Compressed(Vec<u8>),
}

pub enum DataBlockV {
    Plain(Seq<u8>),
    Compressed(Seq<u8>),
}

impl View for DataBlock {
    type V = DataBlockV;

    open spec fn view(&self) -> DataBlockV {
        match self {
            DataBlock::Plain(d) => DataBlockV::Plain(d@),
            DataBlock::Compressed(c) => DataBlockV::Compressed(c@),
        }
    }
}

/// The bytes a stored block stands for, after decompression if needed.
pub open spec fn unpacked(b: DataBlockV) -> Seq<u8> {
    match b {
        DataBlockV::Plain(d) => d,
        DataBlockV::Compressed(c) => zstd_decompress_of(c),
    }
}

/// A stored form is sound when decompression is possible at all.
pub open spec fn form_well_formed(b: DataBlockV) -> bool {
    match b {
        DataBlockV::Plain(_) => true,
        DataBlockV::Compressed(c) => zstd_well_formed(c),
    }
}

/// Block integrity: the unpacked content of the stored form hashes to the
/// block's name.
pub open spec fn block_matches(b: DataBlockV, hash: Seq<u8>) -> bool {
    form_well_formed(b) && blake2b_of(unpacked(b)) == hash
}

impl Clone for DataBlock {
    fn clone(&self) -> (r: Self)
        ensures
            r@ == self@,
    {
        match self {
            DataBlock::Plain(d) => DataBlock::Plain(clone_bytes(d)),
            DataBlock::Compressed(c) => DataBlock::Compressed(clone_bytes(c)),
        }
    }
}

/// An elementwise copy of a byte vector.
pub fn clone_bytes(b: &Vec<u8>) -> (r: Vec<u8>)
    ensures
        r@ == b@,
{
    let mut bytes: Vec<u8> = Vec::new();
    let mut i: usize = 0;
    while i < b.len()
        invariant
            0 <= i <= b.len(),
            bytes@ =~= b@.take(i as int),
        decreases b.len() - i,
    {
        bytes.push(b[i]);
        i = i + 1;
    }
    proof {
        assert(bytes@ =~= b@);
    }
    bytes
}

impl DataBlock {
    /// Is the block stored in compressed form?
    pub fn is_compressed(&self) -> (r: bool)
        ensures
            r == (self@ is Compressed),
    {
        match self {
            DataBlock::Plain(_) => false,
            DataBlock::Compressed(_) => true,
        }
    }

    /// The raw stored bytes, compressed or not.
    pub fn inner_buffer(&self) -> (r: &Vec<u8>)
        ensures
            self@ matches DataBlockV::Plain(d) ==> r@ == d,
            self@ matches DataBlockV::Compressed(c) ==> r@ == c,
    {
        match self {
            DataBlock::Plain(d) => d,
            DataBlock::Compressed(c) => c,
        }
    }

    /// Package a buffer for storage: compress iff a compression level is
    /// configured and compressing actually shrinks the block.
    pub fn from_buffer(data: Vec<u8>, level: Option<i32>) -> (r: DataBlock)
        ensures
            form_well_formed(r@),
            unpacked(r@) == data@,
            level is None ==> r@ == DataBlockV::Plain(data@),
            r@ matches DataBlockV::Compressed(c) ==> c.len() < data@.len(),
    {
        match level {
            None => DataBlock::Plain(data),
            Some(l) => {
                match zstd_encode(data.as_slice(), l) {
                    Some(c) => {
                        if c.len() < data.len() {
                            DataBlock::Compressed(c)
                        } else {
                            DataBlock::Plain(data)
                        }
                    }
                    None => DataBlock::Plain(data),
                }
            }
        }
    }

    /// Check integrity of the stored form against the block's name:
    /// succeeds exactly when the unpacked bytes hash to `hash`.
    pub fn verify(&self, hash: &BlockHash) -> (r: Result<(), Error>)
        ensures
            r is Ok <==> block_matches(self@, hash@),
            r matches Err(e) ==> e is CorruptData,
    {
        match self {
            DataBlock::Plain(d) => {
                let sum = blake2sum(d.as_slice());
                if crate::data::fb32_eq(&sum, hash) {
                    Ok(())
                } else {
                    Err(Error::CorruptData(*hash))
                }
            }
            DataBlock::Compressed(c) => {
                match zstd_decode(c.as_slice()) {
                    Some(d) => {
                        let sum = blake2sum(d.as_slice());
                        if crate::data::fb32_eq(&sum, hash) {
                            Ok(())
                        } else {
                            Err(Error::CorruptData(*hash))
                        }
                    }
                    None => Err(Error::CorruptData(*hash)),
                }
            }
        }
    }

    /// Unpack the block and check its integrity: the returned bytes are
    /// exactly the block content and hash to the block's name.
    pub fn verify_get(self, hash: &BlockHash) -> (r: Result<Vec<u8>, Error>)
        ensures
            r is Ok <==> block_matches(self@, hash@),
            r matches Ok(d) ==> d@ == unpacked(self@) && blake2b_of(d@) == hash@,
            r matches Err(e) ==> e is CorruptData,
    {
        match self {
            DataBlock::Plain(d) => {
                let sum = blake2sum(d.as_slice());
                if crate::data::fb32_eq(&sum, hash) {
                    Ok(d)
                } else {
                    Err(Error::CorruptData(*hash))
                }
            }
            DataBlock::Compressed(c) => {
                match zstd_decode(c.as_slice()) {
                    Some(d) => {
                        let sum = blake2sum(d.as_slice());
                        if crate::data::fb32_eq(&sum, hash) {
                            Ok(d)
                        } else {
                            Err(Error::CorruptData(*hash))
                        }
                    }
                    None => Err(Error::CorruptData(*hash)),
                }
            }
        }
    }
}

} // verus!
