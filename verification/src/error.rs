//! The error taxonomy that core operations surface to their callers.

use vstd::prelude::*;

use crate::data::BlockHash;

verus! {

/// Observable error kinds of the core. The HTTP edge maps them to status
/// codes; background workers count them and continue.
#[derive(Debug)]
pub enum Error {
    /// Malformed input or a bad header combination (HTTP 400)
    BadRequest(String),
    /// The key lacks the required permission (HTTP 403)
    Forbidden(String),
    /// The addressed object does not exist (HTTP 404)
    NoSuchKey,
    /// The addressed multipart upload does not exist (HTTP 404)
    NoSuchUpload,
    /// The addressed bucket does not exist (HTTP 404)
    NoSuchBucket,
    /// An `if-*` precondition on a copy failed (HTTP 412)
    PreconditionFailed,
    /// A multipart upload completed with no parts (HTTP 400)
    EntityTooSmall,
    /// A part in a complete-multipart request does not match a stored part
    InvalidPart,
    /// Part numbers in a complete-multipart request are not increasing
    InvalidPartOrder,
    /// An imported access key collides with an existing one (HTTP 409)
    KeyAlreadyExists,
    /// A block read from disk does not hash to its name
    CorruptData(BlockHash),
    /// Too few replicas acknowledged a write or answered a read (HTTP 503)
    QuorumFailed,
    /// Any other failure, described in text
    Message(String),
}

impl Error {
    /// A short stable name for the error kind, for logs and tests.
    pub fn kind(&self) -> (r: &'static str)
        ensures
            r@ == spec_kind(*self),
    {
        match self {
            Error::BadRequest(_) => "bad_request",
            Error::Forbidden(_) => "forbidden",
            Error::NoSuchKey => "no_such_key",
            Error::NoSuchUpload => "no_such_upload",
            Error::NoSuchBucket => "no_such_bucket",
            Error::PreconditionFailed => "precondition_failed",
            Error::EntityTooSmall => "entity_too_small",
            Error::InvalidPart => "invalid_part",
            Error::InvalidPartOrder => "invalid_part_order",
            Error::KeyAlreadyExists => "key_already_exists",
            Error::CorruptData(_) => "corrupt_data",
            Error::QuorumFailed => "quorum_failed",
            Error::Message(_) => "message",
        }
    }
}

pub open spec fn spec_kind(e: Error) -> Seq<char> {
    match e {
        Error::BadRequest(_) => "bad_request"@,
        Error::Forbidden(_) => "forbidden"@,
        Error::NoSuchKey => "no_such_key"@,
        Error::NoSuchUpload => "no_such_upload"@,
        Error::NoSuchBucket => "no_such_bucket"@,
        Error::PreconditionFailed => "precondition_failed"@,
        Error::EntityTooSmall => "entity_too_small"@,
        Error::InvalidPart => "invalid_part"@,
        Error::InvalidPartOrder => "invalid_part_order"@,
        Error::KeyAlreadyExists => "key_already_exists"@,
        Error::CorruptData(_) => "corrupt_data"@,
        Error::QuorumFailed => "quorum_failed"@,
        Error::Message(_) => "message"@,
    }
}

} // verus!
