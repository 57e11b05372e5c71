//! Online repair: the decisions of the background workers that walk the
//! version and block-reference tables and tombstone rows whose owners are
//! gone. The table walks live outside; each decision here is on one row.

use vstd::prelude::*;

use crate::data::fb32_eq;
use crate::object_table::{Object, ObjectVersionState};
use crate::version_table::{BlockRef, Version};

verus! {

/// Does an object still carry this version, in a non-aborted state?
pub open spec fn spec_version_held(o: &Object, uuid: Seq<u8>) -> bool {
    exists|i: int|
        0 <= i < o@.versions.len() && (#[trigger] o@.versions[i]).uuid == uuid && !(
        o@.versions[i].state is Aborted)
}

/// The version-repair decision: a non-deleted version row whose
/// backlinked object no longer lists it (or lists it as aborted) must be
/// tombstoned, so its block references become garbage-collectable.
pub fn repair_version_decision(version: &Version, object: Option<&Object>) -> (r: bool)
    ensures
        r == (!version@.deleted && match object {
            Some(o) => !spec_version_held(o, version@.uuid),
            None => true,
        }),
{
    if version.deleted {
        return false;
    }
    match object {
        None => true,
        Some(o) => {
            let mut i: usize = 0;
            while i < o.versions.len()
                invariant
                    !version@.deleted,
                    object == Some(o),
                    0 <= i <= o@.versions.len(),
                    forall|j: int|
                        0 <= j < i ==> !((#[trigger] o@.versions[j]).uuid == version@.uuid && !(
                        o@.versions[j].state is Aborted)),
                decreases o@.versions.len() - i,
            {
                let v = &o.versions[i];
                let aborted = match &v.state {
                    ObjectVersionState::Aborted => true,
                    _ => false,
                };
                if fb32_eq(&v.uuid, &version.uuid) && !aborted {
                    proof {
                        let ghost ii = i as int;
                        assert(o@.versions[ii].uuid == version@.uuid && !(o@.versions[ii].state
                            is Aborted));
                        assert(spec_version_held(o, version@.uuid));
                    }
                    return false;
                }
                i = i + 1;
            }
            true
        }
    }
}

/// The block-reference-repair decision: a non-deleted reference whose
/// version is gone, or deleted, must be tombstoned; the reference-count
/// decrement fires on that transition.
pub fn repair_block_ref_decision(block_ref: &BlockRef, version: Option<&Version>) -> (r: bool)
    ensures
        r == (!block_ref.deleted && match version {
            Some(v) => v@.deleted,
            None => true,
        }),
{
    if block_ref.deleted {
        return false;
    }
    match version {
        None => true,
        Some(v) => v.deleted,
    }
}

} // verus!
