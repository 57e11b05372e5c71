//! Convergence of the metadata CRDTs on concrete rows.

use garage_core::data::FixedBytes32;
use garage_core::crdt::Lww;
use garage_core::key_table::{
    handle_import_key, handle_update_key, BucketKeyPerm, Key, KeyFilter, KeyTable, LocalAliases,
};
use garage_core::object_table::{
    Object, ObjectTable, ObjectVersion, ObjectVersionData, ObjectVersionHeaders,
    ObjectVersionMeta, ObjectVersionState,
};
use garage_core::version_table::{
    BlockRef, MpuPart, MpuPartKey, MultipartUpload, Version, VersionBacklink, VersionBlock,
    VersionBlockKey,
};

fn id(n: u8) -> FixedBytes32 {
    FixedBytes32 { bytes: [n; 32] }
}

fn headers() -> ObjectVersionHeaders {
    ObjectVersionHeaders { content_type: String::from("text/plain"), other: Vec::new() }
}

fn meta(size: u64, etag: &str) -> ObjectVersionMeta {
    ObjectVersionMeta { headers: headers(), size, etag: String::from(etag) }
}

fn complete_inline(uuid: FixedBytes32, ts: u64, body: &[u8]) -> ObjectVersion {
    ObjectVersion {
        uuid,
        timestamp: ts,
        state: ObjectVersionState::Complete(ObjectVersionData::Inline(
            meta(body.len() as u64, "etag"),
            body.to_vec(),
        )),
    }
}

fn uploading(uuid: FixedBytes32, ts: u64, multipart: bool) -> ObjectVersion {
    ObjectVersion {
        uuid,
        timestamp: ts,
        state: ObjectVersionState::Uploading { multipart, headers: headers() },
    }
}

fn new_object(versions: Vec<ObjectVersion>) -> Object {
    Object::new(id(9), String::from("key"), versions)
}

fn version_keys(o: &Object) -> Vec<(u64, [u8; 32])> {
    o.versions.iter().map(|v| (v.timestamp, v.uuid.bytes)).collect()
}

#[test]
fn object_merge_commutes_on_concrete_rows() {
    let b = new_object(vec![complete_inline(id(2), 20, b"two")]);

    let mut ab = new_object(vec![complete_inline(id(1), 10, b"one"), uploading(id(3), 30, false)]);
    ab.merge(&b);
    let mut ba = new_object(vec![complete_inline(id(2), 20, b"two")]);
    let a2 = new_object(vec![complete_inline(id(1), 10, b"one"), uploading(id(3), 30, false)]);
    ba.merge(&a2);

    assert_eq!(version_keys(&ab), version_keys(&ba));
    // The complete version at t=10 is dropped: t=20 is the newest complete.
    assert_eq!(version_keys(&ab), vec![(20, [2u8; 32]), (30, [3u8; 32])]);
}

#[test]
fn object_merge_idempotent() {
    let mut a = new_object(vec![complete_inline(id(1), 10, b"one")]);
    let b = new_object(vec![complete_inline(id(1), 10, b"one")]);
    a.merge(&b);
    assert_eq!(version_keys(&a), vec![(10, [1u8; 32])]);
}

#[test]
fn concurrent_overwrite_keeps_newest_complete() {
    // Two writers commit different payloads at t1 < t2: after the rows
    // meet, only the newer complete version remains.
    let mut n1 = new_object(vec![complete_inline(id(1), 100, b"first")]);
    let n2 = new_object(vec![complete_inline(id(2), 200, b"second")]);
    n1.merge(&n2);
    assert_eq!(version_keys(&n1), vec![(200, [2u8; 32])]);
    match &n1.versions[0].state {
        ObjectVersionState::Complete(ObjectVersionData::Inline(_, body)) => {
            assert_eq!(body.as_slice(), b"second");
        }
        _ => panic!("expected the newer complete version"),
    }
}

#[test]
fn aborted_absorbs_complete() {
    let mut st = ObjectVersionState::Complete(ObjectVersionData::DeleteMarker);
    st.merge(&ObjectVersionState::Aborted);
    assert!(matches!(st, ObjectVersionState::Aborted));
}

#[test]
fn complete_absorbs_uploading() {
    let mut st = ObjectVersionState::Uploading { multipart: false, headers: headers() };
    st.merge(&ObjectVersionState::Complete(ObjectVersionData::DeleteMarker));
    assert!(matches!(st, ObjectVersionState::Complete(ObjectVersionData::DeleteMarker)));
}

#[test]
fn object_filters_and_tombstone() {
    let live = new_object(vec![complete_inline(id(1), 10, b"x")]);
    assert!(ObjectTable::matches_filter(
        &live,
        &garage_core::object_table::ObjectFilter::IsData,
    ));
    let marker = ObjectVersion {
        uuid: id(4),
        timestamp: 5,
        state: ObjectVersionState::Complete(ObjectVersionData::DeleteMarker),
    };
    let tomb = new_object(vec![marker]);
    assert!(tomb.is_tombstone());
    assert!(!ObjectTable::matches_filter(
        &tomb,
        &garage_core::object_table::ObjectFilter::IsData,
    ));
}

#[test]
fn updated_hook_propagates_deletions() {
    // An aborted multipart upload loses both its version row and its
    // mpu-table row.
    let old_entry = new_object(vec![uploading(id(1), 10, true)]);
    let mut aborted = uploading(id(1), 10, true);
    aborted.state = ObjectVersionState::Aborted;
    let new_entry = new_object(vec![aborted]);
    let actions = ObjectTable::updated(Some(&old_entry), Some(&new_entry));
    assert_eq!(actions.deleted_versions.len(), 1);
    assert_eq!(actions.deleted_versions[0].bytes, [1u8; 32]);
    assert_eq!(actions.deleted_mpus.len(), 1);
    assert_eq!(actions.deleted_mpus[0].1, 10);
}

#[test]
fn counts_of_a_row() {
    let o = new_object(vec![complete_inline(id(1), 10, b"hello"), uploading(id(2), 20, false)]);
    let c = o.counts();
    assert_eq!(c.objects, 1);
    assert_eq!(c.unfinished_uploads, 1);
    assert_eq!(c.bytes, 5);
}

#[test]
fn version_merge_unions_blocks_and_delete_wins() {
    let mut v1 = Version::new(
        id(1),
        VersionBacklink::Object { bucket_id: id(9), key: String::from("k") },
        false,
    );
    v1.blocks.put(
        VersionBlockKey { part_number: 1, offset: 0 },
        VersionBlock { hash: id(5), size: 4 },
    );
    let mut v2 = Version::new(
        id(1),
        VersionBacklink::Object { bucket_id: id(9), key: String::from("k") },
        false,
    );
    v2.blocks.put(
        VersionBlockKey { part_number: 1, offset: 4 },
        VersionBlock { hash: id(6), size: 4 },
    );
    v1.merge(&v2);
    assert_eq!(v1.blocks.len(), 2);

    let deleted = Version::new(
        id(1),
        VersionBacklink::Object { bucket_id: id(9), key: String::from("k") },
        true,
    );
    v1.merge(&deleted);
    assert!(v1.deleted);
    assert_eq!(v1.blocks.len(), 0);
}

#[test]
fn block_ref_tombstone_is_monotone() {
    let mut r = BlockRef { block: id(5), version: id(1), deleted: false };
    r.merge(&BlockRef { block: id(5), version: id(1), deleted: true });
    assert!(r.deleted);
    r.merge(&BlockRef { block: id(5), version: id(1), deleted: false });
    assert!(r.deleted);
}

#[test]
fn mpu_parts_keep_latest_timestamp() {
    let mut mpu = MultipartUpload::new(id(1), 100, id(9), String::from("k"), false);
    mpu.put_part(
        MpuPartKey { part_number: 1, timestamp: 10 },
        MpuPart { version: id(2), etag: Some(String::from("aa")), size: Some(4) },
    );
    mpu.put_part(
        MpuPartKey { part_number: 1, timestamp: 20 },
        MpuPart { version: id(3), etag: Some(String::from("bb")), size: Some(8) },
    );
    let latest = mpu.latest_part(1).expect("part 1 exists");
    assert_eq!(latest.etag.as_deref(), Some("bb"));
    assert_eq!(latest.size, Some(8));
    let ts = mpu.next_timestamp(1, 5);
    assert_eq!(ts, 21);
    let ts2 = mpu.next_timestamp(1, 1000);
    assert_eq!(ts2, 1000);
}

#[test]
fn key_rows_merge_and_tombstone() {
    let now = 1000;
    let mut k = Key::import(
        "GK00112233445566778899aabb",
        "00112233445566778899aabbccddeeff00112233445566778899aabbccddeeff",
        "alice",
        now,
    )
    .expect("valid key parts");
    assert!(!k.is_deleted());
    assert!(!k.allow_read(&id(7)));
    k.params_mut().unwrap().authorized_buckets.put(
        id(7),
        BucketKeyPerm { timestamp: now, allow_read: true, allow_write: true, allow_owner: false },
    );
    assert!(k.allow_read(&id(7)));
    assert!(k.allow_write(&id(7)));
    assert!(!k.allow_owner(&id(7)));

    let tomb = Key::delete(String::from("GK00112233445566778899aabb"));
    k.merge(&tomb);
    assert!(k.is_deleted());
}

#[test]
fn key_import_validates_shape() {
    assert!(Key::import("GK0011", "0", "n", 0).is_err());
    assert!(Key::import(
        "XX00112233445566778899aabb",
        "00112233445566778899aabbccddeeff00112233445566778899aabbccddeeff",
        "n",
        0,
    )
    .is_err());
    assert!(Key::import(
        "GK00112233445566778899aabb",
        "zz112233445566778899aabbccddeeff00112233445566778899aabbccddeeff",
        "n",
        0,
    )
    .is_err());
}

#[test]
fn key_new_has_valid_shape() {
    let k = Key::new("bob", 42);
    assert_eq!(k.key_id.len(), 26);
    assert!(k.key_id.starts_with("GK"));
    assert!(k.key_id[2..].chars().all(|c| c.is_ascii_hexdigit()));
    let p = k.params().expect("fresh key is live");
    assert_eq!(p.secret_key.len(), 64);
    assert!(p.secret_key.chars().all(|c| c.is_ascii_hexdigit()));
}

#[test]
fn key_filter_is_case_insensitive() {
    let k = Key::import(
        "GKaaaaaaaaaaaaaaaaaaaaaaaa",
        "00112233445566778899aabbccddeeff00112233445566778899aabbccddeeff",
        "Alice",
        0,
    )
    .expect("valid key parts");
    assert!(KeyTable::matches_filter(
        &k,
        &KeyFilter::MatchesAndNotDeleted(String::from("GKAAA")),
    ));
    assert!(KeyTable::matches_filter(
        &k,
        &KeyFilter::MatchesAndNotDeleted(String::from("aLiCe")),
    ));
    assert!(!KeyTable::matches_filter(
        &k,
        &KeyFilter::MatchesAndNotDeleted(String::from("bob")),
    ));
}

#[test]
fn import_refuses_duplicate_id() {
    let existing = Key::import(
        "GK00112233445566778899aabb",
        "00112233445566778899aabbccddeeff00112233445566778899aabbccddeeff",
        "alice",
        0,
    )
    .expect("valid key parts");
    let err = handle_import_key(
        Some(&existing),
        "GK00112233445566778899aabb",
        "00112233445566778899aabbccddeeff00112233445566778899aabbccddeeff",
        "bob",
        0,
    );
    assert!(matches!(err, Err(e) if e.kind() == "key_already_exists"));
    assert!(handle_import_key(
        None,
        "GKccddeeff0011223344556677",
        "00112233445566778899aabbccddeeff00112233445566778899aabbccddeeff",
        "bob",
        0,
    )
    .is_ok());

    let mut k = existing;
    handle_update_key(&mut k, Some(String::from("carol")), true, false, 99).expect("key is live");
    let p = k.params().unwrap();
    assert_eq!(p.name.v, "carol");
    assert!(p.allow_create_bucket.v);
    let mut dead = Key::delete(String::from("GK00112233445566778899aabb"));
    assert!(handle_update_key(&mut dead, None, false, false, 99).is_err());
}

#[test]
fn uploading_version_lookup() {
    let o = new_object(vec![uploading(id(1), 10, true), complete_inline(id(2), 20, b"x")]);
    let v = o.find_uploading_version(&id(1)).expect("the upload is in progress");
    assert_eq!(v.uuid.bytes, [1u8; 32]);
    assert!(o.find_uploading_version(&id(2)).is_none());
    assert!(o.find_uploading_version(&id(3)).is_none());
}

#[test]
fn lww_string_tie_takes_larger_value() {
    // Two writes at the same instant converge on the larger value,
    // whichever side merges the other.
    let mut a = Lww { ts: 100u64, v: String::from("alpha") };
    let b = Lww { ts: 100u64, v: String::from("beta") };
    a.merge(&b);
    assert_eq!(a.v, "beta");
    let mut b2 = Lww { ts: 100u64, v: String::from("beta") };
    let a2 = Lww { ts: 100u64, v: String::from("alpha") };
    b2.merge(&a2);
    assert_eq!(b2.v, "beta");
    // A newer timestamp always wins.
    let mut c = Lww { ts: 200u64, v: String::from("old-but-newer") };
    c.merge(&Lww { ts: 100u64, v: String::from("zzz") });
    assert_eq!(c.v, "old-but-newer");
}

#[test]
fn local_aliases_merge_last_writer_wins() {
    let mut a = LocalAliases::new();
    a.put(String::from("photos"), 100, Some(id(1)));
    a.put(String::from("logs"), 100, Some(id(2)));
    let mut b = LocalAliases::new();
    b.put(String::from("photos"), 200, Some(id(3)));
    b.put(String::from("backups"), 50, None);
    a.merge(&b);
    // The newer write to "photos" wins; each side's own names survive.
    let alias = |m: &LocalAliases, name: &str| -> (u64, Option<[u8; 32]>) {
        let (ts, target) = m.get(&String::from(name)).expect("alias present");
        (ts, target.map(|u| u.bytes))
    };
    assert_eq!(alias(&a, "photos"), (200, Some([3u8; 32])));
    assert_eq!(alias(&a, "logs"), (100, Some([2u8; 32])));
    assert_eq!(alias(&a, "backups"), (50, None));
    // A timestamp tie converges on the larger target.
    let mut c = LocalAliases::new();
    c.put(String::from("x"), 10, Some(id(1)));
    let mut d = LocalAliases::new();
    d.put(String::from("x"), 10, Some(id(9)));
    c.merge(&d);
    assert_eq!(alias(&c, "x"), (10, Some([9u8; 32])));
}

#[test]
fn key_merge_is_field_wise() {
    let now = 1000;
    let mut a = Key::import(
        "GK00112233445566778899aabb",
        "00112233445566778899aabbccddeeff00112233445566778899aabbccddeeff",
        "alice",
        now,
    )
    .expect("valid key parts");
    let mut b = Key::import(
        "GK00112233445566778899aabb",
        "00112233445566778899aabbccddeeff00112233445566778899aabbccddeeff",
        "alice",
        now,
    )
    .expect("valid key parts");
    // One replica renames the key later; the other grants a bucket and an
    // alias. After merging, both changes are present.
    handle_update_key(&mut a, Some(String::from("carol")), false, false, now + 5).unwrap();
    b.params_mut().unwrap().authorized_buckets.put(
        id(7),
        BucketKeyPerm { timestamp: now, allow_read: true, allow_write: false, allow_owner: false },
    );
    b.params_mut().unwrap().local_aliases.put(String::from("photos"), now, Some(id(7)));
    a.merge(&b);
    let p = a.params().unwrap();
    assert_eq!(p.name.v, "carol");
    assert!(a.allow_read(&id(7)));
    let (ts, target) = p.local_aliases.get(&String::from("photos")).expect("alias kept");
    assert_eq!(ts, now);
    assert_eq!(target.map(|u| u.bytes), Some([7u8; 32]));
}

#[test]
fn fresh_keys_start_without_grants() {
    let k = Key::new("bob", 7);
    let p = k.params().unwrap();
    assert!(!p.allow_create_bucket.v);
    assert!(p.authorized_buckets.entries.is_empty());
    assert!(p.local_aliases.entries.is_empty());
    let k2 = Key::import(
        "GK00112233445566778899aabb",
        "00112233445566778899aabbccddeeff00112233445566778899aabbccddeeff",
        "carol",
        7,
    )
    .unwrap();
    let p2 = k2.params().unwrap();
    assert!(!p2.allow_create_bucket.v);
    assert!(p2.authorized_buckets.entries.is_empty());
    assert!(p2.local_aliases.entries.is_empty());
}

#[test]
fn object_merge_reapply_changes_nothing() {
    let b = new_object(vec![complete_inline(id(2), 20, b"two")]);
    let mut m = new_object(vec![complete_inline(id(1), 10, b"one")]);
    m.merge(&b);
    let after_once = version_keys(&m);
    m.merge(&b);
    assert_eq!(version_keys(&m), after_once);
}
