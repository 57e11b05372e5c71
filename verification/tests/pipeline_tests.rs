//! The write, copy and multipart pipelines, and the membership decisions.

use garage_core::block::{blake2sum, DataBlock};
use garage_core::block_manager::{BlockManager, BlockRpc, TableShardedReplication};
use garage_core::copy::{
    blocks_to_copy, handle_copy, CopyPlan, CopyPreconditionHeaders, Defragmenter,
};
use garage_core::data::FixedBytes32;
use garage_core::multipart::{
    assemble_final_version, check_part_list_order, check_parts, decode_upload_id,
    handle_abort_multipart_upload, handle_complete_multipart_upload,
    handle_create_multipart_upload, interrupted_cleanup_version, md5sum, multipart_etag,
    total_size_of_parts, u64_to_dec, CompleteMultipartUploadPart,
};
use garage_core::object_table::{
    ObjectVersionData, ObjectVersionHeaders, ObjectVersionMeta,
};
use garage_core::put::{
    check_quotas, chunk_bytes, ensure_checksum_matches, handle_put_part, object_etag,
    put_blocks_plan, sha256sum, use_inline_storage,
};
use garage_core::system::{
    handle_advertise_cluster_layout, handle_advertise_status, health, merge_peer_lists,
    should_discover, ClusterHealthStatus, ClusterLayout, LayoutAction, NodeRole, NodeStatus,
    Ring, RoleEntry, StatusAction,
};
use garage_core::repair::{repair_block_ref_decision, repair_version_decision};
use garage_core::version_table::{
    BlockRef, MpuPart, MpuPartKey, MultipartUpload, Version, VersionBacklink, VersionBlock,
    VersionBlockKey, VersionBlocks,
};

fn id(n: u8) -> FixedBytes32 {
    FixedBytes32 { bytes: [n; 32] }
}

fn headers() -> ObjectVersionHeaders {
    ObjectVersionHeaders { content_type: String::from("text/plain"), other: Vec::new() }
}

fn meta(size: u64, etag: &str) -> ObjectVersionMeta {
    ObjectVersionMeta { headers: headers(), size, etag: String::from(etag) }
}

// ---- Streaming PUT ------------------------------------------------------

#[test]
fn chunking_a_streamed_body() {
    // A 3 KiB body with 1 KiB blocks gives 3 full blocks.
    let body: Vec<u8> = (0..3072u32).map(|i| (i % 251) as u8).collect();
    let chunks = chunk_bytes(&body, 1024);
    assert_eq!(chunks.len(), 3);
    assert!(chunks.iter().all(|c| c.len() == 1024));
    let glued: Vec<u8> = chunks.concat();
    assert_eq!(glued, body);

    let chunks = chunk_bytes(&body, 1000);
    assert_eq!(chunks.len(), 4);
    assert_eq!(chunks[3].len(), 72);
    assert_eq!(chunk_bytes(&Vec::new(), 1024).len(), 0);
}

#[test]
fn streamed_put_of_three_mib() {
    // A 3 MiB body with 1 MiB blocks: 3 blocks, 3 references, a version
    // with 3 entries, and the object's total size intact.
    let mib = 1024 * 1024;
    let body: Vec<u8> = (0..3 * mib as u32).map(|i| (i % 251) as u8).collect();
    let chunks = chunk_bytes(&body, mib);
    assert_eq!(chunks.len(), 3);
    let plan = put_blocks_plan(id(7), 1, &chunks);
    assert_eq!(plan.blocks.len(), 3);
    assert_eq!(plan.block_refs.len(), 3);
    assert_eq!(plan.total_size, 3 * mib as u64);
    let mut version = Version::new(
        id(7),
        VersionBacklink::Object { bucket_id: id(9), key: String::from("k") },
        false,
    );
    for (bk, bv) in plan.blocks.iter() {
        version.blocks.put(*bk, *bv);
    }
    assert_eq!(version.blocks.len(), 3);
    // The first block of the object is the hash of the first chunk.
    assert_eq!(version.blocks.item(0).1.hash.bytes, blake2sum(&chunks[0]).bytes);
    assert!(!use_inline_storage(body.len()));
}

#[test]
fn put_blocks_plan_lays_out_rows() {
    let body: Vec<u8> = (0..2500u32).map(|i| (i % 241) as u8).collect();
    let chunks = chunk_bytes(&body, 1000);
    let plan = put_blocks_plan(id(7), 1, &chunks);
    assert_eq!(plan.blocks.len(), 3);
    assert_eq!(plan.block_refs.len(), 3);
    assert_eq!(plan.total_size, 2500);
    assert_eq!(plan.blocks[0].0.offset, 0);
    assert_eq!(plan.blocks[1].0.offset, 1000);
    assert_eq!(plan.blocks[2].0.offset, 2000);
    for (i, (bk, bv)) in plan.blocks.iter().enumerate() {
        assert_eq!(bk.part_number, 1);
        assert_eq!(bv.hash.bytes, blake2sum(&chunks[i]).bytes);
        assert_eq!(bv.size, chunks[i].len() as u64);
        assert_eq!(plan.block_refs[i].block.bytes, bv.hash.bytes);
        assert_eq!(plan.block_refs[i].version.bytes, [7u8; 32]);
        assert!(!plan.block_refs[i].deleted);
    }
}

#[test]
fn identical_bytes_give_identical_blocks() {
    let body: Vec<u8> = (0..5000u32).map(|i| (i % 199) as u8).collect();
    let plan1 = put_blocks_plan(id(1), 1, &chunk_bytes(&body, 1024));
    let plan2 = put_blocks_plan(id(2), 1, &chunk_bytes(&body, 1024));
    let hashes1: Vec<[u8; 32]> = plan1.blocks.iter().map(|(_, b)| b.hash.bytes).collect();
    let hashes2: Vec<[u8; 32]> = plan2.blocks.iter().map(|(_, b)| b.hash.bytes).collect();
    assert_eq!(hashes1, hashes2);
}

#[test]
fn inline_put_of_hello() {
    // A small PUT stays inline and its etag is the hex MD5 of the bytes.
    let body = b"hello".to_vec();
    assert!(use_inline_storage(body.len()));
    assert!(use_inline_storage(3072));
    assert!(!use_inline_storage(3073));
    assert_eq!(object_etag(&body), "5d41402abc4b2a76b9719d911017c592");
}

#[test]
fn sha256_known_digest() {
    let h = sha256sum(b"");
    assert_eq!(
        garage_core::data::hex_encode(&h.bytes),
        "e3b0c44298fc1c149afbf4c8996fb92427ae41e4649b934ca495991b7852b855"
    );
}

#[test]
fn checksum_mismatch_aborts_upload() {
    let md5 = md5sum(b"hello");
    let sha = sha256sum(b"hello");
    assert!(ensure_checksum_matches(&md5, &sha, Some(&md5), Some(&sha)).is_ok());
    assert!(ensure_checksum_matches(&md5, &sha, None, None).is_ok());
    let wrong = md5sum(b"other");
    let err = ensure_checksum_matches(&md5, &sha, Some(&wrong), None).unwrap_err();
    assert_eq!(err.kind(), "bad_request");
    let wrong_sha = sha256sum(b"other");
    assert!(ensure_checksum_matches(&md5, &sha, None, Some(&wrong_sha)).is_err());
}

#[test]
fn quota_enforcement() {
    assert!(check_quotas(10, 1000, true, 500, None, None).is_ok());
    assert!(check_quotas(10, 1000, true, 500, Some(11), Some(1500)).is_ok());
    let err = check_quotas(10, 1000, true, 500, Some(10), None).unwrap_err();
    assert_eq!(err.kind(), "forbidden");
    assert!(check_quotas(10, 1000, false, 0, Some(10), None).is_ok());
    assert!(check_quotas(10, 1000, true, 501, None, Some(1500)).is_err());
}

// ---- Copy ---------------------------------------------------------------

#[test]
fn precondition_truth_table() {
    let etag = String::from("abc");
    let none = CopyPreconditionHeaders {
        copy_source_if_match: None,
        copy_source_if_modified_since: None,
        copy_source_if_none_match: None,
        copy_source_if_unmodified_since: None,
    };
    assert!(none.check(100, &etag).is_ok());

    let im = CopyPreconditionHeaders {
        copy_source_if_match: Some(vec![String::from("zzz"), String::from("abc")]),
        copy_source_if_modified_since: None,
        copy_source_if_none_match: None,
        copy_source_if_unmodified_since: None,
    };
    assert!(im.check(100, &etag).is_ok());

    let im_wild = CopyPreconditionHeaders {
        copy_source_if_match: Some(vec![String::from("*")]),
        copy_source_if_modified_since: None,
        copy_source_if_none_match: None,
        // if-match wins over if-unmodified-since even when the date fails
        copy_source_if_unmodified_since: Some(50),
    };
    assert!(im_wild.check(100, &etag).is_ok());

    let im_miss = CopyPreconditionHeaders {
        copy_source_if_match: Some(vec![String::from("zzz")]),
        copy_source_if_modified_since: None,
        copy_source_if_none_match: None,
        copy_source_if_unmodified_since: None,
    };
    assert_eq!(im_miss.check(100, &etag).unwrap_err().kind(), "precondition_failed");

    let inm_and_ims = CopyPreconditionHeaders {
        copy_source_if_match: None,
        copy_source_if_modified_since: Some(50),
        copy_source_if_none_match: Some(vec![String::from("zzz")]),
        copy_source_if_unmodified_since: None,
    };
    assert!(inm_and_ims.check(100, &etag).is_ok());
    // Both must hold: a too-late modified-since fails the pair.
    let inm_and_ims_late = CopyPreconditionHeaders {
        copy_source_if_match: None,
        copy_source_if_modified_since: Some(100),
        copy_source_if_none_match: Some(vec![String::from("zzz")]),
        copy_source_if_unmodified_since: None,
    };
    assert!(inm_and_ims_late.check(100, &etag).is_err());

    let bad_combo = CopyPreconditionHeaders {
        copy_source_if_match: Some(vec![String::from("abc")]),
        copy_source_if_modified_since: Some(50),
        copy_source_if_none_match: None,
        copy_source_if_unmodified_since: None,
    };
    assert_eq!(bad_combo.check(100, &etag).unwrap_err().kind(), "bad_request");

    let ius = CopyPreconditionHeaders {
        copy_source_if_match: None,
        copy_source_if_modified_since: None,
        copy_source_if_none_match: None,
        copy_source_if_unmodified_since: Some(100),
    };
    assert!(ius.check(100, &etag).is_ok());
    assert!(ius.check(101, &etag).is_err());
}

fn blocks_of_sizes(sizes: &[u64]) -> VersionBlocks {
    let mut b = VersionBlocks::new();
    let mut off = 0;
    for (i, s) in sizes.iter().enumerate() {
        b.put(
            VersionBlockKey { part_number: 1, offset: off },
            VersionBlock { hash: id(i as u8 + 1), size: *s },
        );
        off += s;
    }
    b
}

#[test]
fn range_copy_selects_overlapping_blocks() {
    let blocks = blocks_of_sizes(&[4, 4, 4]);
    let tasks = blocks_to_copy(&blocks, 2, 10);
    assert_eq!(tasks.len(), 3);
    assert_eq!(tasks[0].sub, Some((2, 4)));
    assert_eq!(tasks[1].sub, None); // the whole middle block is reused
    assert_eq!(tasks[2].sub, Some((0, 2)));
    // And the extracted bytes are exactly source[2..10].
    let contents: Vec<Vec<u8>> = vec![
        vec![0, 1, 2, 3],
        vec![4, 5, 6, 7],
        vec![8, 9, 10, 11],
    ];
    let mut out: Vec<u8> = Vec::new();
    for (i, t) in tasks.iter().enumerate() {
        let c = &contents[i];
        match t.sub {
            Some((a, b)) => out.extend_from_slice(&c[a as usize..b as usize]),
            None => out.extend_from_slice(c),
        }
    }
    let full: Vec<u8> = contents.concat();
    assert_eq!(out, full[2..10].to_vec());

    let none = blocks_to_copy(&blocks, 12, 12);
    assert_eq!(none.len(), 0);
}

#[test]
fn defragmenter_preserves_bytes_in_order() {
    let mut d = Defragmenter::new(8);
    let mut out: Vec<u8> = Vec::new();
    let flush = |r: Option<(Vec<u8>, Option<FixedBytes32>)>, out: &mut Vec<u8>| {
        if let Some((bytes, _)) = r {
            out.extend_from_slice(&bytes);
        }
    };
    let r = d.feed(vec![1, 2, 3], None);
    flush(r, &mut out);
    let r = d.feed(vec![4, 5], None);
    flush(r, &mut out);
    // Does not fit next to the 5 buffered bytes: the buffer is flushed.
    let r = d.feed(vec![6, 7, 8, 9], Some(id(1)));
    flush(r, &mut out);
    let (last, last_hash) = d.take_all();
    out.extend_from_slice(&last);
    assert_eq!(out, vec![1, 2, 3, 4, 5, 6, 7, 8, 9]);
    // The final buffer was one whole block and kept its hash.
    assert_eq!(last_hash.map(|h| h.bytes), Some([1u8; 32]));
}

#[test]
fn copy_plan_reuses_source_blocks() {
    let blocks = blocks_of_sizes(&[4, 4]);
    let source = ObjectVersionData::FirstBlock(meta(8, "e1"), id(1));
    let plan = handle_copy(&source, &blocks, meta(8, "e1"), id(9), &String::from("dst"), id(3), 777)
        .expect("copyable source");
    match plan {
        CopyPlan::FirstBlock { tmp_object, dest_version, block_refs, final_object } => {
            assert_eq!(tmp_object.key, "dst");
            assert_eq!(tmp_object.versions.len(), 1);
            assert_eq!(dest_version.uuid.bytes, [3u8; 32]);
            assert_eq!(dest_version.blocks.len(), 2);
            assert_eq!(block_refs.len(), 2);
            assert!(block_refs.iter().all(|r| r.version.bytes == [3u8; 32] && !r.deleted));
            assert_eq!(final_object.versions.len(), 1);
            assert_eq!(final_object.versions[0].timestamp, 777);
        }
        _ => panic!("a block object copies as FirstBlock"),
    }

    let marker = ObjectVersionData::DeleteMarker;
    match handle_copy(&marker, &blocks, meta(0, ""), id(9), &String::from("dst"), id(3), 777) {
        Err(e) => assert_eq!(e.kind(), "no_such_key"),
        Ok(_) => panic!("a delete marker cannot be copied"),
    }
}

// ---- Multipart ----------------------------------------------------------

#[test]
fn upload_id_decoding() {
    let hexid = "00".repeat(32);
    let u = decode_upload_id(&hexid).expect("valid upload id");
    assert_eq!(u.bytes, [0u8; 32]);
    assert_eq!(decode_upload_id("xyz").unwrap_err().kind(), "no_such_upload");
    assert_eq!(decode_upload_id("00ff").unwrap_err().kind(), "no_such_upload");
}

#[test]
fn part_list_order_rules() {
    let empty: Vec<CompleteMultipartUploadPart> = Vec::new();
    assert_eq!(check_part_list_order(&empty).unwrap_err().kind(), "entity_too_small");
    let good = vec![
        CompleteMultipartUploadPart { etag: String::from("a"), part_number: 2 },
        CompleteMultipartUploadPart { etag: String::from("b"), part_number: 5 },
    ];
    assert!(check_part_list_order(&good).is_ok());
    let bad = vec![
        CompleteMultipartUploadPart { etag: String::from("a"), part_number: 5 },
        CompleteMultipartUploadPart { etag: String::from("b"), part_number: 2 },
    ];
    assert_eq!(check_part_list_order(&bad).unwrap_err().kind(), "invalid_part_order");
}

#[test]
fn complete_multipart_checks_and_assembles() {
    let mut mpu = MultipartUpload::new(id(1), 100, id(9), String::from("k"), false);
    mpu.put_part(
        MpuPartKey { part_number: 1, timestamp: 10 },
        MpuPart { version: id(2), etag: Some(String::from("e1")), size: Some(10) },
    );
    mpu.put_part(
        MpuPartKey { part_number: 2, timestamp: 11 },
        MpuPart { version: id(3), etag: Some(String::from("e2")), size: Some(5) },
    );
    let req = vec![
        CompleteMultipartUploadPart { etag: String::from("e1"), part_number: 1 },
        CompleteMultipartUploadPart { etag: String::from("e2"), part_number: 2 },
    ];
    let parts = check_parts(&mpu, &req).expect("parts match");
    assert_eq!(total_size_of_parts(&parts), 15);

    let wrong = vec![CompleteMultipartUploadPart { etag: String::from("bad"), part_number: 1 }];
    assert_eq!(check_parts(&mpu, &wrong).unwrap_err().kind(), "invalid_part");

    // Assemble the final version: each part's blocks renumbered in order.
    let mut v1 = Version::new(
        id(2),
        VersionBacklink::MultipartUpload { upload_id: id(1) },
        false,
    );
    v1.blocks.put(
        VersionBlockKey { part_number: 7, offset: 0 },
        VersionBlock { hash: id(5), size: 10 },
    );
    let mut v2 = Version::new(
        id(3),
        VersionBacklink::MultipartUpload { upload_id: id(1) },
        false,
    );
    v2.blocks.put(
        VersionBlockKey { part_number: 9, offset: 0 },
        VersionBlock { hash: id(6), size: 5 },
    );
    let parts_versions = vec![v1, v2];
    let fv = assemble_final_version(id(1), id(9), &String::from("k"), &parts_versions)
        .expect("no part deleted");
    assert_eq!(fv.blocks.len(), 2);
    assert_eq!(fv.blocks.item(0).0.part_number, 1);
    assert_eq!(fv.blocks.item(0).1.hash.bytes, [5u8; 32]);
    assert_eq!(fv.blocks.item(1).0.part_number, 2);
    assert_eq!(fv.blocks.item(1).1.hash.bytes, [6u8; 32]);

    let deleted = Version::new(id(4), VersionBacklink::MultipartUpload { upload_id: id(1) }, true);
    let with_deleted = vec![deleted];
    assert_eq!(
        assemble_final_version(id(1), id(9), &String::from("k"), &with_deleted)
            .unwrap_err()
            .kind(),
        "invalid_part"
    );
}

#[test]
fn multipart_etag_format() {
    // With no parts the digest runs over the empty string.
    assert_eq!(multipart_etag(&Vec::new()), "d41d8cd98f00b204e9800998ecf8427e-0");
    let etags = vec![String::from("e1"), String::from("e2")];
    let tag = multipart_etag(&etags);
    assert!(tag.ends_with("-2"));
    let digest = md5sum(b"e1e2");
    assert_eq!(&tag[..32], garage_core::data::hex_encode(&digest));
    assert_eq!(u64_to_dec(15728640), "15728640");
}

// ---- Membership ---------------------------------------------------------

fn role(cap: Option<u64>) -> Option<NodeRole> {
    Some(NodeRole { zone: String::from("z1"), capacity: cap, tags: Vec::new() })
}

fn layout_of(n: u8, version: u64, rf: usize) -> ClusterLayout {
    let mut l = ClusterLayout::new(rf);
    l.version = version;
    for i in 0..n {
        l.roles.push(RoleEntry { node: id(i + 1), ts: 10, role: role(Some(100)) });
    }
    l
}

#[test]
fn layout_merge_highest_version_wins() {
    let mut a = layout_of(2, 1, 3);
    let b = layout_of(3, 2, 3);
    assert!(a.merge(&b));
    assert_eq!(a.version, 2);
    assert_eq!(a.roles.len(), 3);
    // An older layout changes nothing.
    let old = layout_of(1, 1, 3);
    assert!(!a.merge(&old));
    assert_eq!(a.version, 2);
}

#[test]
fn layout_check_and_ring_invariant() {
    let l = layout_of(4, 1, 3);
    assert!(l.check());
    let ring = Ring::new(&l);
    assert_eq!(ring.partitions.len(), 256);
    for p in ring.partitions.iter() {
        assert_eq!(p.len(), 3);
        // No duplicate replicas within a partition.
        for a in 0..3 {
            for b in 0..3 {
                if a != b {
                    assert_ne!(p[a].bytes, p[b].bytes);
                }
            }
        }
    }
    let mut h = [0u8; 32];
    h[0] = 5;
    let nodes = ring.write_nodes(&FixedBytes32 { bytes: h });
    assert_eq!(nodes.len(), 3);

    let small = layout_of(2, 1, 3);
    assert!(!small.check());
    assert_eq!(Ring::new(&small).partitions.len(), 0);
}

#[test]
fn advertise_status_decisions() {
    let l = layout_of(3, 4, 3);
    let local = NodeStatus::initial(3, &l, String::from("n1"));
    let mut peer = NodeStatus::initial(3, &l, String::from("n2"));
    assert!(matches!(handle_advertise_status(&local, &peer), StatusAction::Record));
    peer.cluster_layout_version = 5;
    assert!(matches!(
        handle_advertise_status(&local, &peer),
        StatusAction::RecordAndPullLayout
    ));
    peer.replication_factor = 4;
    assert!(matches!(
        handle_advertise_status(&local, &peer),
        StatusAction::ShutdownIncompatible
    ));
}

#[test]
fn advertise_layout_decisions() {
    let mut current = layout_of(3, 1, 3);
    let newer = layout_of(4, 2, 3);
    assert!(matches!(
        handle_advertise_cluster_layout(&mut current, &newer, 3),
        LayoutAction::Update
    ));
    assert_eq!(current.version, 2);
    let same = layout_of(4, 2, 3);
    assert!(matches!(
        handle_advertise_cluster_layout(&mut current, &same, 3),
        LayoutAction::Unchanged
    ));
    let wrong_rf = layout_of(4, 3, 2);
    assert!(matches!(
        handle_advertise_cluster_layout(&mut current, &wrong_rf, 3),
        LayoutAction::RejectDifferentReplication
    ));
}

#[test]
fn health_summary() {
    // Three storage nodes, one down, write quorum two: degraded but usable.
    let known = vec![true, true, false];
    let storage = vec![true, true, false];
    let parts = vec![2usize; 256];
    let h = health(&known, &storage, &parts, 3, 2);
    assert_eq!(h.known_nodes, 3);
    assert_eq!(h.connected_nodes, 2);
    assert_eq!(h.storage_nodes_ok, 2);
    assert_eq!(h.partitions_quorum, 256);
    assert_eq!(h.partitions_all_ok, 0);
    assert!(matches!(h.status, ClusterHealthStatus::Degraded));

    let parts_bad = vec![1usize; 256];
    let h2 = health(&known, &storage, &parts_bad, 3, 2);
    assert!(matches!(h2.status, ClusterHealthStatus::Unavailable));

    let all_up = vec![true, true, true];
    let parts_ok = vec![3usize; 256];
    let h3 = health(&all_up, &all_up, &parts_ok, 3, 2);
    assert!(matches!(h3.status, ClusterHealthStatus::Healthy));
}

#[test]
fn peer_list_merge_loses_no_id() {
    let current = vec![(id(1), String::from("10.0.0.1:3901"))];
    let previous = vec![
        (id(1), String::from("10.0.0.9:3901")),
        (id(2), String::from("10.0.0.2:3901")),
    ];
    let merged = merge_peer_lists(current, &previous);
    assert_eq!(merged.len(), 2);
    assert_eq!(merged[0].0.bytes, [1u8; 32]);
    assert_eq!(merged[0].1, "10.0.0.1:3901");
    assert_eq!(merged[1].0.bytes, [2u8; 32]);
}

#[test]
fn discovery_trigger() {
    assert!(should_discover(false, 5, 3, 3, 3));
    assert!(should_discover(true, 2, 3, 3, 3));
    assert!(should_discover(true, 5, 3, 2, 3));
    assert!(!should_discover(true, 5, 3, 3, 3));
}

#[test]
fn repair_decisions() {
    let held = Version::new(
        id(1),
        VersionBacklink::Object { bucket_id: id(9), key: String::from("k") },
        false,
    );
    // No backlinked object at all: the version is garbage.
    assert!(repair_version_decision(&held, None));

    let r = BlockRef { block: id(5), version: id(1), deleted: false };
    assert!(repair_block_ref_decision(&r, None));
    assert!(!repair_block_ref_decision(&r, Some(&held)));
    let gone = Version::new(
        id(1),
        VersionBacklink::Object { bucket_id: id(9), key: String::from("k") },
        true,
    );
    assert!(repair_block_ref_decision(&r, Some(&gone)));
    let dead_ref = BlockRef { block: id(5), version: id(1), deleted: true };
    assert!(!repair_block_ref_decision(&dead_ref, Some(&gone)));
}

#[test]
fn create_and_abort_multipart_upload() {
    let (object, mpu) = handle_create_multipart_upload(
        id(9),
        &String::from("k"),
        id(1),
        500,
        headers(),
    );
    assert_eq!(object.versions.len(), 1);
    assert!(object.versions[0].is_uploading(Some(true)));
    assert!(!mpu.deleted);
    assert_eq!(mpu.parts.len(), 0);

    let aborted = handle_abort_multipart_upload(id(9), &String::from("k"), id(1), 600);
    assert!(matches!(
        aborted.versions[0].state,
        garage_core::object_table::ObjectVersionState::Aborted
    ));

    let cleanup = interrupted_cleanup_version(id(1), id(2));
    assert!(cleanup.deleted);
    assert_eq!(cleanup.blocks.len(), 0);
}

#[test]
fn put_part_and_complete_upload() {
    let mut mpu = MultipartUpload::new(id(1), 100, id(9), String::from("k"), false);
    let empty: Vec<u8> = Vec::new();
    assert!(handle_put_part(id(1), 1, id(2), &empty, 1024, &mpu, 200).is_err());

    let body1: Vec<u8> = (0..2048u32).map(|i| (i % 13) as u8).collect();
    let plan1 = handle_put_part(id(1), 1, id(2), &body1, 1024, &mpu, 200).expect("part accepted");
    assert_eq!(plan1.mpu_part_key.part_number, 1);
    assert_eq!(plan1.blocks.blocks.len(), 2);
    assert_eq!(plan1.blocks.total_size, 2048);
    assert_eq!(plan1.etag, object_etag(&body1));
    mpu.put_part(plan1.mpu_part_key, plan1.initial_part);
    let mut version1 = plan1.version;
    for (bk, bv) in plan1.blocks.blocks.iter() {
        version1.blocks.put(*bk, *bv);
    }
    mpu.put_part(plan1.mpu_part_key, plan1.final_part);

    let body2: Vec<u8> = (0..100u32).map(|i| (i % 7) as u8).collect();
    let plan2 = handle_put_part(id(1), 2, id(3), &body2, 1024, &mpu, 300).expect("part accepted");
    mpu.put_part(plan2.mpu_part_key, plan2.initial_part);
    let mut version2 = plan2.version;
    for (bk, bv) in plan2.blocks.blocks.iter() {
        version2.blocks.put(*bk, *bv);
    }
    mpu.put_part(plan2.mpu_part_key, plan2.final_part);

    let req = vec![
        CompleteMultipartUploadPart { etag: plan1.etag.clone(), part_number: 1 },
        CompleteMultipartUploadPart { etag: plan2.etag.clone(), part_number: 2 },
    ];
    let parts_versions = vec![version1, version2];
    let plan = handle_complete_multipart_upload(
        id(9),
        &String::from("k"),
        id(1),
        &mpu,
        &req,
        &parts_versions,
    )
    .expect("upload completes");
    assert_eq!(plan.total_size, 2148);
    assert_eq!(plan.final_version.blocks.len(), 3);
    assert_eq!(plan.block_refs.len(), 3);
    assert!(plan.etag.ends_with("-2"));
    let concat = format!("{}{}", plan1.etag, plan2.etag);
    let digest = md5sum(concat.as_bytes());
    assert_eq!(&plan.etag[..32], garage_core::data::hex_encode(&digest));

    // An upload with no parts at all is refused outright.
    let fresh = MultipartUpload::new(id(4), 100, id(9), String::from("k"), false);
    let err = handle_complete_multipart_upload(
        id(9),
        &String::from("k"),
        id(4),
        &fresh,
        &req,
        &parts_versions,
    );
    assert!(matches!(err, Err(e) if e.kind() == "bad_request"));
}

#[test]
fn get_block_round_takes_first_answer() {
    let mgr = BlockManager::new(
        String::from("/tmp/d"),
        None,
        TableShardedReplication { replication_factor: 3, write_quorum: 2, read_quorum: 1 },
    );
    let data = b"block body".to_vec();
    let hash = blake2sum(&data);
    let resps = vec![
        BlockRpc::Ack,
        BlockRpc::PutBlock { hash, data: DataBlock::Plain(data.clone()) },
    ];
    let got = mgr.rpc_get_block(&hash, resps).expect("a good answer");
    assert_eq!(got, data);

    // A corrupt answer surfaces as corrupt data, so the caller retries
    // on another replica.
    let mut flipped = data.clone();
    flipped[3] ^= 0x80;
    let resps = vec![BlockRpc::PutBlock { hash, data: DataBlock::Plain(flipped) }];
    assert_eq!(mgr.rpc_get_block(&hash, resps).unwrap_err().kind(), "corrupt_data");

    let resps = vec![BlockRpc::Ack, BlockRpc::NeedBlockReply(false)];
    assert_eq!(mgr.rpc_get_block(&hash, resps).unwrap_err().kind(), "message");
}

#[test]
fn node_status_disk_usage_sums_mounts() {
    let l = layout_of(3, 1, 3);
    let mut st = NodeStatus::initial(3, &l, String::from("n1"));
    st.update_disk_usage(Some((100, 200)), Some(&vec![(10, 50), (20, 70)]));
    assert_eq!(st.meta_disk_avail, Some((100, 200)));
    assert_eq!(st.data_disk_avail, Some((30, 120)));
    st.update_disk_usage(None, None);
    assert_eq!(st.meta_disk_avail, None);
    assert_eq!(st.data_disk_avail, None);
}

#[test]
fn upload_id_round_trips() {
    let bytes: Vec<u8> = (0..32u32).map(|i| (i * 7 % 256) as u8).collect();
    let mut fixed = [0u8; 32];
    fixed.copy_from_slice(&bytes);
    let uuid = FixedBytes32 { bytes: fixed };
    let encoded = garage_core::data::hex_encode(&uuid.bytes);
    let decoded = decode_upload_id(&encoded).expect("hex ids decode");
    assert_eq!(decoded.bytes, uuid.bytes);
    // Upper-case digits decode to the same id.
    let upper = encoded.to_uppercase();
    let decoded2 = decode_upload_id(&upper).expect("hex ids decode in either case");
    assert_eq!(decoded2.bytes, uuid.bytes);
}

#[test]
fn layout_merge_is_last_writer_wins_per_node() {
    let mut a = layout_of(3, 2, 3);
    // A peer with the same committed version renames one node's zone at a
    // later time and knows one extra node.
    let mut b = layout_of(3, 2, 3);
    b.roles[1] = RoleEntry { node: id(2), ts: 99, role: role(Some(500)) };
    b.roles.push(RoleEntry { node: id(9), ts: 5, role: role(Some(100)) });
    let changed = a.merge(&b);
    assert!(changed);
    assert_eq!(a.roles.len(), 4);
    assert_eq!(a.roles[1].ts, 99);
    assert_eq!(a.roles[1].role.as_ref().unwrap().capacity, Some(500));
    assert_eq!(a.roles[3].node.bytes, [9u8; 32]);
    // Merging the same thing again changes nothing.
    assert!(!a.merge(&b));
    // An older committed version changes nothing at all.
    let old = layout_of(1, 1, 3);
    assert!(!a.merge(&old));
    assert_eq!(a.roles.len(), 4);
}

#[test]
fn ring_follows_the_round_robin_rule() {
    let mut l = layout_of(4, 1, 3);
    // A gateway node (no capacity) stores nothing and joins no partition.
    l.roles.push(RoleEntry { node: id(9), ts: 10, role: role(None) });
    let ring = Ring::new(&l);
    assert_eq!(ring.partitions.len(), 256);
    let storage: Vec<[u8; 32]> = vec![[1u8; 32], [2u8; 32], [3u8; 32], [4u8; 32]];
    for p in 0..256usize {
        for a in 0..3usize {
            assert_eq!(ring.partitions[p][a].bytes, storage[(p + a) % 4]);
        }
    }
}

#[test]
fn get_block_round_judges_the_first_answer() {
    let mgr = BlockManager::new(
        String::from("/tmp/d"),
        None,
        TableShardedReplication { replication_factor: 3, write_quorum: 2, read_quorum: 1 },
    );
    let data = b"block body".to_vec();
    let hash = blake2sum(&data);
    let mut flipped = data.clone();
    flipped[0] ^= 0x80;
    // The first data answer is corrupt: the round fails with corrupt
    // data even though a later answer is intact, and the caller retries.
    let resps = vec![
        BlockRpc::PutBlock { hash, data: DataBlock::Plain(flipped) },
        BlockRpc::PutBlock { hash, data: DataBlock::Plain(data.clone()) },
    ];
    assert_eq!(mgr.rpc_get_block(&hash, resps).unwrap_err().kind(), "corrupt_data");
}

#[test]
fn offload_refuses_without_quorum_and_skips_self() {
    let mgr = BlockManager::new(
        String::from("/tmp/d"),
        None,
        TableShardedReplication { replication_factor: 3, write_quorum: 2, read_quorum: 1 },
    );
    let me = id(1);
    let targets = mgr
        .offload_targets(&vec![id(1), id(2), id(3)], &me)
        .expect("enough replicas");
    assert_eq!(targets.len(), 2);
    assert_eq!(targets[0].bytes, [2u8; 32]);
    assert_eq!(targets[1].bytes, [3u8; 32]);
    // With fewer replicas than the write quorum, offloading is refused:
    // deleting could drop the last copy.
    assert!(mgr.offload_targets(&vec![id(1)], &me).is_err());
}

#[test]
fn defragmenter_buffers_stay_within_block_size() {
    let mut d = Defragmenter::new(8);
    assert!(d.feed(vec![1, 2, 3], None).is_none());
    assert!(d.feed(vec![4, 5, 6, 7], None).is_none());
    // The merged buffer fits in one block.
    let (buf, hash) = d.take_all();
    assert_eq!(buf.len(), 7);
    assert!(buf.len() <= 8);
    assert!(hash.is_none());
}
