//! Block integrity, the reference counter, and the resync engine.

use garage_core::block::{blake2sum, DataBlock};
use garage_core::block_manager::{
    resync_block_decision, resync_iter_decision, tranquilizer_delay_msec, write_block_plan,
    BlockManager, ErrorCounter, ResyncBlockAction, ResyncIterStep, StoredForm,
    TableShardedReplication, WriteAction, BLOCK_RW_TIMEOUT_MSEC,
};
use garage_core::data::{hex_decode, hex_encode, FixedBytes32};
use garage_core::rc::{rc_from_refs, BlockRc, RcEntry, BLOCK_GC_DELAY_MSEC};
use garage_core::rpc_helper::{try_call_many_resolve, StreamOrder};
use garage_core::version_table::BlockRef;

fn id(n: u8) -> FixedBytes32 {
    FixedBytes32 { bytes: [n; 32] }
}

fn repl() -> TableShardedReplication {
    TableShardedReplication { replication_factor: 3, write_quorum: 2, read_quorum: 1 }
}

#[test]
fn hex_round_trips() {
    assert_eq!(hex_encode(&[1u8, 2, 3, 15, 16]), "0102030f10");
    let back = hex_decode("0102030f10").expect("valid hex");
    assert_eq!(back, vec![1u8, 2, 3, 15, 16]);
    assert!(hex_decode("123").is_none());
    assert!(hex_decode("zz").is_none());
}

#[test]
fn blake2b_known_digest() {
    // Blake2b-256 of the empty string.
    let h = blake2sum(b"");
    assert_eq!(
        hex_encode(&h.bytes),
        "0e5751c026e543b2e8ab2eb06099daa1d1e5df47778f7787faab45cdf12fe3a8"
    );
}

#[test]
fn block_integrity_plain() {
    let data = b"hello world".to_vec();
    let hash = blake2sum(&data);
    let block = DataBlock::from_buffer(data.clone(), None);
    assert!(block.verify(&hash).is_ok());
    let got = block.verify_get(&hash).expect("intact block");
    assert_eq!(got, data);
}

#[test]
fn block_integrity_detects_corruption() {
    let data = b"hello world".to_vec();
    let hash = blake2sum(&data);
    let mut flipped = data.clone();
    flipped[0] ^= 0x01;
    let bad = DataBlock::from_buffer(flipped, None);
    let err = bad.verify_get(&hash).unwrap_err();
    assert_eq!(err.kind(), "corrupt_data");
}

#[test]
fn block_compression_round_trip() {
    // Highly compressible data gets stored compressed and unpacks intact.
    let data = vec![7u8; 65536];
    let hash = blake2sum(&data);
    let block = DataBlock::from_buffer(data.clone(), Some(3));
    assert!(block.is_compressed());
    assert!(block.inner_buffer().len() < data.len());
    let got = block.verify_get(&hash).expect("intact block");
    assert_eq!(got, data);
}

#[test]
fn write_plans() {
    assert!(matches!(write_block_plan(StoredForm::Compressed, false), WriteAction::AlreadyStored));
    assert!(matches!(write_block_plan(StoredForm::Plain, false), WriteAction::AlreadyStored));
    assert!(matches!(
        write_block_plan(StoredForm::Plain, true),
        WriteAction::WriteNew { compressed: true, delete_plain: true }
    ));
    assert!(matches!(
        write_block_plan(StoredForm::Absent, false),
        WriteAction::WriteNew { compressed: false, delete_plain: false }
    ));
}

#[test]
fn rc_transitions() {
    let mut rc = BlockRc::new();
    let h = id(1);
    assert!(matches!(rc.get_block_rc(&h), RcEntry::Absent));
    assert!(rc.block_incref(&h));
    assert!(!rc.block_incref(&h));
    assert!(matches!(rc.get_block_rc(&h), RcEntry::Present { count: 2 }));
    assert!(!rc.block_decref(&h, 1000));
    assert!(rc.block_decref(&h, 1000));
    match rc.get_block_rc(&h) {
        RcEntry::Deletable { at_time } => assert_eq!(at_time, 1000 + BLOCK_GC_DELAY_MSEC),
        _ => panic!("expected a tombstone"),
    }
    assert!(!rc.get_block_rc(&h).is_deletable(1000 + BLOCK_GC_DELAY_MSEC));
    assert!(rc.get_block_rc(&h).is_deletable(1001 + BLOCK_GC_DELAY_MSEC));
    rc.clear_deleted_block_rc(&h);
    assert!(matches!(rc.get_block_rc(&h), RcEntry::Absent));
}

#[test]
fn rc_soundness_from_refs() {
    // The rebuilt counter equals the number of non-deleted refs per hash.
    let refs = vec![
        BlockRef { block: id(1), version: id(10), deleted: false },
        BlockRef { block: id(1), version: id(11), deleted: false },
        BlockRef { block: id(1), version: id(12), deleted: true },
        BlockRef { block: id(2), version: id(13), deleted: false },
        BlockRef { block: id(3), version: id(14), deleted: true },
    ];
    let rc = rc_from_refs(&refs);
    assert!(matches!(rc.get_block_rc(&id(1)), RcEntry::Present { count: 2 }));
    assert!(matches!(rc.get_block_rc(&id(2)), RcEntry::Present { count: 1 }));
    assert!(matches!(rc.get_block_rc(&id(3)), RcEntry::Absent));
}

#[test]
fn resync_backoff_follows_exponential_schedule() {
    let mut ec = ErrorCounter::new(0);
    let mut expected: Vec<u64> = Vec::new();
    let mut delays: Vec<u64> = Vec::new();
    for k in 1..=12u32 {
        delays.push(ec.delay_msec());
        let exp = std::cmp::min(k - 1, 10);
        expected.push(60000u64 << exp);
        ec = ec.add1(0);
    }
    assert_eq!(delays, expected);
    // The twelfth failure is still capped at about 17 hours.
    assert_eq!(*delays.last().unwrap(), 61440000);
    let late = ErrorCounter::new(5000).add1(7000);
    assert_eq!(late.next_try(), 7000 + 120000);
}

#[test]
fn resync_iter_steps() {
    let h = id(1);
    assert!(matches!(resync_iter_decision(None, None, 100), ResyncIterStep::EmptyQueue));
    assert!(matches!(
        resync_iter_decision(Some((200, h)), None, 100),
        ResyncIterStep::NotDue { wait_until: 200 }
    ));
    assert!(matches!(
        resync_iter_decision(Some((50, h)), None, 100),
        ResyncIterStep::Run { .. }
    ));
    let ec = ErrorCounter::new(90);
    assert!(matches!(
        resync_iter_decision(Some((50, h)), Some(ec), 100),
        ResyncIterStep::SkipErrorBackoff { requeue_at: 60090 }
    ));
    assert!(matches!(
        resync_iter_decision(Some((50, h)), Some(ec), 70000),
        ResyncIterStep::Run { .. }
    ));
}

#[test]
fn resync_block_decisions() {
    let now = 10000;
    let deletable = RcEntry::Deletable { at_time: 5000 };
    let held = RcEntry::Present { count: 1 };
    assert!(matches!(
        resync_block_decision(true, &deletable, now),
        ResyncBlockAction::OffloadAndDelete
    ));
    assert!(matches!(resync_block_decision(false, &held, now), ResyncBlockAction::Fetch));
    assert!(matches!(resync_block_decision(true, &held, now), ResyncBlockAction::Nothing));
    assert!(matches!(resync_block_decision(false, &deletable, now), ResyncBlockAction::Nothing));
}

#[test]
fn offload_waits_for_every_needer() {
    let replies = vec![(id(1), true), (id(2), false), (id(3), true)];
    let needers = garage_core::block_manager::offload_need_nodes(&replies);
    assert_eq!(needers.len(), 2);
    assert_eq!(needers[0].bytes, [1u8; 32]);
    assert_eq!(needers[1].bytes, [3u8; 32]);
    // Sending with quorum = number of needers: one missing ack forbids
    // the local delete.
    let acks: Vec<Option<()>> = vec![Some(()), None];
    assert!(try_call_many_resolve(acks, needers.len()).is_err());
    let acks: Vec<Option<()>> = vec![Some(()), Some(())];
    assert!(try_call_many_resolve(acks, needers.len()).is_ok());
}

#[test]
fn quorum_resolution() {
    // A write succeeds exactly when the quorum acknowledges.
    let outcomes = vec![Some(1u32), None, Some(3u32)];
    let ok = try_call_many_resolve(outcomes, 2).expect("two acks reach quorum 2");
    assert_eq!(ok, vec![1, 3]);
    let outcomes = vec![Some(1u32), None, None];
    let err = try_call_many_resolve(outcomes, 2).unwrap_err();
    assert_eq!(err.kind(), "quorum_failed");
}

#[test]
fn manager_queue_and_rc() {
    let mut mgr = BlockManager::new(String::from("/tmp/data"), None, repl());
    let h = id(1);
    let now = 1000;
    mgr.block_incref(&h, now);
    assert_eq!(mgr.rc_len(), 1);
    assert_eq!(mgr.resync_queue_len(), 1);
    let first = mgr.resync_queue.peek_first().expect("queued");
    assert_eq!(first.0, now + 2 * BLOCK_RW_TIMEOUT_MSEC);
    mgr.block_decref(&h, now + 10);
    let first = mgr.resync_queue.peek_first().expect("queued");
    // The early arrival check stays the earliest entry.
    assert_eq!(first.0, now + 2 * BLOCK_RW_TIMEOUT_MSEC);
    assert_eq!(mgr.resync_queue_len(), 2);
    assert!(mgr.need_block(&h, false) == false); // count dropped to zero
}

#[test]
fn block_paths_use_hex_prefixes() {
    let mgr = BlockManager::new(String::from("/data"), None, repl());
    let mut bytes = [0u8; 32];
    bytes[0] = 0xab;
    bytes[1] = 0x01;
    let h = FixedBytes32 { bytes };
    let dir = mgr.block_dir(&h);
    assert_eq!(dir, "/data/ab/01");
    let path = mgr.block_path(&h);
    assert!(path.starts_with("/data/ab/01/ab01"));
    assert_eq!(path.len(), "/data/ab/01/".len() + 64);
}

#[test]
fn stream_order_restores_request_order() {
    let mut buf: StreamOrder<&'static str> = StreamOrder::new(3);
    assert!(buf.release_next().is_none());
    buf.arrived(1, "b");
    assert!(buf.release_next().is_none());
    buf.arrived(0, "a");
    assert_eq!(buf.release_next(), Some("a"));
    assert_eq!(buf.release_next(), Some("b"));
    buf.arrived(2, "c");
    assert_eq!(buf.release_next(), Some("c"));
    assert!(buf.release_next().is_none());
}

#[test]
fn scrub_finds_only_corrupt_files() {
    let mgr = BlockManager::new(String::from("/tmp/d"), None, repl());
    let good = b"good block".to_vec();
    let good_hash = blake2sum(&good);
    let bad = b"tampered".to_vec();
    let files = vec![
        (good_hash, DataBlock::from_buffer(good, None)),
        (id(7), DataBlock::from_buffer(bad, None)),
    ];
    let corrupt = mgr.scrub_data_store(&files);
    assert_eq!(corrupt.len(), 1);
    assert_eq!(corrupt[0].bytes, [7u8; 32]);

    let clean = vec![(
        blake2sum(b"fine"),
        DataBlock::from_buffer(b"fine".to_vec(), None),
    )];
    assert_eq!(mgr.scrub_data_store(&clean).len(), 0);
}

#[test]
fn repair_enqueues_known_and_on_disk_blocks() {
    let mut mgr = BlockManager::new(String::from("/tmp/d"), None, repl());
    mgr.block_incref(&id(1), 100);
    let on_disk = vec![id(2), id(3)];
    mgr.repair_data_store(&on_disk, 500);
    // The referenced hash and both files are queued for an immediate pass.
    assert!(mgr.resync_queue_len() >= 3);
    let first = mgr.resync_queue.peek_first().expect("entries queued");
    assert_eq!(first.0, 500);
}

#[test]
fn tranquilizer_slows_background_work() {
    assert_eq!(tranquilizer_delay_msec(30, 2), 60);
    assert_eq!(tranquilizer_delay_msec(30, 0), 0);
    assert_eq!(tranquilizer_delay_msec(u64::MAX / 2, 3), u64::MAX);
}
