use durable_log::codec::{decode, encode, CodecError, ConsensusOperation};
use durable_log::consensus::{ConsensusEntry, ConsensusError, ConsensusLog, EntryType};
use durable_log::generator::generate_filler;
use durable_log::oplog::{ClockTag, LogOptions, OpLogError, OperationLog};
use durable_log::segment::{SegmentStore, StoreError};

fn entry(index: u64, term: u64, data: &[u8]) -> ConsensusEntry {
    ConsensusEntry { index, term, entry_type: EntryType::Normal, data: data.to_vec() }
}

fn indices(log: &ConsensusLog) -> Vec<u64> {
    let first = log.first_entry().map(|e| e.index).unwrap_or(1);
    let last = log.last_entry().map(|e| e.index).unwrap_or(0);
    log.entries(first, last + 1, None).unwrap().iter().map(|e| e.index).collect()
}

#[test]
fn store_append_read_and_rotate() {
    let mut st = SegmentStore::new(0, 40);
    for i in 0..10u8 {
        assert_eq!(st.append(&[i; 20]), Ok(i as u64));
    }
    assert_eq!(st.len(), 10);
    assert!(st.images().len() > 1);
    for i in 0..10u8 {
        assert_eq!(st.read(i as u64), Ok(vec![i; 20]));
    }
    assert_eq!(st.read(10), Err(StoreError::NotFound));
}

#[test]
fn store_truncate_from_middle() {
    let mut st = SegmentStore::new(5, 30);
    for i in 0..6u8 {
        st.append(&[i, i]).unwrap();
    }
    st.truncate_from(7);
    assert_eq!(st.len(), 2);
    assert_eq!(st.read(7), Err(StoreError::NotFound));
    assert_eq!(st.append(b"x"), Ok(7));
    assert_eq!(st.read(7), Ok(b"x".to_vec()));
    st.truncate_from(1);
    assert_eq!(st.len(), 0);
}

#[test]
fn frame_header_holds_crc32c_of_payload() {
    let mut st = SegmentStore::new(0, 1024);
    st.append(b"123456789").unwrap();
    let image = &st.images()[0];
    assert_eq!(&image[0..8], &9u64.to_le_bytes());
    assert_eq!(&image[8..16], &0xE306_9283u64.to_le_bytes());
    assert_eq!(&image[16..], b"123456789");
}

#[test]
fn torn_final_write_is_dropped_on_reopen() {
    let mut st = SegmentStore::new(0, 1 << 20);
    st.append(b"alpha").unwrap();
    st.append(b"beta").unwrap();
    st.append(b"gamma").unwrap();
    let mut other = SegmentStore::new(0, 1 << 20);
    other.append(b"delta-delta").unwrap();
    let whole = other.images()[0].clone();
    for cut in [1usize, 8, 16, 20] {
        let mut images = st.images();
        images[0].extend_from_slice(&whole[..cut]);
        let mut reopened = SegmentStore::open(0, &images, 1 << 20).unwrap();
        assert_eq!(reopened.len(), 3);
        assert_eq!(reopened.read(2), Ok(b"gamma".to_vec()));
        assert_eq!(reopened.append(b"after"), Ok(3));
        assert_eq!(reopened.read(3), Ok(b"after".to_vec()));
        assert_eq!(reopened.images(), {
            let mut again = st.images();
            let mut tail = SegmentStore::new(0, 1 << 20);
            tail.append(b"after").unwrap();
            again[0].extend_from_slice(&tail.images()[0]);
            again
        });
    }
}

#[test]
fn corrupt_record_fails_open() {
    let mut st = SegmentStore::new(0, 1 << 20);
    st.append(b"alpha").unwrap();
    st.append(b"beta").unwrap();
    let mut images = st.images();
    images[0][17] ^= 0xff;
    assert!(matches!(SegmentStore::open(0, &images, 1 << 20), Err(StoreError::CorruptSegment)));
}

#[test]
fn torn_write_in_earlier_segment_fails_open() {
    let mut st = SegmentStore::new(0, 10);
    st.append(b"alpha").unwrap();
    st.append(b"beta").unwrap();
    let mut images = st.images();
    assert_eq!(images.len(), 2);
    images[0].push(3);
    assert!(matches!(SegmentStore::open(0, &images, 10), Err(StoreError::CorruptSegment)));
}

fn options() -> LogOptions {
    LogOptions { segment_size: 64, sync_each_append: true }
}

#[test]
fn operation_log_replays_after_reopen() {
    let mut log = OperationLog::open(0, &Vec::new(), options()).unwrap();
    assert_eq!(log.first_index(), None);
    assert_eq!(log.last_index(), None);
    let tag = ClockTag { replica_id: 7, clock_id: 1, clock_value: 42 };
    let ops: Vec<(Vec<u8>, Option<ClockTag>)> = vec![
        (b"upsert 1".to_vec(), Some(tag)),
        (b"delete 2".to_vec(), None),
        (Vec::new(), None),
        (b"upsert 3".to_vec(), Some(ClockTag { clock_value: 43, ..tag })),
    ];
    for (i, (op, t)) in ops.iter().enumerate() {
        assert_eq!(log.append(op, *t), Ok(i as u64));
    }
    assert_eq!(log.first_index(), Some(0));
    assert_eq!(log.last_index(), Some(3));
    let reopened = OperationLog::open(0, &log.images(), options()).unwrap();
    let replayed = reopened.read_all(false).unwrap();
    assert_eq!(replayed.len(), ops.len());
    for (i, (idx, rec)) in replayed.iter().enumerate() {
        assert_eq!(*idx, i as u64);
        assert_eq!(rec.operation, ops[i].0);
        assert_eq!(rec.clock_tag, ops[i].1);
    }
}

#[test]
fn operation_log_invalid_record_aborts_or_is_skipped() {
    let mut st = SegmentStore::new(0, 1 << 20);
    st.append(&[0, 1, 2]).unwrap();
    st.append(&[9, 9]).unwrap();
    st.append(&[0, 3]).unwrap();
    let log = OperationLog::open(0, &st.images(), options()).unwrap();
    assert!(matches!(log.read_all(false), Err(OpLogError::Malformed(1))));
    let kept = log.read_all(true).unwrap();
    assert_eq!(kept.len(), 2);
    assert_eq!(kept[0].0, 0);
    assert_eq!(kept[0].1.operation, vec![1, 2]);
    assert_eq!(kept[1].0, 2);
    assert_eq!(kept[1].1.operation, vec![3]);
}

#[test]
fn empty_log_then_overwrite_at_same_index() {
    let mut log = ConsensusLog::new(1 << 20);
    assert!(log.first_entry().is_none());
    assert!(log.last_entry().is_none());
    log.append_entries(&vec![entry(1, 1, b"first")]).unwrap();
    let last = log.last_entry().unwrap();
    assert_eq!((last.index, last.term, last.data.clone()), (1, 1, b"first".to_vec()));
    log.append_entries(&vec![entry(1, 1, b"second")]).unwrap();
    assert_eq!(indices(&log), vec![1]);
    let last = log.last_entry().unwrap();
    assert_eq!(last.data, b"second".to_vec());
    assert_eq!(log.first_entry().unwrap().data, b"second".to_vec());
}

#[test]
fn overwrite_discards_later_entries() {
    let mut log = ConsensusLog::new(1 << 20);
    log.append_entries(&vec![entry(5, 1, b"a"), entry(6, 1, b"b"), entry(7, 1, b"c")]).unwrap();
    assert_eq!(log.index_offset(), 5);
    log.append_entries(&vec![entry(6, 2, b"new")]).unwrap();
    assert_eq!(indices(&log), vec![5, 6]);
    let all = log.entries(5, 8, None).unwrap();
    assert_eq!(all[0].data, b"a".to_vec());
    assert_eq!((all[1].term, all[1].data.clone()), (2, b"new".to_vec()));
}

#[test]
fn append_rejects_gaps_decreasing_terms_and_old_indices() {
    let mut log = ConsensusLog::new(1 << 20);
    log.append_entries(&vec![entry(3, 2, b"a"), entry(4, 2, b"b")]).unwrap();
    assert!(matches!(log.append_entries(&vec![entry(6, 2, b"x")]), Err(ConsensusError::ContractViolation)));
    assert!(matches!(log.append_entries(&vec![entry(5, 1, b"x")]), Err(ConsensusError::ContractViolation)));
    assert!(matches!(
        log.append_entries(&vec![entry(5, 2, b"x"), entry(7, 2, b"y")]),
        Err(ConsensusError::ContractViolation)
    ));
    assert!(matches!(
        log.append_entries(&vec![entry(5, 3, b"x"), entry(6, 2, b"y")]),
        Err(ConsensusError::ContractViolation)
    ));
    assert!(matches!(log.append_entries(&vec![entry(2, 2, b"x")]), Err(ConsensusError::RangeOutOfBounds)));
    assert_eq!(indices(&log), vec![3, 4]);
    log.append_entries(&vec![entry(5, 3, b"c"), entry(6, 3, b"d")]).unwrap();
    assert_eq!(indices(&log), vec![3, 4, 5, 6]);
}

#[test]
fn entries_returns_half_open_range() {
    let mut log = ConsensusLog::new(1 << 20);
    let batch: Vec<ConsensusEntry> = (10..20).map(|i| entry(i, 1, &[i as u8; 4])).collect();
    log.append_entries(&batch).unwrap();
    let got: Vec<u64> = log.entries(12, 15, None).unwrap().iter().map(|e| e.index).collect();
    assert_eq!(got, vec![12, 13, 14]);
    assert!(log.entries(15, 15, None).unwrap().is_empty());
    assert!(log.entries(16, 12, None).unwrap().is_empty());
    assert!(log.entries(25, 30, None).unwrap().is_empty());
    let got: Vec<u64> = log.entries(18, 100, None).unwrap().iter().map(|e| e.index).collect();
    assert_eq!(got, vec![18, 19]);
    assert!(matches!(log.entries(9, 12, None), Err(ConsensusError::RangeOutOfBounds)));
}

#[test]
fn entries_byte_budget_returns_prefix() {
    let mut log = ConsensusLog::new(1 << 20);
    let batch: Vec<ConsensusEntry> = (1..6).map(|i| entry(i, 1, &[0u8; 10])).collect();
    log.append_entries(&batch).unwrap();
    let got: Vec<u64> = log.entries(1, 6, Some(25)).unwrap().iter().map(|e| e.index).collect();
    assert_eq!(got, vec![1, 2]);
    let got: Vec<u64> = log.entries(2, 6, Some(30)).unwrap().iter().map(|e| e.index).collect();
    assert_eq!(got, vec![2, 3, 4]);
    let got: Vec<u64> = log.entries(3, 6, Some(0)).unwrap().iter().map(|e| e.index).collect();
    assert_eq!(got, vec![3]);
}

#[test]
fn consensus_log_reopens_with_same_entries() {
    let mut log = ConsensusLog::new(48);
    let batch: Vec<ConsensusEntry> = (4..12).map(|i| entry(i, i / 3, &[i as u8; 3])).collect();
    log.append_entries(&batch).unwrap();
    let reopened = ConsensusLog::open(4, &log.images(), 48).unwrap();
    assert_eq!(reopened.index_offset(), 4);
    assert_eq!(indices(&reopened), (4..12).collect::<Vec<u64>>());
    let e = reopened.last_entry().unwrap();
    assert_eq!((e.index, e.term, e.data), (11, 3, vec![11u8; 3]));
    assert!(matches!(ConsensusLog::open(5, &log.images(), 48), Err(ConsensusError::Malformed)));
}

#[test]
fn codec_round_trips_every_variant() {
    let ops = vec![
        ConsensusOperation::CreateCollection { name: b"docs".to_vec(), shard_number: 3 },
        ConsensusOperation::DeleteCollection { name: b"docs".to_vec() },
        ConsensusOperation::AddPeer { peer_id: 9, uri: b"http://n9:6335".to_vec() },
        ConsensusOperation::RemovePeer { peer_id: 9 },
        ConsensusOperation::Unrecognized { tag: 200, payload: vec![1, 2, 3] },
    ];
    for op in ops {
        let bytes = encode(&op);
        assert_eq!(format!("{:?}", decode(&bytes).unwrap()), format!("{:?}", op));
    }
}

#[test]
fn codec_exact_bytes_and_errors() {
    let bytes = encode(&ConsensusOperation::DeleteCollection { name: b"ab".to_vec() });
    assert_eq!(bytes, vec![1, 1, 2, 0, 0, 0, 0, 0, 0, 0, b'a', b'b']);
    assert_eq!(decode(&[2, 1]).unwrap_err(), CodecError::UnknownSchema);
    assert_eq!(decode(&[]).unwrap_err(), CodecError::Malformed);
    assert_eq!(decode(&bytes[..bytes.len() - 1]).unwrap_err(), CodecError::Malformed);
    let mut longer = bytes.clone();
    longer.push(0);
    assert_eq!(decode(&longer).unwrap_err(), CodecError::Malformed);
    assert_eq!(decode(&[1, 3, 1, 2]).unwrap_err(), CodecError::Malformed);
}

#[test]
fn generator_fills_empty_log_to_target() {
    let mut log = ConsensusLog::new(1 << 24);
    let name = b"victim".to_vec();
    generate_filler(&mut log, 200_000, &name).unwrap();
    let last = log.last_entry().unwrap();
    assert_eq!((last.index, last.term), (200_000, 1));
    assert_eq!(log.first_entry().unwrap().index, 1);
    let all = log.entries(1, 200_001, None).unwrap();
    assert_eq!(all.len(), 200_000);
    for (i, e) in all.iter().enumerate() {
        assert_eq!(e.index, i as u64 + 1);
        match decode(&e.data).unwrap() {
            ConsensusOperation::DeleteCollection { name: n } => assert_eq!(n, name),
            other => panic!("unexpected operation {:?}", other),
        }
    }
}

#[test]
fn generator_continues_last_term_and_stops_at_target() {
    let mut log = ConsensusLog::new(1 << 20);
    log.append_entries(&vec![entry(1, 4, b"a"), entry(2, 5, b"b")]).unwrap();
    generate_filler(&mut log, 6, &b"c".to_vec()).unwrap();
    assert_eq!(indices(&log), vec![1, 2, 3, 4, 5, 6]);
    assert_eq!(log.last_entry().unwrap().term, 5);
    generate_filler(&mut log, 4, &b"c".to_vec()).unwrap();
    assert_eq!(indices(&log), vec![1, 2, 3, 4, 5, 6]);
}

#[test]
fn store_iterates_from_a_position() {
    let mut st = SegmentStore::new(10, 25);
    for i in 0..5u8 {
        st.append(&[i]).unwrap();
    }
    let all = st.iterate(0);
    assert_eq!(all.len(), 5);
    assert_eq!(all[0], (10, vec![0]));
    let tail = st.iterate(13);
    assert_eq!(tail, vec![(13, vec![3]), (14, vec![4])]);
    assert!(st.iterate(15).is_empty());
}

#[test]
fn store_append_that_does_not_fit_is_full() {
    let mut st = SegmentStore::new(0, usize::MAX - 20);
    assert_eq!(st.append(b"abcd"), Ok(0));
    assert_eq!(st.append(b"abcde"), Err(StoreError::Full));
    assert_eq!(st.len(), 1);
    assert_eq!(st.read(0), Ok(b"abcd".to_vec()));
}

#[test]
fn batch_that_does_not_fit_leaves_log_unchanged() {
    let mut log = ConsensusLog::new(usize::MAX - 40);
    log.append_entries(&vec![entry(1, 1, b"aa"), entry(2, 1, b"bb"), entry(3, 1, b"cc")]).unwrap();
    let result = log.append_entries(&vec![entry(2, 2, b"x"), entry(3, 2, &[0u8; 20])]);
    assert!(matches!(result, Err(ConsensusError::Store(StoreError::Full))));
    assert_eq!(indices(&log), vec![1, 2, 3]);
    let all = log.entries(1, 4, None).unwrap();
    assert_eq!((all[1].term, all[1].data.clone()), (1, b"bb".to_vec()));
}

#[test]
fn generator_resumes_after_torn_write() {
    let mut log = ConsensusLog::new(1 << 20);
    let batch: Vec<ConsensusEntry> = (1..6).map(|i| entry(i, 2, &[i as u8])).collect();
    log.append_entries(&batch).unwrap();
    let mut spare = SegmentStore::new(0, 1 << 20);
    spare.append(b"never finished").unwrap();
    let mut images = log.images();
    let last = images.len() - 1;
    images[last].extend_from_slice(&spare.images()[0][..20]);
    let mut reopened = ConsensusLog::open(1, &images, 1 << 20).unwrap();
    assert_eq!(reopened.last_entry().unwrap().index, 5);
    generate_filler(&mut reopened, 10, &b"gone".to_vec()).unwrap();
    assert_eq!(indices(&reopened), (1..11).collect::<Vec<u64>>());
    let all = reopened.entries(1, 11, None).unwrap();
    for (i, e) in all.iter().enumerate() {
        if i < 5 {
            assert_eq!((e.term, e.data.clone()), (2, vec![i as u8 + 1]));
        } else {
            assert_eq!(e.term, 2);
            assert!(matches!(decode(&e.data), Ok(ConsensusOperation::DeleteCollection { .. })));
        }
    }
}
