use cdf::engine::{apply_delete, apply_insert, lookup, scan_rows, EngineConfig};
use cdf::error::CdfError;
use cdf::memtable::MemTable;
use cdf::storage::{InternalValue, RowKey};
use cdf::temporal::{TemporalBounds, TemporalQuery, Timestamp};
use cdf::temporal_index::TemporalIndex;
use cdf::wal::{append_outcome, frame_record, last_seq, next_record, record_spans, recovered_next_seq};
use cdf::FabricId;

#[derive(Debug, Clone, PartialEq)]
struct Row {
    id: FabricId,
    version: u64,
}

fn row(id: FabricId, version: u64) -> InternalValue<Row> {
    InternalValue::Active(Row { id, version })
}

#[test]
fn test_row_key_encoding() {
    let id = FabricId::nil();
    let key = RowKey::new("documents", id);
    let encoded = key.encode();
    assert!(encoded.len() > 16);
}

#[test]
fn test_memtable_basic() {
    let mut mt = MemTable::new(1024 * 1024);
    let key = RowKey::new("test", FabricId::new());

    assert!(mt.insert(key.clone(), row(key.row_id, 1)).unwrap());
    assert!(mt.get(&key).is_some());
    assert_eq!(mt.len(), 1);
}

#[test]
fn test_memtable_scan() {
    let mut mt = MemTable::new(1024 * 1024);
    let id1 = FabricId::new();
    let id2 = FabricId::new();

    mt.insert(RowKey::new("docs", id1), row(id1, 1)).unwrap();
    mt.insert(RowKey::new("docs", id2), row(id2, 1)).unwrap();

    let results = mt.scan(None, None);
    assert_eq!(results.len(), 2);
}

#[test]
fn row_key_bytes_are_table_zero_and_big_endian_id() {
    let key = RowKey::new("ab", FabricId(0x0102030405060708090a0b0c0d0e0f10));
    assert_eq!(
        key.encode(),
        vec![b'a', b'b', 0, 1, 2, 3, 4, 5, 6, 7, 8, 9, 10, 11, 12, 13, 14, 15, 16]
    );
}

#[test]
fn memtable_keeps_keys_ordered_and_replaces() {
    let mut mt = MemTable::new(1024 * 1024);
    let ids = [FabricId(3), FabricId(1), FabricId(2)];
    for id in ids {
        mt.insert(RowKey::new("t", id), row(id, 1)).unwrap();
    }
    mt.insert(RowKey::new("t", FabricId(1)), row(FabricId(1), 2)).unwrap();
    assert_eq!(mt.len(), 3);
    let all = mt.scan(None, None);
    let versions: Vec<u64> = all
        .iter()
        .map(|(_, v)| match v {
            InternalValue::Active(r) => r.version,
            _ => 0,
        })
        .collect();
    assert_eq!(versions, vec![2, 1, 1]);
    assert!(all.windows(2).all(|w| w[0].0 < w[1].0));
    let from_two = RowKey::new("t", FabricId(2)).encode();
    assert_eq!(mt.scan(Some(from_two.as_slice()), None).len(), 2);
    assert_eq!(mt.scan(None, Some(from_two.as_slice())).len(), 1);
    let drained = mt.drain();
    assert_eq!(drained.len(), 3);
    assert!(mt.is_empty());
}

#[test]
fn memtable_reports_when_over_budget() {
    let mut mt = MemTable::new(1);
    assert!(!mt.at_capacity());
    assert!(!mt.insert(RowKey::new("t", FabricId(1)), row(FabricId(1), 1)).unwrap());
    assert!(mt.at_capacity());
}

#[test]
fn wal_frames_read_back() {
    let mut log = frame_record(&[1, 2, 3]);
    assert_eq!(log, vec![3, 0, 0, 0, 1, 2, 3]);
    log.extend(frame_record(&[]));
    log.extend(frame_record(&[9; 300]));
    let spans = record_spans(&log).unwrap();
    let payloads: Vec<&[u8]> = spans.iter().map(|&(s, e)| &log[s..e]).collect();
    assert_eq!(payloads.len(), 3);
    assert_eq!(payloads[0], &[1, 2, 3]);
    assert!(payloads[1].is_empty());
    assert_eq!(payloads[2], &[9; 300][..]);
    // 300 = 0x12c, little-endian length prefix.
    assert_eq!(&log[11..15], &[0x2c, 0x01, 0, 0]);
}

#[test]
fn wal_torn_tail_is_ignored() {
    let mut log = frame_record(&[7, 7]);
    let next = frame_record(&[8, 8, 8]);
    log.extend_from_slice(&next[..5]);
    let spans = record_spans(&log).unwrap();
    assert_eq!(spans, vec![(4, 6)]);
    assert_eq!(next_record(&log, 6).unwrap(), None);
    assert_eq!(next_record(&log, 0).unwrap(), Some((4, 6)));
}

#[test]
fn wal_rejects_oversized_lengths() {
    let log = vec![0xff, 0xff, 0xff, 0xff, 0];
    match record_spans(&log) {
        Err(CdfError::WalError { reason }) => {
            assert_eq!(reason, "entry length 4294967295 exceeds 64MB, WAL likely corrupt")
        }
        other => panic!("unexpected {:?}", other),
    }
}

#[test]
fn wal_sequence_numbers() {
    assert_eq!(recovered_next_seq(None), 1);
    assert_eq!(recovered_next_seq(Some(2)), 3);
    assert_eq!(last_seq(3), 2);
    assert_eq!(last_seq(0), 0);
    assert_eq!(append_outcome(3, true), (Some(3), 4));
    assert_eq!(append_outcome(3, false), (None, 3));
    assert_eq!(append_outcome(u64::MAX, false), (None, u64::MAX));
}

#[test]
fn engine_reads_newest_buffer_first() {
    let id = FabricId(42);
    let key = RowKey::new("test", id);
    let mut old = MemTable::new(1 << 20);
    apply_insert(&mut old, key.clone(), Row { id, version: 1 });
    let mut active: MemTable<InternalValue<Row>> = MemTable::new(1 << 20);
    let frozen = vec![old];
    assert_eq!(lookup(&active, &frozen, &key), Some(Row { id, version: 1 }));
    apply_insert(&mut active, key.clone(), Row { id, version: 2 });
    assert_eq!(lookup(&active, &frozen, &key), Some(Row { id, version: 2 }));
    apply_delete(&mut active, key.clone(), TemporalBounds::new());
    assert_eq!(lookup(&active, &frozen, &key), None);
    assert_eq!(lookup(&active, &frozen, &RowKey::new("other", id)), None);
}

#[test]
fn engine_scan_dedups_by_row_id() {
    let id = FabricId(7);
    let other = FabricId(8);
    let mut older = MemTable::new(1 << 20);
    apply_insert(&mut older, RowKey::new("test", id), Row { id, version: 1 });
    apply_insert(&mut older, RowKey::new("test", other), Row { id: other, version: 1 });
    let mut active = MemTable::new(1 << 20);
    for v in 2..5 {
        apply_insert(&mut active, RowKey::new("test", id), Row { id, version: v });
    }
    apply_delete(&mut active, RowKey::new("test", other), TemporalBounds::new());
    let rows = scan_rows(&active, &[older], "test");
    // The newest version of `id` wins; the tombstone of `other` hides nothing
    // in the older buffer.
    assert_eq!(rows, vec![Row { id, version: 4 }, Row { id: other, version: 1 }]);
}

#[test]
fn engine_config_defaults() {
    let c = EngineConfig::default();
    assert_eq!(c.data_dir, "./cdf-data");
    assert_eq!(c.memtable_size, 64 * 1024 * 1024);
    assert!(c.wal_sync);
    assert_eq!(c.max_segment_size, 256 * 1024 * 1024);
}

#[test]
fn temporal_index_queries() {
    let mut idx = TemporalIndex::new();
    let b = |v: i64, t: i64| TemporalBounds {
        valid_time_start: Timestamp::from_secs(v),
        valid_time_end: Timestamp::forever(),
        transaction_time: Timestamp::from_secs(t),
    };
    idx.insert(b(10, 100), 1);
    idx.insert(b(20, 200), 2);
    idx.insert(b(10, 200), 3);
    assert_eq!(idx.query(TemporalQuery::Current), vec![2, 3]);
    assert_eq!(idx.query(TemporalQuery::AsOfValid(Timestamp::from_secs(15))), vec![1, 3]);
    assert_eq!(idx.query(TemporalQuery::AsOfValid(Timestamp::from_secs(20))), vec![1, 3, 2]);
    assert_eq!(idx.query(TemporalQuery::AsOfTransaction(Timestamp::from_secs(200))), vec![1, 2, 3]);
    assert_eq!(idx.query(TemporalQuery::AsOfTransaction(Timestamp::from_secs(150))), vec![1]);
    assert!(idx.query(TemporalQuery::AsOfTransaction(Timestamp::from_secs(50))).is_empty());
}

#[test]
fn temporal_index_as_of_valid_excludes_ended_versions() {
    let mut idx = TemporalIndex::new();
    let ended = TemporalBounds {
        valid_time_start: Timestamp::from_secs(100),
        valid_time_end: Timestamp::from_secs(200),
        transaction_time: Timestamp::from_secs(100),
    };
    let open = TemporalBounds {
        valid_time_start: Timestamp::from_secs(200),
        valid_time_end: Timestamp::forever(),
        transaction_time: Timestamp::from_secs(300),
    };
    idx.insert(ended, 1);
    idx.insert(open, 2);
    assert_eq!(idx.query(TemporalQuery::AsOfValid(Timestamp::from_secs(150))), vec![1]);
    assert_eq!(idx.query(TemporalQuery::AsOfValid(Timestamp::from_secs(300))), vec![2]);
    assert_eq!(idx.query(TemporalQuery::AsOfValid(Timestamp::from_secs(199))), vec![1]);
    assert_eq!(idx.query(TemporalQuery::AsOfValid(Timestamp::from_secs(200))), vec![2]);
    assert_eq!(idx.query(TemporalQuery::AsOfTransaction(Timestamp::forever())), vec![1, 2]);
    // Valid at 250, but only as known at 250: version 2 was recorded at 300.
    assert!(idx
        .query(TemporalQuery::Bitemporal { valid_time: Timestamp::from_secs(250), transaction_time: Timestamp::from_secs(250) })
        .is_empty());
    assert_eq!(
        idx.query(TemporalQuery::Bitemporal { valid_time: Timestamp::from_secs(250), transaction_time: Timestamp::from_secs(300) }),
        vec![2]
    );
    assert_eq!(idx.query(TemporalQuery::Current), vec![2]);
}
