//! Logs.

use shrestidb::execution::catalog::{Column, DataType, TableSchema};
use shrestidb::execution::mvcc_store::WriteOp;
use shrestidb::execution::wal::{frame_record, read_log, WalRecord};

#[test]
fn test_append_and_reopen_replays_records() {
    let mut log: Vec<u8> = Vec::new();
    assert!(read_log(&log).is_empty());
    log.extend(
        frame_record(&WalRecord::Commit {
            commit_ts: 1,
            ops: vec![WriteOp::Insert { table_id: 1, row_id: 1, data: b"hello".to_vec() }],
        })
        .unwrap(),
    );
    log.extend(
        frame_record(&WalRecord::Commit {
            commit_ts: 2,
            ops: vec![WriteOp::Insert { table_id: 1, row_id: 2, data: b"world".to_vec() }],
        })
        .unwrap(),
    );

    let records = read_log(&log);
    assert_eq!(records.len(), 2);
}

#[test]
fn test_create_table_record_roundtrips() {
    let mut schema = TableSchema::new(1, "users".to_string());
    schema.add_column(Column {
        id: 1,
        name: "id".to_string(),
        data_type: DataType::Integer,
        nullable: false,
        primary_key: true,
    });

    let log = frame_record(&WalRecord::CreateTable(schema)).unwrap();

    let records = read_log(&log);
    assert_eq!(records.len(), 1);
    match &records[0] {
        WalRecord::CreateTable(s) => assert_eq!(s.name, "users"),
        other => panic!("expected CreateTable record, got {other:?}"),
    }
}

#[test]
fn test_truncated_tail_record_is_dropped_not_fatal() {
    let mut log = frame_record(&WalRecord::Commit { commit_ts: 1, ops: vec![] }).unwrap();
    log.extend(100u32.to_le_bytes());

    let records = read_log(&log);
    assert_eq!(records.len(), 1);
}
