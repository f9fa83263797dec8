//! Transactions.

use shrestidb::execution::mvcc_store::WriteOp;
use shrestidb::execution::oltp::OLTPEngine;
use shrestidb::float::{FloatOp, FloatUnit};

fn floats(
) -> FloatUnit<impl Fn(&str) -> Option<u64>, impl Fn(u64) -> String, impl Fn(FloatOp, u64, u64) -> u64>
{
    FloatUnit {
        read: |s: &str| s.parse::<f64>().ok().map(f64::to_bits),
        show: |x: u64| f64::from_bits(x).to_string(),
        compute: |op: FloatOp, x: u64, y: u64| {
            let (a, b) = (f64::from_bits(x), f64::from_bits(y));
            match op {
                FloatOp::Plus => (a + b).to_bits(),
                FloatOp::Minus => (a - b).to_bits(),
                FloatOp::Times => (a * b).to_bits(),
                FloatOp::Over => (a / b).to_bits(),
                FloatOp::SquareRoot => a.sqrt().to_bits(),
                FloatOp::Ceiling => a.ceil().to_bits(),
                FloatOp::Power => a.powi(y as i32).to_bits(),
                FloatOp::OfInteger => ((x as i64) as f64).to_bits(),
                FloatOp::OfCount => (x as f64).to_bits(),
                FloatOp::ToCount => a as u64,
            }
        },
    }
}

fn insert(table_id: u64, row_id: u64, val: &str) -> WriteOp {
    WriteOp::Insert {
        table_id,
        row_id,
        data: val.as_bytes().to_vec(),
    }
}

#[test]
fn test_read_your_own_writes() {
    let mut engine = OLTPEngine::new();
    engine.create_table(1);
    let tx = engine.begin();

    assert_eq!(engine.read(tx, 1, 1).unwrap(), None);
    engine.write(tx, insert(1, 1, "hello")).unwrap();
    assert_eq!(engine.read(tx, 1, 1).unwrap(), Some(b"hello".to_vec()));

    engine.commit(tx, &floats()).unwrap();
}

#[test]
fn test_snapshot_isolation_hides_uncommitted_and_later_writes() {
    let mut engine = OLTPEngine::new();
    engine.create_table(1);

    let reader = engine.begin();

    let writer = engine.begin();
    engine.write(writer, insert(1, 1, "v1")).unwrap();
    assert_eq!(engine.read(reader, 1, 1).unwrap(), None);
    engine.commit(writer, &floats()).unwrap();
    assert_eq!(engine.read(reader, 1, 1).unwrap(), None);
    let late_reader = engine.begin();
    assert_eq!(engine.read(late_reader, 1, 1).unwrap(), Some(b"v1".to_vec()));
}

#[test]
fn test_abort_discards_writes() {
    let mut engine = OLTPEngine::new();
    engine.create_table(1);

    let tx = engine.begin();
    engine.write(tx, insert(1, 1, "should not persist")).unwrap();
    engine.abort(tx);

    let checker = engine.begin();
    assert_eq!(engine.read(checker, 1, 1).unwrap(), None);
}

#[test]
fn test_learned_pruning_bounds_chain_growth() {
    let mut engine = OLTPEngine::new();
    engine.create_table(1);
    for i in 0..100 {
        let tx = engine.begin();
        engine
            .write(
                tx,
                WriteOp::Update {
                    table_id: 1,
                    row_id: 1,
                    data: format!("v{i}").into_bytes(),
                },
            )
            .unwrap();
        engine.commit(tx, &floats()).unwrap();
    }

    let versions = engine.store.table(1).version_count(1);
    assert!(
        versions < 100,
        "expected pruning to bound chain growth, got {versions} versions after 100 updates"
    );
    let checker = engine.begin();
    assert_eq!(engine.read(checker, 1, 1).unwrap(), Some(b"v99".to_vec()));
}

#[test]
fn test_pruning_never_breaks_a_long_lived_reader_snapshot() {
    let mut engine = OLTPEngine::new();
    engine.create_table(1);

    let tx0 = engine.begin();
    engine.write(tx0, insert(1, 1, "v0")).unwrap();
    engine.commit(tx0, &floats()).unwrap();
    let reader = engine.begin();
    for i in 1..50 {
        let tx = engine.begin();
        engine
            .write(
                tx,
                WriteOp::Update {
                    table_id: 1,
                    row_id: 1,
                    data: format!("v{i}").into_bytes(),
                },
            )
            .unwrap();
        engine.commit(tx, &floats()).unwrap();
    }
    assert_eq!(engine.read(reader, 1, 1).unwrap(), Some(b"v0".to_vec()));
}

#[test]
fn test_concurrent_writers_to_same_row_serialize_via_lock() {
    let mut engine = OLTPEngine::new();
    engine.create_table(1);

    let tx1 = engine.begin();
    engine.write(tx1, insert(1, 1, "from tx1")).unwrap();

    let tx2 = engine.begin();
    assert!(engine.write(tx2, insert(1, 1, "from tx2")).is_err());
    engine.commit(tx1, &floats()).unwrap();

    assert!(engine.write(tx2, insert(1, 1, "from tx2")).is_ok());
}
