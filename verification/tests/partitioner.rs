//! Keys and partitions.

use shrestidb::distributed::partitioner::{DataPartitioner, Partition, PartitionStrategy};
use shrestidb::float::{FloatOp, FloatUnit, F64};

fn floats(
) -> FloatUnit<impl Fn(&str) -> Option<u64>, impl Fn(u64) -> String, impl Fn(FloatOp, u64, u64) -> u64>
{
    FloatUnit {
        read: |s: &str| s.parse::<f64>().ok().map(f64::to_bits),
        show: |x: u64| f64::from_bits(x).to_string(),
        compute: |op: FloatOp, x: u64, y: u64| {
            let (a, b) = (f64::from_bits(x), f64::from_bits(y));
            match op {
                FloatOp::Plus => (a + b).to_bits(),
                FloatOp::Minus => (a - b).to_bits(),
                FloatOp::Times => (a * b).to_bits(),
                FloatOp::Over => (a / b).to_bits(),
                FloatOp::SquareRoot => a.sqrt().to_bits(),
                FloatOp::Ceiling => a.ceil().to_bits(),
                FloatOp::Power => a.powi(y as i32).to_bits(),
                FloatOp::OfInteger => ((x as i64) as f64).to_bits(),
                FloatOp::OfCount => (x as f64).to_bits(),
                FloatOp::ToCount => a as u64,
            }
        },
    }
}

fn f(x: f64) -> F64 {
    F64 { bits: x.to_bits() }
}

#[test]
fn test_hash_partitioning() {
    let partitioner = DataPartitioner::new(4, PartitionStrategy::Hash);
    let p1 = partitioner.get_partition(f(100.0), &floats());
    let p2 = partitioner.get_partition(f(200.0), &floats());
    assert!(p1 < 4);
    assert!(p2 < 4);
}

#[test]
fn test_range_partitioning() {
    let mut partitioner = DataPartitioner::new(2, PartitionStrategy::Range);
    partitioner.add_partition(Partition {
        id: 0,
        start_key: f(0.0),
        end_key: f(50.0),
        row_count: 1000,
        size_bytes: 100_000,
    });

    let p = partitioner.get_partition(f(25.0), &floats());
    assert_eq!(p, 0);
}
