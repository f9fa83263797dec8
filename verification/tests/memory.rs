//! How much memory the indexes take.

use shrestidb::execution::mvcc_store::MVCCTable;
use shrestidb::float::{FloatOp, FloatUnit, F64};
use shrestidb::index::btree::{BTree, Node};
use shrestidb::index::dynamic_pgm::DynamicPGMIndex;
use shrestidb::index::memory::{
    bytes_of_buffered, bytes_of_index, bytes_of_stages, bytes_of_tree, TreeRoom,
};
use shrestidb::index::models::LinearModel;
use shrestidb::index::pgm::{PGMIndex, PGMSegment};
use shrestidb::index::rmi::{RMIIndex, RMIStage};
use std::mem::size_of;

fn floats(
) -> FloatUnit<impl Fn(&str) -> Option<u64>, impl Fn(u64) -> String, impl Fn(FloatOp, u64, u64) -> u64>
{
    FloatUnit {
        read: |s: &str| s.parse::<f64>().ok().map(f64::to_bits),
        show: |x: u64| f64::from_bits(x).to_string(),
        compute: |op: FloatOp, x: u64, y: u64| {
            let (a, b) = (f64::from_bits(x), f64::from_bits(y));
            match op {
                FloatOp::Plus => (a + b).to_bits(),
                FloatOp::Minus => (a - b).to_bits(),
                FloatOp::Times => (a * b).to_bits(),
                FloatOp::Over => (a / b).to_bits(),
                FloatOp::SquareRoot => a.sqrt().to_bits(),
                FloatOp::Ceiling => a.ceil().to_bits(),
                FloatOp::Power => a.powi(y as i32).to_bits(),
                FloatOp::OfInteger => ((x as i64) as f64).to_bits(),
                FloatOp::OfCount => (x as f64).to_bits(),
                FloatOp::ToCount => a as u64,
            }
        },
    }
}
fn f(x: f64) -> F64 {
    F64 { bits: x.to_bits() }
}

#[test]
fn the_bytes_of_rooms_are_exact() {
    assert_eq!(
        bytes_of_index(2, 3),
        size_of::<PGMIndex>() + 2 * size_of::<PGMSegment>() + 3 * 8
    );
    assert_eq!(bytes_of_buffered(100, 5), 100 + 2 * size_of::<usize>() + 5 * 8);
    assert_eq!(
        bytes_of_stages(1, &vec![2, 3], 4, 5),
        size_of::<RMIIndex>()
            + size_of::<RMIStage>()
            + 5 * size_of::<LinearModel>()
            + 4 * 8
            + 5 * size_of::<usize>()
    );
    assert_eq!(
        bytes_of_tree(TreeRoom { nodes: 2, keys: 3, values: 4, children: 1 }),
        size_of::<BTree>()
            + 2 * size_of::<Node>()
            + 3 * 8
            + 4 * size_of::<usize>()
            + size_of::<Box<Node>>()
    );
}

#[test]
fn too_many_bytes_count_as_the_largest_size() {
    assert_eq!(bytes_of_index(usize::MAX, 1), usize::MAX);
    assert_eq!(bytes_of_buffered(usize::MAX, 0), usize::MAX);
}

#[test]
fn an_index_takes_at_least_what_it_holds() {
    let keys: Vec<F64> = (0..1000).map(|i| f(i as f64)).collect();
    let index = PGMIndex::build(keys, 4, &floats());
    assert!(index.heap_bytes() >= bytes_of_index(index.segments.len(), 1000));
    let mut buffered = DynamicPGMIndex::new(vec![f(1.0)], 4, 64, &floats());
    let before = buffered.heap_bytes();
    buffered.insert(f(2.0), &floats());
    assert!(buffered.heap_bytes() > before);
}

#[test]
fn a_table_without_rows_has_no_index() {
    let mut table = MVCCTable::new();
    assert_eq!(table.pk_index_heap_bytes(), 0);
    table.apply_insert(1, 1, b"row".to_vec(), &floats());
    assert!(table.pk_index_heap_bytes() > 0);
}
