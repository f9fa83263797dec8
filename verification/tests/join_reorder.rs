//! The order of joins.

use shrestidb::float::{FloatOp, FloatUnit, F64};
use shrestidb::optimizer::join_reorder::{JoinOrderer, SizeUnit};
use shrestidb::sql::parser::{JoinClause, JoinKind};

fn floats(
) -> FloatUnit<impl Fn(&str) -> Option<u64>, impl Fn(u64) -> String, impl Fn(FloatOp, u64, u64) -> u64>
{
    FloatUnit {
        read: |s: &str| s.parse::<f64>().ok().map(f64::to_bits),
        show: |x: u64| f64::from_bits(x).to_string(),
        compute: |op: FloatOp, x: u64, y: u64| {
            let (a, b) = (f64::from_bits(x), f64::from_bits(y));
            match op {
                FloatOp::Plus => (a + b).to_bits(),
                FloatOp::Minus => (a - b).to_bits(),
                FloatOp::Times => (a * b).to_bits(),
                FloatOp::Over => (a / b).to_bits(),
                FloatOp::SquareRoot => a.sqrt().to_bits(),
                FloatOp::Ceiling => a.ceil().to_bits(),
                FloatOp::Power => a.powi(y as i32).to_bits(),
                FloatOp::OfInteger => ((x as i64) as f64).to_bits(),
                FloatOp::OfCount => (x as f64).to_bits(),
                FloatOp::ToCount => a as u64,
            }
        },
    }
}

fn f(x: f64) -> F64 {
    F64 { bits: x.to_bits() }
}

fn sizes<R: Fn(&str) -> usize, D: Fn(&str, &str) -> Option<usize>>(rows: R, distinct: D) -> SizeUnit<R, D> {
    SizeUnit { row_count_of: rows, distinct_count_of: distinct }
}

fn join(table: &str, alias: Option<&str>, condition: Option<&str>) -> JoinClause {
    JoinClause { table: table.to_string(), alias: alias.map(str::to_string), condition: condition.map(str::to_string), equi_match: None, kind: JoinKind::Inner }
}

#[test]
fn test_join_cardinality_estimation() {
    let orderer = JoinOrderer::new();
    let card = orderer.estimate_join_cardinality(100, 50, f(0.1), &floats());
    assert_eq!(card, 500);
}

#[test]
fn test_stats_based_cardinality_uses_distinct_counts_not_fixed_selectivity() {
    let orderer = JoinOrderer::new();
    let real = orderer.estimate_join_cardinality_with_stats(1000, 1000, Some(500), Some(10), f(0.1), &floats());
    assert_eq!(real, 2_000);
    let fixed = orderer.estimate_join_cardinality(1000, 1000, f(0.1), &floats());
    assert_eq!(fixed, 100_000);
    assert_ne!(real, fixed);
}

#[test]
fn test_stats_based_cardinality_falls_back_without_distinct_counts() {
    let orderer = JoinOrderer::new();
    let est = orderer.estimate_join_cardinality_with_stats(100, 50, None, Some(10), f(0.1), &floats());
    assert_eq!(est, orderer.estimate_join_cardinality(100, 50, f(0.1), &floats()));
}

#[test]
fn test_find_optimal_order_single_join_keeps_it() {
    let orderer = JoinOrderer::new();
    let joins = vec![join("orders", Some("o"), Some("u.id = o.user_id"))];
    let planned = orderer.find_optimal_order("u", 100, &joins, &sizes(|_: &str| 1000, |_: &str, _: &str| None), f(0.1), &floats());
    assert_eq!(planned.len(), 1);
    assert_eq!(planned[0].join_index, 0);
}

#[test]
fn test_find_optimal_order_picks_more_selective_join_first() {
    let orderer = JoinOrderer::new();
    let joins = vec![
        join("big", Some("b"), Some("u.id = b.u_id")),
        join("small", Some("s"), Some("u.id = s.u_id")),
    ];
    let row_count_of = |q: &str| match q {
        "u" => 100,
        "b" => 100_000,
        "s" => 100,
        _ => 1000,
    };
    let distinct_count_of = |q: &str, _c: &str| match q {
        "u" => Some(100),
        "b" => Some(2),
        "s" => Some(100),
        _ => None,
    };
    let planned = orderer.find_optimal_order("u", 100, &joins, &sizes(row_count_of, distinct_count_of), f(0.1), &floats());
    assert_eq!(planned.len(), 2);
    assert_eq!(planned[0].join_index, 1, "expected the highly selective join to be scheduled first");
    assert_eq!(planned[1].join_index, 0);
}

#[test]
fn test_find_optimal_order_respects_dependency_chain() {
    let orderer = JoinOrderer::new();
    let joins = vec![
        join("payments", Some("p"), Some("o.id = p.order_id")),
        join("orders", Some("o"), Some("u.id = o.user_id")),
    ];
    let planned = orderer.find_optimal_order("u", 100, &joins, &sizes(|_: &str| 500, |_: &str, _: &str| None), f(0.1), &floats());
    let position_of = |join_index: usize| planned.iter().position(|pj| pj.join_index == join_index).unwrap();
    assert!(position_of(1) < position_of(0), "orders (index 1) must be scheduled before payments (index 0)");
}

#[test]
fn test_find_optimal_order_falls_back_to_source_order_on_unqualified_condition() {
    let orderer = JoinOrderer::new();
    let joins = vec![
        join("orders", Some("o"), Some("id = o.user_id")),
        join("payments", Some("p"), Some("o.id = p.order_id")),
    ];
    let planned = orderer.find_optimal_order("u", 100, &joins, &sizes(|_: &str| 500, |_: &str, _: &str| None), f(0.1), &floats());
    assert_eq!(planned.iter().map(|pj| pj.join_index).collect::<Vec<_>>(), vec![0, 1]);
}

#[test]
fn test_find_optimal_order_cross_join_has_no_dependency_and_full_cardinality() {
    let orderer = JoinOrderer::new();
    let joins = vec![join("logs", Some("l"), None)];
    let planned = orderer.find_optimal_order("u", 10, &joins, &sizes(|_: &str| 5, |_: &str, _: &str| None), f(0.1), &floats());
    assert_eq!(planned[0].output_rows, 50);
}

#[test]
fn test_find_optimal_order_empty_joins_returns_empty() {
    let orderer = JoinOrderer::new();
    let planned = orderer.find_optimal_order("u", 100, &[], &sizes(|_: &str| 1000, |_: &str, _: &str| None), f(0.1), &floats());
    assert!(planned.is_empty());
}
