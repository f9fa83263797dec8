//! Plans.

use shrestidb::float::{FloatOp, FloatUnit};
use shrestidb::optimizer::planner::{LogicalPlanNode, QueryPlanner, ASSUMED_TABLE_ROWS};

fn floats(
) -> FloatUnit<impl Fn(&str) -> Option<u64>, impl Fn(u64) -> String, impl Fn(FloatOp, u64, u64) -> u64>
{
    FloatUnit {
        read: |s: &str| s.parse::<f64>().ok().map(f64::to_bits),
        show: |x: u64| f64::from_bits(x).to_string(),
        compute: |op: FloatOp, x: u64, y: u64| {
            let (a, b) = (f64::from_bits(x), f64::from_bits(y));
            match op {
                FloatOp::Plus => (a + b).to_bits(),
                FloatOp::Minus => (a - b).to_bits(),
                FloatOp::Times => (a * b).to_bits(),
                FloatOp::Over => (a / b).to_bits(),
                FloatOp::SquareRoot => a.sqrt().to_bits(),
                FloatOp::Ceiling => a.ceil().to_bits(),
                FloatOp::Power => a.powi(y as i32).to_bits(),
                FloatOp::OfInteger => ((x as i64) as f64).to_bits(),
                FloatOp::OfCount => (x as f64).to_bits(),
                FloatOp::ToCount => a as u64,
            }
        },
    }
}

#[test]
fn test_query_planner_creation() {
    let planner = QueryPlanner::new();
    let plan = planner.plan("SELECT * FROM table1", &floats()).unwrap();
    assert!(!plan.nodes.is_empty());
}

#[test]
fn test_plan_reflects_real_table_name() {
    let planner = QueryPlanner::new();
    let plan = planner.plan("SELECT * FROM orders", &floats()).unwrap();
    match &plan.nodes[0] {
        LogicalPlanNode::Scan { table_name, .. } => assert_eq!(table_name, "orders"),
        other => panic!("expected a Scan node, got {other:?}"),
    }
}

#[test]
fn test_plan_emits_filter_node_for_where_clause() {
    let planner = QueryPlanner::new();
    let plan = planner.plan("SELECT * FROM users WHERE age > 18", &floats()).unwrap();
    assert!(plan
        .nodes
        .iter()
        .any(|n| matches!(n, LogicalPlanNode::Filter { .. })));
    assert!(plan.estimated_rows < ASSUMED_TABLE_ROWS);
}

#[test]
fn test_plan_emits_join_node_for_join_query() {
    let planner = QueryPlanner::new();
    let plan = planner.plan("SELECT * FROM users JOIN orders ON users.id = orders.user_id", &floats()).unwrap();
    assert!(plan
        .nodes
        .iter()
        .any(|n| matches!(n, LogicalPlanNode::Join { .. })));
}

#[test]
fn test_plan_non_select_falls_back_to_empty_plan() {
    let planner = QueryPlanner::new();
    let plan = planner.plan("DELETE FROM users WHERE id = 1", &floats()).unwrap();
    assert_eq!(plan.estimated_rows, 0);
}

#[test]
fn test_plan_emits_aggregate_node_when_all_columns_are_aggregates() {
    let planner = QueryPlanner::new();
    let plan = planner.plan("SELECT COUNT(*), AVG(age) FROM users", &floats()).unwrap();
    assert!(plan
        .nodes
        .iter()
        .any(|n| matches!(n, LogicalPlanNode::Aggregate { .. })));
    assert_eq!(plan.estimated_rows, 1);
}

#[test]
fn test_plan_emits_project_node_for_explicit_column_list() {
    let planner = QueryPlanner::new();
    let plan = planner.plan("SELECT name, age FROM users", &floats()).unwrap();
    match plan.nodes.iter().find(|n| matches!(n, LogicalPlanNode::Project { .. })) {
        Some(LogicalPlanNode::Project { columns, .. }) => {
            assert_eq!(columns, &vec!["name".to_string(), "age".to_string()]);
        }
        _ => panic!("expected a Project node"),
    }
}

#[test]
fn test_plan_does_not_emit_project_node_for_select_star() {
    let planner = QueryPlanner::new();
    let plan = planner.plan("SELECT * FROM users", &floats()).unwrap();
    assert!(!plan.nodes.iter().any(|n| matches!(n, LogicalPlanNode::Project { .. })));
}

#[test]
fn test_plan_emits_sort_node_for_order_by() {
    let planner = QueryPlanner::new();
    let plan = planner.plan("SELECT * FROM users ORDER BY age DESC", &floats()).unwrap();
    match plan.nodes.iter().find(|n| matches!(n, LogicalPlanNode::Sort { .. })) {
        Some(LogicalPlanNode::Sort { keys, .. }) => {
            assert_eq!(keys, &vec![("age".to_string(), false)]);
        }
        _ => panic!("expected a Sort node"),
    }
}

#[test]
fn test_plan_emits_sort_node_for_multi_column_order_by() {
    let planner = QueryPlanner::new();
    let plan = planner.plan("SELECT * FROM users ORDER BY age, name DESC", &floats()).unwrap();
    match plan.nodes.iter().find(|n| matches!(n, LogicalPlanNode::Sort { .. })) {
        Some(LogicalPlanNode::Sort { keys, .. }) => {
            assert_eq!(keys, &vec![("age".to_string(), true), ("name".to_string(), false)]);
        }
        _ => panic!("expected a Sort node"),
    }
}

#[test]
fn test_plan_emits_limit_node_for_limit_clause() {
    let planner = QueryPlanner::new();
    let plan = planner.plan("SELECT * FROM users LIMIT 5", &floats()).unwrap();
    match plan.nodes.iter().find(|n| matches!(n, LogicalPlanNode::Limit { .. })) {
        Some(LogicalPlanNode::Limit { limit, .. }) => assert_eq!(*limit, 5),
        _ => panic!("expected a Limit node"),
    }
}

#[test]
fn test_plan_omits_sort_and_limit_nodes_when_absent() {
    let planner = QueryPlanner::new();
    let plan = planner.plan("SELECT * FROM users", &floats()).unwrap();
    assert!(!plan.nodes.iter().any(|n| matches!(n, LogicalPlanNode::Sort { .. })));
    assert!(!plan.nodes.iter().any(|n| matches!(n, LogicalPlanNode::Limit { .. })));
}

#[test]
fn test_plan_does_not_emit_aggregate_for_mixed_columns() {
    let planner = QueryPlanner::new();
    let plan = planner.plan("SELECT name, COUNT(*) FROM users", &floats()).unwrap();
    assert!(!plan
        .nodes
        .iter()
        .any(|n| matches!(n, LogicalPlanNode::Aggregate { .. })));
}

#[test]
fn test_plan_emits_aggregate_node_for_group_by() {
    let planner = QueryPlanner::new();
    let plan = planner.plan("SELECT user_id, COUNT(*) FROM orders GROUP BY user_id", &floats()).unwrap();
    match plan.nodes.iter().find(|n| matches!(n, LogicalPlanNode::Aggregate { .. })) {
        Some(LogicalPlanNode::Aggregate { columns, group_by, .. }) => {
            assert_eq!(columns, &vec!["user_id".to_string(), "COUNT(*)".to_string()]);
            assert_eq!(group_by, &vec!["user_id".to_string()]);
        }
        _ => panic!("expected an Aggregate node"),
    }
}

#[test]
fn test_plan_rejects_group_by_with_ungrouped_plain_column() {
    let planner = QueryPlanner::new();
    let plan = planner.plan("SELECT name, COUNT(*) FROM orders GROUP BY user_id", &floats()).unwrap();
    assert!(!plan
        .nodes
        .iter()
        .any(|n| matches!(n, LogicalPlanNode::Aggregate { .. })));
}

#[test]
fn test_plan_carries_having_onto_the_aggregate_node() {
    let planner = QueryPlanner::new();
    let plan = planner
        .plan("SELECT user_id, COUNT(*) FROM orders GROUP BY user_id HAVING COUNT(*) > 1", &floats())
        .unwrap();
    match plan.nodes.iter().find(|n| matches!(n, LogicalPlanNode::Aggregate { .. })) {
        Some(LogicalPlanNode::Aggregate { having, .. }) => {
            assert_eq!(having.as_deref(), Some("COUNT(*) > 1"));
        }
        _ => panic!("expected an Aggregate node"),
    }
}

#[test]
fn test_plan_rejects_having_without_group_by_or_aggregate_select() {
    let planner = QueryPlanner::new();
    let err = planner.plan("SELECT * FROM users HAVING age > 18", &floats());
    assert!(err.is_err());
}

#[test]
fn test_plan_emits_distinct_node_for_select_distinct() {
    let planner = QueryPlanner::new();
    let plan = planner.plan("SELECT DISTINCT user_id FROM orders", &floats()).unwrap();
    assert!(plan.nodes.iter().any(|n| matches!(n, LogicalPlanNode::Distinct { .. })));
}

#[test]
fn test_plan_omits_distinct_node_for_plain_select() {
    let planner = QueryPlanner::new();
    let plan = planner.plan("SELECT user_id FROM orders", &floats()).unwrap();
    assert!(!plan.nodes.iter().any(|n| matches!(n, LogicalPlanNode::Distinct { .. })));
}

#[test]
fn test_different_queries_yield_different_costs() {
    let planner = QueryPlanner::new();
    let scan_only = planner.plan("SELECT * FROM users", &floats()).unwrap();
    let filtered = planner.plan("SELECT * FROM users WHERE age > 18", &floats()).unwrap();
    assert_ne!(scan_only.estimated_cost, filtered.estimated_cost);
    assert_ne!(scan_only.estimated_rows, filtered.estimated_rows);
}
