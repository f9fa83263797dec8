//! What holds of a database from one statement to the next.

use shrestidb::execution::catalog::Catalog;
use shrestidb::execution::executor::QueryExecutor;
use shrestidb::execution::operators::Value;
use shrestidb::execution::statements::Step;
use shrestidb::execution::wal::{frame_record, read_log};
use shrestidb::float::{FloatOp, FloatUnit};
use shrestidb::optimizer::planner::LogicalPlanNode;
use shrestidb::DatabaseError;

fn floats(
) -> FloatUnit<impl Fn(&str) -> Option<u64>, impl Fn(u64) -> String, impl Fn(FloatOp, u64, u64) -> u64>
{
    FloatUnit {
        read: |s: &str| s.parse::<f64>().ok().map(f64::to_bits),
        show: |x: u64| f64::from_bits(x).to_string(),
        compute: |op: FloatOp, x: u64, y: u64| {
            let (a, b) = (f64::from_bits(x), f64::from_bits(y));
            match op {
                FloatOp::Plus => (a + b).to_bits(),
                FloatOp::Minus => (a - b).to_bits(),
                FloatOp::Times => (a * b).to_bits(),
                FloatOp::Over => (a / b).to_bits(),
                FloatOp::SquareRoot => a.sqrt().to_bits(),
                FloatOp::Ceiling => a.ceil().to_bits(),
                FloatOp::Power => a.powi(y as i32).to_bits(),
                FloatOp::OfInteger => ((x as i64) as f64).to_bits(),
                FloatOp::OfCount => (x as f64).to_bits(),
                FloatOp::ToCount => a as u64,
            }
        },
    }
}
fn run(db: &mut QueryExecutor, sql: &str) -> Result<Vec<Vec<String>>, DatabaseError> {
    db.execute_sql(sql, &floats())
}

fn ask(db: &mut QueryExecutor, sql: &str) -> Vec<Vec<String>> {
    run(db, sql).unwrap()
}

fn refused(db: &mut QueryExecutor, sql: &str) -> String {
    run(db, sql).unwrap_err().message()
}

fn rows(v: &[&[&str]]) -> Vec<Vec<String>> {
    v.iter().map(|r| r.iter().map(|c| c.to_string()).collect()).collect()
}

fn sorted(mut v: Vec<Vec<String>>) -> Vec<Vec<String>> {
    v.sort();
    v
}

fn people() -> QueryExecutor {
    let mut db = QueryExecutor::new(Catalog::new());
    ask(&mut db, "CREATE TABLE people (id INT PRIMARY KEY, name TEXT, age INT, weight FLOAT)");
    ask(
        &mut db,
        "INSERT INTO people (id, name, age, weight) VALUES (1, 'Ann', 30, 60.5), (2, 'Ben', 41, 82.0), (3, 'Cid', 30, 71.25)",
    );
    db
}

#[test]
fn an_inserted_row_is_read_back() {
    let mut db = people();
    assert_eq!(
        ask(&mut db, "SELECT * FROM people"),
        rows(&[
            &["1", "Ann", "30", "60.5"],
            &["2", "Ben", "41", "82"],
            &["3", "Cid", "30", "71.25"],
        ])
    );
    assert_eq!(ask(&mut db, "SELECT name FROM people WHERE id = 2"), rows(&[&["Ben"]]));
}

#[test]
fn the_last_of_two_rows_with_one_key_is_read() {
    let mut db = people();
    let n = ask(&mut db, "INSERT INTO people (id, name) VALUES (7, 'Gil'), (7, 'Gus')");
    assert_eq!(n, rows(&[&["2"]]));
    assert_eq!(ask(&mut db, "SELECT name, age FROM people WHERE id = 7"), rows(&[&["Gus", "NULL"]]));
}

#[test]
fn an_updated_row_is_read_back_and_others_are_left() {
    let mut db = people();
    assert_eq!(ask(&mut db, "UPDATE people SET age = age + 1 WHERE name = 'Ann'"), rows(&[&["1"]]));
    assert_eq!(
        ask(&mut db, "SELECT id, age FROM people"),
        rows(&[&["1", "31"], &["2", "41"], &["3", "30"]])
    );
}

#[test]
fn assignments_see_the_row_as_it_was() {
    let mut db = QueryExecutor::new(Catalog::new());
    ask(&mut db, "CREATE TABLE p (id INT PRIMARY KEY, a INT, b INT)");
    ask(&mut db, "INSERT INTO p (id, a, b) VALUES (1, 10, 20)");
    ask(&mut db, "UPDATE p SET a = b, b = a");
    assert_eq!(ask(&mut db, "SELECT a, b FROM p"), rows(&[&["20", "10"]]));
}

#[test]
fn a_deleted_row_is_gone() {
    let mut db = people();
    assert_eq!(ask(&mut db, "DELETE FROM people WHERE age = 30"), rows(&[&["2"]]));
    assert_eq!(ask(&mut db, "SELECT name FROM people"), rows(&[&["Ben"]]));
    assert!(ask(&mut db, "SELECT * FROM people WHERE id = 1").is_empty());
}

#[test]
fn deleting_a_row_that_was_inserted_again_leaves_nothing_of_it() {
    let mut db = people();
    ask(&mut db, "INSERT INTO people (id, name) VALUES (1, 'Amy')");
    assert_eq!(ask(&mut db, "SELECT name FROM people WHERE id = 1"), rows(&[&["Amy"]]));
    assert_eq!(ask(&mut db, "DELETE FROM people WHERE id = 1"), rows(&[&["1"]]));
    assert!(ask(&mut db, "SELECT name FROM people WHERE id = 1").is_empty());
    assert_eq!(ask(&mut db, "SELECT name FROM people"), rows(&[&["Ben"], &["Cid"]]));
}

#[test]
fn a_refused_statement_changes_nothing() {
    let mut db = people();
    let before = ask(&mut db, "SELECT * FROM people");
    let said = refused(&mut db, "INSERT INTO people (id, name) VALUES (8, 'Hal'), ('x', 'Ike')");
    assert!(said.contains("Unsupported value expression: ''x''"), "{said}");
    let said = refused(&mut db, "INSERT INTO people (name) VALUES ('Joe')");
    assert!(said.contains("Primary key must be an integer, got Null"), "{said}");
    let said = refused(&mut db, "UPDATE people SET id = 9 WHERE id = 1");
    assert!(said.contains("Updating the primary key column is not supported"), "{said}");
    let said = refused(&mut db, "UPDATE people SET age = age * 9223372036854775807");
    assert!(said.contains("Arithmetic overflow in SET"), "{said}");
    let said = refused(&mut db, "DELETE FROM people WHERE UPPER(name) = 'ANN'");
    assert!(said.contains("Unsupported WHERE clause"), "{said}");
    assert_eq!(ask(&mut db, "SELECT * FROM people"), before);
}

#[test]
fn a_cancelled_change_leaves_no_row_and_no_lock() {
    let mut db = people();
    let before = ask(&mut db, "SELECT * FROM people");
    match db.start_sql("UPDATE people SET age = 0", &floats()).unwrap() {
        Step::Log(_, pending) => db.cancel(pending),
        Step::Answer(_) => panic!("an update is logged"),
    }
    assert_eq!(db.oltp.locks.lock_count(), 0);
    assert_eq!(ask(&mut db, "SELECT * FROM people"), before);
    assert_eq!(ask(&mut db, "UPDATE people SET age = 0"), rows(&[&["3"]]));
}

#[test]
fn a_row_that_another_change_holds_is_refused() {
    let mut db = people();
    let pending = match db.start_sql("UPDATE people SET age = 50 WHERE id = 1", &floats()).unwrap() {
        Step::Log(_, pending) => pending,
        Step::Answer(_) => panic!("an update is logged"),
    };
    let said = refused(&mut db, "UPDATE people SET age = 60 WHERE id = 1");
    assert!(said.contains("lock"), "{said}");
    assert_eq!(ask(&mut db, "UPDATE people SET age = 60 WHERE id = 2"), rows(&[&["1"]]));
    assert_eq!(db.settle(pending, &floats()).unwrap(), rows(&[&["1"]]));
    assert_eq!(
        ask(&mut db, "SELECT id, age FROM people"),
        rows(&[&["1", "50"], &["2", "60"], &["3", "30"]])
    );
}

/// Runs a statement and adds its record to a log.
fn run_logged(db: &mut QueryExecutor, log: &mut Vec<u8>, sql: &str) -> Vec<Vec<String>> {
    match db.start_sql(sql, &floats()).unwrap() {
        Step::Answer(rows) => rows,
        Step::Log(record, pending) => {
            log.extend(frame_record(&record).unwrap());
            db.settle(pending, &floats()).unwrap()
        }
    }
}

fn written_log() -> (QueryExecutor, Vec<u8>) {
    let mut db = QueryExecutor::open(&Vec::new(), &floats()).unwrap();
    let mut log = Vec::new();
    for sql in [
        "CREATE TABLE t (id INT PRIMARY KEY, v INT, w TEXT)",
        "INSERT INTO t (id, v, w) VALUES (1, 10, 'a'), (2, 20, 'b'), (3, 30, 'c')",
        "CREATE INDEX by_v ON t (v)",
        "UPDATE t SET v = v + 5 WHERE id = 2",
        "UPDATE t SET v = v + 5 WHERE id = 2",
        "DELETE FROM t WHERE id = 1",
        "CREATE TABLE u (id INT PRIMARY KEY)",
        "INSERT INTO u (id) VALUES (4)",
    ] {
        run_logged(&mut db, &mut log, sql);
    }
    (db, log)
}

#[test]
fn a_restart_loses_nothing() {
    let (mut db, log) = written_log();
    let mut again = QueryExecutor::open(&log, &floats()).unwrap();
    for sql in [
        "SELECT * FROM t",
        "SELECT * FROM u",
        "SELECT * FROM t WHERE id >= 2",
        "SELECT * FROM t WHERE v = 30",
        "SELECT * FROM t WHERE v > 10",
    ] {
        assert_eq!(sorted(ask(&mut again, sql)), sorted(ask(&mut db, sql)), "{sql}");
    }
    assert_eq!(
        ask(&mut again, "SELECT * FROM t"),
        rows(&[&["2", "30", "b"], &["3", "30", "c"]])
    );
    assert_eq!(again.oltp.current_commit_ts(), db.oltp.current_commit_ts());
}

#[test]
fn a_restarted_database_goes_on() {
    let (_, mut log) = written_log();
    let mut again = QueryExecutor::open(&log, &floats()).unwrap();
    run_logged(&mut again, &mut log, "INSERT INTO t (id, v, w) VALUES (5, 50, 'e')");
    run_logged(&mut again, &mut log, "CREATE TABLE x (id INT PRIMARY KEY)");
    let mut third = QueryExecutor::open(&log, &floats()).unwrap();
    assert_eq!(ask(&mut third, "SELECT w FROM t WHERE v = 50"), rows(&[&["e"]]));
    assert_eq!(third.catalog.get_table("x").map(|s| s.table_id), Some(3));
}

#[test]
fn a_torn_tail_of_a_log_is_left_out() {
    let (_, log) = written_log();
    let all = read_log(&log).len();
    let torn = log[..log.len() - 1].to_vec();
    assert_eq!(read_log(&torn).len(), all - 1);
    let mut again = QueryExecutor::open(&torn, &floats()).unwrap();
    assert!(ask(&mut again, "SELECT * FROM u").is_empty());
}

#[test]
fn an_index_changes_no_answer() {
    let mut db = people();
    ask(&mut db, "INSERT INTO people (id, name, age) VALUES (4, 'Dot', 25), (5, 'Eva', 30)");
    let questions = ["age = 30", "age > 25", "age >= 30", "age < 41", "age <= 30", "age = 99"];
    let plain: Vec<_> = questions
        .iter()
        .map(|q| sorted(ask(&mut db, &format!("SELECT * FROM people WHERE {q}"))))
        .collect();
    ask(&mut db, "CREATE INDEX by_age ON people (age)");
    for (q, want) in questions.iter().zip(&plain) {
        assert_eq!(&sorted(ask(&mut db, &format!("SELECT * FROM people WHERE {q}"))), want, "{q}");
    }
    ask(&mut db, "UPDATE people SET age = 31 WHERE id = 1");
    ask(&mut db, "DELETE FROM people WHERE id = 3");
    ask(&mut db, "INSERT INTO people (id, name, age) VALUES (6, 'Fay', 30)");
    assert_eq!(
        sorted(ask(&mut db, "SELECT name FROM people WHERE age = 30")),
        rows(&[&["Eva"], &["Fay"]])
    );
    assert_eq!(ask(&mut db, "SELECT name FROM people WHERE age = 31"), rows(&[&["Ann"]]));
}

#[test]
fn a_change_through_an_index_meets_each_row_once() {
    let mut db = people();
    ask(&mut db, "CREATE INDEX by_age ON people (age)");
    ask(&mut db, "UPDATE people SET age = 31 WHERE id = 1");
    ask(&mut db, "UPDATE people SET age = 30 WHERE id = 1");
    assert_eq!(ask(&mut db, "UPDATE people SET weight = 1.0 WHERE age = 30"), rows(&[&["2"]]));
    assert_eq!(ask(&mut db, "DELETE FROM people WHERE age >= 30"), rows(&[&["3"]]));
}

#[test]
fn a_key_lookup_changes_no_answer() {
    let mut db = people();
    for op in ["=", ">", ">=", "<", "<="] {
        for n in [0, 1, 2, 3, 4] {
            let looked_up = ask(&mut db, &format!("SELECT * FROM people WHERE id {op} {n}"));
            let scanned =
                ask(&mut db, &format!("SELECT * FROM people WHERE id {op} {n} AND id {op} {n}"));
            assert_eq!(sorted(looked_up), sorted(scanned), "{op} {n}");
        }
    }
}

#[test]
fn a_row_id_is_its_primary_key() {
    let mut db = people();
    ask(&mut db, "UPDATE people SET age = 1");
    let tx = db.begin_transaction();
    for id in [1, 2, 3] {
        assert!(db.read_row(tx, 1, id).unwrap().is_some());
    }
    assert!(db.read_row(tx, 1, 4).unwrap().is_none());
    db.abort_transaction(tx);
}

#[test]
fn a_prepared_statement_takes_what_it_needs_and_more() {
    let mut db = people();
    let stmt = db.prepare("SELECT name FROM people WHERE age = ? AND id > ?", &floats()).unwrap();
    assert_eq!(stmt.param_count, 2);
    let two = [Value::Integer(30), Value::Integer(1)];
    assert_eq!(db.execute_prepared(&stmt, &two, &floats()).unwrap(), rows(&[&["Cid"]]));
    let three = [Value::Integer(30), Value::Integer(1), Value::Null];
    assert_eq!(db.execute_prepared(&stmt, &three, &floats()).unwrap(), rows(&[&["Cid"]]));
    let said = db.execute_prepared(&stmt, &two[..1], &floats()).unwrap_err().message();
    assert!(said.contains("prepared statement expects 2 parameter(s), got 1"), "{said}");
}

#[test]
fn numbered_parameters_may_come_in_any_order_and_again() {
    let mut db = people();
    let stmt = db
        .prepare("UPDATE people SET name = $2, age = $1 WHERE age = $1", &floats())
        .unwrap();
    assert_eq!(stmt.param_count, 2);
    let given = [Value::Integer(30), Value::String("Zoe".to_string())];
    assert_eq!(db.execute_prepared(&stmt, &given, &floats()).unwrap(), rows(&[&["2"]]));
    assert_eq!(
        ask(&mut db, "SELECT name FROM people"),
        rows(&[&["Zoe"], &["Ben"], &["Zoe"]])
    );
}

#[test]
fn parameters_are_quoted_as_text() {
    let mut db = people();
    let stmt = db.prepare("INSERT INTO people (id, name) VALUES (?, ?)", &floats()).unwrap();
    let given = [Value::Integer(10), Value::String("x OR 1 = 1".to_string())];
    db.execute_prepared(&stmt, &given, &floats()).unwrap();
    assert_eq!(
        ask(&mut db, "SELECT name FROM people WHERE id = 10"),
        rows(&[&["x OR 1 = 1"]])
    );
}

fn joined_tables(plan: &shrestidb::optimizer::planner::PhysicalPlan) -> Vec<String> {
    plan.nodes
        .iter()
        .filter_map(|n| match n {
            LogicalPlanNode::Join { right_table, .. } => Some(right_table.clone()),
            _ => None,
        })
        .collect()
}

#[test]
fn joins_with_a_parameter_are_planned_as_written() {
    let mut db = QueryExecutor::new(Catalog::new());
    for t in ["a", "b", "c"] {
        ask(&mut db, &format!("CREATE TABLE {t} (id INT PRIMARY KEY, x INT)"));
    }
    for id in 0..40 {
        ask(&mut db, &format!("INSERT INTO b (id, x) VALUES ({id}, 1)"));
    }
    ask(&mut db, "INSERT INTO a (id, x) VALUES (1, 1)");
    ask(&mut db, "INSERT INTO c (id, x) VALUES (1, 1)");
    for t in ["a", "b", "c"] {
        ask(&mut db, &format!("ANALYZE {t}"));
    }
    let free = db
        .explain("SELECT * FROM a JOIN b ON a.x = b.x JOIN c ON a.id = c.id", &floats())
        .unwrap();
    assert_eq!(joined_tables(&free), vec!["c", "b"]);
    let bound = db
        .explain("SELECT * FROM a JOIN b ON b.x = ? JOIN c ON a.id = c.id", &floats())
        .unwrap();
    assert_eq!(joined_tables(&bound), vec!["b", "c"]);
}

#[test]
fn tables_and_indexes_must_be_there() {
    let mut db = people();
    assert!(refused(&mut db, "CREATE TABLE people (id INT)").contains("already exists"));
    assert!(refused(&mut db, "CREATE INDEX i ON people (height)").contains("Unknown column 'height'"));
    assert!(refused(&mut db, "CREATE INDEX i ON pets (age)").contains("pets"));
    assert!(refused(&mut db, "ANALYZE pets").contains("pets"));
    assert!(refused(&mut db, "SELECT height FROM people").contains("height"));
}

#[test]
fn what_an_analysis_knows_is_used_in_plans() {
    let mut db = people();
    let sql = "SELECT * FROM people WHERE age = 30";
    assert_eq!(db.explain(sql, &floats()).unwrap().estimated_rows, 100);
    ask(&mut db, "ANALYZE people");
    assert_eq!(db.explain(sql, &floats()).unwrap().estimated_rows, 2);
}

fn orders() -> QueryExecutor {
    let mut db = QueryExecutor::new(Catalog::new());
    ask(&mut db, "CREATE TABLE orders (id INT PRIMARY KEY, user_id INT, total FLOAT)");
    ask(
        &mut db,
        "INSERT INTO orders (id, user_id, total) VALUES (100, 1, 10.0), (101, 1, 5.0), (102, 2, 20.0)",
    );
    db
}

#[test]
fn groups_are_ordered_by_their_key() {
    let mut db = orders();
    let sql = "SELECT user_id, COUNT(*) FROM orders GROUP BY user_id ORDER BY user_id";
    let plan = db.explain(sql, &floats()).unwrap();
    assert_eq!(db.execute(&plan, &floats()).unwrap(), rows(&[&["1", "2"], &["2", "1"]]));
    assert_eq!(
        ask(&mut db, "SELECT COUNT(*), user_id FROM orders GROUP BY user_id ORDER BY user_id DESC"),
        rows(&[&["1", "2"], &["2", "1"]])
    );
    let said = refused(&mut db, "SELECT user_id, COUNT(*) FROM orders GROUP BY user_id ORDER BY COUNT(*)");
    assert!(said.contains("in ORDER BY"), "{said}");
    let said = refused(&mut db, "SELECT user_id, COUNT(*) FROM orders GROUP BY user_id ORDER BY total");
    assert!(said.contains("Unknown column 'total' in ORDER BY"), "{said}");
}

#[test]
fn an_analysis_counts_rows_without_a_value() {
    let mut db = QueryExecutor::new(Catalog::new());
    ask(&mut db, "CREATE TABLE t (id INT PRIMARY KEY, v INT, w TEXT)");
    ask(&mut db, "INSERT INTO t (id, v, w) VALUES (1, 5, NULL), (2, NULL, 'x')");
    ask(&mut db, "ANALYZE t");
    for column in ["id", "v", "w"] {
        assert_eq!(db.stats.get("t", column).unwrap().total_rows(), 2, "{column}");
    }
    assert_eq!(db.stats.get("t", "v").unwrap().distinct_count(), 1);
}

#[test]
fn an_aggregate_in_parentheses_is_found() {
    let mut db = orders();
    assert_eq!(
        ask(
            &mut db,
            "SELECT user_id FROM orders GROUP BY user_id HAVING user_id = 1 AND (SUM(total) > 14)"
        ),
        rows(&[&["1"]])
    );
}

#[test]
fn a_column_that_is_more_than_one_call_is_no_aggregate() {
    let mut db = orders();
    let said = refused(&mut db, "SELECT SUM(total) + SUM(total) FROM orders");
    assert!(said.contains("SUM(total) + SUM(total)"), "{said}");
}

#[test]
fn a_group_condition_takes_parameters() {
    let mut db = orders();
    let stmt = db
        .prepare(
            "SELECT user_id FROM orders WHERE id > ? GROUP BY user_id HAVING COUNT(*) > ?",
            &floats(),
        )
        .unwrap();
    assert_eq!(stmt.param_count, 2);
    let low = [Value::Integer(0), Value::Integer(1)];
    assert_eq!(db.execute_prepared(&stmt, &low, &floats()).unwrap(), rows(&[&["1"]]));
    let high = [Value::Integer(100), Value::Integer(0)];
    assert_eq!(
        sorted(db.execute_prepared(&stmt, &high, &floats()).unwrap()),
        rows(&[&["1"], &["2"]])
    );
    let said = refused(&mut db, "SELECT user_id FROM orders GROUP BY user_id HAVING COUNT(*) > ?");
    assert!(said.contains("placeholder"), "{said}");
}

#[test]
fn an_ordered_query_gives_the_rows_of_the_unordered_one() {
    let mut db = people();
    let plain = ask(&mut db, "SELECT age, id FROM people");
    let ordered = ask(&mut db, "SELECT age, id FROM people ORDER BY age DESC, id");
    assert_eq!(sorted(plain), sorted(ordered.clone()));
    assert_eq!(ordered, rows(&[&["41", "2"], &["30", "1"], &["30", "3"]]));
}

#[test]
fn a_row_that_was_inserted_again_is_found_by_its_key() {
    let mut db = people();
    ask(&mut db, "INSERT INTO people (id, name) VALUES (2, 'Bob')");
    assert_eq!(ask(&mut db, "SELECT name FROM people WHERE id >= 2"), rows(&[&["Bob"], &["Cid"]]));
}

fn numbers(db: &mut QueryExecutor, condition: &str) -> Vec<String> {
    let sql = format!("SELECT n FROM t WHERE {condition}");
    sorted(ask(db, &sql)).into_iter().map(|r| r[0].clone()).collect()
}

#[test]
fn a_lookup_by_a_negative_key_reads_the_table() {
    let mut db = QueryExecutor::new(Catalog::new());
    ask(&mut db, "CREATE TABLE t (id INT PRIMARY KEY, n INT)");
    ask(&mut db, "INSERT INTO t (id, n) VALUES (-1, 1), (5, 2), (7, 3), (-20, 4)");
    assert_eq!(numbers(&mut db, "id = -1"), ["1"]);
    assert_eq!(numbers(&mut db, "id = 5"), ["2"]);
    assert_eq!(numbers(&mut db, "id > 5"), ["3"]);
    assert_eq!(numbers(&mut db, "id >= 5"), ["2", "3"]);
    assert_eq!(numbers(&mut db, "id < 5"), ["1", "4"]);
    assert_eq!(numbers(&mut db, "id <= -1"), ["1", "4"]);
    assert_eq!(numbers(&mut db, "id > -20"), ["1", "2", "3"]);
    assert_eq!(ask(&mut db, "DELETE FROM t WHERE id = -1"), rows(&[&["1"]]));
    assert!(numbers(&mut db, "id = -1").is_empty());
    assert_eq!(numbers(&mut db, "id < 0"), ["4"]);
}

#[test]
fn a_lookup_by_a_great_key_reads_the_table() {
    let mut db = QueryExecutor::new(Catalog::new());
    ask(&mut db, "CREATE TABLE t (id BIGINT PRIMARY KEY, n INT)");
    ask(&mut db, "INSERT INTO t (id, n) VALUES (9007199254740991, 1)");
    assert_eq!(numbers(&mut db, "id = 9007199254740991"), ["1"]);
    assert!(numbers(&mut db, "id > 9007199254740991").is_empty());
    ask(&mut db, "INSERT INTO t (id, n) VALUES (9007199254740993, 2), (9007199254740992, 3)");
    assert_eq!(numbers(&mut db, "id = 9007199254740993"), ["2"]);
    assert_eq!(numbers(&mut db, "id = 9007199254740992"), ["3"]);
    assert_eq!(numbers(&mut db, "id > 9007199254740992"), ["2"]);
    assert_eq!(numbers(&mut db, "id <= 9007199254740992"), ["1", "3"]);
}

#[test]
fn an_index_over_two_zeros_finds_both() {
    let mut db = QueryExecutor::new(Catalog::new());
    ask(&mut db, "CREATE TABLE t (id INT PRIMARY KEY, n INT, x FLOAT)");
    ask(&mut db, "CREATE INDEX by_x ON t (x)");
    ask(&mut db, "INSERT INTO t (id, n, x) VALUES (1, 1, 0.0), (2, 2, -0.0), (3, 3, 1.5), (4, 4, -2.0)");
    assert_eq!(numbers(&mut db, "x = 0.0"), ["1", "2"]);
    assert_eq!(numbers(&mut db, "x >= 0.0"), ["1", "2", "3"]);
    assert_eq!(numbers(&mut db, "x < 0.0"), ["4"]);
    assert_eq!(numbers(&mut db, "x > -2.0"), ["1", "2", "3"]);
    assert_eq!(ask(&mut db, "DELETE FROM t WHERE x = 0.0"), rows(&[&["2"]]));
}

#[test]
fn an_index_over_values_of_two_kinds_misses_none() {
    let mut db = QueryExecutor::new(Catalog::new());
    ask(&mut db, "CREATE TABLE t (id INT PRIMARY KEY, n INT, x INT)");
    ask(&mut db, "CREATE INDEX by_x ON t (x)");
    ask(&mut db, "INSERT INTO t (id, n, x) VALUES (1, 1, 4), (2, 2, 9), (3, 3, NULL)");
    assert_eq!(numbers(&mut db, "x < 5"), ["1"]);
    ask(&mut db, "UPDATE t SET x = x * 0.5 WHERE id = 2");
    assert_eq!(numbers(&mut db, "x < 5"), ["1", "2"]);
    assert_eq!(numbers(&mut db, "x > 4"), ["2"]);
}

#[test]
fn an_index_leaves_the_comparison_of_two_columns_alone() {
    let mut db = QueryExecutor::new(Catalog::new());
    ask(&mut db, "CREATE TABLE t (id INT PRIMARY KEY, n INT, a TEXT, b TEXT)");
    ask(&mut db, "CREATE INDEX by_a ON t (a)");
    ask(&mut db, "INSERT INTO t (id, n, a, b) VALUES (1, 1, 'x', 'x'), (2, 2, 'x', 'y'), (3, 3, 'b', 'z')");
    assert_eq!(numbers(&mut db, "a = b"), ["1"]);
    assert_eq!(numbers(&mut db, "a = 'b'"), ["3"]);
}

#[test]
fn a_row_without_a_value_is_not_estimated_to_be_kept() {
    let mut db = QueryExecutor::new(Catalog::new());
    ask(&mut db, "CREATE TABLE t (id INT PRIMARY KEY, v INT)");
    ask(&mut db, "INSERT INTO t (id, v) VALUES (1, 5), (2, NULL)");
    ask(&mut db, "ANALYZE t");
    let mut kept = |sql: &str| db.explain(sql, &floats()).unwrap().estimated_rows;
    assert_eq!(kept("SELECT * FROM t WHERE v > 5"), 0);
    assert_eq!(kept("SELECT * FROM t WHERE v >= 5"), 1);
    assert_eq!(kept("SELECT * FROM t WHERE v != 5"), 0);
    assert_eq!(kept("SELECT * FROM t"), 2);
}

#[test]
fn a_join_of_integers_with_floats_compares_them() {
    let mut db = QueryExecutor::new(Catalog::new());
    ask(&mut db, "CREATE TABLE a (id INT PRIMARY KEY, i INT)");
    ask(&mut db, "CREATE TABLE b (id INT PRIMARY KEY, x FLOAT)");
    ask(&mut db, "INSERT INTO a (id, i) VALUES (1, 4), (2, 5), (3, NULL)");
    ask(&mut db, "INSERT INTO b (id, x) VALUES (7, 5.0), (8, 4.5), (9, NULL)");
    assert_eq!(
        ask(&mut db, "SELECT a.id, b.id FROM a JOIN b ON a.i = b.x"),
        rows(&[&["2", "7"]])
    );
    assert_eq!(
        sorted(ask(&mut db, "SELECT a.id, b.id FROM a LEFT JOIN b ON b.x = a.i")),
        rows(&[&["1", "NULL"], &["2", "7"], &["3", "NULL"]])
    );
}
