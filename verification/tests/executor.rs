//! Statements, end to end.

use shrestidb::execution::catalog::{Catalog, Column, DataType, TableSchema};
use shrestidb::execution::executor::QueryExecutor;
use shrestidb::execution::mvcc_store::WriteOp;
use shrestidb::execution::operators::Value;
use shrestidb::execution::prepared::PreparedStatement;
use shrestidb::execution::statements::Step;
use shrestidb::execution::transaction::TransactionId;
use shrestidb::execution::wal::frame_record;
use shrestidb::float::{FloatOp, FloatUnit};
use shrestidb::optimizer::planner::PhysicalPlan;
use shrestidb::DatabaseError;
use std::cell::RefCell;
use std::rc::Rc;

fn floats(
) -> FloatUnit<impl Fn(&str) -> Option<u64>, impl Fn(u64) -> String, impl Fn(FloatOp, u64, u64) -> u64>
{
    FloatUnit {
        read: |s: &str| s.parse::<f64>().ok().map(f64::to_bits),
        show: |x: u64| f64::from_bits(x).to_string(),
        compute: |op: FloatOp, x: u64, y: u64| {
            let (a, b) = (f64::from_bits(x), f64::from_bits(y));
            match op {
                FloatOp::Plus => (a + b).to_bits(),
                FloatOp::Minus => (a - b).to_bits(),
                FloatOp::Times => (a * b).to_bits(),
                FloatOp::Over => (a / b).to_bits(),
                FloatOp::SquareRoot => a.sqrt().to_bits(),
                FloatOp::Ceiling => a.ceil().to_bits(),
                FloatOp::Power => a.powi(y as i32).to_bits(),
                FloatOp::OfInteger => ((x as i64) as f64).to_bits(),
                FloatOp::OfCount => (x as f64).to_bits(),
                FloatOp::ToCount => a as u64,
            }
        },
    }
}

/// The bytes of a log that outlives the engine that writes it.
#[derive(Clone, Default)]
struct Log {
    bytes: Rc<RefCell<Vec<u8>>>,
}

/// An engine, with a log where it was opened on one.
struct Engine {
    inner: RefCell<QueryExecutor>,
    log: Option<Log>,
}

impl Engine {
    fn new(catalog: Catalog) -> Self {
        Engine { inner: RefCell::new(QueryExecutor::new(catalog)), log: None }
    }

    fn open(log: &Log) -> Result<Self, DatabaseError> {
        let executor = QueryExecutor::open(&log.bytes.borrow(), &floats())?;
        Ok(Engine { inner: RefCell::new(executor), log: Some(log.clone()) })
    }

    fn execute_sql(&self, sql: &str) -> Result<Vec<Vec<String>>, DatabaseError> {
        let mut inner = self.inner.borrow_mut();
        match &self.log {
            None => inner.execute_sql(sql, &floats()),
            Some(log) => match inner.start_sql(sql, &floats())? {
                Step::Answer(rows) => Ok(rows),
                Step::Log(record, pending) => {
                    log.bytes.borrow_mut().extend(frame_record(&record)?);
                    inner.settle(pending, &floats())
                }
            },
        }
    }

    fn prepare(&self, sql: &str) -> Result<PreparedStatement, DatabaseError> {
        self.inner.borrow().prepare(sql, &floats())
    }

    fn execute_prepared(
        &self,
        stmt: &PreparedStatement,
        params: &[Value],
    ) -> Result<Vec<Vec<String>>, DatabaseError> {
        self.inner.borrow_mut().execute_prepared(stmt, params, &floats())
    }

    fn explain(&self, sql: &str) -> Result<PhysicalPlan, DatabaseError> {
        self.inner.borrow().explain(sql, &floats())
    }

    fn begin_transaction(&self) -> TransactionId {
        self.inner.borrow_mut().begin_transaction()
    }

    fn read_row(
        &self,
        tx: TransactionId,
        table_id: u64,
        row_id: u64,
    ) -> Result<Option<Vec<u8>>, DatabaseError> {
        self.inner.borrow().read_row(tx, table_id, row_id)
    }

    fn write_row(&self, tx: TransactionId, op: WriteOp) -> Result<(), DatabaseError> {
        self.inner.borrow_mut().write_row(tx, op)
    }

    fn commit_transaction(&self, tx: TransactionId) -> Result<(), DatabaseError> {
        self.inner.borrow_mut().commit_transaction(tx, &floats())
    }
}


#[test]
fn test_executor_creation() {
    let catalog = Catalog::new();
    let executor = Engine::new(catalog);
    assert_eq!(executor.inner.borrow().catalog.tables.len(), 0);
}
#[test]
fn test_executor_transactional_read_write() {
    let executor = Engine::new(Catalog::new());
    executor.inner.borrow_mut().oltp.create_table(1);

    let tx = executor.begin_transaction();
    executor
        .write_row(
            tx,
            WriteOp::Insert {
                table_id: 1,
                row_id: 1,
                data: b"row".to_vec(),
            },
        )
        .unwrap();
    assert_eq!(executor.read_row(tx, 1, 1).unwrap(), Some(b"row".to_vec()));
    executor.commit_transaction(tx).unwrap();

    let tx2 = executor.begin_transaction();
    assert_eq!(executor.read_row(tx2, 1, 1).unwrap(), Some(b"row".to_vec()));
}

fn users_catalog() -> Catalog {
    let mut catalog = Catalog::new();
    let mut schema = TableSchema::new(1, "users".to_string());
    schema.add_column(Column {
        id: 1,
        name: "id".to_string(),
        data_type: DataType::Integer,
        nullable: false,
        primary_key: true,
    });
    schema.add_column(Column {
        id: 2,
        name: "name".to_string(),
        data_type: DataType::String,
        nullable: false,
        primary_key: false,
    });
    schema.add_column(Column {
        id: 3,
        name: "age".to_string(),
        data_type: DataType::Integer,
        nullable: false,
        primary_key: false,
    });
    catalog.register_table(schema);
    catalog
}

#[test]
fn test_insert_then_select_end_to_end() {
    let executor = Engine::new(users_catalog());

    executor
        .execute_sql("INSERT INTO users (id, name, age) VALUES (1, 'Alice', 30)")
        .unwrap();
    executor
        .execute_sql("INSERT INTO users (id, name, age) VALUES (2, 'Bob', 15)")
        .unwrap();

    let rows = executor.execute_sql("SELECT * FROM users").unwrap();
    assert_eq!(rows.len(), 2);
}

#[test]
fn test_select_with_where_filters_rows() {
    let executor = Engine::new(users_catalog());
    executor
        .execute_sql("INSERT INTO users (id, name, age) VALUES (1, 'Alice', 30)")
        .unwrap();
    executor
        .execute_sql("INSERT INTO users (id, name, age) VALUES (2, 'Bob', 15)")
        .unwrap();

    let rows = executor
        .execute_sql("SELECT * FROM users WHERE age > 18")
        .unwrap();
    assert_eq!(rows.len(), 1);
    assert!(rows[0].contains(&"Alice".to_string()));
}

#[test]
fn test_select_unknown_table_errors() {
    let executor = Engine::new(users_catalog());
    assert!(executor.execute_sql("SELECT * FROM ghosts").is_err());
}

#[test]
fn test_insert_without_primary_key_column_fails() {
    let mut catalog = Catalog::new();
    let mut schema = TableSchema::new(1, "logs".to_string());
    schema.add_column(Column {
        id: 1,
        name: "message".to_string(),
        data_type: DataType::String,
        nullable: false,
        primary_key: false,
    });
    catalog.register_table(schema);
    let executor = Engine::new(catalog);

    assert!(executor
        .execute_sql("INSERT INTO logs (message) VALUES ('hi')")
        .is_err());
}

#[test]
fn test_select_on_table_with_no_rows_yet_is_empty() {
    let executor = Engine::new(users_catalog());
    let rows = executor.execute_sql("SELECT * FROM users").unwrap();
    assert!(rows.is_empty());
}

fn seed_users(executor: &Engine) {
    executor
        .execute_sql("INSERT INTO users (id, name, age) VALUES (1, 'Alice', 30)")
        .unwrap();
    executor
        .execute_sql("INSERT INTO users (id, name, age) VALUES (2, 'Bob', 15)")
        .unwrap();
}

#[test]
fn test_execute_sql_rejects_bare_placeholder() {
    let executor = Engine::new(users_catalog());
    assert!(executor
        .execute_sql("INSERT INTO users (id, name, age) VALUES (1, ?, 30)")
        .is_err());
}

#[test]
fn test_prepared_insert_executed_repeatedly_with_different_params() {
    let executor = Engine::new(users_catalog());
    let stmt = executor.prepare("INSERT INTO users (id, name, age) VALUES (?, ?, ?)").unwrap();

    executor.execute_prepared(&stmt, &[Value::Integer(1), Value::String("Alice".to_string()), Value::Integer(30)]).unwrap();
    executor.execute_prepared(&stmt, &[Value::Integer(2), Value::String("Bob".to_string()), Value::Integer(15)]).unwrap();

    let rows = executor.execute_sql("SELECT * FROM users").unwrap();
    assert_eq!(rows.len(), 2);
    assert!(rows.iter().any(|r| r.contains(&"Alice".to_string()) && r.contains(&"30".to_string())));
    assert!(rows.iter().any(|r| r.contains(&"Bob".to_string()) && r.contains(&"15".to_string())));
}

#[test]
fn test_prepared_select_with_where_placeholder() {
    let executor = Engine::new(users_catalog());
    seed_users(&executor);

    let stmt = executor.prepare("SELECT * FROM users WHERE age > ?").unwrap();

    let rows = executor.execute_prepared(&stmt, &[Value::Integer(18)]).unwrap();
    assert_eq!(rows.len(), 1);
    assert!(rows[0].contains(&"Alice".to_string()));
    let rows = executor.execute_prepared(&stmt, &[Value::Integer(10)]).unwrap();
    assert_eq!(rows.len(), 2);
}

#[test]
fn test_prepared_select_pk_lookup_uses_indexed_scan_and_rebinds_correctly() {
    let executor = Engine::new(users_catalog());
    seed_users(&executor);

    let stmt = executor.prepare("SELECT * FROM users WHERE id = ?").unwrap();

    let rows = executor.execute_prepared(&stmt, &[Value::Integer(1)]).unwrap();
    assert_eq!(rows.len(), 1);
    assert!(rows[0].contains(&"Alice".to_string()));
    let rows = executor.execute_prepared(&stmt, &[Value::Integer(2)]).unwrap();
    assert_eq!(rows.len(), 1);
    assert!(rows[0].contains(&"Bob".to_string()));
    let rows = executor.execute_prepared(&stmt, &[Value::Integer(999)]).unwrap();
    assert!(rows.is_empty());
}

#[test]
fn test_prepared_select_join_and_where_placeholders_bind_in_plan_order() {
    let executor = Engine::new(users_catalog());
    executor.execute_sql("CREATE TABLE orders (id INT PRIMARY KEY, user_id INT, total FLOAT)").unwrap();
    seed_users(&executor);
    executor.execute_sql("INSERT INTO orders (id, user_id, total) VALUES (100, 1, 9.5)").unwrap();
    executor.execute_sql("INSERT INTO orders (id, user_id, total) VALUES (101, 2, 4.0)").unwrap();

    let stmt = executor
        .prepare("SELECT * FROM users JOIN orders ON users.id = orders.user_id WHERE users.age > ?")
        .unwrap();

    let rows = executor.execute_prepared(&stmt, &[Value::Integer(18)]).unwrap();
    assert_eq!(rows.len(), 1);
    assert!(rows[0].contains(&"Alice".to_string()));
}

#[test]
fn test_prepared_update_and_delete_with_placeholders() {
    let executor = Engine::new(users_catalog());
    seed_users(&executor);

    let update_stmt = executor.prepare("UPDATE users SET age = ? WHERE name = ?").unwrap();
    executor
        .execute_prepared(&update_stmt, &[Value::Integer(31), Value::String("Alice".to_string())])
        .unwrap();
    let rows = executor.execute_sql("SELECT * FROM users").unwrap();
    let alice = rows.iter().find(|r| r.contains(&"Alice".to_string())).unwrap();
    assert!(alice.contains(&"31".to_string()));

    let delete_stmt = executor.prepare("DELETE FROM users WHERE name = ?").unwrap();
    let affected = executor.execute_prepared(&delete_stmt, &[Value::String("Bob".to_string())]).unwrap();
    assert_eq!(affected, vec![vec!["1".to_string()]]);
    let rows = executor.execute_sql("SELECT * FROM users").unwrap();
    assert_eq!(rows.len(), 1);
}

#[test]
fn test_prepared_statement_wrong_param_count_errors() {
    let executor = Engine::new(users_catalog());
    let stmt = executor.prepare("SELECT * FROM users WHERE age > ?").unwrap();
    assert!(executor.execute_prepared(&stmt, &[]).is_err());
}

#[test]
fn test_prepare_rejects_mixed_placeholder_styles() {
    let executor = Engine::new(users_catalog());
    assert!(executor.prepare("SELECT * FROM users WHERE age > ? AND name = $1").is_err());
}

#[test]
fn test_prepare_create_table_is_rejected() {
    let executor = Engine::new(Catalog::new());
    assert!(executor.prepare("CREATE TABLE t (id INT PRIMARY KEY)").is_err());
}

#[test]
fn test_update_with_where_changes_matching_rows_only() {
    let executor = Engine::new(users_catalog());
    seed_users(&executor);

    let result = executor
        .execute_sql("UPDATE users SET age = 31 WHERE name = 'Alice'")
        .unwrap();
    assert_eq!(result, vec![vec!["1".to_string()]]);

    let rows = executor.execute_sql("SELECT * FROM users").unwrap();
    let alice = rows.iter().find(|r| r.contains(&"Alice".to_string())).unwrap();
    assert!(alice.contains(&"31".to_string()));
    let bob = rows.iter().find(|r| r.contains(&"Bob".to_string())).unwrap();
    assert!(bob.contains(&"15".to_string()));
}

#[test]
fn test_update_without_where_changes_all_rows() {
    let executor = Engine::new(users_catalog());
    seed_users(&executor);

    let result = executor.execute_sql("UPDATE users SET age = 0").unwrap();
    assert_eq!(result, vec![vec!["2".to_string()]]);

    let rows = executor.execute_sql("SELECT * FROM users").unwrap();
    assert!(rows.iter().all(|r| r.contains(&"0".to_string())));
}

#[test]
fn test_update_primary_key_column_is_rejected() {
    let executor = Engine::new(users_catalog());
    seed_users(&executor);
    assert!(executor.execute_sql("UPDATE users SET id = 99 WHERE id = 1").is_err());
}

#[test]
fn test_update_set_with_unsupported_function_call_errors_instead_of_writing_null() {
    let executor = Engine::new(users_catalog());
    seed_users(&executor);
    let err = executor.execute_sql("UPDATE users SET age = ABS(age) WHERE name = 'Alice'").unwrap_err();
    assert!(err.message().contains("Unsupported SET expression"));

    let rows = executor.execute_sql("SELECT * FROM users").unwrap();
    let alice = rows.iter().find(|r| r.contains(&"Alice".to_string())).unwrap();
    assert!(alice.contains(&"30".to_string()), "Alice's age must be untouched, not silently NULLed");
}

#[test]
fn test_update_set_string_column_with_unsupported_function_call_errors_instead_of_writing_garbage() {
    let executor = Engine::new(users_catalog());
    seed_users(&executor);
    let err = executor.execute_sql("UPDATE users SET name = UPPER(name) WHERE name = 'Alice'").unwrap_err();
    assert!(err.message().contains("Unsupported SET expression"));

    let rows = executor.execute_sql("SELECT * FROM users").unwrap();
    assert!(
        rows.iter().any(|r| r.contains(&"Alice".to_string())),
        "Alice's name must be untouched, not overwritten with the unparsed expression text"
    );
}

#[test]
fn test_update_arithmetic_expression_increments_column() {
    let executor = Engine::new(users_catalog());
    seed_users(&executor);

    let result = executor.execute_sql("UPDATE users SET age = age + 1 WHERE name = 'Alice'").unwrap();
    assert_eq!(result, vec![vec!["1".to_string()]]);

    let rows = executor.execute_sql("SELECT * FROM users").unwrap();
    let alice = rows.iter().find(|r| r.contains(&"Alice".to_string())).unwrap();
    assert!(alice.contains(&"31".to_string()));
    let bob = rows.iter().find(|r| r.contains(&"Bob".to_string())).unwrap();
    assert!(bob.contains(&"15".to_string()));
}

#[test]
fn test_update_arithmetic_expression_without_where_updates_every_row() {
    let executor = Engine::new(users_catalog());
    seed_users(&executor);

    executor.execute_sql("UPDATE users SET age = age - 5").unwrap();

    let rows = executor.execute_sql("SELECT * FROM users").unwrap();
    let alice = rows.iter().find(|r| r.contains(&"Alice".to_string())).unwrap();
    assert!(alice.contains(&"25".to_string()));
    let bob = rows.iter().find(|r| r.contains(&"Bob".to_string())).unwrap();
    assert!(bob.contains(&"10".to_string()));
}

#[test]
fn test_update_multiple_assignments_use_pre_statement_snapshot() {
    let executor = Engine::new(Catalog::new());
    executor.execute_sql("CREATE TABLE pair (id INT PRIMARY KEY, a INT, b INT)").unwrap();
    executor.execute_sql("INSERT INTO pair (id, a, b) VALUES (1, 10, 20)").unwrap();

    executor.execute_sql("UPDATE pair SET a = b, b = a WHERE id = 1").unwrap();

    let rows = executor.execute_sql("SELECT * FROM pair").unwrap();
    assert_eq!(rows, vec![vec!["1".to_string(), "20".to_string(), "10".to_string()]]);
}

#[test]
fn test_delete_with_where_removes_matching_rows_only() {
    let executor = Engine::new(users_catalog());
    seed_users(&executor);

    let result = executor
        .execute_sql("DELETE FROM users WHERE age < 18")
        .unwrap();
    assert_eq!(result, vec![vec!["1".to_string()]]);

    let rows = executor.execute_sql("SELECT * FROM users").unwrap();
    assert_eq!(rows.len(), 1);
    assert!(rows[0].contains(&"Alice".to_string()));
}

#[test]
fn test_delete_without_where_removes_all_rows() {
    let executor = Engine::new(users_catalog());
    seed_users(&executor);

    let result = executor.execute_sql("DELETE FROM users").unwrap();
    assert_eq!(result, vec![vec!["2".to_string()]]);

    let rows = executor.execute_sql("SELECT * FROM users").unwrap();
    assert!(rows.is_empty());
}

#[test]
fn test_update_by_primary_key_equality_uses_the_fast_path_correctly() {
    let executor = Engine::new(users_catalog());
    seed_users(&executor);

    let result = executor.execute_sql("UPDATE users SET age = 99 WHERE id = 1").unwrap();
    assert_eq!(result, vec![vec!["1".to_string()]]);

    let rows = executor.execute_sql("SELECT * FROM users").unwrap();
    let alice = rows.iter().find(|r| r.contains(&"Alice".to_string())).unwrap();
    assert!(alice.contains(&"99".to_string()));
    let bob = rows.iter().find(|r| r.contains(&"Bob".to_string())).unwrap();
    assert!(bob.contains(&"15".to_string()));
}

#[test]
fn test_update_by_primary_key_equality_on_nonexistent_id_affects_nothing() {
    let executor = Engine::new(users_catalog());
    seed_users(&executor);

    let result = executor.execute_sql("UPDATE users SET age = 99 WHERE id = 999").unwrap();
    assert_eq!(result, vec![vec!["0".to_string()]]);
}

#[test]
fn test_delete_by_primary_key_equality_uses_the_fast_path_correctly() {
    let executor = Engine::new(users_catalog());
    seed_users(&executor);

    let result = executor.execute_sql("DELETE FROM users WHERE id = 1").unwrap();
    assert_eq!(result, vec![vec!["1".to_string()]]);

    let rows = executor.execute_sql("SELECT * FROM users").unwrap();
    assert_eq!(rows.len(), 1);
    assert!(rows[0].contains(&"Bob".to_string()));
}

#[test]
fn test_delete_by_primary_key_equality_on_nonexistent_id_affects_nothing() {
    let executor = Engine::new(users_catalog());
    seed_users(&executor);

    let result = executor.execute_sql("DELETE FROM users WHERE id = 999").unwrap();
    assert_eq!(result, vec![vec!["0".to_string()]]);
    assert_eq!(executor.execute_sql("SELECT * FROM users").unwrap().len(), 2);
}

#[test]
fn test_update_by_primary_key_is_not_a_full_table_scan() {
    let executor = Engine::new(users_catalog());
    let insert_stmt = executor.prepare("INSERT INTO users (id, name, age) VALUES (?, ?, ?)").unwrap();
    let n = 3000;
    for id in 0..n {
        executor
            .execute_prepared(&insert_stmt, &[Value::Integer(id), Value::String(format!("user{id}")), Value::Integer(20)])
            .unwrap();
    }

    let update_stmt = executor.prepare("UPDATE users SET age = ? WHERE id = ?").unwrap();
    let start = std::time::Instant::now();
    for id in 0..n {
        executor.execute_prepared(&update_stmt, &[Value::Integer(21), Value::Integer(id)]).unwrap();
    }
    let elapsed = start.elapsed();
    assert!(
        elapsed.as_secs_f64() < 2.0,
        "{n} single-row UPDATEs by primary key took {elapsed:.2?} -- looks like the full-scan path again, not the point-read fast path"
    );
}

#[test]
fn test_select_with_like_where_errors_instead_of_returning_everything() {
    let executor = Engine::new(users_catalog());
    seed_users(&executor);
    let err = executor.execute_sql("SELECT * FROM users WHERE name LIKE 'A%'").unwrap_err();
    assert!(err.message().contains("Unsupported WHERE clause"));
}

#[test]
fn test_select_with_in_where_errors_instead_of_returning_everything() {
    let executor = Engine::new(users_catalog());
    seed_users(&executor);
    let err = executor.execute_sql("SELECT * FROM users WHERE id IN (1)").unwrap_err();
    assert!(err.message().contains("Unsupported WHERE clause"));
}

#[test]
fn test_select_with_between_where_errors_instead_of_returning_everything() {
    let executor = Engine::new(users_catalog());
    seed_users(&executor);
    let err = executor.execute_sql("SELECT * FROM users WHERE age BETWEEN 20 AND 40").unwrap_err();
    assert!(err.message().contains("Unsupported WHERE clause"));
}

#[test]
fn test_delete_with_like_where_errors_instead_of_deleting_everything() {
    let executor = Engine::new(users_catalog());
    seed_users(&executor);
    let err = executor.execute_sql("DELETE FROM users WHERE name LIKE 'A%'").unwrap_err();
    assert!(err.message().contains("Unsupported WHERE clause"));
    let rows = executor.execute_sql("SELECT * FROM users").unwrap();
    assert_eq!(rows.len(), 2, "DELETE must not have removed anything after erroring on the WHERE clause");
}

#[test]
fn test_update_with_like_where_errors_instead_of_updating_everything() {
    let executor = Engine::new(users_catalog());
    seed_users(&executor);
    let err = executor.execute_sql("UPDATE users SET age = 0 WHERE name LIKE 'A%'").unwrap_err();
    assert!(err.message().contains("Unsupported WHERE clause"));

    let rows = executor.execute_sql("SELECT * FROM users").unwrap();
    assert!(rows.iter().any(|r| r.contains(&"30".to_string())), "Alice's age must be untouched");
    assert!(rows.iter().any(|r| r.contains(&"15".to_string())), "Bob's age must be untouched");
}

#[test]
fn test_having_with_like_errors_instead_of_keeping_every_group() {
    let executor = Engine::new(users_and_orders_catalog());
    seed_orders(&executor);
    let err = executor
        .execute_sql("SELECT user_id, COUNT(*) FROM orders GROUP BY user_id HAVING user_id LIKE '1'")
        .unwrap_err();
    assert!(err.message().contains("Unsupported HAVING clause"));
}

#[test]
fn test_join_with_like_condition_errors_instead_of_running_as_cross_join() {
    let executor = Engine::new(Catalog::new());
    executor.execute_sql("CREATE TABLE a (id INT PRIMARY KEY, tag TEXT)").unwrap();
    executor.execute_sql("CREATE TABLE b (id INT PRIMARY KEY, tag TEXT)").unwrap();
    executor.execute_sql("INSERT INTO a (id, tag) VALUES (1, 'x')").unwrap();
    executor.execute_sql("INSERT INTO b (id, tag) VALUES (1, 'x')").unwrap();

    let err = executor.execute_sql("SELECT * FROM a JOIN b ON a.tag LIKE b.tag").unwrap_err();
    assert!(err.message().contains("Unsupported JOIN condition"));
}

#[test]
fn test_select_with_no_where_clause_still_returns_every_row() {
    let executor = Engine::new(users_catalog());
    seed_users(&executor);
    let rows = executor.execute_sql("SELECT * FROM users").unwrap();
    assert_eq!(rows.len(), 2);
}

#[test]
fn test_delete_with_no_where_clause_still_deletes_every_row() {
    let executor = Engine::new(users_catalog());
    seed_users(&executor);
    let result = executor.execute_sql("DELETE FROM users").unwrap();
    assert_eq!(result, vec![vec!["2".to_string()]]);
}

#[test]
fn test_join_with_no_condition_still_runs_as_a_real_cross_join() {
    let executor = Engine::new(Catalog::new());
    executor.execute_sql("CREATE TABLE a (id INT PRIMARY KEY)").unwrap();
    executor.execute_sql("CREATE TABLE b (id INT PRIMARY KEY)").unwrap();
    executor.execute_sql("INSERT INTO a (id) VALUES (1)").unwrap();
    executor.execute_sql("INSERT INTO a (id) VALUES (2)").unwrap();
    executor.execute_sql("INSERT INTO b (id) VALUES (10)").unwrap();

    let rows = executor.execute_sql("SELECT * FROM a JOIN b").unwrap();
    assert_eq!(rows.len(), 2, "a genuine CROSS JOIN (no ON clause at all) must still produce the full cross product");
}

#[test]
fn test_update_unknown_table_errors() {
    let executor = Engine::new(users_catalog());
    assert!(executor.execute_sql("UPDATE ghosts SET x = 1").is_err());
}

#[test]
fn test_insert_with_unsupported_expression_value_errors_instead_of_writing_null() {
    let executor = Engine::new(Catalog::new());
    executor.execute_sql("CREATE TABLE items (id INT PRIMARY KEY, price FLOAT)").unwrap();
    let err = executor.execute_sql("INSERT INTO items (id, price) VALUES (1, ABS(-9.99))").unwrap_err();
    assert!(err.message().contains("Unsupported value expression"));

    let rows = executor.execute_sql("SELECT * FROM items").unwrap();
    assert!(rows.is_empty(), "the row must not have been inserted at all, not inserted with a NULL price");
}

#[test]
fn test_insert_with_explicit_null_value_still_works() {
    let executor = Engine::new(Catalog::new());
    executor.execute_sql("CREATE TABLE items (id INT PRIMARY KEY, price FLOAT)").unwrap();
    executor.execute_sql("INSERT INTO items (id, price) VALUES (1, NULL)").unwrap();
    let rows = executor.execute_sql("SELECT * FROM items").unwrap();
    assert_eq!(rows, vec![vec!["1".to_string(), "NULL".to_string()]]);
}

#[test]
fn test_insert_with_unquoted_text_for_string_column_errors_instead_of_storing_it() {
    let executor = Engine::new(Catalog::new());
    executor.execute_sql("CREATE TABLE items (id INT PRIMARY KEY, label VARCHAR(50))").unwrap();
    let err = executor.execute_sql("INSERT INTO items (id, label) VALUES (1, UPPER(x))").unwrap_err();
    assert!(err.message().contains("Unsupported value expression"));
}

#[test]
fn test_create_table_then_insert_and_select_end_to_end() {
    let executor = Engine::new(Catalog::new());

    executor
        .execute_sql("CREATE TABLE items (id INT PRIMARY KEY, label VARCHAR(50), price FLOAT)")
        .unwrap();

    assert!(executor.inner.borrow().catalog.get_table("items").is_some());

    executor
        .execute_sql("INSERT INTO items (id, label, price) VALUES (1, 'Widget', 9.99)")
        .unwrap();

    let rows = executor.execute_sql("SELECT * FROM items").unwrap();
    assert_eq!(rows.len(), 1);
    assert!(rows[0].contains(&"Widget".to_string()));
}

#[test]
fn test_create_table_maps_column_types() {
    let executor = Engine::new(Catalog::new());
    executor
        .execute_sql(
            "CREATE TABLE things (id INT PRIMARY KEY, active BOOLEAN, created TIMESTAMP, note TEXT)",
        )
        .unwrap();

    let inner = executor.inner.borrow();
    let schema = inner.catalog.get_table("things").unwrap();
    assert_eq!(schema.get_column("id").unwrap().data_type, DataType::Integer);
    assert_eq!(schema.get_column("active").unwrap().data_type, DataType::Boolean);
    assert_eq!(schema.get_column("created").unwrap().data_type, DataType::Timestamp);
    assert_eq!(schema.get_column("note").unwrap().data_type, DataType::String);
    assert!(schema.get_column("id").unwrap().primary_key);
    assert!(!schema.get_column("active").unwrap().primary_key);
}

#[test]
fn test_create_table_duplicate_name_errors() {
    let executor = Engine::new(users_catalog());
    assert!(executor
        .execute_sql("CREATE TABLE users (id INT PRIMARY KEY)")
        .is_err());
}

#[test]
fn test_select_count_star() {
    let executor = Engine::new(users_catalog());
    seed_users(&executor);

    let rows = executor.execute_sql("SELECT COUNT(*) FROM users").unwrap();
    assert_eq!(rows, vec![vec!["2".to_string()]]);
}

#[test]
fn test_select_aggregate_respects_where_clause() {
    let executor = Engine::new(users_catalog());
    seed_users(&executor);

    let rows = executor
        .execute_sql("SELECT COUNT(*) FROM users WHERE age > 18")
        .unwrap();
    assert_eq!(rows, vec![vec!["1".to_string()]]);
}

#[test]
fn test_select_multiple_aggregates() {
    let executor = Engine::new(users_catalog());
    seed_users(&executor);

    let rows = executor
        .execute_sql("SELECT COUNT(*), SUM(age), AVG(age), MIN(age), MAX(age) FROM users")
        .unwrap();
    assert_eq!(rows.len(), 1);
    assert_eq!(rows[0][0], "2");
    assert_eq!(rows[0][1], "45");
    assert_eq!(rows[0][3], "15");
    assert_eq!(rows[0][4], "30");
}

#[test]
fn test_select_aggregate_on_empty_table() {
    let executor = Engine::new(users_catalog());
    let rows = executor.execute_sql("SELECT COUNT(*) FROM users").unwrap();
    assert_eq!(rows, vec![vec!["0".to_string()]]);
}

#[test]
fn test_join_condition_on_nonexistent_column_errors() {
    let mut catalog = users_catalog();
    let orders_schema = TableSchema::new(2, "orders".to_string());
    catalog.register_table(orders_schema);
    let executor = Engine::new(catalog);

    assert!(executor
        .execute_sql("SELECT * FROM users JOIN orders ON users.id = orders.user_id")
        .is_err());
}

fn users_and_orders_catalog() -> Catalog {
    let mut catalog = users_catalog();
    let mut orders = TableSchema::new(2, "orders".to_string());
    orders.add_column(Column {
        id: 1,
        name: "id".to_string(),
        data_type: DataType::Integer,
        nullable: false,
        primary_key: true,
    });
    orders.add_column(Column {
        id: 2,
        name: "user_id".to_string(),
        data_type: DataType::Integer,
        nullable: false,
        primary_key: false,
    });
    orders.add_column(Column {
        id: 3,
        name: "total".to_string(),
        data_type: DataType::Float,
        nullable: false,
        primary_key: false,
    });
    catalog.register_table(orders);
    catalog
}
fn users_orders_and_payments_catalog() -> Catalog {
    let mut catalog = users_and_orders_catalog();
    let mut payments = TableSchema::new(3, "payments".to_string());
    payments.add_column(Column {
        id: 1,
        name: "id".to_string(),
        data_type: DataType::Integer,
        nullable: false,
        primary_key: true,
    });
    payments.add_column(Column {
        id: 2,
        name: "order_id".to_string(),
        data_type: DataType::Integer,
        nullable: false,
        primary_key: false,
    });
    payments.add_column(Column {
        id: 3,
        name: "method".to_string(),
        data_type: DataType::String,
        nullable: false,
        primary_key: false,
    });
    catalog.register_table(payments);
    catalog
}

#[test]
fn test_three_way_join_matches_correct_rows() {
    let executor = Engine::new(users_orders_and_payments_catalog());
    seed_users(&executor);
    executor.execute_sql("INSERT INTO orders (id, user_id, total) VALUES (100, 1, 9.5)").unwrap();
    executor.execute_sql("INSERT INTO orders (id, user_id, total) VALUES (101, 2, 4.0)").unwrap();
    executor.execute_sql("INSERT INTO payments (id, order_id, method) VALUES (1000, 100, 'card')").unwrap();
    executor.execute_sql("INSERT INTO payments (id, order_id, method) VALUES (1001, 100, 'cash')").unwrap();
    executor.execute_sql("INSERT INTO payments (id, order_id, method) VALUES (1002, 101, 'card')").unwrap();

    let rows = executor
        .execute_sql(
            "SELECT * FROM users u JOIN orders o ON u.id = o.user_id JOIN payments p ON o.id = p.order_id",
        )
        .unwrap();
    assert_eq!(rows.len(), 3);
    let alice_payments = rows.iter().filter(|r| r.contains(&"Alice".to_string())).count();
    assert_eq!(alice_payments, 2);
    let bob_payments = rows.iter().filter(|r| r.contains(&"Bob".to_string())).count();
    assert_eq!(bob_payments, 1);
}

#[test]
fn test_select_explicit_column_list_projects_only_those_columns() {
    let executor = Engine::new(users_catalog());
    seed_users(&executor);

    let rows = executor.execute_sql("SELECT name FROM users WHERE age > 18").unwrap();
    assert_eq!(rows, vec![vec!["Alice".to_string()]]);
}

#[test]
fn test_select_column_list_respects_requested_order() {
    let executor = Engine::new(users_catalog());
    seed_users(&executor);
    let rows = executor.execute_sql("SELECT age, name, id FROM users WHERE id = 1").unwrap();
    assert_eq!(rows, vec![vec!["30".to_string(), "Alice".to_string(), "1".to_string()]]);
}

#[test]
fn test_select_column_list_on_indexed_pk_lookup_still_projects() {
    let executor = Engine::new(users_catalog());
    seed_users(&executor);

    let rows = executor.execute_sql("SELECT name FROM users WHERE id = 1").unwrap();
    assert_eq!(rows, vec![vec!["Alice".to_string()]]);
}

#[test]
fn test_select_qualified_columns_after_join_projects_correctly() {
    let executor = Engine::new(users_and_orders_catalog());
    seed_users(&executor);
    executor.execute_sql("INSERT INTO orders (id, user_id, total) VALUES (100, 1, 9.5)").unwrap();

    let rows = executor
        .execute_sql("SELECT users.name, orders.total FROM users JOIN orders ON users.id = orders.user_id")
        .unwrap();
    assert_eq!(rows, vec![vec!["Alice".to_string(), "9.5".to_string()]]);
}

#[test]
fn test_order_by_sorts_ascending_by_default() {
    let executor = Engine::new(users_catalog());
    seed_users(&executor);

    let rows = executor.execute_sql("SELECT name FROM users ORDER BY age").unwrap();
    assert_eq!(rows, vec![vec!["Bob".to_string()], vec!["Alice".to_string()]]);
}

#[test]
fn test_order_by_desc_reverses_order() {
    let executor = Engine::new(users_catalog());
    seed_users(&executor);

    let rows = executor.execute_sql("SELECT name FROM users ORDER BY age DESC").unwrap();
    assert_eq!(rows, vec![vec!["Alice".to_string()], vec!["Bob".to_string()]]);
}

#[test]
fn test_order_by_column_not_in_select_list_still_works() {
    let executor = Engine::new(users_catalog());
    seed_users(&executor);

    let rows = executor.execute_sql("SELECT name FROM users ORDER BY age DESC").unwrap();
    assert_eq!(rows, vec![vec!["Alice".to_string()], vec!["Bob".to_string()]]);
}

#[test]
fn test_limit_truncates_result() {
    let executor = Engine::new(users_catalog());
    seed_users(&executor);

    let rows = executor.execute_sql("SELECT * FROM users LIMIT 1").unwrap();
    assert_eq!(rows.len(), 1);
}

#[test]
fn test_order_by_then_limit_returns_the_correct_top_n() {
    let executor = Engine::new(users_catalog());
    seed_users(&executor);
    executor.execute_sql("INSERT INTO users (id, name, age) VALUES (3, 'Carol', 45)").unwrap();

    let rows = executor.execute_sql("SELECT name FROM users ORDER BY age DESC LIMIT 2").unwrap();
    assert_eq!(rows, vec![vec!["Carol".to_string()], vec!["Alice".to_string()]]);
}

#[test]
fn test_order_by_multi_column_breaks_ties_with_second_key() {
    let executor = Engine::new(Catalog::new());
    executor.execute_sql("CREATE TABLE t (id INT PRIMARY KEY, grp INT, val INT)").unwrap();
    executor.execute_sql("INSERT INTO t (id, grp, val) VALUES (1, 1, 20)").unwrap();
    executor.execute_sql("INSERT INTO t (id, grp, val) VALUES (2, 1, 10)").unwrap();
    executor.execute_sql("INSERT INTO t (id, grp, val) VALUES (3, 2, 5)").unwrap();

    let rows = executor.execute_sql("SELECT id FROM t ORDER BY grp, val").unwrap();
    assert_eq!(rows, vec![vec!["2".to_string()], vec!["1".to_string()], vec!["3".to_string()]]);
}

#[test]
fn test_order_by_sorts_null_first() {
    let executor = Engine::new(Catalog::new());
    executor.execute_sql("CREATE TABLE t (id INT PRIMARY KEY, val INT)").unwrap();
    executor.execute_sql("INSERT INTO t (id, val) VALUES (1, 5)").unwrap();
    executor.execute_sql("INSERT INTO t (id, val) VALUES (2, NULL)").unwrap();

    let rows = executor.execute_sql("SELECT id FROM t ORDER BY val").unwrap();
    assert_eq!(rows, vec![vec!["2".to_string()], vec!["1".to_string()]]);
}

#[test]
fn test_join_with_on_condition_matches_correct_rows() {
    let executor = Engine::new(users_and_orders_catalog());
    seed_users(&executor);

    executor
        .execute_sql("INSERT INTO orders (id, user_id, total) VALUES (100, 1, 9.5)")
        .unwrap();
    executor
        .execute_sql("INSERT INTO orders (id, user_id, total) VALUES (101, 2, 4.0)")
        .unwrap();
    executor
        .execute_sql("INSERT INTO orders (id, user_id, total) VALUES (102, 1, 2.0)")
        .unwrap();

    let rows = executor
        .execute_sql("SELECT * FROM users JOIN orders ON users.id = orders.user_id")
        .unwrap();

    assert_eq!(rows.len(), 3);
    let alice_orders = rows.iter().filter(|r| r.contains(&"Alice".to_string())).count();
    assert_eq!(alice_orders, 2);
}

#[test]
fn test_join_with_where_filters_after_joining() {
    let executor = Engine::new(users_and_orders_catalog());
    seed_users(&executor);
    executor
        .execute_sql("INSERT INTO orders (id, user_id, total) VALUES (100, 1, 9.5)")
        .unwrap();
    executor
        .execute_sql("INSERT INTO orders (id, user_id, total) VALUES (101, 2, 4.0)")
        .unwrap();

    let rows = executor
        .execute_sql(
            "SELECT * FROM users JOIN orders ON users.id = orders.user_id WHERE users.age > 18",
        )
        .unwrap();

    assert_eq!(rows.len(), 1);
    assert!(rows[0].contains(&"Alice".to_string()));
}

#[test]
fn test_join_with_no_matches_returns_empty() {
    let executor = Engine::new(users_and_orders_catalog());
    seed_users(&executor);

    let rows = executor
        .execute_sql("SELECT * FROM users JOIN orders ON users.id = orders.user_id")
        .unwrap();
    assert!(rows.is_empty());
}

#[test]
fn test_left_join_hash_path_keeps_unmatched_left_row_with_nulls() {
    let executor = Engine::new(Catalog::new());
    executor.execute_sql("CREATE TABLE a (id INT PRIMARY KEY, tag INT)").unwrap();
    executor.execute_sql("CREATE TABLE b (id INT PRIMARY KEY, tag INT)").unwrap();
    executor.execute_sql("INSERT INTO a (id, tag) VALUES (1, 1)").unwrap();
    executor.execute_sql("INSERT INTO a (id, tag) VALUES (2, 99)").unwrap();
    executor.execute_sql("INSERT INTO b (id, tag) VALUES (10, 1)").unwrap();

    let rows = executor.execute_sql("SELECT * FROM a LEFT JOIN b ON a.tag = b.tag").unwrap();
    assert_eq!(rows.len(), 2);
    let matched = rows.iter().find(|r| r[0] == "1").unwrap();
    assert_eq!(matched, &vec!["1".to_string(), "1".to_string(), "10".to_string(), "1".to_string()]);
    let unmatched = rows.iter().find(|r| r[0] == "2").unwrap();
    assert_eq!(unmatched, &vec!["2".to_string(), "99".to_string(), "NULL".to_string(), "NULL".to_string()]);
}

#[test]
fn test_right_join_hash_path_keeps_unmatched_right_row_with_nulls() {
    let executor = Engine::new(Catalog::new());
    executor.execute_sql("CREATE TABLE a (id INT PRIMARY KEY, tag INT)").unwrap();
    executor.execute_sql("CREATE TABLE b (id INT PRIMARY KEY, tag INT)").unwrap();
    executor.execute_sql("INSERT INTO a (id, tag) VALUES (1, 1)").unwrap();
    executor.execute_sql("INSERT INTO b (id, tag) VALUES (10, 1)").unwrap();
    executor.execute_sql("INSERT INTO b (id, tag) VALUES (20, 99)").unwrap();

    let rows = executor.execute_sql("SELECT * FROM a RIGHT JOIN b ON a.tag = b.tag").unwrap();
    assert_eq!(rows.len(), 2);
    let matched = rows.iter().find(|r| r[2] == "10").unwrap();
    assert_eq!(matched, &vec!["1".to_string(), "1".to_string(), "10".to_string(), "1".to_string()]);
    let unmatched = rows.iter().find(|r| r[2] == "20").unwrap();
    assert_eq!(unmatched, &vec!["NULL".to_string(), "NULL".to_string(), "20".to_string(), "99".to_string()]);
}

#[test]
fn test_full_outer_join_keeps_unmatched_rows_on_both_sides() {
    let executor = Engine::new(Catalog::new());
    executor.execute_sql("CREATE TABLE a (id INT PRIMARY KEY, tag INT)").unwrap();
    executor.execute_sql("CREATE TABLE b (id INT PRIMARY KEY, tag INT)").unwrap();
    executor.execute_sql("INSERT INTO a (id, tag) VALUES (1, 1)").unwrap();
    executor.execute_sql("INSERT INTO a (id, tag) VALUES (2, 99)").unwrap();
    executor.execute_sql("INSERT INTO b (id, tag) VALUES (10, 1)").unwrap();
    executor.execute_sql("INSERT INTO b (id, tag) VALUES (20, 88)").unwrap();

    let rows = executor.execute_sql("SELECT * FROM a FULL OUTER JOIN b ON a.tag = b.tag").unwrap();
    assert_eq!(rows.len(), 3);
    assert!(rows.iter().any(|r| r == &vec!["1".to_string(), "1".to_string(), "10".to_string(), "1".to_string()]));
    assert!(rows.iter().any(|r| r == &vec!["2".to_string(), "99".to_string(), "NULL".to_string(), "NULL".to_string()]));
    assert!(rows.iter().any(|r| r == &vec!["NULL".to_string(), "NULL".to_string(), "20".to_string(), "88".to_string()]));
}

#[test]
fn test_left_join_nested_loop_path_keeps_unmatched_left_row_with_nulls() {
    let executor = Engine::new(Catalog::new());
    executor.execute_sql("CREATE TABLE a (id INT PRIMARY KEY, val INT)").unwrap();
    executor.execute_sql("CREATE TABLE b (id INT PRIMARY KEY, val INT)").unwrap();
    executor.execute_sql("INSERT INTO a (id, val) VALUES (1, 1)").unwrap();
    executor.execute_sql("INSERT INTO a (id, val) VALUES (2, 100)").unwrap();
    executor.execute_sql("INSERT INTO b (id, val) VALUES (10, 5)").unwrap();

    let rows = executor.execute_sql("SELECT * FROM a LEFT JOIN b ON a.val < b.val").unwrap();
    assert_eq!(rows.len(), 2);
    let matched = rows.iter().find(|r| r[0] == "1").unwrap();
    assert_eq!(matched, &vec!["1".to_string(), "1".to_string(), "10".to_string(), "5".to_string()]);
    let unmatched = rows.iter().find(|r| r[0] == "2").unwrap();
    assert_eq!(unmatched, &vec!["2".to_string(), "100".to_string(), "NULL".to_string(), "NULL".to_string()]);
}

#[test]
fn test_inner_join_default_still_drops_unmatched_rows() {
    let executor = Engine::new(Catalog::new());
    executor.execute_sql("CREATE TABLE a (id INT PRIMARY KEY, tag INT)").unwrap();
    executor.execute_sql("CREATE TABLE b (id INT PRIMARY KEY, tag INT)").unwrap();
    executor.execute_sql("INSERT INTO a (id, tag) VALUES (1, 1)").unwrap();
    executor.execute_sql("INSERT INTO a (id, tag) VALUES (2, 99)").unwrap();
    executor.execute_sql("INSERT INTO b (id, tag) VALUES (10, 1)").unwrap();

    let rows = executor.execute_sql("SELECT * FROM a JOIN b ON a.tag = b.tag").unwrap();
    assert_eq!(rows.len(), 1);
    assert!(!rows.iter().any(|r| r.contains(&"NULL".to_string())));
}

#[test]
fn test_using_join_matches_correctly_not_a_cross_product() {
    let executor = Engine::new(Catalog::new());
    executor.execute_sql("CREATE TABLE a (id INT PRIMARY KEY, val INT)").unwrap();
    executor.execute_sql("CREATE TABLE b (id INT PRIMARY KEY, val INT)").unwrap();
    executor.execute_sql("INSERT INTO a (id, val) VALUES (1, 10)").unwrap();
    executor.execute_sql("INSERT INTO a (id, val) VALUES (2, 20)").unwrap();
    executor.execute_sql("INSERT INTO b (id, val) VALUES (1, 100)").unwrap();
    executor.execute_sql("INSERT INTO b (id, val) VALUES (2, 200)").unwrap();
    executor.execute_sql("INSERT INTO b (id, val) VALUES (3, 300)").unwrap();

    let rows = executor.execute_sql("SELECT * FROM a JOIN b USING (id)").unwrap();
    assert_eq!(rows.len(), 2);
    assert!(rows.iter().any(|r| r == &vec!["1".to_string(), "10".to_string(), "1".to_string(), "100".to_string()]));
    assert!(rows.iter().any(|r| r == &vec!["2".to_string(), "20".to_string(), "2".to_string(), "200".to_string()]));
}

#[test]
fn test_natural_join_matches_on_shared_column() {
    let executor = Engine::new(Catalog::new());
    executor.execute_sql("CREATE TABLE a (id INT PRIMARY KEY, a_only INT)").unwrap();
    executor.execute_sql("CREATE TABLE b (id INT PRIMARY KEY, b_only INT)").unwrap();
    executor.execute_sql("INSERT INTO a (id, a_only) VALUES (1, 10)").unwrap();
    executor.execute_sql("INSERT INTO a (id, a_only) VALUES (2, 20)").unwrap();
    executor.execute_sql("INSERT INTO b (id, b_only) VALUES (1, 100)").unwrap();
    executor.execute_sql("INSERT INTO b (id, b_only) VALUES (3, 300)").unwrap();

    let rows = executor.execute_sql("SELECT * FROM a NATURAL JOIN b").unwrap();
    assert_eq!(rows.len(), 1);
    assert_eq!(rows[0], vec!["1".to_string(), "10".to_string(), "1".to_string(), "100".to_string()]);
}

#[test]
fn test_natural_join_with_no_shared_columns_is_a_real_cross_join() {
    let executor = Engine::new(Catalog::new());
    executor.execute_sql("CREATE TABLE a (a_id INT PRIMARY KEY)").unwrap();
    executor.execute_sql("CREATE TABLE b (b_id INT PRIMARY KEY)").unwrap();
    executor.execute_sql("INSERT INTO a (a_id) VALUES (1)").unwrap();
    executor.execute_sql("INSERT INTO a (a_id) VALUES (2)").unwrap();
    executor.execute_sql("INSERT INTO b (b_id) VALUES (10)").unwrap();

    let rows = executor.execute_sql("SELECT * FROM a NATURAL JOIN b").unwrap();
    assert_eq!(rows.len(), 2);
}

#[test]
fn test_using_join_with_multiple_columns_errors_loudly() {
    let executor = Engine::new(Catalog::new());
    executor.execute_sql("CREATE TABLE a (id INT PRIMARY KEY, tag INT)").unwrap();
    executor.execute_sql("CREATE TABLE b (id INT PRIMARY KEY, tag INT)").unwrap();
    let err = executor.execute_sql("SELECT * FROM a JOIN b USING (id, tag)").unwrap_err();
    assert!(err.message().contains("more than one column"));
}

#[test]
fn test_natural_join_with_multiple_shared_columns_errors_loudly() {
    let executor = Engine::new(Catalog::new());
    executor.execute_sql("CREATE TABLE a (id INT PRIMARY KEY, tag INT)").unwrap();
    executor.execute_sql("CREATE TABLE b (id INT PRIMARY KEY, tag INT)").unwrap();
    let err = executor.execute_sql("SELECT * FROM a NATURAL JOIN b").unwrap_err();
    assert!(err.message().contains("more than one shared column"));
}

#[test]
fn test_using_join_as_second_join_in_chain_matches_qualified_left_column() {
    let executor = Engine::new(Catalog::new());
    executor.execute_sql("CREATE TABLE a (id INT PRIMARY KEY, val INT)").unwrap();
    executor.execute_sql("CREATE TABLE b (id INT PRIMARY KEY, val INT)").unwrap();
    executor.execute_sql("CREATE TABLE c (id INT PRIMARY KEY, val INT)").unwrap();
    executor.execute_sql("INSERT INTO a (id, val) VALUES (1, 10)").unwrap();
    executor.execute_sql("INSERT INTO b (id, val) VALUES (1, 100)").unwrap();
    executor.execute_sql("INSERT INTO c (id, val) VALUES (1, 1000)").unwrap();
    executor.execute_sql("INSERT INTO c (id, val) VALUES (2, 2000)").unwrap();

    let rows = executor.execute_sql("SELECT * FROM a JOIN b ON a.id = b.id JOIN c USING (id)").unwrap();
    assert_eq!(rows.len(), 1);
    assert_eq!(
        rows[0],
        vec!["1".to_string(), "10".to_string(), "1".to_string(), "100".to_string(), "1".to_string(), "1000".to_string()]
    );
}

#[test]
fn test_where_excludes_null_comparisons_instead_of_including_them() {
    let executor = Engine::new(Catalog::new());
    executor.execute_sql("CREATE TABLE t (id INT PRIMARY KEY, fk INT)").unwrap();
    executor.execute_sql("INSERT INTO t (id, fk) VALUES (1, NULL)").unwrap();
    executor.execute_sql("INSERT INTO t (id, fk) VALUES (2, 5)").unwrap();

    let rows = executor.execute_sql("SELECT * FROM t WHERE fk > 100").unwrap();
    assert!(rows.is_empty());
}

#[test]
fn test_nested_loop_join_null_key_matches_nothing_not_everything() {
    let executor = Engine::new(Catalog::new());
    executor.execute_sql("CREATE TABLE a (id INT PRIMARY KEY, fk INT)").unwrap();
    executor.execute_sql("CREATE TABLE c (id INT PRIMARY KEY, fk INT)").unwrap();
    executor.execute_sql("INSERT INTO a (id, fk) VALUES (1, NULL)").unwrap();
    executor.execute_sql("INSERT INTO c (id, fk) VALUES (50, 5)").unwrap();
    executor.execute_sql("INSERT INTO c (id, fk) VALUES (51, 999)").unwrap();

    let rows = executor.execute_sql("SELECT * FROM a JOIN c ON a.fk < c.fk").unwrap();
    assert!(rows.is_empty());
}

#[test]
fn test_hash_join_null_key_never_matches_another_null() {
    let executor = Engine::new(Catalog::new());
    executor.execute_sql("CREATE TABLE a (id INT PRIMARY KEY, fk INT)").unwrap();
    executor.execute_sql("CREATE TABLE b (id INT PRIMARY KEY, fk INT)").unwrap();
    executor.execute_sql("INSERT INTO a (id, fk) VALUES (1, NULL)").unwrap();
    executor.execute_sql("INSERT INTO b (id, fk) VALUES (10, NULL)").unwrap();

    let rows = executor.execute_sql("SELECT * FROM a JOIN b ON a.fk = b.fk").unwrap();
    assert!(rows.is_empty());
}

#[test]
fn test_left_join_null_padded_row_correctly_stays_unmatched_in_a_later_join() {
    let executor = Engine::new(Catalog::new());
    executor.execute_sql("CREATE TABLE a (id INT PRIMARY KEY, fk INT)").unwrap();
    executor.execute_sql("CREATE TABLE b (id INT PRIMARY KEY, a_id INT)").unwrap();
    executor.execute_sql("CREATE TABLE c (id INT PRIMARY KEY, fk INT)").unwrap();
    executor.execute_sql("INSERT INTO a (id, fk) VALUES (1, 100)").unwrap();
    executor.execute_sql("INSERT INTO a (id, fk) VALUES (2, 200)").unwrap();
    executor.execute_sql("INSERT INTO c (id, fk) VALUES (50, NULL)").unwrap();

    let rows = executor
        .execute_sql("SELECT * FROM a LEFT JOIN b ON a.id = b.a_id JOIN c ON b.a_id = c.fk")
        .unwrap();
    assert!(rows.is_empty());
}

#[test]
fn test_hash_join_many_to_many_matching() {
    let executor = Engine::new(Catalog::new());
    executor.execute_sql("CREATE TABLE a (id INT PRIMARY KEY, tag INT)").unwrap();
    executor.execute_sql("CREATE TABLE b (id INT PRIMARY KEY, tag INT)").unwrap();
    executor.execute_sql("INSERT INTO a (id, tag) VALUES (1, 1)").unwrap();
    executor.execute_sql("INSERT INTO a (id, tag) VALUES (2, 1)").unwrap();
    executor.execute_sql("INSERT INTO b (id, tag) VALUES (10, 1)").unwrap();
    executor.execute_sql("INSERT INTO b (id, tag) VALUES (20, 1)").unwrap();

    let rows = executor.execute_sql("SELECT * FROM a JOIN b ON a.tag = b.tag").unwrap();
    assert_eq!(rows.len(), 4);
}

#[test]
fn test_hash_join_picks_smaller_side_either_direction() {
    let executor = Engine::new(Catalog::new());
    executor.execute_sql("CREATE TABLE small (id INT PRIMARY KEY, tag INT)").unwrap();
    executor.execute_sql("CREATE TABLE big (id INT PRIMARY KEY, tag INT)").unwrap();
    executor.execute_sql("INSERT INTO small (id, tag) VALUES (99, 5)").unwrap();
    executor.execute_sql("INSERT INTO big (id, tag) VALUES (7, 5)").unwrap();
    for i in 1..=4 {
        executor.execute_sql(&format!("INSERT INTO big (id, tag) VALUES ({}, 0)", i + 10)).unwrap();
    }
    let rows = executor.execute_sql("SELECT * FROM small JOIN big ON small.tag = big.tag").unwrap();
    assert_eq!(rows.len(), 1);
    assert_eq!(rows[0], vec!["99".to_string(), "5".to_string(), "7".to_string(), "5".to_string()]);
    let rows = executor.execute_sql("SELECT * FROM big JOIN small ON big.tag = small.tag").unwrap();
    assert_eq!(rows.len(), 1);
    assert_eq!(rows[0], vec!["7".to_string(), "5".to_string(), "99".to_string(), "5".to_string()]);
}

#[test]
fn test_join_non_equality_condition_still_uses_nested_loop() {
    let executor = Engine::new(Catalog::new());
    executor.execute_sql("CREATE TABLE a (id INT PRIMARY KEY, val INT)").unwrap();
    executor.execute_sql("CREATE TABLE b (id INT PRIMARY KEY, val INT)").unwrap();
    executor.execute_sql("INSERT INTO a (id, val) VALUES (1, 10)").unwrap();
    executor.execute_sql("INSERT INTO b (id, val) VALUES (1, 3)").unwrap();
    executor.execute_sql("INSERT INTO b (id, val) VALUES (2, 20)").unwrap();

    let rows = executor.execute_sql("SELECT * FROM a JOIN b ON a.val > b.val").unwrap();
    assert_eq!(rows.len(), 1);
    assert!(rows[0].contains(&"3".to_string()));
}

#[test]
fn test_join_with_aliases_on_both_tables() {
    let executor = Engine::new(users_and_orders_catalog());
    seed_users(&executor);
    executor
        .execute_sql("INSERT INTO orders (id, user_id, total) VALUES (100, 1, 9.5)")
        .unwrap();
    executor
        .execute_sql("INSERT INTO orders (id, user_id, total) VALUES (101, 2, 4.0)")
        .unwrap();
    executor
        .execute_sql("INSERT INTO orders (id, user_id, total) VALUES (102, 1, 2.0)")
        .unwrap();

    let rows = executor
        .execute_sql("SELECT * FROM users u JOIN orders o ON u.id = o.user_id")
        .unwrap();

    assert_eq!(rows.len(), 3);
    let alice_orders = rows.iter().filter(|r| r.contains(&"Alice".to_string())).count();
    assert_eq!(alice_orders, 2);
}

#[test]
fn test_join_with_alias_only_on_joined_table() {
    let executor = Engine::new(users_and_orders_catalog());
    seed_users(&executor);
    executor
        .execute_sql("INSERT INTO orders (id, user_id, total) VALUES (100, 1, 9.5)")
        .unwrap();
    let rows = executor
        .execute_sql("SELECT * FROM users JOIN orders o ON users.id = o.user_id")
        .unwrap();
    assert_eq!(rows.len(), 1);
    assert!(rows[0].contains(&"Alice".to_string()));
}

#[test]
fn test_join_with_alias_and_where_on_aliased_column() {
    let executor = Engine::new(users_and_orders_catalog());
    seed_users(&executor);
    executor
        .execute_sql("INSERT INTO orders (id, user_id, total) VALUES (100, 1, 9.5)")
        .unwrap();
    executor
        .execute_sql("INSERT INTO orders (id, user_id, total) VALUES (101, 2, 4.0)")
        .unwrap();

    let rows = executor
        .execute_sql("SELECT * FROM users u JOIN orders o ON u.id = o.user_id WHERE u.age > 18")
        .unwrap();

    assert_eq!(rows.len(), 1);
    assert!(rows[0].contains(&"Alice".to_string()));
}

#[test]
fn test_data_survives_restart() {
    let wal_path = Log::default();

    {
        let executor = Engine::open(&wal_path).unwrap();
        executor
            .execute_sql("CREATE TABLE users (id INT PRIMARY KEY, name VARCHAR(50), age INT)")
            .unwrap();
        executor
            .execute_sql("INSERT INTO users (id, name, age) VALUES (1, 'Alice', 30)")
            .unwrap();
        executor
            .execute_sql("INSERT INTO users (id, name, age) VALUES (2, 'Bob', 15)")
            .unwrap();
    }

    let reopened = Engine::open(&wal_path).unwrap();
    let rows = reopened.execute_sql("SELECT * FROM users").unwrap();
    assert_eq!(rows.len(), 2);
    reopened
        .execute_sql("INSERT INTO users (id, name, age) VALUES (3, 'Carol', 40)")
        .unwrap();
    let rows = reopened.execute_sql("SELECT * FROM users").unwrap();
    assert_eq!(rows.len(), 3);
}

#[test]
fn test_updates_and_deletes_survive_restart() {
    let wal_path = Log::default();

    {
        let executor = Engine::open(&wal_path).unwrap();
        executor
            .execute_sql("CREATE TABLE users (id INT PRIMARY KEY, name VARCHAR(50), age INT)")
            .unwrap();
        executor
            .execute_sql("INSERT INTO users (id, name, age) VALUES (1, 'Alice', 30)")
            .unwrap();
        executor
            .execute_sql("INSERT INTO users (id, name, age) VALUES (2, 'Bob', 15)")
            .unwrap();
        executor
            .execute_sql("UPDATE users SET age = 31 WHERE id = 1")
            .unwrap();
        executor.execute_sql("DELETE FROM users WHERE id = 2").unwrap();
    }

    let reopened = Engine::open(&wal_path).unwrap();
    let rows = reopened.execute_sql("SELECT * FROM users").unwrap();
    assert_eq!(rows.len(), 1);
    assert!(rows[0].contains(&"31".to_string()));
}

#[test]
fn test_in_memory_executor_has_no_wal_file() {
    let executor = Engine::new(users_catalog());
    assert!(executor.execute_sql("SELECT * FROM users").is_ok());
}

#[test]
fn test_indexed_point_lookup_on_primary_key() {
    let executor = Engine::new(users_catalog());
    seed_users(&executor);

    let rows = executor.execute_sql("SELECT * FROM users WHERE id = 1").unwrap();
    assert_eq!(rows.len(), 1);
    assert!(rows[0].contains(&"Alice".to_string()));
    let rows = executor.execute_sql("SELECT * FROM users WHERE id = 999").unwrap();
    assert!(rows.is_empty());
}

#[test]
fn test_indexed_range_lookup_on_primary_key() {
    let executor = Engine::new(users_catalog());
    executor
        .execute_sql("INSERT INTO users (id, name, age) VALUES (1, 'A', 10)")
        .unwrap();
    executor
        .execute_sql("INSERT INTO users (id, name, age) VALUES (2, 'B', 20)")
        .unwrap();
    executor
        .execute_sql("INSERT INTO users (id, name, age) VALUES (3, 'C', 30)")
        .unwrap();

    let rows = executor.execute_sql("SELECT * FROM users WHERE id > 1").unwrap();
    assert_eq!(rows.len(), 2);
    assert!(!rows.iter().any(|r| r.contains(&"A".to_string())));

    let rows = executor.execute_sql("SELECT * FROM users WHERE id <= 2").unwrap();
    assert_eq!(rows.len(), 2);
}

#[test]
fn test_indexed_lookup_after_delete_excludes_deleted_row() {
    let executor = Engine::new(users_catalog());
    seed_users(&executor);
    executor.execute_sql("DELETE FROM users WHERE id = 1").unwrap();

    let rows = executor.execute_sql("SELECT * FROM users WHERE id = 1").unwrap();
    assert!(rows.is_empty());

    let rows = executor.execute_sql("SELECT * FROM users WHERE id >= 1").unwrap();
    assert_eq!(rows.len(), 1);
    assert!(rows[0].contains(&"Bob".to_string()));
}

#[test]
fn test_indexed_lookup_sees_update() {
    let executor = Engine::new(users_catalog());
    seed_users(&executor);
    executor
        .execute_sql("UPDATE users SET age = 99 WHERE id = 1")
        .unwrap();

    let rows = executor.execute_sql("SELECT * FROM users WHERE id = 1").unwrap();
    assert_eq!(rows.len(), 1);
    assert!(rows[0].contains(&"99".to_string()));
}

#[test]
fn test_non_primary_key_predicate_still_correct_without_index() {
    let executor = Engine::new(users_catalog());
    seed_users(&executor);

    let rows = executor
        .execute_sql("SELECT * FROM users WHERE name = 'Bob'")
        .unwrap();
    assert_eq!(rows.len(), 1);
    assert!(rows[0].contains(&"Bob".to_string()));
}

fn seed_orders(executor: &Engine) {
    executor
        .execute_sql("INSERT INTO orders (id, user_id, total) VALUES (100, 1, 10.0)")
        .unwrap();
    executor
        .execute_sql("INSERT INTO orders (id, user_id, total) VALUES (101, 1, 5.0)")
        .unwrap();
    executor
        .execute_sql("INSERT INTO orders (id, user_id, total) VALUES (102, 2, 20.0)")
        .unwrap();
}

#[test]
fn test_group_by_count() {
    let executor = Engine::new(users_and_orders_catalog());
    seed_orders(&executor);

    let rows = executor
        .execute_sql("SELECT user_id, COUNT(*) FROM orders GROUP BY user_id")
        .unwrap();
    assert_eq!(rows.len(), 2);

    let user1_row = rows.iter().find(|r| r[0] == "1").unwrap();
    assert_eq!(user1_row[1], "2");
    let user2_row = rows.iter().find(|r| r[0] == "2").unwrap();
    assert_eq!(user2_row[1], "1");
}

#[test]
fn test_limit_offset_skips_then_caps() {
    let executor = Engine::new(users_and_orders_catalog());
    seed_orders(&executor);

    let rows = executor
        .execute_sql("SELECT id FROM orders ORDER BY id LIMIT 1 OFFSET 1")
        .unwrap();
    assert_eq!(rows, vec![vec!["101".to_string()]]);
}

#[test]
fn test_offset_without_limit_skips_and_keeps_the_rest() {
    let executor = Engine::new(users_and_orders_catalog());
    seed_orders(&executor);

    let rows = executor.execute_sql("SELECT id FROM orders ORDER BY id OFFSET 1").unwrap();
    assert_eq!(rows, vec![vec!["101".to_string()], vec!["102".to_string()]]);
}

#[test]
fn test_offset_past_every_row_is_an_empty_result_not_an_error() {
    let executor = Engine::new(users_and_orders_catalog());
    seed_orders(&executor);

    let rows = executor.execute_sql("SELECT id FROM orders ORDER BY id OFFSET 100").unwrap();
    assert!(rows.is_empty());
}

#[test]
fn test_select_distinct_removes_duplicate_rows() {
    let executor = Engine::new(users_and_orders_catalog());
    seed_orders(&executor);

    let rows = executor.execute_sql("SELECT DISTINCT user_id FROM orders").unwrap();
    let mut ids: Vec<&String> = rows.iter().map(|r| &r[0]).collect();
    ids.sort();
    assert_eq!(ids, vec!["1", "2"]);
}

#[test]
fn test_select_all_does_not_deduplicate() {
    let executor = Engine::new(users_and_orders_catalog());
    seed_orders(&executor);
    let rows = executor.execute_sql("SELECT ALL user_id FROM orders").unwrap();
    assert_eq!(rows.len(), 3);
}

#[test]
fn test_select_distinct_star_dedups_on_full_row() {
    let executor = Engine::new(users_and_orders_catalog());
    seed_orders(&executor);
    let rows = executor.execute_sql("SELECT DISTINCT * FROM orders").unwrap();
    assert_eq!(rows.len(), 3);
}

#[test]
fn test_select_distinct_preserves_order_by_result() {
    let executor = Engine::new(users_and_orders_catalog());
    seed_orders(&executor);

    let rows = executor
        .execute_sql("SELECT DISTINCT user_id FROM orders ORDER BY user_id DESC")
        .unwrap();
    assert_eq!(rows, vec![vec!["2".to_string()], vec!["1".to_string()]]);
}

#[test]
fn test_having_filters_groups_by_aggregate_value() {
    let executor = Engine::new(users_and_orders_catalog());
    seed_orders(&executor);

    let rows = executor
        .execute_sql("SELECT user_id, COUNT(*) FROM orders GROUP BY user_id HAVING COUNT(*) > 1")
        .unwrap();
    assert_eq!(rows, vec![vec!["1".to_string(), "2".to_string()]]);
}

#[test]
fn test_having_can_reference_an_aggregate_not_in_the_select_list() {
    let executor = Engine::new(users_and_orders_catalog());
    seed_orders(&executor);

    let rows = executor
        .execute_sql("SELECT user_id FROM orders GROUP BY user_id HAVING SUM(total) > 15")
        .unwrap();
    assert_eq!(rows, vec![vec!["2".to_string()]]);
}

#[test]
fn test_having_can_combine_group_by_key_and_aggregate_with_and() {
    let executor = Engine::new(users_and_orders_catalog());
    seed_orders(&executor);

    let rows = executor
        .execute_sql("SELECT user_id, COUNT(*) FROM orders GROUP BY user_id HAVING user_id = 1 AND COUNT(*) > 1")
        .unwrap();
    assert_eq!(rows, vec![vec!["1".to_string(), "2".to_string()]]);
}

#[test]
fn test_having_without_group_by_or_aggregate_select_is_a_hard_error() {
    let executor = Engine::new(users_and_orders_catalog());
    seed_orders(&executor);

    let err = executor.execute_sql("SELECT * FROM orders HAVING total > 10");
    assert!(err.is_err());
}

#[test]
fn test_group_by_sum() {
    let executor = Engine::new(users_and_orders_catalog());
    seed_orders(&executor);

    let rows = executor
        .execute_sql("SELECT user_id, SUM(total) FROM orders GROUP BY user_id")
        .unwrap();
    assert_eq!(rows.len(), 2);

    let user1_row = rows.iter().find(|r| r[0] == "1").unwrap();
    assert_eq!(user1_row[1], "15");
    let user2_row = rows.iter().find(|r| r[0] == "2").unwrap();
    assert_eq!(user2_row[1], "20");
}

#[test]
fn test_group_by_respects_where_clause() {
    let executor = Engine::new(users_and_orders_catalog());
    seed_orders(&executor);

    let rows = executor
        .execute_sql("SELECT user_id, COUNT(*) FROM orders WHERE total > 8 GROUP BY user_id")
        .unwrap();
    assert_eq!(rows.len(), 2);
    assert!(rows.iter().all(|r| r[1] == "1"));
}

#[test]
fn test_group_by_on_table_with_no_rows_is_empty() {
    let executor = Engine::new(users_and_orders_catalog());
    let rows = executor
        .execute_sql("SELECT user_id, COUNT(*) FROM orders GROUP BY user_id")
        .unwrap();
    assert!(rows.is_empty());
}

#[test]
fn test_group_by_without_aggregate_acts_like_distinct() {
    let executor = Engine::new(users_and_orders_catalog());
    seed_orders(&executor);

    let rows = executor
        .execute_sql("SELECT user_id FROM orders GROUP BY user_id")
        .unwrap();
    let mut ids: Vec<&String> = rows.iter().map(|r| &r[0]).collect();
    ids.sort();
    assert_eq!(ids, vec!["1", "2"]);
}

#[test]
fn test_where_and() {
    let executor = Engine::new(users_catalog());
    seed_users(&executor);

    let rows = executor
        .execute_sql("SELECT * FROM users WHERE age > 18 AND name = 'Alice'")
        .unwrap();
    assert_eq!(rows.len(), 1);
    assert!(rows[0].contains(&"Alice".to_string()));
}

#[test]
fn test_where_or() {
    let executor = Engine::new(users_catalog());
    seed_users(&executor);

    let rows = executor
        .execute_sql("SELECT * FROM users WHERE name = 'Alice' OR name = 'Bob'")
        .unwrap();
    assert_eq!(rows.len(), 2);
}

#[test]
fn test_where_parenthesized_and_or() {
    let executor = Engine::new(users_catalog());
    seed_users(&executor);
    executor
        .execute_sql("INSERT INTO users (id, name, age) VALUES (3, 'Carol', 40)")
        .unwrap();
    let rows = executor
        .execute_sql("SELECT * FROM users WHERE age > 18 AND (name = 'Alice' OR name = 'Carol')")
        .unwrap();
    assert_eq!(rows.len(), 2);
    assert!(!rows.iter().any(|r| r.contains(&"Bob".to_string())));
}

#[test]
fn test_where_and_still_uses_index_when_predicate_matches() {
    let executor = Engine::new(users_catalog());
    seed_users(&executor);

    let rows = executor
        .execute_sql("SELECT * FROM users WHERE id = 1 AND age > 18")
        .unwrap();
    assert_eq!(rows.len(), 1);
    assert!(rows[0].contains(&"Alice".to_string()));
}

#[test]
fn test_delete_with_compound_where() {
    let executor = Engine::new(users_catalog());
    seed_users(&executor);
    executor
        .execute_sql("INSERT INTO users (id, name, age) VALUES (3, 'Carol', 40)")
        .unwrap();

    let result = executor
        .execute_sql("DELETE FROM users WHERE age > 18 AND name = 'Carol'")
        .unwrap();
    assert_eq!(result, vec![vec!["1".to_string()]]);

    let rows = executor.execute_sql("SELECT * FROM users").unwrap();
    assert_eq!(rows.len(), 2);
    assert!(!rows.iter().any(|r| r.contains(&"Carol".to_string())));
}

#[test]
fn test_create_index_backfills_existing_rows() {
    let executor = Engine::new(users_catalog());
    seed_users(&executor);

    executor.execute_sql("CREATE INDEX idx_name ON users (name)").unwrap();

    let rows = executor.execute_sql("SELECT * FROM users WHERE name = 'Bob'").unwrap();
    assert_eq!(rows.len(), 1);
    assert!(rows[0].contains(&"Bob".to_string()));
}

#[test]
fn test_secondary_index_equality_and_range() {
    let executor = Engine::new(users_catalog());
    executor.execute_sql("CREATE INDEX idx_age ON users (age)").unwrap();
    seed_users(&executor);
    executor
        .execute_sql("INSERT INTO users (id, name, age) VALUES (3, 'Carol', 40)")
        .unwrap();

    let rows = executor.execute_sql("SELECT * FROM users WHERE age = 30").unwrap();
    assert_eq!(rows.len(), 1);
    assert!(rows[0].contains(&"Alice".to_string()));

    let rows = executor.execute_sql("SELECT * FROM users WHERE age > 18").unwrap();
    assert_eq!(rows.len(), 2);
    assert!(!rows.iter().any(|r| r.contains(&"Bob".to_string())));
}

#[test]
fn test_secondary_index_no_matches_is_empty_not_error() {
    let executor = Engine::new(users_catalog());
    executor.execute_sql("CREATE INDEX idx_name ON users (name)").unwrap();
    seed_users(&executor);

    let rows = executor.execute_sql("SELECT * FROM users WHERE name = 'Zed'").unwrap();
    assert!(rows.is_empty());
}

#[test]
fn test_secondary_index_reflects_update_to_indexed_column() {
    let executor = Engine::new(users_catalog());
    executor.execute_sql("CREATE INDEX idx_name ON users (name)").unwrap();
    seed_users(&executor);

    executor
        .execute_sql("UPDATE users SET name = 'Robert' WHERE name = 'Bob'")
        .unwrap();

    let rows = executor.execute_sql("SELECT * FROM users WHERE name = 'Bob'").unwrap();
    assert!(rows.is_empty(), "stale index entry must not resurrect the old value");

    let rows = executor.execute_sql("SELECT * FROM users WHERE name = 'Robert'").unwrap();
    assert_eq!(rows.len(), 1);
    assert!(rows[0].contains(&"15".to_string()));
}

#[test]
fn test_update_by_secondary_indexed_equality_uses_the_index_correctly() {
    let executor = Engine::new(users_catalog());
    executor.execute_sql("CREATE INDEX idx_name ON users (name)").unwrap();
    seed_users(&executor);

    let result = executor.execute_sql("UPDATE users SET age = 99 WHERE name = 'Alice'").unwrap();
    assert_eq!(result, vec![vec!["1".to_string()]]);

    let rows = executor.execute_sql("SELECT * FROM users").unwrap();
    let alice = rows.iter().find(|r| r.contains(&"Alice".to_string())).unwrap();
    assert!(alice.contains(&"99".to_string()));
    let bob = rows.iter().find(|r| r.contains(&"Bob".to_string())).unwrap();
    assert!(bob.contains(&"15".to_string()));
}

#[test]
fn test_update_by_secondary_index_does_not_act_on_a_stale_candidate() {
    let executor = Engine::new(users_catalog());
    executor.execute_sql("CREATE INDEX idx_name ON users (name)").unwrap();
    seed_users(&executor);
    executor.execute_sql("UPDATE users SET name = 'Robert' WHERE name = 'Bob'").unwrap();
    let result = executor.execute_sql("UPDATE users SET age = 0 WHERE name = 'Bob'").unwrap();
    assert_eq!(result, vec![vec!["0".to_string()]]);

    let rows = executor.execute_sql("SELECT * FROM users WHERE name = 'Robert'").unwrap();
    assert_eq!(rows.len(), 1);
    assert!(rows[0].contains(&"15".to_string()), "Robert's age must be unchanged by the no-op UPDATE against the stale 'Bob' entry");
}

#[test]
fn test_delete_by_secondary_indexed_equality_uses_the_index_correctly() {
    let executor = Engine::new(users_catalog());
    executor.execute_sql("CREATE INDEX idx_name ON users (name)").unwrap();
    seed_users(&executor);

    let result = executor.execute_sql("DELETE FROM users WHERE name = 'Alice'").unwrap();
    assert_eq!(result, vec![vec!["1".to_string()]]);

    let rows = executor.execute_sql("SELECT * FROM users").unwrap();
    assert_eq!(rows.len(), 1);
    assert!(rows[0].contains(&"Bob".to_string()));
}

#[test]
fn test_update_by_secondary_indexed_range_uses_the_index_correctly() {
    let executor = Engine::new(users_catalog());
    executor.execute_sql("CREATE INDEX idx_age ON users (age)").unwrap();
    seed_users(&executor);

    let result = executor.execute_sql("UPDATE users SET age = 0 WHERE age > 20").unwrap();
    assert_eq!(result, vec![vec!["1".to_string()]]);

    let rows = executor.execute_sql("SELECT * FROM users").unwrap();
    let alice = rows.iter().find(|r| r.contains(&"Alice".to_string())).unwrap();
    assert!(alice.contains(&"0".to_string()));
    let bob = rows.iter().find(|r| r.contains(&"Bob".to_string())).unwrap();
    assert!(bob.contains(&"15".to_string()));
}

#[test]
fn test_update_by_secondary_index_is_not_a_full_table_scan() {
    let executor = Engine::new(users_catalog());
    executor.execute_sql("CREATE INDEX idx_name ON users (name)").unwrap();
    let insert_stmt = executor.prepare("INSERT INTO users (id, name, age) VALUES (?, ?, ?)").unwrap();
    let n = 3000;
    for id in 0..n {
        executor
            .execute_prepared(&insert_stmt, &[Value::Integer(id), Value::String(format!("user{id}")), Value::Integer(20)])
            .unwrap();
    }

    let update_stmt = executor.prepare("UPDATE users SET age = ? WHERE name = ?").unwrap();
    let start = std::time::Instant::now();
    for id in 0..n {
        executor
            .execute_prepared(&update_stmt, &[Value::Integer(21), Value::String(format!("user{id}"))])
            .unwrap();
    }
    let elapsed = start.elapsed();
    assert!(
        elapsed.as_secs_f64() < 2.0,
        "{n} single-row UPDATEs by an indexed column took {elapsed:.2?} -- looks like the full-scan path again"
    );
}

#[test]
fn test_secondary_index_excludes_deleted_row() {
    let executor = Engine::new(users_catalog());
    executor.execute_sql("CREATE INDEX idx_name ON users (name)").unwrap();
    seed_users(&executor);

    executor.execute_sql("DELETE FROM users WHERE name = 'Bob'").unwrap();

    let rows = executor.execute_sql("SELECT * FROM users WHERE name = 'Bob'").unwrap();
    assert!(rows.is_empty());
}

#[test]
fn test_create_index_unknown_table_errors() {
    let executor = Engine::new(users_catalog());
    assert!(executor.execute_sql("CREATE INDEX idx ON ghosts (name)").is_err());
}

#[test]
fn test_analyze_unknown_table_errors() {
    let executor = Engine::new(users_catalog());
    assert!(executor.execute_sql("ANALYZE ghosts").is_err());
}

#[test]
fn test_analyze_numeric_and_categorical_columns() {
    let executor = Engine::new(Catalog::new());
    executor
        .execute_sql("CREATE TABLE orders (id INT PRIMARY KEY, status VARCHAR(20), amount INT)")
        .unwrap();
    for i in 1..=950 {
        executor
            .execute_sql(&format!("INSERT INTO orders (id, status, amount) VALUES ({i}, 'shipped', {i})"))
            .unwrap();
    }
    for i in 951..=1000 {
        executor
            .execute_sql(&format!("INSERT INTO orders (id, status, amount) VALUES ({i}, 'cancelled', {i})"))
            .unwrap();
    }

    executor.execute_sql("ANALYZE orders").unwrap();

    let inner = executor.inner.borrow();
    assert!(inner.stats.get("orders", "status").is_some());
    assert!(inner.stats.get("orders", "amount").is_some());
    assert!(inner.stats.get("orders", "id").is_some());
}

#[test]
fn test_analyze_then_select_still_returns_correct_rows() {
    let executor = Engine::new(Catalog::new());
    executor.execute_sql("CREATE TABLE orders (id INT PRIMARY KEY, status VARCHAR(20))").unwrap();
    executor.execute_sql("INSERT INTO orders (id, status) VALUES (1, 'shipped')").unwrap();
    executor.execute_sql("INSERT INTO orders (id, status) VALUES (2, 'cancelled')").unwrap();
    executor.execute_sql("ANALYZE orders").unwrap();

    let rows = executor.execute_sql("SELECT * FROM orders WHERE status = 'cancelled'").unwrap();
    assert_eq!(rows.len(), 1);
    assert!(rows[0].contains(&"2".to_string()));
}

#[test]
fn test_analyze_makes_plan_estimate_dramatically_more_accurate_than_fixed_heuristic() {
    let executor = Engine::new(Catalog::new());
    executor.execute_sql("CREATE TABLE orders (id INT PRIMARY KEY, amount INT)").unwrap();
    for i in 1..=950 {
        executor.execute_sql(&format!("INSERT INTO orders (id, amount) VALUES ({i}, 10)")).unwrap();
    }
    for i in 951..=1000 {
        executor.execute_sql(&format!("INSERT INTO orders (id, amount) VALUES ({i}, 999)")).unwrap();
    }
    let ground_truth = executor.execute_sql("SELECT * FROM orders WHERE amount >= 999").unwrap().len();
    assert_eq!(ground_truth, 50);
    let before = executor.explain("SELECT * FROM orders WHERE amount >= 999").unwrap().estimated_rows;
    assert_eq!(before, 500);

    executor.execute_sql("ANALYZE orders").unwrap();
    let after = executor.explain("SELECT * FROM orders WHERE amount >= 999").unwrap().estimated_rows;
    assert!(
        (after as i64 - 50).abs() < 20,
        "post-ANALYZE estimate {after} should be close to the true {ground_truth}, not the fixed-heuristic {before}"
    );
}

#[test]
fn test_secondary_index_survives_restart() {
    let wal_path = Log::default();

    {
        let executor = Engine::open(&wal_path).unwrap();
        executor
            .execute_sql("CREATE TABLE users (id INT PRIMARY KEY, name VARCHAR(50), age INT)")
            .unwrap();
        executor
            .execute_sql("INSERT INTO users (id, name, age) VALUES (1, 'Alice', 30)")
            .unwrap();
        executor.execute_sql("CREATE INDEX idx_name ON users (name)").unwrap();
        executor
            .execute_sql("INSERT INTO users (id, name, age) VALUES (2, 'Bob', 15)")
            .unwrap();
    }

    let reopened = Engine::open(&wal_path).unwrap();
    let rows = reopened.execute_sql("SELECT * FROM users WHERE name = 'Alice'").unwrap();
    assert_eq!(rows.len(), 1);
    let rows = reopened.execute_sql("SELECT * FROM users WHERE name = 'Bob'").unwrap();
    assert_eq!(rows.len(), 1);
}
