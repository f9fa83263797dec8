//! Parsing statements.

use shrestidb::sql::parser::{SQLParser, SQLStatement};

#[test]
fn test_parse_select() {
    let sql = "SELECT id, name FROM users WHERE age > 18";
    let stmt = SQLParser::parse(sql).unwrap();
    match stmt {
        SQLStatement::Select(s) => {
            assert_eq!(s.from, "users");
            assert_eq!(s.columns, vec!["id".to_string(), "name".to_string()]);
            assert!(s.where_clause.is_some());
        }
        _ => panic!("Expected SELECT statement"),
    }
}

#[test]
fn test_parse_select_star_with_order_and_limit() {
    let sql = "SELECT * FROM users ORDER BY age DESC LIMIT 10";
    let stmt = SQLParser::parse(sql).unwrap();
    match stmt {
        SQLStatement::Select(s) => {
            assert_eq!(s.columns, vec!["*".to_string()]);
            assert_eq!(s.from, "users");
            assert_eq!(s.limit, Some(10));
            assert!(s.order_by.is_some());
        }
        _ => panic!("Expected SELECT statement"),
    }
}

#[test]
fn test_parse_group_by() {
    let sql = "SELECT user_id, COUNT(*) FROM orders GROUP BY user_id";
    let stmt = SQLParser::parse(sql).unwrap();
    match stmt {
        SQLStatement::Select(s) => {
            assert_eq!(s.group_by, vec!["user_id".to_string()]);
        }
        _ => panic!("Expected SELECT statement"),
    }
}

#[test]
fn test_parse_select_without_group_by_is_empty() {
    let sql = "SELECT * FROM users";
    let stmt = SQLParser::parse(sql).unwrap();
    match stmt {
        SQLStatement::Select(s) => assert!(s.group_by.is_empty()),
        _ => panic!("Expected SELECT statement"),
    }
}

#[test]
fn test_parse_select_with_string_literal_predicate() {
    let sql = "SELECT * FROM users WHERE name = 'John Smith' AND active = true";
    let stmt = SQLParser::parse(sql).unwrap();
    match stmt {
        SQLStatement::Select(s) => {
            let clause = s.where_clause.unwrap();
            assert!(clause.contains("John Smith"));
        }
        _ => panic!("Expected SELECT statement"),
    }
}

#[test]
fn test_parse_insert() {
    let sql = "INSERT INTO users (id, name, age) VALUES (1, 'Alice', 30)";
    let stmt = SQLParser::parse(sql).unwrap();
    match stmt {
        SQLStatement::Insert(i) => {
            assert_eq!(i.table, "users");
            assert_eq!(i.columns, vec!["id", "name", "age"]);
            assert_eq!(i.values.len(), 1);
            assert_eq!(i.values[0].len(), 3);
        }
        _ => panic!("Expected INSERT statement"),
    }
}

#[test]
fn test_parse_update() {
    let sql = "UPDATE users SET age = 31, name = 'Alicia' WHERE id = 1";
    let stmt = SQLParser::parse(sql).unwrap();
    match stmt {
        SQLStatement::Update(u) => {
            assert_eq!(u.table, "users");
            assert_eq!(u.assignments.len(), 2);
            assert!(u.where_clause.is_some());
        }
        _ => panic!("Expected UPDATE statement"),
    }
}

#[test]
fn test_parse_delete() {
    let sql = "DELETE FROM users WHERE id = 1";
    let stmt = SQLParser::parse(sql).unwrap();
    match stmt {
        SQLStatement::Delete(d) => {
            assert_eq!(d.table, "users");
            assert!(d.where_clause.is_some());
        }
        _ => panic!("Expected DELETE statement"),
    }
}

#[test]
fn test_parse_create_table() {
    let sql = "CREATE TABLE users (id INT PRIMARY KEY, name VARCHAR(50), age INT NOT NULL)";
    let stmt = SQLParser::parse(sql).unwrap();
    match stmt {
        SQLStatement::CreateTable(c) => {
            assert_eq!(c.name, "users");
            assert_eq!(c.columns.len(), 3);
            assert_eq!(c.columns[0].name, "id");
            assert!(c.columns[0].primary_key);
            assert!(!c.columns[0].nullable);
            assert!(!c.columns[1].primary_key);
            assert!(c.columns[1].nullable);
            assert!(!c.columns[2].nullable);
        }
        _ => panic!("Expected CREATE TABLE statement"),
    }
}

#[test]
fn test_parse_create_index() {
    let sql = "CREATE INDEX idx_users_name ON users (name)";
    let stmt = SQLParser::parse(sql).unwrap();
    match stmt {
        SQLStatement::CreateIndex(c) => {
            assert_eq!(c.name, "idx_users_name");
            assert_eq!(c.table, "users");
            assert_eq!(c.column, "name");
        }
        _ => panic!("Expected CREATE INDEX statement"),
    }
}

#[test]
fn test_parse_invalid_sql_errors() {
    assert!(SQLParser::parse("SELECT * FRM users").is_err());
    assert!(SQLParser::parse("").is_err());
}
