//! Statements against a catalog.

use shrestidb::execution::catalog::{Catalog, Column, DataType, TableSchema};
use shrestidb::sql::binder::Binder;
use shrestidb::sql::parser::SQLParser;

fn catalog_with_users() -> Catalog {
    let mut catalog = Catalog::new();
    let mut schema = TableSchema::new(1, "users".to_string());
    schema.add_column(Column {
        id: 1,
        name: "id".to_string(),
        data_type: DataType::Integer,
        nullable: false,
        primary_key: true,
    });
    schema.add_column(Column {
        id: 2,
        name: "name".to_string(),
        data_type: DataType::String,
        nullable: false,
        primary_key: false,
    });
    catalog.register_table(schema);
    catalog
}

#[test]
fn test_bind_select_success() {
    let catalog = catalog_with_users();
    let binder = Binder::new(&catalog);
    let stmt = SQLParser::parse("SELECT id, name FROM users").unwrap();
    assert!(binder.bind(&stmt).is_ok());
}

#[test]
fn test_bind_select_unknown_table() {
    let catalog = catalog_with_users();
    let binder = Binder::new(&catalog);
    let stmt = SQLParser::parse("SELECT * FROM ghosts").unwrap();
    assert!(binder.bind(&stmt).is_err());
}

#[test]
fn test_bind_select_unknown_column() {
    let catalog = catalog_with_users();
    let binder = Binder::new(&catalog);
    let stmt = SQLParser::parse("SELECT nope FROM users").unwrap();
    assert!(binder.bind(&stmt).is_err());
}

#[test]
fn test_bind_select_star_and_expressions_skip_column_check() {
    let catalog = catalog_with_users();
    let binder = Binder::new(&catalog);
    assert!(binder.bind(&SQLParser::parse("SELECT * FROM users").unwrap()).is_ok());
    assert!(binder
        .bind(&SQLParser::parse("SELECT COUNT(*) FROM users").unwrap())
        .is_ok());
}

#[test]
fn test_bind_insert_arity_mismatch() {
    let catalog = catalog_with_users();
    let binder = Binder::new(&catalog);
    let stmt = SQLParser::parse("INSERT INTO users (id, name) VALUES (1)").unwrap();
    assert!(binder.bind(&stmt).is_err());
}

#[test]
fn test_bind_insert_success() {
    let catalog = catalog_with_users();
    let binder = Binder::new(&catalog);
    let stmt = SQLParser::parse("INSERT INTO users (id, name) VALUES (1, 'Alice')").unwrap();
    assert!(binder.bind(&stmt).is_ok());
}

#[test]
fn test_bind_update_unknown_column() {
    let catalog = catalog_with_users();
    let binder = Binder::new(&catalog);
    let stmt = SQLParser::parse("UPDATE users SET nope = 1 WHERE id = 1").unwrap();
    assert!(binder.bind(&stmt).is_err());
}

#[test]
fn test_bind_create_table_duplicate() {
    let catalog = catalog_with_users();
    let binder = Binder::new(&catalog);
    let stmt = SQLParser::parse("CREATE TABLE users (id INT)").unwrap();
    assert!(binder.bind(&stmt).is_err());
}

#[test]
fn test_bind_create_table_new() {
    let catalog = catalog_with_users();
    let binder = Binder::new(&catalog);
    let stmt = SQLParser::parse("CREATE TABLE orders (id INT)").unwrap();
    assert!(binder.bind(&stmt).is_ok());
}
