//! What is read in the text of a statement.

use shrestidb::execution::cells::{decode_cells, encode_cells};
use shrestidb::execution::definitions::map_ddl_type;
use shrestidb::execution::catalog::DataType;
use shrestidb::sql::parser::{EquiMatch, JoinKind, SQLParser, SQLStatement, SelectStatement};
use shrestidb::sql::source::{InsertSource, JoinWord};
use shrestidb::DatabaseError;

fn select(sql: &str) -> SelectStatement {
    match SQLParser::parse(sql).unwrap() {
        SQLStatement::Select(s) => s,
        other => panic!("{other:?}"),
    }
}

fn refused(sql: &str) -> String {
    match SQLParser::parse(sql) {
        Err(DatabaseError::ParseError(s)) => s,
        other => panic!("{other:?}"),
    }
}

#[test]
fn a_query_is_read_in_full() {
    let s = select(
        "SELECT DISTINCT a, COUNT(*) FROM t AS u WHERE a > 1 AND b = 'x' GROUP BY a HAVING COUNT(*) > 2 ORDER BY a DESC LIMIT 5 OFFSET 7",
    );
    assert_eq!(s.columns, vec!["a", "COUNT(*)"]);
    assert_eq!(s.from, "t");
    assert_eq!(s.from_alias.as_deref(), Some("u"));
    assert_eq!(s.where_clause.as_deref(), Some("a > 1 AND b = 'x'"));
    assert_eq!(s.group_by, vec!["a"]);
    assert_eq!(s.having.as_deref(), Some("COUNT(*) > 2"));
    assert!(s.order_by.unwrap().contains("a DESC"));
    assert!(s.distinct);
    assert_eq!((s.limit, s.offset), (Some(5), Some(7)));
}

#[test]
fn wildcards_are_stars() {
    assert_eq!(select("SELECT * FROM t").columns, vec!["*"]);
    assert_eq!(select("SELECT t.* FROM t").columns, vec!["*"]);
    assert!(!select("SELECT * FROM t").distinct);
}

#[test]
fn a_limit_that_is_no_number_is_none() {
    let s = select("SELECT * FROM t LIMIT 2 + 3");
    assert_eq!((s.limit, s.offset), (None, None));
}

#[test]
fn joins_keep_their_kind_and_their_condition() {
    let s = select(
        "SELECT * FROM a JOIN b ON a.x = b.x LEFT JOIN c AS k ON a.x = k.x RIGHT OUTER JOIN d ON a.x = d.x FULL OUTER JOIN e ON a.x = e.x CROSS JOIN g",
    );
    let kinds: Vec<JoinKind> = s.joins.iter().map(|j| j.kind).collect();
    assert_eq!(
        kinds,
        vec![
            JoinKind::Inner,
            JoinKind::Left,
            JoinKind::Right,
            JoinKind::FullOuter,
            JoinKind::Inner
        ]
    );
    assert_eq!(s.joins[0].condition.as_deref(), Some("a.x = b.x"));
    assert_eq!(s.joins[1].alias.as_deref(), Some("k"));
    assert_eq!(s.joins[4].table, "g");
    assert_eq!(s.joins[4].condition, None);
    assert!(s.joins.iter().all(|j| j.equi_match.is_none()));
}

#[test]
fn shared_columns_are_told_apart_from_conditions() {
    let s = select("SELECT * FROM a JOIN b USING (x, y) NATURAL LEFT JOIN c");
    assert!(matches!(&s.joins[0].equi_match, Some(EquiMatch::Using(v)) if v == &["x", "y"]));
    assert!(matches!(&s.joins[1].equi_match, Some(EquiMatch::Natural)));
    assert_eq!(s.joins[1].kind, JoinKind::Left);
    assert!(s.joins.iter().all(|j| j.condition.is_none()));
}

#[test]
fn only_the_joins_of_the_first_table_are_read() {
    let s = select("SELECT * FROM a JOIN b ON a.x = b.x, c JOIN d ON c.x = d.x");
    assert_eq!(s.from, "a");
    assert_eq!(s.joins.len(), 1);
    assert_eq!(s.joins[0].table, "b");
}

#[test]
fn changes_are_read_in_full() {
    match SQLParser::parse("INSERT INTO t (a, b) VALUES (1, 'x'), (2, NULL)").unwrap() {
        SQLStatement::Insert(i) => {
            assert_eq!(i.table, "t");
            assert_eq!(i.columns, vec!["a", "b"]);
            assert_eq!(i.values, vec![vec!["1", "'x'"], vec!["2", "NULL"]]);
        }
        other => panic!("{other:?}"),
    }
    match SQLParser::parse("INSERT INTO t SELECT * FROM u").unwrap() {
        SQLStatement::Insert(i) => assert!(i.values.is_empty()),
        other => panic!("{other:?}"),
    }
    match SQLParser::parse("UPDATE t SET a = a + 1, b = 'y' WHERE a = 3").unwrap() {
        SQLStatement::Update(u) => {
            assert_eq!(u.table, "t");
            assert_eq!(
                u.assignments,
                vec![
                    ("a".to_string(), "a + 1".to_string()),
                    ("b".to_string(), "'y'".to_string())
                ]
            );
            assert_eq!(u.where_clause.as_deref(), Some("a = 3"));
        }
        other => panic!("{other:?}"),
    }
    match SQLParser::parse("DELETE FROM t").unwrap() {
        SQLStatement::Delete(d) => assert_eq!((d.table.as_str(), d.where_clause), ("t", None)),
        other => panic!("{other:?}"),
    }
}

#[test]
fn definitions_are_read_in_full() {
    match SQLParser::parse("CREATE TABLE t (id BIGINT PRIMARY KEY, a TEXT NOT NULL, b FLOAT)").unwrap() {
        SQLStatement::CreateTable(c) => {
            assert_eq!(c.name, "t");
            let names: Vec<&str> = c.columns.iter().map(|c| c.name.as_str()).collect();
            assert_eq!(names, vec!["id", "a", "b"]);
            let types: Vec<&str> = c.columns.iter().map(|c| c.data_type.as_str()).collect();
            assert_eq!(types, vec!["BIGINT", "TEXT", "FLOAT"]);
            let keys: Vec<bool> = c.columns.iter().map(|c| c.primary_key).collect();
            assert_eq!(keys, vec![true, false, false]);
            let nullable: Vec<bool> = c.columns.iter().map(|c| c.nullable).collect();
            assert_eq!(nullable, vec![false, false, true]);
        }
        other => panic!("{other:?}"),
    }
    match SQLParser::parse("CREATE INDEX i ON t (a)").unwrap() {
        SQLStatement::CreateIndex(c) => {
            assert_eq!((c.name.as_str(), c.table.as_str(), c.column.as_str()), ("i", "t", "a"))
        }
        other => panic!("{other:?}"),
    }
    match SQLParser::parse("ANALYZE TABLE t").unwrap() {
        SQLStatement::Analyze(a) => assert_eq!(a.table, "t"),
        other => panic!("{other:?}"),
    }
}

#[test]
fn what_is_not_supported_is_named() {
    assert_eq!(refused(""), "Empty SQL statement");
    assert!(refused("SELECT a FROM t UNION SELECT b FROM u")
        .starts_with("Only simple SELECT queries are supported, got: "));
    assert!(refused("DROP TABLE t").starts_with("Unsupported statement: DROP TABLE t"));
    assert!(!refused("SELEC * FROM t").is_empty());
}

#[test]
fn types_are_known_by_their_words() {
    assert_eq!(map_ddl_type("bigint"), DataType::Integer);
    assert_eq!(map_ddl_type("Double Precision"), DataType::Float);
    assert_eq!(map_ddl_type("numeric(10, 2)"), DataType::Float);
    assert_eq!(map_ddl_type("boolean"), DataType::Boolean);
    assert_eq!(map_ddl_type("date"), DataType::Timestamp);
    assert_eq!(map_ddl_type("varchar(20)"), DataType::String);
}

#[test]
fn cells_come_back_out_of_their_bytes() {
    let none: Vec<_> = Vec::new();
    assert_eq!(encode_cells(&none).unwrap(), vec![0; 8]);
    let cells = vec![(1u8, 7u64, 3u64, vec![1u8, 2], "x".to_string())];
    let bytes = encode_cells(&cells).unwrap();
    assert_eq!(decode_cells(&bytes), Some(cells));
    assert_eq!(decode_cells(&bytes[1..]), None);
}

#[test]
fn conditions_are_kept_whatever_the_join() {
    let s = select(
        "SELECT * FROM a LEFT ANTI JOIN b ON a.x = b.x RIGHT SEMI JOIN c ON a.x = c.x LEFT SEMI JOIN d ON a.x = d.x",
    );
    let said: Vec<Option<&str>> = s.joins.iter().map(|j| j.condition.as_deref()).collect();
    assert_eq!(said, vec![Some("a.x = b.x"), Some("a.x = c.x"), Some("a.x = d.x")]);
    assert!(s.joins.iter().all(|j| j.kind == JoinKind::Inner));
}

#[test]
fn the_condition_of_a_join_needs_one_that_takes_it() {
    let on = || Some("a.x = b.x".to_string());
    for word in [JoinWord::Join, JoinWord::Anti, JoinWord::RightSemi, JoinWord::AsOf, JoinWord::StraightJoin] {
        assert_eq!(SQLParser::join_condition(word, on()).as_deref(), Some("a.x = b.x"));
    }
    assert_eq!(SQLParser::join_condition(JoinWord::CrossApply, on()), None);
    assert_eq!(SQLParser::join_condition(JoinWord::Left, None), None);
}

#[test]
fn both_numbers_behind_limit_are_not_read() {
    let s = select("SELECT * FROM t LIMIT 5, 10");
    assert_eq!((s.limit, s.offset), (None, None));
    let s = select("SELECT * FROM t OFFSET 3");
    assert_eq!((s.limit, s.offset), (None, Some(3)));
}

#[test]
fn rows_to_insert_come_from_values_alone() {
    match SQLParser::parse("INSERT INTO t (a) SELECT b FROM u").unwrap() {
        SQLStatement::Insert(s) => {
            assert_eq!(s.table, "t");
            assert!(s.values.is_empty());
        }
        other => panic!("{other:?}"),
    }
    let given = InsertSource::Values(vec![vec!["1".to_string()]]);
    let s = SQLParser::convert_insert("t".to_string(), vec!["a".to_string()], given);
    assert_eq!(s.values, vec![vec!["1"]]);
}
