use std::collections::HashMap;

use skipper_db::catalog::schema::{Column, Schema};
use skipper_db::parser::parse;
use skipper_db::query::plan::LogicalPlan;
use skipper_db::query::{plan, Catalog, DirCatalog, PlanError};
use skipper_db::types::ColumnType;

struct MockCatalog {
    tables: HashMap<String, Schema>,
}

impl Catalog for MockCatalog {
    fn schema(&self, table: &str) -> Option<Schema> {
        self.tables.get(table).cloned()
    }
}

fn users_catalog() -> MockCatalog {
    let schema = Schema::new(vec![
        Column {
            name: "id".to_string(),
            ty: ColumnType::Int,
            nullable: false,
        },
        Column {
            name: "name".to_string(),
            ty: ColumnType::Text,
            nullable: true,
        },
        Column {
            name: "age".to_string(),
            ty: ColumnType::Int,
            nullable: true,
        },
    ]);
    MockCatalog {
        tables: HashMap::from([("users".to_string(), schema)]),
    }
}

fn planned(sql: &str) -> Result<LogicalPlan, PlanError> {
    plan(parse(sql).unwrap(), &users_catalog())
}

#[test]
fn plans_select_filter_limit() {
    let plan = planned("SELECT id, name FROM users WHERE age > 18 LIMIT 10").unwrap();
    assert_eq!(
        plan.to_string(),
        "Limit 10\n  Projection [id, name]\n    Filter [age > 18]\n      Scan users\n"
    );
}

#[test]
fn plans_select_star_with_sort() {
    let plan = planned("SELECT * FROM users ORDER BY name DESC").unwrap();
    assert_eq!(
        plan.to_string(),
        "Projection [id, name, age]\n  Sort [name DESC]\n    Scan users\n"
    );
}

#[test]
fn plans_create_table() {
    let plan = planned("CREATE TABLE t (a INT, b TEXT)").unwrap();
    assert_eq!(plan.to_string(), "CreateTable t [a INT, b TEXT]\n");
}

#[test]
fn plans_insert() {
    let plan = planned("INSERT INTO users VALUES (1, 'Alice', 20)").unwrap();
    assert_eq!(plan.to_string(), "Insert users [1, 'Alice', 20]\n");
}

#[test]
fn rejects_unknown_table() {
    assert!(planned("SELECT * FROM ghost").is_err());
    assert!(planned("INSERT INTO ghost VALUES (1)").is_err());
}

#[test]
fn rejects_unknown_columns() {
    assert!(planned("SELECT zzz FROM users").is_err());
    assert!(planned("SELECT id FROM users WHERE zzz > 1").is_err());
    assert!(planned("SELECT id FROM users ORDER BY zzz").is_err());
}

#[test]
fn rejects_duplicate_create_columns() {
    assert!(plan(
        parse("CREATE TABLE t (id INT, id TEXT)").unwrap(),
        &users_catalog()
    )
    .is_err());
}

#[test]
fn rejects_insert_value_count_mismatch() {
    assert!(planned("INSERT INTO users VALUES (1)").is_err());
}

#[test]
fn insert_column_list_is_reordered() {
    let plan = planned("INSERT INTO users (age, id, name) VALUES (20, 1, 'Alice')").unwrap();
    assert_eq!(plan.to_string(), "Insert users [1, 'Alice', 20]\n");
}

#[test]
fn rejects_null_into_not_null_column() {
    assert!(planned("INSERT INTO users VALUES (NULL, 'a', 1)").is_err());
}

#[test]
fn rejects_negative_limit() {
    assert!(planned("SELECT id FROM users LIMIT -1").is_err());
}

fn message(sql: &str) -> String {
    planned(sql).unwrap_err().message
}

#[test]
fn error_messages_name_what_is_wrong() {
    assert_eq!(message("SELECT * FROM ghost"), "unknown table \"ghost\"");
    assert_eq!(
        message("SELECT zzz FROM users"),
        "unknown column \"zzz\" in table \"users\""
    );
    assert_eq!(
        message("INSERT INTO users VALUES (1)"),
        "table \"users\" expects 3 values but got 1"
    );
    assert_eq!(
        message("INSERT INTO users (id, name) VALUES (1)"),
        "got 2 columns but 1 values"
    );
    assert_eq!(
        message("INSERT INTO users (id, zzz) VALUES (1, 2)"),
        "unknown column \"zzz\" in table \"users\""
    );
    assert_eq!(
        message("INSERT INTO users VALUES (NULL, 'a', 1)"),
        "column \"id\" is NOT NULL"
    );
    assert_eq!(
        message("SELECT id FROM users LIMIT -1"),
        "LIMIT must not be negative, got -1"
    );
    assert_eq!(
        message("CREATE TABLE t (id INT, id TEXT)"),
        "duplicate column \"id\""
    );
}

#[test]
fn plan_error_text_has_prefix() {
    let e = planned("SELECT * FROM ghost").unwrap_err();
    assert_eq!(e.to_string(), "plan error: unknown table \"ghost\"");
}

#[test]
fn omitted_columns_become_null() {
    let plan = planned("INSERT INTO users (id) VALUES (5)").unwrap();
    assert_eq!(plan.to_string(), "Insert users [5, NULL, NULL]\n");
}

#[test]
fn alias_and_expression_names_columns() {
    let plan = planned("SELECT id AS k, age > 18 FROM users").unwrap();
    assert_eq!(
        plan.to_string(),
        "Projection [k, age > 18]\n  Scan users\n"
    );
}

#[test]
fn dir_catalog_keeps_its_directory() {
    let c = DirCatalog::new("/tmp/db".to_string());
    assert_eq!(c.dir(), "/tmp/db");
}
