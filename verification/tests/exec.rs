use std::collections::HashMap;

use skipper_db::catalog::schema::{Column, Schema};
use skipper_db::parser::ast::{ColumnDef, CompareOp, DataType, Literal};
use skipper_db::parser::parse;
use skipper_db::query::exec::{
    compare, evaluate, table_file, to_column, to_value, value_order, Order, ResultSet,
};
use skipper_db::query::physical::{from_logical, PhysicalPlan};
use skipper_db::query::{plan, Catalog};
use skipper_db::storage::page::{SlottedPage, PAGE_SIZE};
use skipper_db::storage::record::encode;
use skipper_db::storage::table::{meta_page, page_rows, parse_meta, place_record};
use skipper_db::types::{ColumnType, Value};

struct MockCatalog {
    tables: HashMap<String, Schema>,
}

impl Catalog for MockCatalog {
    fn schema(&self, table: &str) -> Option<Schema> {
        self.tables.get(table).cloned()
    }
}

fn users() -> MockCatalog {
    let col = |name: &str, ty| Column {
        name: name.to_string(),
        ty,
        nullable: true,
    };
    let schema = Schema::new(vec![
        col("id", ColumnType::Int),
        col("name", ColumnType::Text),
        col("age", ColumnType::Int),
    ]);
    MockCatalog {
        tables: HashMap::from([("users".to_string(), schema)]),
    }
}

fn row(id: i64, name: &str, age: i64) -> Vec<Value> {
    vec![Value::Int(id), Value::Text(name.to_string()), Value::Int(age)]
}

fn table() -> Vec<Vec<Value>> {
    vec![row(1, "Alice", 20), row(2, "Bob", 17), row(3, "Carol", 30)]
}

fn physical(sql: &str) -> PhysicalPlan {
    from_logical(plan(parse(sql).unwrap(), &users()).unwrap())
}

fn run(sql: &str, rows: Vec<Vec<Value>>) -> ResultSet {
    evaluate(&physical(sql), rows)
}

#[test]
fn select_filter_project_sort_limit() {
    let rs = run(
        "SELECT id, name FROM users WHERE age > 18 ORDER BY name DESC LIMIT 10",
        table(),
    );
    assert_eq!(rs.columns, vec!["id".to_string(), "name".to_string()]);
    assert_eq!(
        rs.rows,
        vec![
            vec![Value::Int(3), Value::Text("Carol".to_string())],
            vec![Value::Int(1), Value::Text("Alice".to_string())],
        ]
    );
}

#[test]
fn select_star_returns_all_columns() {
    let rs = run("SELECT * FROM users WHERE id = 2", table());
    assert_eq!(rs.columns, vec!["id", "name", "age"]);
    assert_eq!(rs.rows, vec![row(2, "Bob", 17)]);
}

#[test]
fn limit_zero_is_empty() {
    assert!(run("SELECT * FROM users LIMIT 0", table()).rows.is_empty());
}

#[test]
fn data_survives_reopen() {
    // write the rows into a table file image: page 0, then slotted pages
    let schema = users().schema("users").unwrap();
    let mut file: Vec<u8> = meta_page(&schema).unwrap().to_vec();
    for r in table() {
        let record = encode(&schema, &r).unwrap();
        let page_count = (file.len() / PAGE_SIZE) as u32;
        let last = if page_count > 1 {
            let mut raw = [0u8; PAGE_SIZE];
            raw.copy_from_slice(&file[file.len() - PAGE_SIZE..]);
            Some(SlottedPage::from_bytes(raw))
        } else {
            None
        };
        let (id, page, _) = place_record(page_count, last, &record).unwrap();
        let at = id as usize * PAGE_SIZE;
        if at == file.len() {
            file.extend_from_slice(page.as_bytes());
        } else {
            file[at..at + PAGE_SIZE].copy_from_slice(page.as_bytes());
        }
    }
    // a fresh run reads the file again, simulating a restart
    let reopened = parse_meta("users.tbl".to_string(), &file[..PAGE_SIZE]).unwrap();
    let mut rows = Vec::new();
    for chunk in file[PAGE_SIZE..].chunks(PAGE_SIZE) {
        let mut raw = [0u8; PAGE_SIZE];
        raw.copy_from_slice(chunk);
        rows.extend(page_rows(&reopened, &SlottedPage::from_bytes(raw)).unwrap());
    }
    assert_eq!(run("SELECT id FROM users ORDER BY id", rows).rows.len(), 3);
}

#[test]
fn insert_with_column_list_reorders() {
    let catalog = users();
    let logical = plan(
        parse("INSERT INTO users (age, id, name) VALUES (40, 9, 'Zoe')").unwrap(),
        &catalog,
    )
    .unwrap();
    let stored: Vec<Value> = match from_logical(logical) {
        PhysicalPlan::InsertExec { values, .. } => values.iter().map(to_value).collect(),
        other => panic!("expected an insert, got {other:?}"),
    };
    let rs = run("SELECT * FROM users", vec![stored]);
    assert_eq!(rs.rows, vec![row(9, "Zoe", 40)]);
}

#[test]
fn sort_is_stable_and_nulls_come_first() {
    let rows = vec![
        vec![Value::Int(1), Value::Text("b".to_string()), Value::Int(5)],
        vec![Value::Int(2), Value::Null, Value::Int(5)],
        vec![Value::Int(3), Value::Text("a".to_string()), Value::Int(1)],
        vec![Value::Int(4), Value::Text("b".to_string()), Value::Int(9)],
    ];
    let rs = run("SELECT id FROM users ORDER BY name", rows.clone());
    let ids: Vec<Value> = rs.rows.into_iter().map(|r| r[0].clone()).collect();
    assert_eq!(ids, vec![Value::Int(2), Value::Int(3), Value::Int(1), Value::Int(4)]);
    let rs = run("SELECT id FROM users ORDER BY age DESC", rows);
    let ids: Vec<Value> = rs.rows.into_iter().map(|r| r[0].clone()).collect();
    assert_eq!(ids, vec![Value::Int(4), Value::Int(1), Value::Int(2), Value::Int(3)]);
}

#[test]
fn where_with_and_or_and_null() {
    let rows = vec![
        row(1, "Alice", 20),
        vec![Value::Int(2), Value::Null, Value::Null],
        row(3, "Carol", 30),
    ];
    let rs = run(
        "SELECT id FROM users WHERE age >= 30 OR name = 'Alice' AND id < 2",
        rows.clone(),
    );
    assert_eq!(rs.rows, vec![vec![Value::Int(1)], vec![Value::Int(3)]]);
    // comparisons with NULL are false either way
    let rs = run("SELECT id FROM users WHERE age != 1", rows);
    assert_eq!(rs.rows, vec![vec![Value::Int(1)], vec![Value::Int(3)]]);
}

#[test]
fn projection_of_a_condition_is_zero_or_one() {
    let rs = run("SELECT age > 18 AS adult FROM users", table());
    assert_eq!(rs.columns, vec!["adult"]);
    assert_eq!(
        rs.rows,
        vec![vec![Value::Int(1)], vec![Value::Int(0)], vec![Value::Int(1)]]
    );
}

#[test]
fn negative_limit_in_a_plan_keeps_every_row() {
    let plan = PhysicalPlan::LimitExec {
        count: -1,
        input: Box::new(PhysicalPlan::TableScanExec {
            table: "users".to_string(),
            columns: vec!["id".to_string(), "name".to_string(), "age".to_string()],
        }),
    };
    assert_eq!(evaluate(&plan, table()).rows.len(), 3);
}

#[test]
fn value_comparisons() {
    assert!(compare(&Value::Int(1), CompareOp::Lt, &Value::Int(2)));
    assert!(compare(&Value::Text("ab".to_string()), CompareOp::Lt, &Value::Text("b".to_string())));
    assert!(!compare(&Value::Int(1), CompareOp::Eq, &Value::Text("1".to_string())));
    assert!(!compare(&Value::Null, CompareOp::Eq, &Value::Null));
    assert!(compare(&Value::Int(3), CompareOp::GtEq, &Value::Int(3)));
    assert_eq!(value_order(&Value::Null, &Value::Int(-5)), Order::Less);
    assert_eq!(value_order(&Value::Int(7), &Value::Text(String::new())), Order::Less);
    assert_eq!(value_order(&Value::Text("b".to_string()), &Value::Text("a".to_string())), Order::Greater);
    assert_eq!(value_order(&Value::Null, &Value::Null), Order::Equal);
}

#[test]
fn literals_and_columns_convert() {
    assert_eq!(to_value(&Literal::Int(4)), Value::Int(4));
    assert_eq!(to_value(&Literal::Str("x".to_string())), Value::Text("x".to_string()));
    assert_eq!(to_value(&Literal::Null), Value::Null);
    let c = to_column(&ColumnDef {
        name: "n".to_string(),
        ty: DataType::Text,
        nullable: false,
    });
    assert_eq!(
        c,
        Column {
            name: "n".to_string(),
            ty: ColumnType::Text,
            nullable: false
        }
    );
    assert_eq!(table_file("users"), "users.tbl");
}

#[test]
fn scalar_function_in_projection() {
    let rs = run("SELECT name, LENGTH(name) FROM users WHERE id = 1", table());
    assert_eq!(rs.columns, vec!["name", "LENGTH(name)"]);
    assert_eq!(
        rs.rows,
        vec![vec![Value::Text("Alice".to_string()), Value::Int(5)]]
    );
}

#[test]
fn scalar_function_in_where() {
    // Alice=5, Bob=3, Carol=5; only > 3 survive
    let rs = run(
        "SELECT name FROM users WHERE LENGTH(name) > 3 ORDER BY name",
        table(),
    );
    assert_eq!(
        rs.rows,
        vec![
            vec![Value::Text("Alice".to_string())],
            vec![Value::Text("Carol".to_string())],
        ]
    );
}

#[test]
fn length_counts_characters_and_is_null_off_text() {
    let rows = vec![
        vec![Value::Int(1), Value::Text("héllo".to_string()), Value::Int(2)],
        vec![Value::Int(2), Value::Null, Value::Int(3)],
    ];
    let rs = run("SELECT length(name), LENGTH(id) FROM users", rows);
    assert_eq!(rs.columns, vec!["length(name)", "LENGTH(id)"]);
    assert_eq!(
        rs.rows,
        vec![
            vec![Value::Int(5), Value::Null],
            vec![Value::Null, Value::Null],
        ]
    );
}

#[test]
fn unknown_function_is_a_plan_error() {
    let err = plan(parse("SELECT UPPER(name) FROM users").unwrap(), &users()).unwrap_err();
    assert_eq!(err.message, "unknown function \"UPPER\"");
    let err = plan(parse("SELECT LENGTH(nope) FROM users").unwrap(), &users()).unwrap_err();
    assert_eq!(err.message, "unknown column \"nope\" in table \"users\"");
}
