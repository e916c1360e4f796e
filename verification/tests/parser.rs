use skipper_db::parser::ast::{
    ColumnDef, CompareOp, CreateTable, DataType, Expr, Insert, Literal, OrderBy, Projection, Select,
    SelectItem, Statement,
};
use skipper_db::parser::parse;

fn col(name: &str, ty: DataType, nullable: bool) -> ColumnDef {
    ColumnDef {
        name: name.to_string(),
        ty,
        nullable,
    }
}

#[test]
fn parses_create_table() {
    let stmt = parse("CREATE TABLE users (id INT, name TEXT, age INT)").unwrap();
    assert_eq!(
        stmt,
        Statement::CreateTable(CreateTable {
            table: "users".to_string(),
            columns: vec![
                col("id", DataType::Int, true),
                col("name", DataType::Text, true),
                col("age", DataType::Int, true),
            ],
        })
    );
}

#[test]
fn parses_create_table_with_nullability() {
    let stmt = parse("CREATE TABLE t (id INT NOT NULL, name TEXT NULL);").unwrap();
    assert_eq!(
        stmt,
        Statement::CreateTable(CreateTable {
            table: "t".to_string(),
            columns: vec![
                col("id", DataType::Int, false),
                col("name", DataType::Text, true),
            ],
        })
    );
}

#[test]
fn create_table_is_case_insensitive() {
    assert!(parse("create table t (id int)").is_ok());
}

#[test]
fn parses_insert() {
    let stmt = parse("INSERT INTO users VALUES (1, 'Alice', 20)").unwrap();
    assert_eq!(
        stmt,
        Statement::Insert(Insert {
            table: "users".to_string(),
            columns: None,
            values: vec![
                Literal::Int(1),
                Literal::Str("Alice".to_string()),
                Literal::Int(20),
            ],
        })
    );
}

#[test]
fn parses_insert_with_column_list_and_null() {
    let stmt = parse("INSERT INTO users (id, name) VALUES (1, NULL)").unwrap();
    assert_eq!(
        stmt,
        Statement::Insert(Insert {
            table: "users".to_string(),
            columns: Some(vec!["id".to_string(), "name".to_string()]),
            values: vec![Literal::Int(1), Literal::Null],
        })
    );
}

#[test]
fn rejects_empty_column_list() {
    assert!(parse("CREATE TABLE users ()").is_err());
}

#[test]
fn rejects_missing_column_type() {
    assert!(parse("CREATE TABLE users (id)").is_err());
}

#[test]
fn rejects_insert_without_values() {
    assert!(parse("INSERT INTO users VALUES;").is_err());
}

#[test]
fn rejects_trailing_tokens() {
    assert!(parse("CREATE TABLE t (id INT) garbage").is_err());
}

#[test]
fn rejects_unknown_statement() {
    let e = parse("DROP TABLE users").unwrap_err();
    assert_eq!(e.pos, 0);
}

#[test]
fn does_not_panic_on_empty_input() {
    assert!(parse("").is_err());
}

fn select(stmt: Statement) -> Select {
    match stmt {
        Statement::Select(s) => s,
        other => panic!("expected SELECT, got {other:?}"),
    }
}

fn column(name: &str) -> Expr {
    Expr::Column(name.to_string())
}

fn int_lit(n: i64) -> Expr {
    Expr::Literal(Literal::Int(n))
}

fn cmp(left: Expr, op: CompareOp, right: Expr) -> Expr {
    Expr::Compare {
        left: Box::new(left),
        op,
        right: Box::new(right),
    }
}

#[test]
fn parses_select_star() {
    let s = select(parse("SELECT * FROM users").unwrap());
    assert_eq!(s.projection, Projection::All);
    assert_eq!(s.from, "users");
    assert_eq!(s.filter, None);
    assert_eq!(s.order_by, None);
    assert_eq!(s.limit, None);
}

fn col_item(name: &str) -> SelectItem {
    SelectItem {
        expr: Expr::Column(name.to_string()),
        alias: None,
    }
}

#[test]
fn parses_select_columns() {
    let s = select(parse("SELECT id, name FROM users").unwrap());
    assert_eq!(
        s.projection,
        Projection::Items(vec![col_item("id"), col_item("name")])
    );
}

#[test]
fn parses_where_comparison() {
    let s = select(parse("SELECT id FROM users WHERE age > 18").unwrap());
    assert_eq!(s.filter, Some(cmp(column("age"), CompareOp::Gt, int_lit(18))));
}

#[test]
fn and_binds_tighter_than_or() {
    let s = select(parse("SELECT * FROM t WHERE a = 1 OR b = 2 AND c = 3").unwrap());
    assert_eq!(
        s.filter,
        Some(Expr::Or(
            Box::new(cmp(column("a"), CompareOp::Eq, int_lit(1))),
            Box::new(Expr::And(
                Box::new(cmp(column("b"), CompareOp::Eq, int_lit(2))),
                Box::new(cmp(column("c"), CompareOp::Eq, int_lit(3))),
            )),
        ))
    );
}

#[test]
fn parentheses_override_precedence() {
    let s = select(parse("SELECT * FROM t WHERE (a = 1 OR b = 2) AND c = 3").unwrap());
    assert_eq!(
        s.filter,
        Some(Expr::And(
            Box::new(Expr::Or(
                Box::new(cmp(column("a"), CompareOp::Eq, int_lit(1))),
                Box::new(cmp(column("b"), CompareOp::Eq, int_lit(2))),
            )),
            Box::new(cmp(column("c"), CompareOp::Eq, int_lit(3))),
        ))
    );
}

#[test]
fn parses_order_by_and_limit() {
    let s = select(
        parse("SELECT id, name FROM users WHERE age > 18 ORDER BY name DESC LIMIT 10").unwrap(),
    );
    assert_eq!(
        s.order_by,
        Some(OrderBy {
            column: "name".to_string(),
            descending: true,
        })
    );
    assert_eq!(s.limit, Some(10));
}

#[test]
fn parses_string_equality() {
    let s = select(parse("SELECT id FROM users WHERE name = 'Alice'").unwrap());
    assert_eq!(
        s.filter,
        Some(cmp(
            column("name"),
            CompareOp::Eq,
            Expr::Literal(Literal::Str("Alice".to_string())),
        ))
    );
}

#[test]
fn rejects_select_without_projection() {
    assert!(parse("SELECT FROM users").is_err());
}

#[test]
fn rejects_select_without_from() {
    assert!(parse("SELECT id users").is_err());
}

#[test]
fn rejects_where_without_expression() {
    assert!(parse("SELECT id FROM users WHERE").is_err());
}

#[test]
fn rejects_limit_without_number() {
    assert!(parse("SELECT * FROM t LIMIT").is_err());
}

#[test]
fn parses_alias_and_ascending_order() {
    let s = select(parse("SELECT id AS k FROM t ORDER BY id ASC").unwrap());
    assert_eq!(
        s.projection,
        Projection::Items(vec![SelectItem {
            expr: column("id"),
            alias: Some("k".to_string()),
        }])
    );
    assert_eq!(
        s.order_by,
        Some(OrderBy {
            column: "id".to_string(),
            descending: false,
        })
    );
}

#[test]
fn error_positions_lie_within_the_input() {
    for sql in ["SELECT", "SELECT * FROM", "INSERT INTO t VALUES (1,", "CREATE TABLE t (a BLOB)"] {
        let e = parse(sql).unwrap_err();
        assert!(e.pos <= sql.len());
    }
}

#[test]
fn reserved_word_is_not_a_table_name() {
    assert!(parse("SELECT * FROM select").is_err());
}

#[test]
fn parses_function_call() {
    let s = select(parse("SELECT LENGTH(name) FROM t WHERE LENGTH(name) > 3").unwrap());
    let call = Expr::Function {
        name: "LENGTH".to_string(),
        arg: Box::new(column("name")),
    };
    assert_eq!(
        s.projection,
        Projection::Items(vec![SelectItem {
            expr: Expr::Function {
                name: "LENGTH".to_string(),
                arg: Box::new(column("name")),
            },
            alias: None,
        }])
    );
    assert_eq!(s.filter, Some(cmp(call, CompareOp::Gt, int_lit(3))));
    let e = parse("SELECT LENGTH(name FROM t").unwrap_err();
    assert_eq!(e.message, "expected ')' after function argument, found \"FROM\"");
}
