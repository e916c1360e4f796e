use skipper_db::parser::ast::{ColumnDef, CompareOp, DataType, Expr, Literal};
use skipper_db::query::plan::{LogicalPlan, ProjItem};

fn users_scan() -> LogicalPlan {
    LogicalPlan::Scan {
        table: "users".to_string(),
        columns: vec!["id".to_string(), "name".to_string(), "age".to_string()],
    }
}

#[test]
fn formats_select_tree() {
    let plan = LogicalPlan::Limit {
        count: 10,
        input: Box::new(LogicalPlan::Projection {
            items: vec![
                ProjItem {
                    expr: Expr::Column("id".to_string()),
                    name: "id".to_string(),
                },
                ProjItem {
                    expr: Expr::Column("name".to_string()),
                    name: "name".to_string(),
                },
            ],
            input: Box::new(LogicalPlan::Filter {
                predicate: Expr::Compare {
                    left: Box::new(Expr::Column("age".to_string())),
                    op: CompareOp::Gt,
                    right: Box::new(Expr::Literal(Literal::Int(18))),
                },
                input: Box::new(users_scan()),
            }),
        }),
    };

    assert_eq!(
        plan.to_string(),
        "Limit 10\n  Projection [id, name]\n    Filter [age > 18]\n      Scan users\n"
    );
}

#[test]
fn formats_create_table() {
    let plan = LogicalPlan::CreateTable {
        table: "users".to_string(),
        columns: vec![
            ColumnDef {
                name: "id".to_string(),
                ty: DataType::Int,
                nullable: false,
            },
            ColumnDef {
                name: "name".to_string(),
                ty: DataType::Text,
                nullable: true,
            },
        ],
    };
    assert_eq!(plan.to_string(), "CreateTable users [id INT, name TEXT]\n");
}

#[test]
fn formats_insert() {
    let plan = LogicalPlan::Insert {
        table: "users".to_string(),
        values: vec![
            Literal::Int(1),
            Literal::Str("Alice".to_string()),
            Literal::Null,
        ],
    };
    assert_eq!(plan.to_string(), "Insert users [1, 'Alice', NULL]\n");
}

#[test]
fn formats_or_in_parentheses_and_sort() {
    let plan = LogicalPlan::Sort {
        column: "age".to_string(),
        descending: false,
        input: Box::new(LogicalPlan::Filter {
            predicate: Expr::And(
                Box::new(Expr::Or(
                    Box::new(Expr::Compare {
                        left: Box::new(Expr::Column("a".to_string())),
                        op: CompareOp::LtEq,
                        right: Box::new(Expr::Literal(Literal::Int(-3))),
                    }),
                    Box::new(Expr::Compare {
                        left: Box::new(Expr::Column("b".to_string())),
                        op: CompareOp::NotEq,
                        right: Box::new(Expr::Literal(Literal::Null)),
                    }),
                )),
                Box::new(Expr::Compare {
                    left: Box::new(Expr::Column("c".to_string())),
                    op: CompareOp::GtEq,
                    right: Box::new(Expr::Literal(Literal::Str("x".to_string()))),
                }),
            ),
            input: Box::new(users_scan()),
        }),
    };
    assert_eq!(
        plan.to_string(),
        "Sort [age]\n  Filter [(a <= -3 OR b != NULL) AND c >= 'x']\n    Scan users\n"
    );
}
