use skipper_db::parser::ast::{ColumnDef, CompareOp, DataType, Expr, Literal};
use skipper_db::query::physical::{from_logical, PhysicalPlan};
use skipper_db::query::plan::{LogicalPlan, ProjItem};

fn scan() -> LogicalPlan {
    LogicalPlan::Scan {
        table: "users".to_string(),
        columns: vec!["id".to_string(), "name".to_string(), "age".to_string()],
    }
}

fn item(name: &str) -> ProjItem {
    ProjItem {
        expr: Expr::Column(name.to_string()),
        name: name.to_string(),
    }
}

#[test]
fn lowers_and_formats_select() {
    let logical = LogicalPlan::Limit {
        count: 10,
        input: Box::new(LogicalPlan::Projection {
            items: vec![item("id"), item("name")],
            input: Box::new(LogicalPlan::Filter {
                predicate: Expr::Compare {
                    left: Box::new(Expr::Column("age".to_string())),
                    op: CompareOp::Gt,
                    right: Box::new(Expr::Literal(Literal::Int(18))),
                },
                input: Box::new(scan()),
            }),
        }),
    };

    assert_eq!(
        from_logical(logical).to_string(),
        "LimitExec 10\n  ProjectionExec [id, name]\n    FilterExec [age > 18]\n      TableScanExec users\n"
    );
}

#[test]
fn lowers_create_table() {
    let logical = LogicalPlan::CreateTable {
        table: "users".to_string(),
        columns: vec![ColumnDef {
            name: "id".to_string(),
            ty: DataType::Int,
            nullable: false,
        }],
    };
    assert_eq!(
        from_logical(logical).to_string(),
        "CreateTableExec users [id INT]\n"
    );
}

#[test]
fn lowering_keeps_every_node() {
    let logical = LogicalPlan::Sort {
        column: "name".to_string(),
        descending: true,
        input: Box::new(scan()),
    };
    assert_eq!(
        from_logical(logical),
        PhysicalPlan::SortExec {
            column: "name".to_string(),
            descending: true,
            input: Box::new(PhysicalPlan::TableScanExec {
                table: "users".to_string(),
                columns: vec!["id".to_string(), "name".to_string(), "age".to_string()],
            }),
        }
    );
    let insert = LogicalPlan::Insert {
        table: "t".to_string(),
        values: vec![Literal::Int(1), Literal::Null],
    };
    assert_eq!(
        from_logical(insert).to_string(),
        "InsertExec t [1, NULL]\n"
    );
}
