use skipper_db::cli::{format_result, format_value, Cli, Command};
use skipper_db::query::exec::ResultSet;
use skipper_db::types::Value;

#[test]
fn values_show_plainly() {
    assert_eq!(format_value(&Value::Int(-12)), "-12");
    assert_eq!(format_value(&Value::Text("Bob".to_string())), "Bob");
    assert_eq!(format_value(&Value::Null), "NULL");
}

#[test]
fn result_shows_header_then_rows() {
    let rs = ResultSet {
        columns: vec!["id".to_string(), "name".to_string()],
        rows: vec![
            vec![Value::Int(1), Value::Text("Alice".to_string())],
            vec![Value::Int(2), Value::Null],
        ],
    };
    assert_eq!(format_result(&rs), "id | name\n1 | Alice\n2 | NULL\n");
}

#[test]
fn command_line_value() {
    let cli = Cli {
        command: Command::Parse {
            query: "SELECT 1".to_string(),
        },
        debug: false,
    };
    assert_eq!(cli.clone(), cli);
}
