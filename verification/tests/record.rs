use skipper_db::catalog::schema::{Column, Schema};
use skipper_db::error::Error;
use skipper_db::storage::record::{decode, encode};
use skipper_db::types::{ColumnType, Value};

fn two_column_schema() -> Schema {
    Schema::new(vec![
        Column {
            name: "id".to_string(),
            ty: ColumnType::Int,
            nullable: false,
        },
        Column {
            name: "name".to_string(),
            ty: ColumnType::Text,
            nullable: true,
        },
    ])
}

fn roundtrip(schema: &Schema, values: &[Value]) -> Vec<Value> {
    let bytes = encode(schema, values).unwrap();
    decode(schema, &bytes).unwrap()
}

#[test]
fn roundtrip_with_text() {
    let values = vec![Value::Int(7), Value::Text("alice".to_string())];
    assert_eq!(roundtrip(&two_column_schema(), &values), values);
}

#[test]
fn roundtrip_with_null() {
    let values = vec![Value::Int(-1), Value::Null];
    assert_eq!(roundtrip(&two_column_schema(), &values), values);
}

#[test]
fn rejects_wrong_arity() {
    assert!(matches!(
        encode(&two_column_schema(), &[Value::Int(1)]),
        Err(Error::RecordArity {
            expected: 2,
            got: 1
        })
    ));
}

#[test]
fn rejects_truncated_bytes() {
    let bytes = encode(&two_column_schema(), &[Value::Int(1), Value::Null]).unwrap();
    assert!(matches!(
        decode(&two_column_schema(), &bytes[..bytes.len() - 1]),
        Err(Error::MalformedRecord)
    ));
}

#[test]
fn encodes_bitmap_then_values() {
    let bytes = encode(&two_column_schema(), &[Value::Int(1), Value::Null]).unwrap();
    assert_eq!(bytes, vec![0b10, 1, 0, 0, 0, 0, 0, 0, 0]);
    let bytes = encode(&two_column_schema(), &[Value::Int(-1), Value::Text("ab".to_string())]).unwrap();
    assert_eq!(
        bytes,
        vec![0, 255, 255, 255, 255, 255, 255, 255, 255, 2, 0, 0, 0, b'a', b'b']
    );
}

#[test]
fn rejects_value_of_wrong_type() {
    match encode(&two_column_schema(), &[Value::Text("x".to_string()), Value::Null]) {
        Err(Error::TypeMismatch { column }) => assert_eq!(column, "id"),
        other => panic!("expected a type mismatch, got {other:?}"),
    }
}

#[test]
fn rejects_invalid_utf8() {
    let bytes = vec![0u8, 1, 0, 0, 0, 0, 0, 0, 0, 1, 0, 0, 0, 0xff];
    assert!(matches!(decode(&two_column_schema(), &bytes), Err(Error::MalformedRecord)));
}

#[test]
fn value_types() {
    assert_eq!(Value::Int(1).type_of(), Some(ColumnType::Int));
    assert_eq!(Value::Text(String::new()).type_of(), Some(ColumnType::Text));
    assert_eq!(Value::Null.type_of(), None);
}
