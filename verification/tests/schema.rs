use skipper_db::catalog::schema::{Column, Schema};
use skipper_db::error::Error;
use skipper_db::types::ColumnType;

fn sample() -> Schema {
    Schema::new(vec![
        Column {
            name: "id".to_string(),
            ty: ColumnType::Int,
            nullable: false,
        },
        Column {
            name: "name".to_string(),
            ty: ColumnType::Text,
            nullable: true,
        },
    ])
}

#[test]
fn schema_serialize_roundtrip() {
    let s = sample();
    assert_eq!(Schema::deserialize(&s.serialize()).unwrap(), s);
}

#[test]
fn schema_binary_form() {
    assert_eq!(
        sample().serialize(),
        vec![2, 0, 0, 0, 2, 0, 0, 0, b'i', b'd', 0, 0, 4, 0, 0, 0, b'n', b'a', b'm', b'e', 1, 1]
    );
}

#[test]
fn schema_rejects_trailing_and_truncated_bytes() {
    let mut b = sample().serialize();
    b.push(0);
    assert!(matches!(Schema::deserialize(&b), Err(Error::MalformedSchema)));
    let b = sample().serialize();
    assert!(matches!(Schema::deserialize(&b[..b.len() - 1]), Err(Error::MalformedSchema)));
    assert!(matches!(Schema::deserialize(&[1, 0]), Err(Error::MalformedSchema)));
}

#[test]
fn column_index_finds_first_match() {
    let s = sample();
    assert_eq!(s.column_index("name"), Some(1));
    assert_eq!(s.column_index("zzz"), None);
}
