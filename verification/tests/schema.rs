use csv_parser::error::Error;
use csv_parser::schema::{parse_column, parse_type, resolve_schema, ColumnSpec, ColumnType};

fn tokens(list: &[&str]) -> Vec<Vec<u8>> {
    list.iter().map(|s| s.as_bytes().to_vec()).collect()
}

#[test]
fn parse_type_knows_the_five_types() {
    assert_eq!(parse_type(b"i32"), Some(ColumnType::Int32));
    assert_eq!(parse_type(b"i64"), Some(ColumnType::Int64));
    assert_eq!(parse_type(b"f32"), Some(ColumnType::Float32));
    assert_eq!(parse_type(b"f64"), Some(ColumnType::Float64));
    assert_eq!(parse_type(b"bool"), Some(ColumnType::Boolean));
}

#[test]
fn parse_type_rejects_other_strings() {
    assert_eq!(parse_type(b""), None);
    assert_eq!(parse_type(b"I64"), None);
    assert_eq!(parse_type(b"i16"), None);
    assert_eq!(parse_type(b"boo"), None);
    assert_eq!(parse_type(b"bool "), None);
    assert_eq!(parse_type(b"timestamp[ms]"), None);
}

#[test]
fn parse_column_reads_name_and_type() {
    assert_eq!(
        parse_column(b"trade_id:i64"),
        Some(ColumnSpec { name: b"trade_id".to_vec(), ty: ColumnType::Int64 })
    );
    assert_eq!(
        parse_column(b"price:f32"),
        Some(ColumnSpec { name: b"price".to_vec(), ty: ColumnType::Float32 })
    );
    assert_eq!(
        parse_column(b"is_bid:bool"),
        Some(ColumnSpec { name: b"is_bid".to_vec(), ty: ColumnType::Boolean })
    );
}

#[test]
fn parse_column_takes_the_type_up_to_a_second_colon() {
    assert_eq!(
        parse_column(b"a:i32:rest"),
        Some(ColumnSpec { name: b"a".to_vec(), ty: ColumnType::Int32 })
    );
}

#[test]
fn parse_column_rejects_a_missing_name() {
    assert_eq!(parse_column(b":i64"), None);
}

#[test]
fn parse_column_rejects_a_missing_type() {
    assert_eq!(parse_column(b"price"), None);
    assert_eq!(parse_column(b"price:"), None);
    assert_eq!(parse_column(b""), None);
}

#[test]
fn parse_column_rejects_an_unknown_type() {
    assert_eq!(parse_column(b"ts:timestamp[ms]"), None);
    assert_eq!(parse_column(b"qty:float"), None);
}

#[test]
fn resolve_schema_keeps_the_order_of_the_declarations() {
    let schema = resolve_schema(&tokens(&["b:f64", "a:i64", "c:bool"])).unwrap();
    assert_eq!(schema.columns.len(), 3);
    assert_eq!(schema.columns[0], ColumnSpec { name: b"b".to_vec(), ty: ColumnType::Float64 });
    assert_eq!(schema.columns[1], ColumnSpec { name: b"a".to_vec(), ty: ColumnType::Int64 });
    assert_eq!(schema.columns[2], ColumnSpec { name: b"c".to_vec(), ty: ColumnType::Boolean });
}

#[test]
fn resolve_schema_of_nothing_is_empty() {
    let schema = resolve_schema(&tokens(&[])).unwrap();
    assert_eq!(schema.columns.len(), 0);
}

#[test]
fn resolve_schema_names_the_first_bad_declaration() {
    let r = resolve_schema(&tokens(&["a:i64", "b:text", ":i32"]));
    assert_eq!(r, Err(Error::InvalidSchema { index: 1 }));
    let r = resolve_schema(&tokens(&["a:i64", "b:i32", "nocolon"]));
    assert_eq!(r, Err(Error::InvalidSchema { index: 2 }));
}

#[test]
fn resolve_schema_rejects_a_repeated_name() {
    let r = resolve_schema(&tokens(&["a:i64", "b:i32", "a:f64"]));
    assert_eq!(r, Err(Error::InvalidSchema { index: 2 }));
}
