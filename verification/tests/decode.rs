use csv_parser::csv::{read_record, Field};
use csv_parser::decimal::Decimal;
use csv_parser::decode::{convert_field, decode};
use csv_parser::error::Error;
use csv_parser::schema::{resolve_schema, ColumnType, Schema};
use csv_parser::table::{Datum, Table};

fn schema(list: &[&str]) -> Schema {
    let tokens: Vec<Vec<u8>> = list.iter().map(|s| s.as_bytes().to_vec()).collect();
    resolve_schema(&tokens).unwrap()
}

fn cells(t: &Table, j: usize) -> Vec<Datum> {
    (0..t.rows).map(|i| t.columns[j].get(i)).collect()
}

fn dec(negative: bool, mantissa: u64, exponent: i32) -> Datum {
    Datum::Float(Decimal { negative, mantissa, exponent })
}

fn plain(text: &str) -> Field {
    Field { text: text.as_bytes().to_vec(), quoted: false }
}

fn quoted(text: &str) -> Field {
    Field { text: text.as_bytes().to_vec(), quoted: true }
}

#[test]
fn read_record_splits_on_commas() {
    let s = b"a,b,c\nd,e\n";
    assert_eq!(read_record(s, 0), Some((vec![plain("a"), plain("b"), plain("c")], 6)));
    assert_eq!(read_record(s, 6), Some((vec![plain("d"), plain("e")], 10)));
}

#[test]
fn read_record_reads_quoted_fields() {
    let s = b"x,\"b,c\",\"say \"\"hi\"\"\",\"two\nlines\"\nrest";
    let (fields, next) = read_record(s, 0).unwrap();
    assert_eq!(
        fields,
        vec![plain("x"), quoted("b,c"), quoted("say \"hi\""), quoted("two\nlines")]
    );
    assert_eq!(&s[next..], b"rest");
}

#[test]
fn read_record_tells_an_empty_field_from_a_quoted_empty_one() {
    assert_eq!(read_record(b",\"\"\n", 0), Some((vec![plain(""), quoted("")], 4)));
}

#[test]
fn read_record_ends_at_any_line_end_or_at_the_end() {
    assert_eq!(read_record(b"a,b\r\nc", 0), Some((vec![plain("a"), plain("b")], 5)));
    assert_eq!(read_record(b"a,b", 0), Some((vec![plain("a"), plain("b")], 3)));
    assert_eq!(read_record(b"a\rb\n", 0), Some((vec![plain("a\rb")], 4)));
    assert_eq!(read_record(b"\n", 0), Some((vec![plain("")], 1)));
}

#[test]
fn read_record_keeps_a_quote_inside_an_unquoted_field() {
    assert_eq!(read_record(b"a\"b,c\n", 0), Some((vec![plain("a\"b"), plain("c")], 6)));
}

#[test]
fn read_record_rejects_bad_quoting() {
    assert_eq!(read_record(b"\"open,1\n", 0), None);
    assert_eq!(read_record(b"\"a\"b,1\n", 0), None);
    assert_eq!(read_record(b"1,\"a\" ,2\n", 0), None);
}

#[test]
fn convert_field_reads_by_type() {
    assert_eq!(convert_field(ColumnType::Int32, &plain("12")), Some(Datum::Int(12)));
    assert_eq!(convert_field(ColumnType::Int64, &plain("-7")), Some(Datum::Int(-7)));
    assert_eq!(convert_field(ColumnType::Float32, &plain("2.5")), Some(dec(false, 25, -1)));
    assert_eq!(convert_field(ColumnType::Float64, &plain("1e3")), Some(dec(false, 1, 3)));
    assert_eq!(convert_field(ColumnType::Boolean, &plain("True")), Some(Datum::Bool(true)));
    assert_eq!(convert_field(ColumnType::Int32, &quoted("12")), Some(Datum::Int(12)));
}

#[test]
fn convert_field_takes_an_empty_unquoted_field_as_empty_cell() {
    assert_eq!(convert_field(ColumnType::Int32, &plain("")), Some(Datum::Null));
    assert_eq!(convert_field(ColumnType::Float64, &plain("")), Some(Datum::Null));
    assert_eq!(convert_field(ColumnType::Boolean, &plain("")), Some(Datum::Null));
    assert_eq!(convert_field(ColumnType::Int32, &quoted("")), None);
}

#[test]
fn convert_field_rejects_what_is_no_value_of_the_type() {
    assert_eq!(convert_field(ColumnType::Int32, &plain("2147483648")), None);
    assert_eq!(convert_field(ColumnType::Int64, &plain("1.5")), None);
    assert_eq!(convert_field(ColumnType::Float32, &plain("abc")), None);
    assert_eq!(convert_field(ColumnType::Boolean, &plain("1")), None);
}

#[test]
fn decode_reads_typed_columns() {
    let t = decode(b"id,price,ok\n1,10.5,true\n-2,9.0,FALSE\n", &schema(&["id:i64", "price:f64", "ok:bool"]), 0)
        .unwrap();
    assert_eq!(t.rows, 2);
    assert_eq!(t.columns.len(), 3);
    assert_eq!(t.columns[0].name, b"id".to_vec());
    assert_eq!(t.columns[0].column_type(), ColumnType::Int64);
    assert_eq!(cells(&t, 0), vec![Datum::Int(1), Datum::Int(-2)]);
    assert_eq!(cells(&t, 1), vec![dec(false, 105, -1), dec(false, 9, 0)]);
    assert_eq!(cells(&t, 2), vec![Datum::Bool(true), Datum::Bool(false)]);
}

#[test]
fn decode_puts_columns_in_the_order_of_the_schema() {
    let t = decode(b"price,id\n10.5,1\n9.0,2\n", &schema(&["id:i32", "price:f32"]), 0).unwrap();
    assert_eq!(t.columns[0].name, b"id".to_vec());
    assert_eq!(t.columns[1].name, b"price".to_vec());
    assert_eq!(t.columns[0].column_type(), ColumnType::Int32);
    assert_eq!(t.columns[1].column_type(), ColumnType::Float32);
    assert_eq!(cells(&t, 0), vec![Datum::Int(1), Datum::Int(2)]);
    assert_eq!(cells(&t, 1), vec![dec(false, 105, -1), dec(false, 9, 0)]);
}

#[test]
fn decode_passes_over_columns_that_are_not_declared() {
    let t = decode(b"a,note,c\n1,not a number,2\n3,\"x,y\",4\n", &schema(&["a:i64", "c:i64"]), 0)
        .unwrap();
    assert_eq!(t.columns.len(), 2);
    assert_eq!(cells(&t, 0), vec![Datum::Int(1), Datum::Int(3)]);
    assert_eq!(cells(&t, 1), vec![Datum::Int(2), Datum::Int(4)]);
}

#[test]
fn decode_reads_a_last_row_without_line_end() {
    let t = decode(b"id,price\n1,10.5\n2,9.0\n1,10.5", &schema(&["id:i64", "price:f64"]), 0).unwrap();
    assert_eq!(t.rows, 3);
    assert_eq!(cells(&t, 0), vec![Datum::Int(1), Datum::Int(2), Datum::Int(1)]);
    assert_eq!(cells(&t, 1), vec![dec(false, 105, -1), dec(false, 9, 0), dec(false, 105, -1)]);
}

#[test]
fn decode_of_a_header_alone_has_no_rows() {
    let t = decode(b"id,price\n", &schema(&["id:i64", "price:f64"]), 0).unwrap();
    assert_eq!(t.rows, 0);
    assert_eq!(t.columns.len(), 2);
    assert_eq!(t.columns[0].name, b"id".to_vec());
    assert_eq!(t.columns[1].name, b"price".to_vec());
    assert_eq!(t.columns[0].len(), 0);
    assert_eq!(t.columns[1].len(), 0);
    let t = decode(b"id,price", &schema(&["id:i64", "price:f64"]), 0).unwrap();
    assert_eq!(t.rows, 0);
}

#[test]
fn decode_of_no_text_finds_no_column() {
    let r = decode(b"", &schema(&["id:i64", "price:f64"]), 0);
    assert_eq!(r, Err(Error::UnknownColumn { name: b"id".to_vec() }));
    let t = decode(b"", &schema(&[]), 0).unwrap();
    assert_eq!(t.rows, 0);
    assert_eq!(t.columns.len(), 0);
}

#[test]
fn decode_skips_leading_lines() {
    let text = b"exported \"today\nsecond, line\nid\n5\n6\n";
    let t = decode(text, &schema(&["id:i64"]), 2).unwrap();
    assert_eq!(cells(&t, 0), vec![Datum::Int(5), Datum::Int(6)]);
    let t = decode(b"id\n5\n6\n", &schema(&["id:i64"]), 0).unwrap();
    assert_eq!(t.rows, 2);
    let r = decode(b"id\n5\n6\n", &schema(&["id:i64"]), 1);
    assert_eq!(r, Err(Error::UnknownColumn { name: b"id".to_vec() }));
    let r = decode(b"id\n5\n6\n", &schema(&["id:i64"]), 10);
    assert_eq!(r, Err(Error::UnknownColumn { name: b"id".to_vec() }));
}

#[test]
fn decode_names_row_column_and_token_of_a_bad_field() {
    let r = decode(b"id,qty\n1,2.5\n2,abc\n3,4\n", &schema(&["id:i64", "qty:f32"]), 0);
    assert_eq!(
        r,
        Err(Error::TypeCoercionError { row: 2, column: b"qty".to_vec(), token: b"abc".to_vec() })
    );
}

#[test]
fn decode_fails_on_integer_overflow() {
    let r = decode(b"n\n2147483647\n2147483648\n", &schema(&["n:i32"]), 0);
    assert_eq!(
        r,
        Err(Error::TypeCoercionError {
            row: 2,
            column: b"n".to_vec(),
            token: b"2147483648".to_vec()
        })
    );
    let r = decode(b"n\n9223372036854775808\n", &schema(&["n:i64"]), 0);
    assert_eq!(
        r,
        Err(Error::TypeCoercionError {
            row: 1,
            column: b"n".to_vec(),
            token: b"9223372036854775808".to_vec()
        })
    );
}

#[test]
fn decode_reports_the_first_bad_column_of_a_row() {
    let r = decode(b"a,b\nx,y\n", &schema(&["b:i64", "a:i64"]), 0);
    assert_eq!(
        r,
        Err(Error::TypeCoercionError { row: 1, column: b"b".to_vec(), token: b"y".to_vec() })
    );
}

#[test]
fn decode_fails_on_a_bad_boolean() {
    let r = decode(b"f\ntrue\nyes\n", &schema(&["f:bool"]), 0);
    assert_eq!(
        r,
        Err(Error::TypeCoercionError { row: 2, column: b"f".to_vec(), token: b"yes".to_vec() })
    );
}

#[test]
fn decode_fails_on_a_row_of_another_width() {
    let r = decode(b"a,b\n1,2\n3\n4,5\n", &schema(&["a:i64", "b:i64"]), 0);
    assert_eq!(r, Err(Error::MalformedRow { row: 2 }));
    let r = decode(b"a,b\n1,2,3\n", &schema(&["a:i64", "b:i64"]), 0);
    assert_eq!(r, Err(Error::MalformedRow { row: 1 }));
    let r = decode(b"a,b\n1,2,3\n", &schema(&["a:i64"]), 0);
    assert_eq!(r, Err(Error::MalformedRow { row: 1 }));
}

#[test]
fn decode_fails_on_bad_quoting() {
    let r = decode(b"a,b\n1,\"2\n", &schema(&["a:i64", "b:i64"]), 0);
    assert_eq!(r, Err(Error::MalformedRow { row: 1 }));
    let r = decode(b"\"a,b\n1,2\n", &schema(&["a:i64"]), 0);
    assert_eq!(r, Err(Error::MalformedRow { row: 0 }));
}

#[test]
fn decode_checks_the_width_before_the_fields() {
    let r = decode(b"a,b\nx\n", &schema(&["a:i64"]), 0);
    assert_eq!(r, Err(Error::MalformedRow { row: 1 }));
}

#[test]
fn decode_fails_on_a_column_that_the_header_lacks() {
    let r = decode(b"id,price\n1,2\n", &schema(&["id:i64", "ts:i64", "qty:f32"]), 0);
    assert_eq!(r, Err(Error::UnknownColumn { name: b"ts".to_vec() }));
}

#[test]
fn decode_matches_names_by_case() {
    let r = decode(b"ID\n1\n", &schema(&["id:i64"]), 0);
    assert_eq!(r, Err(Error::UnknownColumn { name: b"id".to_vec() }));
}

#[test]
fn decode_takes_the_first_of_two_fields_with_one_name() {
    let t = decode(b"a,a\n1,2\n", &schema(&["a:i64"]), 0).unwrap();
    assert_eq!(cells(&t, 0), vec![Datum::Int(1)]);
}

#[test]
fn decode_reads_empty_fields_as_empty_cells() {
    let t = decode(b"a,b,c\n,1.5,\n2,,true\n", &schema(&["a:i64", "b:f64", "c:bool"]), 0).unwrap();
    assert_eq!(cells(&t, 0), vec![Datum::Null, Datum::Int(2)]);
    assert_eq!(cells(&t, 1), vec![dec(false, 15, -1), Datum::Null]);
    assert_eq!(cells(&t, 2), vec![Datum::Null, Datum::Bool(true)]);
}

#[test]
fn decode_takes_a_quoted_empty_field_as_a_token() {
    let r = decode(b"a\n\"\"\n", &schema(&["a:i64"]), 0);
    assert_eq!(
        r,
        Err(Error::TypeCoercionError { row: 1, column: b"a".to_vec(), token: b"".to_vec() })
    );
}

#[test]
fn decode_reads_quoted_names_and_values() {
    let t = decode(b"\"a,b\",\"say \"\"x\"\"\"\n\"12\",3\n", &schema(&["say \"x\":i64", "a,b:i64"]), 0)
        .unwrap();
    assert_eq!(t.columns[0].name, b"say \"x\"".to_vec());
    assert_eq!(cells(&t, 0), vec![Datum::Int(3)]);
    assert_eq!(cells(&t, 1), vec![Datum::Int(12)]);
}

#[test]
fn decode_reads_lines_that_end_in_carriage_return_and_line_feed() {
    let t = decode(b"a,b\r\n1,2\r\n3,4\r\n", &schema(&["a:i64", "b:i64"]), 0).unwrap();
    assert_eq!(cells(&t, 0), vec![Datum::Int(1), Datum::Int(3)]);
    assert_eq!(cells(&t, 1), vec![Datum::Int(2), Datum::Int(4)]);
}

#[test]
fn decode_takes_a_blank_line_as_a_record_of_one_empty_field() {
    let t = decode(b"a\n1\n\n2\n", &schema(&["a:i64"]), 0).unwrap();
    assert_eq!(cells(&t, 0), vec![Datum::Int(1), Datum::Null, Datum::Int(2)]);
    let r = decode(b"a,b\n1,2\n\n", &schema(&["a:i64"]), 0);
    assert_eq!(r, Err(Error::MalformedRow { row: 2 }));
}

#[test]
fn decode_counts_rows_without_declared_columns() {
    let t = decode(b"a,b\n1,2\n3,4\n", &schema(&[]), 0).unwrap();
    assert_eq!(t.rows, 2);
    assert_eq!(t.columns.len(), 0);
}
