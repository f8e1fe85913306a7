use csv_parser::convert::{build_table, convert, Config};
use csv_parser::decimal::Decimal;
use csv_parser::decode::decode;
use csv_parser::error::Error;
use csv_parser::reference::encode_reference_csv;
use csv_parser::schema::{resolve_schema, Schema};
use csv_parser::table::{Datum, Table};
use csv_parser::writer::{column_range, pack_bytes, write_table, FORMAT_VERSION};

fn names(list: &[&str]) -> Vec<Vec<u8>> {
    list.iter().map(|s| s.as_bytes().to_vec()).collect()
}

fn schema(list: &[&str]) -> Schema {
    resolve_schema(&names(list)).unwrap()
}

fn table(text: &str, columns: &[&str]) -> Table {
    decode(text.as_bytes(), &schema(columns), 0).unwrap()
}

fn cells(t: &Table, j: usize) -> Vec<Datum> {
    (0..t.rows).map(|i| t.columns[j].get(i)).collect()
}

fn le(v: u64, width: usize) -> Vec<u8> {
    v.to_le_bytes()[..width].to_vec()
}

fn unpack(packed: &[u8]) -> Vec<u8> {
    let mut out = Vec::new();
    for pair in packed.chunks(2) {
        for _ in 0..pair[0] {
            out.push(pair[1]);
        }
    }
    out
}

fn config(columns: &[&str], select: &[&str], sort: &[&str]) -> Config {
    Config { columns: names(columns), skip_rows: 0, select: names(select), sort: names(sort) }
}

#[test]
fn pack_bytes_writes_runs() {
    assert_eq!(pack_bytes(&[]), Vec::<u8>::new());
    assert_eq!(pack_bytes(&[7]), vec![1, 7]);
    assert_eq!(pack_bytes(&[0, 0, 0, 1]), vec![3, 0, 1, 1]);
    assert_eq!(pack_bytes(&[1, 2, 2, 3, 3, 3]), vec![1, 1, 2, 2, 3, 3]);
}

#[test]
fn pack_bytes_cuts_a_run_at_255() {
    assert_eq!(pack_bytes(&vec![0u8; 255]), vec![255, 0]);
    assert_eq!(pack_bytes(&vec![0u8; 256]), vec![255, 0, 1, 0]);
    assert_eq!(pack_bytes(&vec![9u8; 600]), vec![255, 9, 255, 9, 90, 9]);
}

#[test]
fn pack_bytes_loses_nothing() {
    let mut raw: Vec<u8> = Vec::new();
    let mut state: u32 = 7;
    for _ in 0..5000 {
        state = state.wrapping_mul(1103515245).wrapping_add(12345);
        let b = ((state >> 16) % 3) as u8;
        let n = (state >> 20) % 400;
        for _ in 0..n {
            raw.push(b);
        }
    }
    assert_eq!(unpack(&pack_bytes(&raw)), raw);
}

#[test]
fn column_range_gives_nulls_smallest_and_largest() {
    let t = table("a,b\n5,\n,\n-3,\n9,\n-3,\n", &["a:i64", "b:f64"]);
    assert_eq!(column_range(&t.columns[0]), (1, Datum::Int(-3), Datum::Int(9)));
    assert_eq!(column_range(&t.columns[1]), (5, Datum::Null, Datum::Null));
    let t = table("x\n10.5\n9.0\n1e1\n", &["x:f32"]);
    assert_eq!(
        column_range(&t.columns[0]),
        (
            0,
            Datum::Float(Decimal { negative: false, mantissa: 9, exponent: 0 }),
            Datum::Float(Decimal { negative: false, mantissa: 105, exponent: -1 })
        )
    );
}

#[test]
fn write_table_gives_the_exact_bytes() {
    let t = table("a\n1\n\n", &["a:i32"]);
    let mut want: Vec<u8> = Vec::new();
    want.extend(b"CTBL");
    want.extend(le(1, 2));
    want.extend(le(1, 8));
    want.extend(le(1, 8));
    want.extend(b"a");
    want.push(1);
    want.extend(le(1, 4));
    want.extend(le(2, 8));
    want.extend(le(1, 8));
    want.push(1);
    want.extend([1, 0, 0, 0]);
    want.extend([1, 0, 0, 0]);
    want.extend(le(2, 8));
    want.extend(le(4, 8));
    want.extend([1, 0, 1, 1]);
    want.extend(le(8, 8));
    want.extend(le(4, 8));
    want.extend([1, 1, 7, 0]);
    assert_eq!(write_table(&t), want);
    assert_eq!(FORMAT_VERSION, 1);
}

#[test]
fn write_table_writes_each_type() {
    let t = table("i,l,f,b\n-1,-2,-2.5,true\n", &["i:i32", "l:i64", "f:f64", "b:bool"]);
    let bytes = write_table(&t);
    let mut want: Vec<u8> = Vec::new();
    want.extend(b"CTBL");
    want.extend(le(1, 2));
    want.extend(le(4, 8));
    for (name, tag) in [("i", 1u8), ("l", 2), ("f", 4), ("b", 5)] {
        want.extend(le(1, 8));
        want.extend(name.as_bytes());
        want.push(tag);
    }
    want.extend(le(1, 4));
    want.extend(le(1, 8));
    let minus_one_32 = vec![255u8; 4];
    let minus_two_64 = {
        let mut v = vec![255u8; 8];
        v[0] = 254;
        v
    };
    let decimal = {
        let mut v = vec![1u8];
        v.extend(le(25, 8));
        v.extend([255, 255, 255, 255]);
        v
    };
    let yes = vec![1u8];
    for value in [minus_one_32, minus_two_64, decimal, yes] {
        want.extend(le(0, 8));
        want.push(1);
        want.extend(&value);
        want.extend(&value);
        want.extend(le(1, 8));
        want.extend(le(2, 8));
        want.extend([1, 0]);
        let packed = pack_bytes(&value);
        want.extend(le(value.len() as u64, 8));
        want.extend(le(packed.len() as u64, 8));
        want.extend(&packed);
    }
    assert_eq!(bytes, want);
}

#[test]
fn write_table_of_a_header_alone_holds_the_schema_and_no_rows() {
    let t = table("id,price\n", &["id:i64", "price:f64"]);
    let mut want: Vec<u8> = Vec::new();
    want.extend(b"CTBL");
    want.extend(le(1, 2));
    want.extend(le(2, 8));
    want.extend(le(2, 8));
    want.extend(b"id");
    want.push(2);
    want.extend(le(5, 8));
    want.extend(b"price");
    want.push(4);
    want.extend(le(1, 4));
    want.extend(le(0, 8));
    for _ in 0..2 {
        want.extend(le(0, 8));
        want.push(0);
        want.extend(le(0, 8));
        want.extend(le(0, 8));
        want.extend(le(0, 8));
        want.extend(le(0, 8));
    }
    assert_eq!(write_table(&t), want);
}

#[test]
fn build_table_decodes_projects_and_sorts() {
    let c = config(&["id:i64", "price:f64", "qty:i32"], &["price", "id"], &["id"]);
    let t = build_table(&c, b"id,qty,price\n2,1,9.0\n1,2,10.5\n1,3,0.5\n").unwrap();
    assert_eq!(t.columns.len(), 2);
    assert_eq!(t.columns[0].name, b"price".to_vec());
    assert_eq!(t.columns[1].name, b"id".to_vec());
    assert_eq!(cells(&t, 1), vec![Datum::Int(1), Datum::Int(1), Datum::Int(2)]);
    assert_eq!(
        cells(&t, 0),
        vec![
            Datum::Float(Decimal { negative: false, mantissa: 105, exponent: -1 }),
            Datum::Float(Decimal { negative: false, mantissa: 5, exponent: -1 }),
            Datum::Float(Decimal { negative: false, mantissa: 9, exponent: 0 })
        ]
    );
}

#[test]
fn build_table_skips_the_lines_before_the_header() {
    let mut c = config(&["id:i64"], &["id"], &[]);
    c.skip_rows = 1;
    let t = build_table(&c, b"made by hand\nid\n4\n").unwrap();
    assert_eq!(cells(&t, 0), vec![Datum::Int(4)]);
}

#[test]
fn convert_writes_the_table_that_was_built() {
    let c = config(&["id:i64", "price:f64"], &["id", "price"], &["id"]);
    let text = b"id,price\n1,10.5\n2,9.0\n1,10.5";
    let bytes = convert(&c, text).unwrap();
    assert_eq!(&bytes[..4], b"CTBL");
    assert_eq!(bytes, write_table(&build_table(&c, text).unwrap()));
    let sorted = table("id,price\n1,10.5\n1,10.5\n2,9.0\n", &["id:i64", "price:f64"]);
    assert_eq!(bytes, write_table(&sorted));
}

#[test]
fn convert_of_a_header_alone_writes_a_file_without_rows() {
    let c = config(&["id:i64", "price:f64"], &["id", "price"], &["id"]);
    let bytes = convert(&c, b"id,price\n").unwrap();
    assert_eq!(bytes, write_table(&table("id,price\n", &["id:i64", "price:f64"])));
}

#[test]
fn convert_fails_on_a_bad_schema_before_reading() {
    let c = config(&["id:i64", "price:money"], &["id"], &["id"]);
    assert_eq!(convert(&c, b"\"broken"), Err(Error::InvalidSchema { index: 1 }));
}

#[test]
fn convert_fails_on_a_bad_field() {
    let c = config(&["id:i64", "qty:f32"], &["id", "qty"], &["id"]);
    assert_eq!(
        convert(&c, b"id,qty\n1,abc\n"),
        Err(Error::TypeCoercionError { row: 1, column: b"qty".to_vec(), token: b"abc".to_vec() })
    );
}

#[test]
fn convert_fails_on_an_unknown_selected_column_before_sorting() {
    let c = config(&["id:i64", "price:f64"], &["id", "ts"], &["nothing"]);
    assert_eq!(
        convert(&c, b"id,price\n1,2\n"),
        Err(Error::UnknownColumn { name: b"ts".to_vec() })
    );
}

#[test]
fn convert_fails_on_a_sort_key_that_was_not_selected() {
    let c = config(&["id:i64", "price:f64"], &["price"], &["id"]);
    assert_eq!(
        convert(&c, b"id,price\n1,2\n"),
        Err(Error::UnknownColumn { name: b"id".to_vec() })
    );
}

#[test]
fn convert_fails_on_a_malformed_row() {
    let c = config(&["id:i64"], &["id"], &[]);
    assert_eq!(convert(&c, b"id,x\n1\n"), Err(Error::MalformedRow { row: 1 }));
}

#[test]
fn encode_reference_csv_writes_header_and_rows() {
    let t = table(
        "n,x,f\n-5,10.50,TRUE\n,,\n0,-1e-3,false\n",
        &["n:i64", "x:f64", "f:bool"],
    );
    assert_eq!(
        String::from_utf8(encode_reference_csv(&t)).unwrap(),
        "n,x,f\n-5,105e-1,true\n,,\n0,-1e-3,false\n"
    );
}

#[test]
fn encode_reference_csv_quotes_names_where_it_must() {
    let t = table("\"a,b\",\"q\"\"\",c\n1,2,3\n", &["a,b:i64", "q\":i64", "c:i64"]);
    assert_eq!(
        String::from_utf8(encode_reference_csv(&t)).unwrap(),
        "\"a,b\",\"q\"\"\",c\n1,2,3\n"
    );
}

#[test]
fn decode_reads_back_what_encode_reference_csv_wrote() {
    let columns = ["i:i32", "l:i64", "f:f32", "d:f64", "b:bool", "odd,\"name\":i64"];
    let text = "i,l,f,d,b,\"odd,\"\"name\"\"\"\n\
                2147483647,-9223372036854775808,0.001,1e300,true,1\n\
                ,,,,,\n\
                -2147483648,9223372036854775807,-18446744073709551615,-0,False,\n\
                0,0,12300,4.5E-10,FALSE,-7\n";
    let t = table(text, &columns);
    let written = encode_reference_csv(&t);
    let back = decode(&written, &schema(&columns), 0).unwrap();
    assert_eq!(back, t);
    assert_eq!(encode_reference_csv(&back), written);
}

#[test]
fn decode_reads_back_a_table_without_columns() {
    let t = table("a\n1\n2\n", &[]);
    assert_eq!(t.rows, 2);
    let written = encode_reference_csv(&t);
    assert_eq!(written, b"\n\n\n".to_vec());
    let back = decode(&written, &schema(&[]), 0).unwrap();
    assert_eq!(back, t);
}

fn take<'a>(bytes: &'a [u8], at: &mut usize, n: usize) -> &'a [u8] {
    let part = &bytes[*at..*at + n];
    *at += n;
    part
}

fn number(bytes: &[u8], at: &mut usize, width: usize) -> u64 {
    let mut raw = [0u8; 8];
    raw[..width].copy_from_slice(take(bytes, at, width));
    u64::from_le_bytes(raw)
}

fn block(bytes: &[u8], at: &mut usize) -> Vec<u8> {
    let unpacked = number(bytes, at, 8) as usize;
    let packed = number(bytes, at, 8) as usize;
    let raw = unpack(take(bytes, at, packed));
    assert_eq!(raw.len(), unpacked);
    raw
}

fn value(tag: u8, raw: &[u8]) -> Datum {
    match tag {
        1 => Datum::Int(i32::from_le_bytes(raw[..4].try_into().unwrap()) as i64),
        2 => Datum::Int(i64::from_le_bytes(raw[..8].try_into().unwrap())),
        3 | 4 => Datum::Float(Decimal {
            negative: raw[0] == 1,
            mantissa: u64::from_le_bytes(raw[1..9].try_into().unwrap()),
            exponent: i32::from_le_bytes(raw[9..13].try_into().unwrap()),
        }),
        _ => Datum::Bool(raw[0] == 1),
    }
}

fn read_back(bytes: &[u8]) -> (usize, Vec<(Vec<u8>, u8, Vec<Datum>)>) {
    let mut at = 0;
    assert_eq!(take(bytes, &mut at, 4), b"CTBL");
    assert_eq!(number(bytes, &mut at, 2), 1);
    let count = number(bytes, &mut at, 8) as usize;
    let mut columns = Vec::new();
    for _ in 0..count {
        let n = number(bytes, &mut at, 8) as usize;
        let name = take(bytes, &mut at, n).to_vec();
        let tag = take(bytes, &mut at, 1)[0];
        columns.push((name, tag, Vec::new()));
    }
    assert_eq!(number(bytes, &mut at, 4), 1);
    let rows = number(bytes, &mut at, 8) as usize;
    for column in columns.iter_mut() {
        let width = match column.1 {
            1 => 4,
            2 => 8,
            3 | 4 => 13,
            _ => 1,
        };
        let nulls = number(bytes, &mut at, 8) as usize;
        if take(bytes, &mut at, 1)[0] == 1 {
            take(bytes, &mut at, 2 * width);
        }
        let marks = block(bytes, &mut at);
        let values = block(bytes, &mut at);
        assert_eq!(marks.len(), rows);
        assert_eq!(values.len(), rows * width);
        assert_eq!(marks.iter().filter(|m| **m == 1).count(), nulls);
        for i in 0..rows {
            column.2.push(if marks[i] == 1 {
                Datum::Null
            } else {
                value(column.1, &values[i * width..])
            });
        }
    }
    assert_eq!(at, bytes.len());
    (rows, columns)
}

#[test]
fn write_table_can_be_read_back() {
    let columns = ["i:i32", "l:i64", "f:f32", "d:f64", "b:bool"];
    let text = "i,l,f,d,b\n\
                2147483647,-9223372036854775808,0.001,1e300,true\n\
                ,,,,\n\
                -2147483648,9223372036854775807,-18446744073709551615,-7e-2147483648,False\n\
                0,0,12300,4.5E-10,FALSE\n\
                -1,-1,-1,-1,true\n";
    let t = table(text, &columns);
    let (rows, read) = read_back(&write_table(&t));
    assert_eq!(rows, 5);
    assert_eq!(read.len(), 5);
    for (j, (name, tag, data)) in read.iter().enumerate() {
        assert_eq!(name, &t.columns[j].name);
        assert_eq!(*tag as usize, j + 1);
        assert_eq!(data, &cells(&t, j));
    }
}

#[test]
fn write_table_of_many_rows_can_be_read_back() {
    let mut text = String::from("k,x\n");
    let mut state: u64 = 99;
    for _ in 0..3000 {
        state = state.wrapping_mul(6364136223846793005).wrapping_add(1442695040888963407);
        let k = (state >> 40) as i64 % 10;
        if k == 3 {
            text.push_str(",\n");
        } else {
            text.push_str(&format!("{},{}.{}\n", k - 5, k, state % 100));
        }
    }
    let t = table(&text, &["k:i64", "x:f64"]);
    let (rows, read) = read_back(&write_table(&t));
    assert_eq!(rows, 3000);
    assert_eq!(read[0].2, cells(&t, 0));
    assert_eq!(read[1].2, cells(&t, 1));
}
