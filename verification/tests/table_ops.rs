use csv_parser::decimal::Decimal;
use csv_parser::decode::decode;
use csv_parser::error::Error;
use csv_parser::project::{find_column, project};
use csv_parser::schema::{resolve_schema, ColumnType, Schema};
use csv_parser::sort::{is_orderable, sort};
use csv_parser::table::{Column, Datum, Table};

fn names(list: &[&str]) -> Vec<Vec<u8>> {
    list.iter().map(|s| s.as_bytes().to_vec()).collect()
}

fn schema(list: &[&str]) -> Schema {
    resolve_schema(&names(list)).unwrap()
}

fn table(text: &str, columns: &[&str]) -> Table {
    decode(text.as_bytes(), &schema(columns), 0).unwrap()
}

fn cells(t: &Table, j: usize) -> Vec<Datum> {
    (0..t.rows).map(|i| t.columns[j].get(i)).collect()
}

fn ints(list: &[i64]) -> Vec<Datum> {
    list.iter().map(|v| Datum::Int(*v)).collect()
}

fn dec(mantissa: u64, exponent: i32) -> Datum {
    Datum::Float(Decimal { negative: false, mantissa, exponent })
}

fn column_names(t: &Table) -> Vec<Vec<u8>> {
    t.columns.iter().map(|c| c.name.clone()).collect()
}

#[test]
fn column_new_push_get() {
    let mut c = Column::new(b"n".to_vec(), ColumnType::Int32);
    assert_eq!(c.len(), 0);
    assert!(c.push(Datum::Int(5)));
    assert!(c.push(Datum::Null));
    assert!(!c.push(Datum::Int(1 << 40)));
    assert!(!c.push(Datum::Bool(true)));
    assert_eq!(c.len(), 2);
    assert_eq!(c.get(0), Datum::Int(5));
    assert_eq!(c.get(1), Datum::Null);
    assert_eq!(c.column_type(), ColumnType::Int32);
    assert_eq!(c.duplicate(), c);
}

#[test]
fn column_permuted_takes_rows_in_the_given_order() {
    let mut c = Column::new(b"n".to_vec(), ColumnType::Int64);
    for v in [10, 20, 30] {
        assert!(c.push(Datum::Int(v)));
    }
    let p = c.permuted(&vec![2, 0, 1, 0]);
    assert_eq!(p.name, b"n".to_vec());
    assert_eq!(
        (0..p.len()).map(|i| p.get(i)).collect::<Vec<_>>(),
        ints(&[30, 10, 20, 10])
    );
}

#[test]
fn table_push_row_checks_width_and_types() {
    let mut t = Table::new(&schema(&["a:i32", "b:bool"]));
    assert_eq!(t.row_count(), 0);
    assert_eq!(t.column_count(), 2);
    assert!(t.push_row(&vec![Datum::Int(1), Datum::Bool(true)]));
    assert!(!t.push_row(&vec![Datum::Int(1)]));
    assert!(!t.push_row(&vec![Datum::Bool(true), Datum::Bool(true)]));
    assert!(!t.push_row(&vec![Datum::Int(1), Datum::Int(1)]));
    assert!(t.push_row(&vec![Datum::Null, Datum::Null]));
    assert_eq!(t.row_count(), 2);
    assert_eq!(cells(&t, 0), vec![Datum::Int(1), Datum::Null]);
    assert_eq!(cells(&t, 1), vec![Datum::Bool(true), Datum::Null]);
}

#[test]
fn find_column_gives_the_first_place_of_a_name() {
    let t = table("a,b,c\n1,2,3\n", &["a:i64", "b:i64", "c:i64"]);
    assert_eq!(find_column(&t, b"a"), 0);
    assert_eq!(find_column(&t, b"c"), 2);
    assert_eq!(find_column(&t, b"d"), 3);
}

#[test]
fn project_orders_columns_as_requested() {
    let one = table("a,b\n1,2\n3,4\n", &["a:i64", "b:i64"]);
    let other = table("a,b\n1,2\n3,4\n", &["b:i64", "a:i64"]);
    assert_eq!(column_names(&one), names(&["a", "b"]));
    assert_eq!(column_names(&other), names(&["b", "a"]));
    let p = project(&one, &names(&["b", "a"])).unwrap();
    let q = project(&other, &names(&["b", "a"])).unwrap();
    assert_eq!(column_names(&p), names(&["b", "a"]));
    assert_eq!(cells(&p, 0), ints(&[2, 4]));
    assert_eq!(cells(&p, 1), ints(&[1, 3]));
    assert_eq!(p, q);
}

#[test]
fn project_keeps_a_subset() {
    let t = table("a,b,c\n1,2,3\n4,5,6\n", &["a:i64", "b:i64", "c:i64"]);
    let p = project(&t, &names(&["c"])).unwrap();
    assert_eq!(column_names(&p), names(&["c"]));
    assert_eq!(cells(&p, 0), ints(&[3, 6]));
    assert_eq!(p.rows, 2);
}

#[test]
fn project_repeats_a_column_that_is_named_twice() {
    let t = table("a,b\n1,2\n3,4\n", &["a:i64", "b:i64"]);
    let p = project(&t, &names(&["a", "b", "a"])).unwrap();
    assert_eq!(column_names(&p), names(&["a", "b", "a"]));
    assert_eq!(cells(&p, 0), ints(&[1, 3]));
    assert_eq!(cells(&p, 2), ints(&[1, 3]));
}

#[test]
fn project_fails_on_an_unknown_column() {
    let t = table("id,price\n1,2\n", &["id:i64", "price:f64"]);
    let r = project(&t, &names(&["id", "ts"]));
    assert_eq!(r, Err(Error::UnknownColumn { name: b"ts".to_vec() }));
    let r = project(&t, &names(&["x", "id", "y"]));
    assert_eq!(r, Err(Error::UnknownColumn { name: b"x".to_vec() }));
}

#[test]
fn project_keeps_the_row_count() {
    let t = table("a,b\n1,2\n3,4\n5,6\n", &["a:i64", "b:i64"]);
    assert_eq!(project(&t, &names(&["b"])).unwrap().rows, 3);
    let none = project(&t, &names(&[])).unwrap();
    assert_eq!(none.rows, 3);
    assert_eq!(none.columns.len(), 0);
}

#[test]
fn sort_orders_rows_and_keeps_ties_in_place() {
    let mut t = table("id,price\n1,10.5\n2,9.0\n1,10.5", &["id:i64", "price:f64"]);
    let order = sort(&mut t, &names(&["id"])).unwrap();
    assert_eq!(order, vec![0, 2, 1]);
    assert_eq!(cells(&t, 0), ints(&[1, 1, 2]));
    assert_eq!(cells(&t, 1), vec![dec(105, -1), dec(105, -1), dec(9, 0)]);
}

#[test]
fn sort_is_stable() {
    let mut t = table(
        "k,tag\n2,0\n1,1\n2,2\n1,3\n3,4\n1,5\n2,6\n",
        &["k:i64", "tag:i64"],
    );
    let order = sort(&mut t, &names(&["k"])).unwrap();
    assert_eq!(order, vec![1, 3, 5, 0, 2, 6, 4]);
    assert_eq!(cells(&t, 0), ints(&[1, 1, 1, 2, 2, 2, 3]));
    assert_eq!(cells(&t, 1), ints(&[1, 3, 5, 0, 2, 6, 4]));
}

#[test]
fn sort_is_idempotent() {
    let mut t = table(
        "k,tag\n2,0\n1,1\n2,2\n1,3\n3,4\n1,5\n2,6\n",
        &["k:i64", "tag:i64"],
    );
    sort(&mut t, &names(&["k"])).unwrap();
    let once = project(&t, &names(&["k", "tag"])).unwrap();
    let order = sort(&mut t, &names(&["k"])).unwrap();
    assert_eq!(order, vec![0, 1, 2, 3, 4, 5, 6]);
    assert_eq!(t, once);
}

#[test]
fn sort_by_several_keys_lets_the_first_decide() {
    let mut t = table(
        "a,b,tag\n2,1,0\n1,9,1\n2,0,2\n1,3,3\n1,3,4\n",
        &["a:i64", "b:i64", "tag:i64"],
    );
    let order = sort(&mut t, &names(&["a", "b"])).unwrap();
    assert_eq!(order, vec![3, 4, 1, 2, 0]);
    assert_eq!(cells(&t, 0), ints(&[1, 1, 1, 2, 2]));
    assert_eq!(cells(&t, 1), ints(&[3, 3, 9, 0, 1]));
    assert_eq!(cells(&t, 2), ints(&[3, 4, 1, 2, 0]));
}

#[test]
fn sort_puts_empty_cells_first() {
    let mut t = table("k,tag\n5,0\n,1\n-3,2\n,3\n", &["k:i64", "tag:i64"]);
    let order = sort(&mut t, &names(&["k"])).unwrap();
    assert_eq!(order, vec![1, 3, 2, 0]);
    assert_eq!(cells(&t, 0), vec![Datum::Null, Datum::Null, Datum::Int(-3), Datum::Int(5)]);
}

#[test]
fn sort_orders_decimals_and_booleans() {
    let mut t = table(
        "x,f\n10.5,true\n9.0,false\n-1e2,true\n0.05,false\n1e1,false\n",
        &["x:f64", "f:bool"],
    );
    let order = sort(&mut t, &names(&["x"])).unwrap();
    assert_eq!(order, vec![2, 3, 1, 4, 0]);
    let order = sort(&mut t, &names(&["f", "x"])).unwrap();
    assert_eq!(order, vec![1, 2, 3, 0, 4]);
    assert_eq!(
        cells(&t, 1),
        vec![
            Datum::Bool(false),
            Datum::Bool(false),
            Datum::Bool(false),
            Datum::Bool(true),
            Datum::Bool(true)
        ]
    );
}

#[test]
fn sort_without_keys_keeps_the_order() {
    let mut t = table("a\n3\n1\n2\n", &["a:i64"]);
    let order = sort(&mut t, &names(&[])).unwrap();
    assert_eq!(order, vec![0, 1, 2]);
    assert_eq!(cells(&t, 0), ints(&[3, 1, 2]));
}

#[test]
fn sort_of_an_empty_table_is_empty() {
    let mut t = table("a\n", &["a:i64"]);
    let order = sort(&mut t, &names(&["a"])).unwrap();
    assert_eq!(order, Vec::<usize>::new());
    assert_eq!(t.rows, 0);
}

#[test]
fn sort_fails_on_an_unknown_key_and_leaves_the_table() {
    let mut t = table("a,b\n3,1\n1,2\n", &["a:i64", "b:i64"]);
    let r = sort(&mut t, &names(&["a", "ts", "zz"]));
    assert_eq!(r, Err(Error::UnknownColumn { name: b"ts".to_vec() }));
    assert_eq!(cells(&t, 0), ints(&[3, 1]));
    assert_eq!(cells(&t, 1), ints(&[1, 2]));
}

#[test]
fn every_type_is_orderable() {
    assert!(is_orderable(ColumnType::Int32));
    assert!(is_orderable(ColumnType::Int64));
    assert!(is_orderable(ColumnType::Float32));
    assert!(is_orderable(ColumnType::Float64));
    assert!(is_orderable(ColumnType::Boolean));
}

#[test]
fn sort_keeps_the_row_count_and_the_columns() {
    let mut t = table("a,b\n3,1\n1,2\n2,3\n", &["a:i64", "b:i64"]);
    sort(&mut t, &names(&["a"])).unwrap();
    assert_eq!(t.rows, 3);
    assert_eq!(column_names(&t), names(&["a", "b"]));
    assert_eq!(t.columns[0].len(), 3);
    assert_eq!(t.columns[1].len(), 3);
}

#[test]
fn sort_agrees_with_a_stable_sort_on_many_rows() {
    let mut text = String::from("k,j,tag\n");
    let mut keys: Vec<(i64, i64, usize)> = Vec::new();
    let mut state: u64 = 12345;
    for tag in 0..2000usize {
        state = state.wrapping_mul(6364136223846793005).wrapping_add(1442695040888963407);
        let k = ((state >> 33) % 7) as i64 - 3;
        state = state.wrapping_mul(6364136223846793005).wrapping_add(1442695040888963407);
        let j = ((state >> 33) % 5) as i64;
        keys.push((k, j, tag));
        text.push_str(&format!("{},{},{}\n", k, j, tag));
    }
    let mut t = table(&text, &["k:i64", "j:i64", "tag:i64"]);
    let order = sort(&mut t, &names(&["k", "j"])).unwrap();
    keys.sort_by_key(|r| (r.0, r.1));
    let want: Vec<usize> = keys.iter().map(|r| r.2).collect();
    assert_eq!(order, want);
    assert_eq!(cells(&t, 2), want.iter().map(|v| Datum::Int(*v as i64)).collect::<Vec<_>>());
}
