//! The sorter: rows in rising order of the key columns, ties in the
//! order they had.
//!
//! Rows are compared by the first key column in which they differ.  In
//! a column the empty cells come first, then the values in rising
//! order.  Rows that agree in every key column keep the order they had.

use vstd::prelude::*;
use vstd::seq_lib::{lemma_multiset_commutative, to_multiset_build, to_multiset_contains, to_multiset_len};
use crate::bytes::{copy_bytes, views};
use crate::error::{Error, ErrorView};
use crate::project::{column_index, find_column, lemma_column_index};
use crate::schema::ColumnType;
use crate::table::{datum_lt, Column, ColumnView, Datum, Table, TableView};

verus! {

/// Whether the values of a type have an order.  Every type has one.
pub open spec fn orderable(ty: ColumnType) -> bool {
    true
}

/// What is wrong with a sort key, if anything: no column has the name,
/// or the column's type has no order.
pub open spec fn key_problem(columns: Seq<ColumnView>, name: Seq<u8>) -> Option<ErrorView> {
    let c = column_index(columns, name, 0);
    if c >= columns.len() {
        Some(ErrorView::UnknownColumn { name })
    } else if !orderable(columns[c].ty) {
        Some(ErrorView::UnorderableType { name })
    } else {
        None
    }
}

/// The first sort key from `from` on with a problem, or the number of
/// keys.
pub open spec fn first_problem(columns: Seq<ColumnView>, names: Seq<Seq<u8>>, from: int) -> int
    decreases names.len() - from,
{
    if from < 0 || from >= names.len() {
        names.len() as int
    } else if key_problem(columns, names[from]) is Some {
        from
    } else {
        first_problem(columns, names, from + 1)
    }
}

/// The places of the key columns.
pub open spec fn key_columns(columns: Seq<ColumnView>, names: Seq<Seq<u8>>) -> Seq<int> {
    Seq::new(names.len(), |k: int| column_index(columns, names[k], 0))
}

/// The cells of row `i` in the key columns.
pub open spec fn row_key(t: TableView, keys: Seq<int>, i: int) -> Seq<Datum> {
    Seq::new(keys.len(), |k: int| t.columns[keys[k]].cells[i])
}

/// Whether `a` comes before `b`, by the first place from `from` on in
/// which one cell comes before the other.
pub open spec fn key_lt(a: Seq<Datum>, b: Seq<Datum>, from: int) -> bool
    decreases a.len() - from,
{
    if from < 0 || from >= a.len() {
        false
    } else if a[from].lt(b[from]) {
        true
    } else if b[from].lt(a[from]) {
        false
    } else {
        key_lt(a, b, from + 1)
    }
}

/// Whether row `i` has the smaller key.
pub open spec fn row_lt(t: TableView, keys: Seq<int>, i: int, j: int) -> bool {
    key_lt(row_key(t, keys, i), row_key(t, keys, j), 0)
}

/// Whether row `i` belongs before row `j`: it has the smaller key, or
/// the same key and the smaller row number.
pub open spec fn precedes(t: TableView, keys: Seq<int>, i: int, j: int) -> bool {
    row_lt(t, keys, i, j) || (!row_lt(t, keys, j, i) && i < j)
}

/// Whether `o` lists the rows `0..n`, each once, every row before the
/// rows it belongs before.
pub open spec fn is_order(t: TableView, keys: Seq<int>, n: int, o: Seq<int>) -> bool {
    &&& o.len() == n
    &&& forall|a: int| 0 <= a < n ==> 0 <= #[trigger] o[a] < n
    &&& forall|a: int, b: int|
        0 <= a < b < n ==> precedes(t, keys, #[trigger] o[a], #[trigger] o[b])
    &&& forall|r: int| 0 <= r < n ==> #[trigger] o.contains(r)
}

/// Whether `o` is the sorted order of the rows of `t`.
pub open spec fn is_sort_order(t: TableView, keys: Seq<int>, o: Seq<int>) -> bool {
    is_order(t, keys, t.rows as int, o)
}

/// The sorted order of the rows of `t`.
pub open spec fn sort_order(t: TableView, keys: Seq<int>) -> Seq<int> {
    choose|o: Seq<int>| is_sort_order(t, keys, o)
}

/// `t` with its rows in the order `o`: row `k` of the result is row
/// `o[k]` of `t`, in every column.
pub open spec fn permute_table(t: TableView, o: Seq<int>) -> TableView {
    TableView {
        rows: t.rows,
        columns: Seq::new(
            t.columns.len(),
            |j: int|
                ColumnView {
                    cells: Seq::new(o.len(), |k: int| t.columns[j].cells[o[k]]),
                    ..t.columns[j]
                },
        ),
    }
}

/// What sorting yields: the table with its rows in sorted order, or
/// the problem of the first sort key that has one.
pub open spec fn sort_spec(t: TableView, names: Seq<Seq<u8>>) -> Result<TableView, ErrorView> {
    let bad = first_problem(t.columns, names, 0);
    if bad < names.len() {
        Err(key_problem(t.columns, names[bad])->0)
    } else {
        Ok(permute_table(t, sort_order(t, key_columns(t.columns, names))))
    }
}

/// The numbers of a sequence as integers.
pub open spec fn ints(v: Seq<usize>) -> Seq<int> {
    Seq::new(v.len(), |k: int| v[k] as int)
}

/// The order of keys is a strict order, and the relation "does not
/// come after" goes along with it.
pub proof fn lemma_key_order(a: Seq<Datum>, b: Seq<Datum>, c: Seq<Datum>, from: int)
    requires
        a.len() == b.len(),
        b.len() == c.len(),
        0 <= from <= a.len(),
    ensures
        !(key_lt(a, b, from) && key_lt(b, a, from)),
        key_lt(a, b, from) && !key_lt(c, b, from) ==> key_lt(a, c, from),
        !key_lt(b, a, from) && key_lt(b, c, from) ==> key_lt(a, c, from),
        !key_lt(b, a, from) && !key_lt(c, b, from) ==> !key_lt(c, a, from),
    decreases a.len() - from,
{
    if from < a.len() {
        lemma_key_order(a, b, c, from + 1);
    }
}

/// Of two rows at most one belongs before the other, and none before
/// itself.
pub proof fn lemma_precedes_asymmetric(t: TableView, keys: Seq<int>, i: int, j: int)
    ensures
        !(precedes(t, keys, i, j) && precedes(t, keys, j, i)),
{
    lemma_key_order(row_key(t, keys, i), row_key(t, keys, j), row_key(t, keys, i), 0);
}

/// Belonging before is transitive.
pub proof fn lemma_precedes_transitive(t: TableView, keys: Seq<int>, i: int, j: int, k: int)
    requires
        precedes(t, keys, i, j),
        precedes(t, keys, j, k),
    ensures
        precedes(t, keys, i, k),
{
    let a = row_key(t, keys, i);
    let b = row_key(t, keys, j);
    let c = row_key(t, keys, k);
    lemma_key_order(a, b, c, 0);
    lemma_key_order(b, c, b, 0);
    lemma_key_order(a, b, a, 0);
}

/// Not belonging after is transitive.
proof fn lemma_not_after_transitive(t: TableView, keys: Seq<int>, i: int, j: int, k: int)
    requires
        !precedes(t, keys, j, i),
        !precedes(t, keys, k, j),
    ensures
        !precedes(t, keys, k, i),
{
    if precedes(t, keys, k, i) {
        if i != j && j != k {
            lemma_precedes_transitive(t, keys, i, j, k);
            lemma_precedes_asymmetric(t, keys, i, k);
        }
    }
}

/// The first place from `from` on in `o` whose row `x` belongs before,
/// or the length of `o`.
spec fn insert_point(t: TableView, keys: Seq<int>, o: Seq<int>, x: int, from: int) -> int
    decreases o.len() - from,
{
    if from < 0 || from >= o.len() {
        o.len() as int
    } else if precedes(t, keys, x, o[from]) {
        from
    } else {
        insert_point(t, keys, o, x, from + 1)
    }
}

/// `insert_point` is in range, `x` belongs before the row at it, if any,
/// and before no row ahead of it.
proof fn lemma_insert_point(t: TableView, keys: Seq<int>, o: Seq<int>, x: int, from: int)
    requires
        0 <= from <= o.len(),
    ensures
        from <= insert_point(t, keys, o, x, from) <= o.len(),
        insert_point(t, keys, o, x, from) < o.len() ==> precedes(
            t,
            keys,
            x,
            o[insert_point(t, keys, o, x, from)],
        ),
        forall|k: int|
            from <= k < insert_point(t, keys, o, x, from) ==> !precedes(t, keys, x, #[trigger] o[k]),
    decreases o.len() - from,
{
    if from < o.len() && !precedes(t, keys, x, o[from]) {
        lemma_insert_point(t, keys, o, x, from + 1);
    }
}

/// The first `n` rows of a table have a sorted order.
pub proof fn lemma_order_exists(t: TableView, keys: Seq<int>, n: nat) -> (o: Seq<int>)
    ensures
        is_order(t, keys, n as int, o),
    decreases n,
{
    if n == 0 {
        Seq::empty()
    } else {
        let prev = lemma_order_exists(t, keys, (n - 1) as nat);
        let x = n - 1;
        let pos = insert_point(t, keys, prev, x, 0);
        lemma_insert_point(t, keys, prev, x, 0);
        let o = Seq::new(
            n,
            |a: int|
                if a < pos {
                    prev[a]
                } else if a == pos {
                    x
                } else {
                    prev[a - 1]
                },
        );
        assert forall|a: int, b: int| 0 <= a < b < n implies precedes(
            t,
            keys,
            #[trigger] o[a],
            #[trigger] o[b],
        ) by {
            if b < pos {
                assert(precedes(t, keys, prev[a], prev[b]));
            } else if a < pos && b == pos {
                assert(!precedes(t, keys, x, prev[a]));
                assert(prev[a] != x);
            } else if a < pos {
                assert(precedes(t, keys, prev[a], prev[b - 1]));
            } else if a == pos {
                if b - 1 != pos {
                    assert(precedes(t, keys, prev[pos], prev[b - 1]));
                    lemma_precedes_transitive(t, keys, x, prev[pos], prev[b - 1]);
                }
            } else {
                assert(precedes(t, keys, prev[a - 1], prev[b - 1]));
            }
        }
        assert forall|r: int| 0 <= r < n implies #[trigger] o.contains(r) by {
            if r == x {
                assert(o[pos] == r);
            } else {
                assert(prev.contains(r));
                let a = choose|a: int| 0 <= a < prev.len() && prev[a] == r;
                if a < pos {
                    assert(o[a] == r);
                } else {
                    assert(o[a + 1] == r);
                }
            }
        }
        o
    }
}

/// Two sorted orders of the same rows agree at every place.
proof fn lemma_orders_agree(t: TableView, keys: Seq<int>, n: int, p: Seq<int>, q: Seq<int>, k: int)
    requires
        is_order(t, keys, n, p),
        is_order(t, keys, n, q),
        0 <= k < n,
    ensures
        p[k] == q[k],
    decreases k,
{
    assert forall|a: int| 0 <= a < k implies p[a] == q[a] by {
        lemma_orders_agree(t, keys, n, p, q, a);
    }
    let r = p[k];
    assert(q.contains(r));
    let b = choose|b: int| 0 <= b < q.len() && q[b] == r;
    if b < k {
        assert(precedes(t, keys, p[b], p[k]));
        lemma_precedes_asymmetric(t, keys, r, r);
    } else if b > k {
        let x = q[k];
        assert(p.contains(x));
        let c = choose|c: int| 0 <= c < p.len() && p[c] == x;
        assert(precedes(t, keys, q[k], q[b]));
        if c < k {
            assert(precedes(t, keys, q[c], q[k]));
            lemma_precedes_asymmetric(t, keys, x, x);
        } else if c == k {
            lemma_precedes_asymmetric(t, keys, r, r);
        } else {
            assert(precedes(t, keys, p[k], p[c]));
            lemma_precedes_asymmetric(t, keys, r, x);
        }
    }
}

/// A table has one sorted order and no other.
pub proof fn lemma_sort_order_unique(t: TableView, keys: Seq<int>, p: Seq<int>, q: Seq<int>)
    requires
        is_sort_order(t, keys, p),
        is_sort_order(t, keys, q),
    ensures
        p == q,
{
    assert forall|k: int| 0 <= k < p.len() implies p[k] == q[k] by {
        lemma_orders_agree(t, keys, t.rows as int, p, q, k);
    }
    assert(p =~= q);
}

/// Every table has a sorted order, and `sort_order` is it.
pub proof fn lemma_sort_order(t: TableView, keys: Seq<int>)
    ensures
        is_sort_order(t, keys, sort_order(t, keys)),
{
    let o = lemma_order_exists(t, keys, t.rows);
    assert(is_sort_order(t, keys, o));
}

/// `first_problem` is in range, every key before it is the name of a
/// column with an order, and the key at it, if any, has a problem.
pub proof fn lemma_first_problem(columns: Seq<ColumnView>, names: Seq<Seq<u8>>, from: int)
    requires
        0 <= from <= names.len(),
    ensures
        from <= first_problem(columns, names, from) <= names.len(),
        first_problem(columns, names, from) < names.len() ==> key_problem(
            columns,
            names[first_problem(columns, names, from)],
        ) is Some,
        forall|k: int|
            from <= k < first_problem(columns, names, from) ==> 0 <= column_index(
                columns,
                #[trigger] names[k],
                0,
            ) < columns.len(),
    decreases names.len() - from,
{
    if from < names.len() && key_problem(columns, names[from]) is None {
        lemma_column_index(columns, names[from], 0);
        lemma_first_problem(columns, names, from + 1);
    }
}

/// Columns with the same names in the same places are found alike.
proof fn lemma_column_index_by_names(a: Seq<ColumnView>, b: Seq<ColumnView>, name: Seq<u8>, from: int)
    requires
        a.len() == b.len(),
        forall|j: int| 0 <= j < a.len() ==> (#[trigger] a[j]).name == b[j].name,
    ensures
        column_index(a, name, from) == column_index(b, name, from),
    decreases a.len() - from,
{
    if 0 <= from < a.len() {
        assert(a[from].name == b[from].name);
        lemma_column_index_by_names(a, b, name, from + 1);
    }
}

/// Columns with the same names and types in the same places have the
/// same first problem.
proof fn lemma_first_problem_by_names(
    a: Seq<ColumnView>,
    b: Seq<ColumnView>,
    names: Seq<Seq<u8>>,
    from: int,
)
    requires
        a.len() == b.len(),
        forall|j: int|
            0 <= j < a.len() ==> (#[trigger] a[j]).name == b[j].name && a[j].ty == b[j].ty,
    ensures
        first_problem(a, names, from) == first_problem(b, names, from),
        from >= 0 && first_problem(a, names, from) < names.len() ==> key_problem(
            a,
            names[first_problem(a, names, from)],
        ) == key_problem(b, names[first_problem(a, names, from)]),
    decreases names.len() - from,
{
    if 0 <= from < names.len() {
        lemma_column_index_by_names(a, b, names[from], 0);
        lemma_column_index(a, names[from], 0);
        lemma_first_problem_by_names(a, b, names, from + 1);
    }
}

/// Stability: of two rows with the same key, the one that came first
/// in the table comes first in the sorted order.
pub proof fn lemma_sort_stable(t: TableView, keys: Seq<int>, o: Seq<int>, a: int, b: int)
    requires
        is_sort_order(t, keys, o),
        0 <= a < t.rows,
        0 <= b < t.rows,
        o[a] < o[b],
        !row_lt(t, keys, o[a], o[b]),
        !row_lt(t, keys, o[b], o[a]),
    ensures
        a < b,
{
    if b < a {
        assert(precedes(t, keys, o[b], o[a]));
    }
}

/// The rows of a table in sorted order are in sorted order as they
/// stand.
pub proof fn lemma_sorted_stays(t: TableView, keys: Seq<int>, o: Seq<int>)
    requires
        is_sort_order(t, keys, o),
        forall|k: int| 0 <= k < keys.len() ==> 0 <= #[trigger] keys[k] < t.columns.len(),
    ensures
        is_sort_order(permute_table(t, o), keys, Seq::new(t.rows, |k: int| k)),
        permute_table(permute_table(t, o), Seq::new(t.rows, |k: int| k)) == permute_table(t, o),
{
    let t1 = permute_table(t, o);
    let id = Seq::new(t.rows, |k: int| k);
    assert forall|a: int, b: int| 0 <= a < b < t.rows implies precedes(
        t1,
        keys,
        #[trigger] id[a],
        #[trigger] id[b],
    ) by {
        assert(row_key(t1, keys, a) =~= row_key(t, keys, o[a]));
        assert(row_key(t1, keys, b) =~= row_key(t, keys, o[b]));
        assert(precedes(t, keys, o[a], o[b]));
    }
    assert forall|r: int| 0 <= r < t.rows implies #[trigger] id.contains(r) by {
        assert(id[r] == r);
    }
    let t2 = permute_table(t1, id);
    assert forall|j: int| 0 <= j < t1.columns.len() implies t2.columns[j] == t1.columns[j] by {
        assert(t2.columns[j].cells =~= t1.columns[j].cells);
    }
    assert(t2.columns =~= t1.columns);
}

/// Sorting is idempotent: sorting a sorted table by the same keys
/// leaves it as it is.
pub proof fn lemma_sort_idempotent(t: TableView, names: Seq<Seq<u8>>)
    requires
        sort_spec(t, names) is Ok,
    ensures
        sort_spec(sort_spec(t, names)->Ok_0, names) == sort_spec(t, names),
{
    let keys = key_columns(t.columns, names);
    let o = sort_order(t, keys);
    let t1 = permute_table(t, o);
    lemma_sort_order(t, keys);
    lemma_first_problem(t.columns, names, 0);
    lemma_first_problem_by_names(t.columns, t1.columns, names, 0);
    assert forall|k: int| 0 <= k < names.len() implies column_index(t1.columns, names[k], 0)
        == column_index(t.columns, names[k], 0) by {
        lemma_column_index_by_names(t.columns, t1.columns, names[k], 0);
    }
    assert(key_columns(t1.columns, names) =~= keys);
    assert forall|k: int| 0 <= k < keys.len() implies 0 <= #[trigger] keys[k]
        < t.columns.len() by {
        assert(keys[k] == column_index(t.columns, names[k], 0));
    }
    lemma_sorted_stays(t, keys, o);
    lemma_sort_order(t1, keys);
    lemma_sort_order_unique(t1, keys, sort_order(t1, keys), Seq::new(t.rows, |k: int| k));
}

/// Sorting keeps the number of rows, the columns and the row-count
/// invariant.
pub proof fn lemma_sort_keeps_rows(t: TableView, names: Seq<Seq<u8>>)
    requires
        t.wf(),
    ensures
        sort_spec(t, names) matches Ok(r) ==> r.rows == t.rows && r.columns.len()
            == t.columns.len() && r.wf(),
{
    lemma_sort_order(t, key_columns(t.columns, names));
}

/// Whether the type of a sort key has an order.
pub fn is_orderable(ty: ColumnType) -> (r: bool)
    ensures
        r == orderable(ty),
{
    match ty {
        ColumnType::Int32 => true,
        ColumnType::Int64 => true,
        ColumnType::Float32 => true,
        ColumnType::Float64 => true,
        ColumnType::Boolean => true,
    }
}

/// The places of the key columns, or the problem of the first key that
/// has one.
fn resolve_keys(table: &Table, names: &Vec<Vec<u8>>) -> (r: Result<Vec<usize>, Error>)
    ensures
        match r {
            Ok(keys) => {
                &&& first_problem(table@.columns, views(names@), 0) == names@.len()
                &&& ints(keys@) == key_columns(table@.columns, views(names@))
                &&& forall|k: int| 0 <= k < keys@.len() ==> (#[trigger] keys@[k]) < table@.columns.len()
            },
            Err(e) => {
                let bad = first_problem(table@.columns, views(names@), 0);
                bad < names@.len() && Some(e@) == key_problem(table@.columns, views(names@)[bad])
            },
        },
{
    let ghost nv = views(names@);
    let mut keys: Vec<usize> = Vec::new();
    let mut k: usize = 0;
    while k < names.len()
        invariant
            k <= names@.len(),
            nv == views(names@),
            keys@.len() == k,
            first_problem(table@.columns, nv, 0) == first_problem(table@.columns, nv, k as int),
            forall|q: int|
                0 <= q < k ==> (#[trigger] keys@[q]) == column_index(table@.columns, nv[q], 0)
                    && keys@[q] < table@.columns.len(),
        decreases names@.len() - k,
    {
        proof {
            assert(nv[k as int] == names@[k as int]@);
        }
        let c = find_column(table, names[k].as_slice());
        if c >= table.columns.len() {
            return Err(Error::UnknownColumn { name: copy_bytes(names[k].as_slice()) });
        }
        proof {
            assert(table@.columns[c as int] == table.columns@[c as int]@);
        }
        if !is_orderable(table.columns[c].column_type()) {
            return Err(Error::UnorderableType { name: copy_bytes(names[k].as_slice()) });
        }
        keys.push(c);
        k += 1;
    }
    proof {
        assert(ints(keys@) =~= key_columns(table@.columns, nv));
    }
    Ok(keys)
}

/// Whether every entry is the number of a row of a table of `n` rows.
pub open spec fn rows_ok(s: Seq<usize>, n: int) -> bool {
    forall|a: int| 0 <= a < s.len() ==> (#[trigger] s[a]) < n
}

/// Whether no entry belongs before an earlier one.
pub open spec fn sorted(t: TableView, keys: Seq<int>, s: Seq<usize>) -> bool {
    forall|a: int, b: int|
        0 <= a < b < s.len() ==> !precedes(t, keys, (#[trigger] s[b]) as int, (#[trigger] s[a]) as int)
}

/// Whether row `i` has the smaller key.
fn row_less(table: &Table, keys: &Vec<usize>, i: usize, j: usize) -> (r: bool)
    requires
        table.wf(),
        forall|k: int| 0 <= k < keys@.len() ==> (#[trigger] keys@[k]) < table@.columns.len(),
        i < table.rows,
        j < table.rows,
    ensures
        r == row_lt(table@, ints(keys@), i as int, j as int),
{
    let ghost a = row_key(table@, ints(keys@), i as int);
    let ghost b = row_key(table@, ints(keys@), j as int);
    let mut k: usize = 0;
    while k < keys.len()
        invariant
            k <= keys@.len(),
            table.wf(),
            forall|q: int| 0 <= q < keys@.len() ==> (#[trigger] keys@[q]) < table@.columns.len(),
            i < table.rows,
            j < table.rows,
            a == row_key(table@, ints(keys@), i as int),
            b == row_key(table@, ints(keys@), j as int),
            key_lt(a, b, 0) == key_lt(a, b, k as int),
        decreases keys@.len() - k,
    {
        let c = &table.columns[keys[k]];
        proof {
            assert(table@.columns[keys@[k as int] as int] == c@);
            assert(c.wf() && c.valid@.len() == table.rows);
            assert(a[k as int] == c@.cells[i as int]);
            assert(b[k as int] == c@.cells[j as int]);
        }
        let x = c.get(i);
        let y = c.get(j);
        if datum_lt(x, y) {
            return true;
        }
        if datum_lt(y, x) {
            return false;
        }
        k += 1;
    }
    false
}

/// Whether row `i` belongs before row `j`.
fn row_precedes(table: &Table, keys: &Vec<usize>, i: usize, j: usize) -> (r: bool)
    requires
        table.wf(),
        forall|k: int| 0 <= k < keys@.len() ==> (#[trigger] keys@[k]) < table@.columns.len(),
        i < table.rows,
        j < table.rows,
    ensures
        r == precedes(table@, ints(keys@), i as int, j as int),
{
    if row_less(table, keys, i, j) {
        true
    } else if row_less(table, keys, j, i) {
        false
    } else {
        i < j
    }
}

/// Merges two sorted lists of rows into one.
fn merge(table: &Table, keys: &Vec<usize>, left: &Vec<usize>, right: &Vec<usize>) -> (out: Vec<
    usize,
>)
    requires
        table.wf(),
        forall|k: int| 0 <= k < keys@.len() ==> (#[trigger] keys@[k]) < table@.columns.len(),
        rows_ok(left@, table.rows as int),
        rows_ok(right@, table.rows as int),
        sorted(table@, ints(keys@), left@),
        sorted(table@, ints(keys@), right@),
        left@.len() + right@.len() <= usize::MAX,
    ensures
        out@.to_multiset() == left@.to_multiset().add(right@.to_multiset()),
        out@.len() == left@.len() + right@.len(),
        rows_ok(out@, table.rows as int),
        sorted(table@, ints(keys@), out@),
{
    let ghost t = table@;
    let ghost ks = ints(keys@);
    let mut out: Vec<usize> = Vec::new();
    let mut i: usize = 0;
    let mut j: usize = 0;
    proof {
        let none = Seq::<usize>::empty();
        assert(left@.subrange(0, 0) =~= none);
        assert(right@.subrange(0, 0) =~= none);
        assert(out@ =~= none);
        assert(none + none =~= none);
        lemma_multiset_commutative(none, none);
    }
    while i < left.len() || j < right.len()
        invariant
            i <= left@.len(),
            j <= right@.len(),
            t == table@,
            ks == ints(keys@),
            table.wf(),
            forall|k: int| 0 <= k < keys@.len() ==> (#[trigger] keys@[k]) < table@.columns.len(),
            rows_ok(left@, table.rows as int),
            rows_ok(right@, table.rows as int),
            sorted(t, ks, left@),
            sorted(t, ks, right@),
            left@.len() + right@.len() <= usize::MAX,
            out@.len() == i + j,
            out@.to_multiset() == left@.subrange(0, i as int).to_multiset().add(
                right@.subrange(0, j as int).to_multiset(),
            ),
            rows_ok(out@, table.rows as int),
            sorted(t, ks, out@),
            out@.len() > 0 && i < left@.len() ==> !precedes(
                t,
                ks,
                left@[i as int] as int,
                out@.last() as int,
            ),
            out@.len() > 0 && j < right@.len() ==> !precedes(
                t,
                ks,
                right@[j as int] as int,
                out@.last() as int,
            ),
        decreases left@.len() - i + (right@.len() - j),
    {
        let take_left = if i >= left.len() {
            false
        } else if j >= right.len() {
            true
        } else {
            !row_precedes(table, keys, right[j], left[i])
        };
        let ghost before = out@;
        let x: usize = if take_left {
            left[i]
        } else {
            right[j]
        };
        proof {
            to_multiset_build(before, x);
            if take_left {
                assert(left@.subrange(0, i + 1) =~= left@.subrange(0, i as int).push(x));
                to_multiset_build(left@.subrange(0, i as int), x);
            } else {
                assert(right@.subrange(0, j + 1) =~= right@.subrange(0, j as int).push(x));
                to_multiset_build(right@.subrange(0, j as int), x);
                if i < left@.len() {
                    lemma_precedes_asymmetric(t, ks, x as int, left@[i as int] as int);
                }
            }
            assert forall|a: int, b: int| 0 <= a < b < before.len() + 1 implies !precedes(
                t,
                ks,
                (#[trigger] before.push(x)[b]) as int,
                (#[trigger] before.push(x)[a]) as int,
            ) by {
                if b < before.len() {
                    assert(!precedes(t, ks, before[b] as int, before[a] as int));
                } else if a < before.len() - 1 {
                    assert(!precedes(t, ks, before.last() as int, before[a] as int));
                    lemma_not_after_transitive(
                        t,
                        ks,
                        before[a] as int,
                        before.last() as int,
                        x as int,
                    );
                }
            }
            lemma_precedes_asymmetric(t, ks, x as int, x as int);
        }
        out.push(x);
        if take_left {
            i += 1;
        } else {
            j += 1;
        }
        proof {
            assert(out@.to_multiset() =~= left@.subrange(0, i as int).to_multiset().add(
                right@.subrange(0, j as int).to_multiset(),
            ));
        }
    }
    proof {
        assert(left@.subrange(0, i as int) =~= left@);
        assert(right@.subrange(0, j as int) =~= right@);
    }
    out
}

/// Sorts the rows `v[lo..hi]`.
fn merge_sort(table: &Table, keys: &Vec<usize>, v: &Vec<usize>, lo: usize, hi: usize) -> (out: Vec<
    usize,
>)
    requires
        table.wf(),
        forall|k: int| 0 <= k < keys@.len() ==> (#[trigger] keys@[k]) < table@.columns.len(),
        rows_ok(v@, table.rows as int),
        lo <= hi <= v@.len(),
    ensures
        out@.to_multiset() == v@.subrange(lo as int, hi as int).to_multiset(),
        out@.len() == hi - lo,
        rows_ok(out@, table.rows as int),
        sorted(table@, ints(keys@), out@),
    decreases hi - lo,
{
    if hi - lo == 0 {
        let out: Vec<usize> = Vec::new();
        proof {
            assert(out@ =~= v@.subrange(lo as int, hi as int));
        }
        out
    } else if hi - lo == 1 {
        let mut out: Vec<usize> = Vec::new();
        out.push(v[lo]);
        proof {
            assert(out@ =~= v@.subrange(lo as int, hi as int));
        }
        out
    } else {
        let mid: usize = lo + (hi - lo) / 2;
        let left = merge_sort(table, keys, v, lo, mid);
        let right = merge_sort(table, keys, v, mid, hi);
        proof {
            let a = v@.subrange(lo as int, mid as int);
            let b = v@.subrange(mid as int, hi as int);
            assert(v@.subrange(lo as int, hi as int) =~= a + b);
            lemma_multiset_commutative(a, b);
        }
        merge(table, keys, &left, &right)
    }
}

/// A sorted list with the entries of `0..n` is the sorted order.
proof fn lemma_sorted_is_order(t: TableView, keys: Seq<int>, n: int, iota: Seq<usize>, order: Seq<
    usize,
>)
    requires
        iota.len() == n,
        forall|a: int| 0 <= a < n ==> (#[trigger] iota[a]) == a,
        order.to_multiset() == iota.to_multiset(),
        sorted(t, keys, order),
    ensures
        is_order(t, keys, n, ints(order)),
{
    let o = ints(order);
    to_multiset_len(iota);
    to_multiset_len(order);
    assert(iota.no_duplicates());
    iota.lemma_multiset_has_no_duplicates();
    order.lemma_multiset_has_no_duplicates_conv();
    assert forall|a: int| 0 <= a < n implies 0 <= #[trigger] o[a] < n by {
        let x = order[a];
        assert(order.contains(x));
        to_multiset_contains(order, x);
        to_multiset_contains(iota, x);
        let b = choose|b: int| 0 <= b < iota.len() && iota[b] == x;
        assert(iota[b] == b);
    }
    assert forall|a: int, b: int| 0 <= a < b < n implies precedes(
        t,
        keys,
        #[trigger] o[a],
        #[trigger] o[b],
    ) by {
        assert(!precedes(t, keys, order[b] as int, order[a] as int));
        assert(order[a] != order[b]);
    }
    assert forall|r: int| 0 <= r < n implies #[trigger] o.contains(r) by {
        let x = r as usize;
        assert(iota[r] == x);
        assert(iota.contains(x));
        to_multiset_contains(iota, x);
        to_multiset_contains(order, x);
        let a = choose|a: int| 0 <= a < order.len() && order[a] == x;
        assert(o[a] == r);
    }
}

/// Sorts the rows of `table` by the key columns called `names`, the
/// first name counting most.
///
/// On success the rows stand in the one sorted order, which is
/// returned: row `k` of the table is now the row that was row
/// `order[k]`.  No row is added or lost, and rows with the same key
/// keep their order.  When a sort key has a problem, the first such
/// problem is reported and the table is left as it was.
pub fn sort(table: &mut Table, names: &Vec<Vec<u8>>) -> (r: Result<Vec<usize>, Error>)
    requires
        old(table).wf(),
    ensures
        final(table).wf(),
        match r {
            Ok(order) => {
                &&& is_sort_order(
                    old(table)@,
                    key_columns(old(table)@.columns, views(names@)),
                    ints(order@),
                )
                &&& final(table)@ == permute_table(old(table)@, ints(order@))
                &&& sort_spec(old(table)@, views(names@)) == Ok::<TableView, ErrorView>(
                    final(table)@,
                )
            },
            Err(e) => {
                &&& sort_spec(old(table)@, views(names@)) == Err::<TableView, ErrorView>(e@)
                &&& final(table)@ == old(table)@
            },
        },
{
    let keys = match resolve_keys(table, names) {
        Ok(keys) => keys,
        Err(e) => {
            return Err(e);
        },
    };
    let ghost t = table@;
    let ghost ks = ints(keys@);
    let n = table.rows;
    let mut iota: Vec<usize> = Vec::new();
    let mut r: usize = 0;
    while r < n
        invariant
            r <= n,
            iota@.len() == r,
            forall|a: int| 0 <= a < r ==> (#[trigger] iota@[a]) == a,
        decreases n - r,
    {
        iota.push(r);
        r += 1;
    }
    let order = merge_sort(table, &keys, &iota, 0, n);
    proof {
        assert(iota@.subrange(0, n as int) =~= iota@);
        lemma_sorted_is_order(t, ks, n as int, iota@, order@);
        lemma_sort_order(t, ks);
        lemma_sort_order_unique(t, ks, ints(order@), sort_order(t, ks));
    }
    let mut columns: Vec<Column> = Vec::new();
    let mut j: usize = 0;
    while j < table.columns.len()
        invariant
            j <= table.columns@.len(),
            *table == *old(table),
            t == table@,
            table.wf(),
            n == table.rows,
            order@.len() == n,
            rows_ok(order@, n as int),
            columns@.len() == j,
            forall|q: int|
                0 <= q < j ==> (#[trigger] columns@[q]).wf() && columns@[q].valid@.len() == n
                    && columns@[q]@ == permute_table(t, ints(order@)).columns[q],
        decreases table.columns@.len() - j,
    {
        let c = &table.columns[j];
        proof {
            assert(c.wf() && c.valid@.len() == n);
            assert(t.columns[j as int] == c@);
        }
        let d = c.permuted(&order);
        proof {
            assert(d@.cells =~= permute_table(t, ints(order@)).columns[j as int].cells);
            assert(d@.cells.len() == d.valid@.len());
        }
        columns.push(d);
        j += 1;
    }
    table.columns = columns;
    proof {
        assert(table@.columns =~= permute_table(t, ints(order@)).columns);
    }
    Ok(order)
}

} // verus!
